//! Turning the screen of the terminal emulator into plain text.
//!
//! A command's output is replayed through Alacritty's terminal emulator;
//! what is left on its screen, cell by cell, is read back here row by row.

use alacritty_terminal::event::VoidListener;
use alacritty_terminal::term::test::TermSize;
use alacritty_terminal::term::Config;
use alacritty_terminal::vte::ansi::{Processor, StdSyncHandler};
use alacritty_terminal::Term;
use vstd::arithmetic::div_mod::{
    lemma_fundamental_div_mod, lemma_fundamental_div_mod_converse_div,
    lemma_fundamental_div_mod_converse_mod, lemma_mod_pos_bound,
};
use vstd::prelude::*;
use vstd::slice::slice_subrange;
use vstd::utf8::*;

use crate::text::{
    is_white_space, lemma_trim_end_shape, lemma_trim_start_shape, str_chars, str_from_utf8,
    string_from_chars, trim,
    trim_end, trim_end_len, trim_start, trim_start_len,
};

verus! {

/// The number of columns that `UnicodeWidthChar::width` gives `c`: what
/// the emulator's `Term::input` asks to place a printed character.
pub uninterp spec fn char_columns(c: char) -> Option<usize>;

/// The columns the emulator gives the character `c`.
///
/// Trusted: calls `unicode_width::UnicodeWidthChar::width`, the function that
/// `alacritty_terminal::Term::input` calls for every printed character. The
/// contract names the result; the width tables are not restated.
#[verifier::external_body]
fn char_width(c: char) -> (w: Option<usize>)
    ensures
        w == char_columns(c),
{
    unicode_width::UnicodeWidthChar::width(c)
}

/// The bytes of `segment` from `i` on, `k` of them, are the UTF-8 encoding
/// of a single character.
pub open spec fn encodes_char_at(segment: Seq<u8>, i: int, k: int) -> bool {
    &&& 0 <= i
    &&& 1 <= k <= 4
    &&& i + k <= segment.len()
    &&& valid_utf8(segment.subrange(i, i + k))
    &&& decode_utf8(segment.subrange(i, i + k)).len() == 1
}

/// No character that the emulator can print from `segment` takes two
/// columns. The parser prints only characters whose UTF-8 encoding stands
/// in the bytes, and the replacement character `U+FFFD` for bytes that are
/// not UTF-8; this asks it of all of them.
pub open spec fn prints_no_wide_char(segment: Seq<u8>) -> bool {
    &&& char_columns('\u{FFFD}') != Some(2usize)
    &&& forall|i: int, k: int|
        #[trigger] encodes_char_at(segment, i, k) ==> char_columns(
            decode_utf8(segment.subrange(i, i + k))[0],
        ) != Some(2usize)
}

/// The replays the emulator carries out without panicking: a screen of at
/// least one line and one column. On a single column a character two
/// columns wide does not fit (the emulator then writes the second half of
/// it past the end of the row), so there `segment` must print none.
/// Memory for the cells is the machine's limit, not a bound here.
pub open spec fn replayable(segment: Seq<u8>, columns: usize, lines: usize) -> bool {
    &&& 1 <= lines
    &&& 1 <= columns
    &&& (2 <= columns || prints_no_wide_char(segment))
}

/// Whether `columns` is `Some(2)`.
fn is_two(columns: Option<usize>) -> (b: bool)
    ensures
        b == (columns == Some(2usize)),
{
    match columns {
        Some(n) => n == 2,
        None => false,
    }
}

/// Whether no character that `segment` can print takes two columns.
pub fn prints_no_wide(segment: &[u8]) -> (b: bool)
    ensures
        b == prints_no_wide_char(segment@),
{
    if is_two(char_width('\u{FFFD}')) {
        return false;
    }
    let n = segment.len();
    let mut i: usize = 0;
    while i < n
        invariant
            n == segment@.len(),
            i <= n,
            char_columns('\u{FFFD}') != Some(2usize),
            forall|a: int, k: int|
                0 <= a < i && #[trigger] encodes_char_at(segment@, a, k) ==> char_columns(
                    decode_utf8(segment@.subrange(a, a + k))[0],
                ) != Some(2usize),
        decreases n - i,
    {
        let mut k: usize = 1;
        while k <= 4 && k <= n - i
            invariant
                n == segment@.len(),
                i < n,
                1 <= k <= 5,
                forall|m: int|
                    1 <= m < k && #[trigger] encodes_char_at(segment@, i as int, m) ==> char_columns(
                        decode_utf8(segment@.subrange(i as int, i + m))[0],
                    ) != Some(2usize),
            decreases 5 - k,
        {
            let sub = slice_subrange(segment, i, i + k);
            if let Some(text) = str_from_utf8(sub) {
                let chars = str_chars(text);
                if chars.len() == 1 && is_two(char_width(chars[0])) {
                    assert(encodes_char_at(segment@, i as int, k as int));
                    return false;
                }
            }
            k = k + 1;
        }
        assert forall|a: int, m: int|
            0 <= a < i + 1 && #[trigger] encodes_char_at(segment@, a, m) implies char_columns(
                decode_utf8(segment@.subrange(a, a + m))[0],
            ) != Some(2usize) by {
            if a == i {
                assert(m < k);
            }
        }
        i = i + 1;
    }
    true
}

/// Whether the emulator can replay `segment` on a `columns` × `lines`
/// screen.
pub fn can_replay(segment: &[u8], columns: usize, lines: usize) -> (b: bool)
    ensures
        b == replayable(segment@, columns, lines),
{
    1 <= lines && 1 <= columns && (2 <= columns || prints_no_wide(segment))
}

/// The visible cells, as (line, character) in display order, of a fresh
/// emulator with `columns` × `lines` cells after it has processed `segment`.
pub uninterp spec fn screen_cells(segment: Seq<u8>, columns: usize, lines: usize) -> Seq<(i32, char)>;

/// Replays `segment` on a fresh terminal and reads its visible cells.
///
/// Trusted: builds an `alacritty_terminal::Term` of the given size with the
/// default configuration, feeds the bytes through `vte::ansi::Processor::advance`,
/// and lists `Grid::display_iter` as (line, character) pairs. The contract
/// names the result, and states one fact of it that the source shows: no
/// cell holds a line break. A cell's character is only ever set to a
/// printed character (the VTE parser executes C0 and C1 controls instead of
/// printing them), to `E` by DECALN, to a tab by a tab stop, or to the blank
/// of a cleared cell. It also states how the cells come: the screen's
/// lines from the top, each with all its columns (`display_iter` at display
/// offset 0, which processing output never moves), for line numbers that
/// `i32` holds. The emulator's semantics are not restated otherwise.
/// The emulator indexes out of its grid with no column or line, and when a
/// character that `UnicodeWidthChar::width` makes two columns wide is
/// printed on a single column, hence the requirement. The characters it
/// prints are those that the VTE parser decodes from UTF-8 in the bytes,
/// the replacement character for bytes that are not UTF-8, and repeats of
/// a character printed before; `Term::input` asks the width of each before
/// it places it.
#[verifier::external_body]
fn emulate_screen(segment: &[u8], columns: usize, lines: usize) -> (cells: Vec<(i32, char)>)
    requires
        replayable(segment@, columns, lines),
    ensures
        cells@ == screen_cells(segment@, columns, lines),
        forall|k: int| 0 <= k < cells@.len() ==> (#[trigger] cells@[k]).1 != '\n',
        lines <= i32::MAX ==> row_major(cells@, columns, lines),
{
    let size = TermSize::new(columns, lines);
    let mut term: Term<VoidListener> = Term::new(Config::default(), &size, VoidListener);
    let mut processor: Processor<StdSyncHandler> = Processor::new();
    processor.advance(&mut term, segment);
    term.grid().display_iter().map(|cell| (cell.point.line.0, cell.c)).collect()
}

/// The cells of a `columns` × `lines` screen, line by line from the top:
/// cell `k` is on line `k / columns`.
pub open spec fn row_major(cells: Seq<(i32, char)>, columns: usize, lines: usize) -> bool {
    &&& cells.len() == columns * lines
    &&& forall|k: int| 0 <= k < cells.len() ==> (#[trigger] cells[k]).0 == k / (columns as int)
}

/// The text buffer after reading `cells`, and the line of the last cell
/// read: each cell's character is appended; when a cell starts a new line,
/// trailing whitespace is dropped from the buffer and a newline is added.
pub open spec fn read_cells(cells: Seq<(i32, char)>) -> (Seq<char>, Option<i32>)
    decreases cells.len(),
{
    if cells.len() == 0 {
        (seq![], None)
    } else {
        let before = read_cells(cells.drop_last());
        let cell = cells.last();
        let buffer = if before.1 is Some && before.1 != Some(cell.0) {
            trim_end(before.0).push('\n')
        } else {
            before.0
        };
        (buffer.push(cell.1), Some(cell.0))
    }
}

/// The plain text of a screen: its rows, each without trailing whitespace,
/// joined by newlines, with surrounding whitespace removed.
pub open spec fn screen_text(cells: Seq<(i32, char)>) -> Seq<char> {
    trim(read_cells(cells).0)
}

/// The plain text of the visible `cells` of a screen.
pub fn cells_text(cells: &Vec<(i32, char)>) -> (text: String)
    ensures
        text@ == screen_text(cells@),
{
    let mut buffer: Vec<char> = Vec::new();
    let mut current_row: Option<i32> = None;
    let mut i: usize = 0;
    assert(cells@.take(0) =~= Seq::<(i32, char)>::empty());
    while i < cells.len()
        invariant
            i <= cells.len(),
            (buffer@, current_row) == read_cells(cells@.take(i as int)),
        decreases cells.len() - i,
    {
        let (line, c) = cells[i];
        assert(cells@.take(i + 1).drop_last() =~= cells@.take(i as int));
        let new_row = match current_row {
            Some(row) => row != line,
            None => false,
        };
        if new_row {
            let k = trim_end_len(&buffer);
            buffer.truncate(k);
            buffer.push('\n');
        }
        buffer.push(c);
        current_row = Some(line);
        i = i + 1;
    }
    assert(cells@.take(cells.len() as int) =~= cells@);
    let end = trim_end_len(&buffer);
    buffer.truncate(end);
    let start = trim_start_len(&buffer);
    let mut trimmed: Vec<char> = Vec::new();
    let mut j = start;
    while j < buffer.len()
        invariant
            start <= j <= buffer.len(),
            trimmed@ == buffer@.subrange(start as int, j as int),
        decreases buffer.len() - j,
    {
        trimmed.push(buffer[j]);
        j = j + 1;
        assert(trimmed@ =~= buffer@.subrange(start as int, j as int));
    }
    assert(trimmed@ =~= buffer@.skip(start as int));
    string_from_chars(&trimmed)
}

/// The text that `segment` leaves on the screen of a fresh terminal of
/// `columns` × `lines` cells.
pub fn render_segment(segment: &[u8], columns: usize, lines: usize) -> (text: String)
    requires
        replayable(segment@, columns, lines),
    ensures
        text@ == screen_text(screen_cells(segment@, columns, lines)),
        tidy_text(text@),
        lines <= i32::MAX ==> fits_screen(text@, columns, lines),
        lines <= i32::MAX ==> text@ == rows_text(
            screen_rows(screen_cells(segment@, columns, lines), columns, lines),
        ),
{
    let cells = emulate_screen(segment, columns, lines);
    proof {
        law_screen_text_is_tidy(cells@);
        if lines <= i32::MAX {
            law_screen_text_fits_screen(cells@, columns, lines);
            law_screen_text_is_its_rows(cells@, columns, lines);
        }
    }
    cells_text(&cells)
}

/// Every line break in `t` follows a character other than whitespace.
pub open spec fn breaks_follow_text(t: Seq<char>) -> bool {
    forall|i: int| 0 <= i < t.len() && t[i] == '\n' ==> i == 0 || !is_white_space(#[trigger] t[i - 1])
}

/// `t` has no surrounding whitespace, no blank line and no line that ends
/// in whitespace.
pub open spec fn tidy_text(t: Seq<char>) -> bool {
    &&& t.len() > 0 ==> !is_white_space(t[0]) && !is_white_space(t.last())
    &&& forall|i: int|
        0 <= i < t.len() && #[trigger] t[i] == '\n' ==> i > 0 && !is_white_space(t[i - 1])
}

/// No cell of `cells` holds a line break.
pub open spec fn cells_hold_no_break(cells: Seq<(i32, char)>) -> bool {
    forall|i: int| 0 <= i < cells.len() ==> (#[trigger] cells[i]).1 != '\n'
}

proof fn lemma_read_cells_breaks(cells: Seq<(i32, char)>)
    requires
        cells_hold_no_break(cells),
    ensures
        breaks_follow_text(read_cells(cells).0),
    decreases cells.len(),
{
    if cells.len() > 0 {
        let rest = cells.drop_last();
        assert(cells_hold_no_break(rest)) by {
            assert forall|i: int| 0 <= i < rest.len() implies (#[trigger] rest[i]).1 != '\n' by {
                assert(rest[i] == cells[i]);
            }
        }
        lemma_read_cells_breaks(rest);
        let before = read_cells(rest);
        let cell = cells.last();
        assert(cell == cells[cells.len() - 1]);
        lemma_trim_end_shape(before.0);
        let t = trim_end(before.0);
        let buffer = if before.1 is Some && before.1 != Some(cell.0) {
            t.push('\n')
        } else {
            before.0
        };
        let result = buffer.push(cell.1);
        assert(result == read_cells(cells).0);
        assert forall|i: int| 0 <= i < result.len() && result[i] == '\n' implies i == 0
            || !is_white_space(#[trigger] result[i - 1]) by {
            if i < t.len() {
                assert(result[i] == before.0[i]);
                if i > 0 {
                    assert(result[i - 1] == before.0[i - 1]);
                }
            } else if i < before.0.len() && buffer == before.0 {
                assert(result[i] == before.0[i]);
                if i > 0 {
                    assert(result[i - 1] == before.0[i - 1]);
                }
            }
        }
    }
}

/// The text of a screen is tidy: it has no surrounding whitespace, no
/// blank line, and no line that ends in whitespace — as long as no cell
/// holds a line break itself.
pub proof fn law_screen_text_is_tidy(cells: Seq<(i32, char)>)
    requires
        cells_hold_no_break(cells),
    ensures
        tidy_text(screen_text(cells)),
{
    lemma_read_cells_breaks(cells);
    let buffer = read_cells(cells).0;
    lemma_trim_end_shape(buffer);
    let e = trim_end(buffer);
    assert(breaks_follow_text(e)) by {
        assert forall|i: int| 0 <= i < e.len() && e[i] == '\n' implies i == 0 || !is_white_space(
            #[trigger] e[i - 1],
        ) by {
            assert(e[i] == buffer[i]);
            if i > 0 {
                assert(e[i - 1] == buffer[i - 1]);
            }
        }
    }
    lemma_trim_start_shape(e);
    let t = trim_start(e);
    let k = e.len() - t.len();
    assert(t == screen_text(cells));
    assert forall|i: int| 0 <= i < t.len() && #[trigger] t[i] == '\n' implies i > 0
        && !is_white_space(t[i - 1]) by {
        assert(t[i] == e[i + k]);
        if i > 0 {
            assert(t[i - 1] == e[i + k - 1]);
        }
    }
    if t.len() > 0 {
        assert(t.last() == e.last());
    }
}

/// The number of line breaks in `t`.
pub open spec fn count_breaks(t: Seq<char>) -> nat
    decreases t.len(),
{
    if t.len() == 0 {
        0
    } else {
        count_breaks(t.drop_last()) + if t.last() == '\n' {
            1nat
        } else {
            0nat
        }
    }
}

/// No line break stands in `t` between `i` (included) and `j` (excluded).
pub open spec fn no_break_in(t: Seq<char>, i: int, j: int) -> bool {
    forall|m: int| i <= m < j ==> #[trigger] t[m] != '\n'
}

/// Every stretch of `t` without a line break is at most `width` long.
pub open spec fn runs_within(t: Seq<char>, width: int) -> bool {
    forall|i: int, j: int|
        0 <= i <= j <= t.len() && #[trigger] no_break_in(t, i, j) ==> j - i <= width
}

/// `t` fits a screen of `columns` × `lines` cells: it has at most `lines`
/// lines, none longer than `columns` characters.
pub open spec fn fits_screen(t: Seq<char>, columns: usize, lines: usize) -> bool {
    &&& count_breaks(t) < lines
    &&& runs_within(t, columns as int)
}

/// Line breaks add up over a split.
proof fn lemma_count_breaks_split(t: Seq<char>, b: int)
    requires
        0 <= b <= t.len(),
    ensures
        count_breaks(t) == count_breaks(t.take(b)) + count_breaks(t.skip(b)),
    decreases t.len(),
{
    if b == t.len() {
        assert(t.take(b) =~= t);
        assert(t.skip(b) =~= Seq::<char>::empty());
    } else {
        lemma_count_breaks_split(t.drop_last(), b);
        assert(t.drop_last().take(b) =~= t.take(b));
        assert(t.drop_last().skip(b) =~= t.skip(b).drop_last());
    }
}

/// A stretch of `t` keeps the bounds of `t`.
proof fn lemma_fits_subrange(t: Seq<char>, b: int, e: int, width: int)
    requires
        0 <= b <= e <= t.len(),
        runs_within(t, width),
    ensures
        count_breaks(t.subrange(b, e)) <= count_breaks(t),
        runs_within(t.subrange(b, e), width),
{
    lemma_count_breaks_split(t, e);
    lemma_count_breaks_split(t.take(e), b);
    assert(t.take(e).skip(b) =~= t.subrange(b, e));
    let u = t.subrange(b, e);
    assert forall|i: int, j: int|
        0 <= i <= j <= u.len() && #[trigger] no_break_in(u, i, j) implies j - i <= width by {
        assert forall|m: int| i + b <= m < j + b implies #[trigger] t[m] != '\n' by {
            assert(t[m] == u[m - b]);
        }
        assert(no_break_in(t, i + b, j + b));
    }
}

/// How the row of a cell relates to that of the cell before it.
proof fn lemma_next_cell_row(k: int, d: int)
    requires
        1 <= k,
        1 <= d,
    ensures
        (k - 1) / d == k / d ==> k % d == (k - 1) % d + 1,
        (k - 1) / d != k / d ==> k / d == (k - 1) / d + 1 && k % d == 0,
        0 <= k % d < d,
        k / d >= 0,
{
    lemma_fundamental_div_mod(k - 1, d);
    lemma_mod_pos_bound(k - 1, d);
    lemma_mod_pos_bound(k, d);
    let q = (k - 1) / d;
    let r = (k - 1) % d;
    assert(d * q == q * d) by (nonlinear_arith);
    if r + 1 < d {
        lemma_fundamental_div_mod_converse_div(k, d, q, r + 1);
        lemma_fundamental_div_mod_converse_mod(k, d, q, r + 1);
    } else {
        assert((q + 1) * d == q * d + d) by (nonlinear_arith);
        lemma_fundamental_div_mod_converse_div(k, d, q + 1, 0);
        lemma_fundamental_div_mod_converse_mod(k, d, q + 1, 0);
    }
    assert(k / d >= 0) by (nonlinear_arith)
        requires
            1 <= k,
            1 <= d,
    ;
}

/// What reading the first `k + 1` cells of a screen leaves in the buffer:
/// no more line breaks than rows passed, stretches no longer than a row,
/// and a last stretch no longer than the cells read in the current row.
proof fn lemma_read_cells_fit(cells: Seq<(i32, char)>, columns: usize, lines: usize, k: int)
    requires
        1 <= columns,
        row_major(cells, columns, lines),
        cells_hold_no_break(cells),
        0 <= k < cells.len(),
    ensures
        ({
            let buffer = read_cells(cells.take(k + 1)).0;
            &&& read_cells(cells.take(k + 1)).1 == Some(cells[k].0)
            &&& count_breaks(buffer) <= k / (columns as int)
            &&& runs_within(buffer, columns as int)
            &&& forall|i: int|
                0 <= i <= buffer.len() && #[trigger] no_break_in(buffer, i, buffer.len() as int)
                    ==> buffer.len() - i <= k % (columns as int) + 1
        }),
    decreases k,
{
    let d = columns as int;
    let upto = cells.take(k + 1);
    assert(upto.last() == cells[k]);
    assert(upto.drop_last() =~= cells.take(k));
    let c = cells[k].1;
    assert(c != '\n');
    if k == 0 {
        assert(cells.take(0) =~= Seq::<(i32, char)>::empty());
        let buffer = read_cells(upto).0;
        assert(buffer =~= seq![c]);
        lemma_next_cell_row(1, d);
        assert(0int / d == 0 && 0int % d == 0) by (nonlinear_arith)
            requires
                d >= 1,
        ;
        assert(count_breaks(buffer.drop_last()) == 0);
        assert forall|i: int, j: int|
            0 <= i <= j <= buffer.len() && #[trigger] no_break_in(buffer, i, j) implies j - i
            <= d by {}
    } else {
        lemma_read_cells_fit(cells, columns, lines, k - 1);
        lemma_next_cell_row(k, d);
        let before = read_cells(cells.take(k));
        let old = before.0;
        assert(cells.take(k) =~= cells.take(k - 1 + 1));
        let buffer = read_cells(upto).0;
        if before.1 != Some(cells[k].0) {
            // A new row: the buffer is trimmed, then a break and the cell.
            lemma_trim_end_shape(old);
            let t = trim_end(old);
            lemma_fits_subrange(old, 0, t.len() as int, d);
            assert(old.subrange(0, t.len() as int) =~= t);
            let with_break = t.push('\n');
            assert(buffer == with_break.push(c));
            assert(with_break.drop_last() =~= t);
            assert(buffer.drop_last() =~= with_break);
            assert(count_breaks(with_break) == count_breaks(t) + 1);
            assert(count_breaks(buffer) == count_breaks(t) + 1);
            assert(count_breaks(t) <= count_breaks(old));
            assert(count_breaks(buffer) <= k / d);
            assert forall|i: int, j: int|
                0 <= i <= j <= buffer.len() && #[trigger] no_break_in(buffer, i, j) implies j - i
                <= d by {
                if j <= t.len() {
                    assert forall|m: int| i <= m < j implies #[trigger] t[m] != '\n' by {
                        assert(buffer[m] == t[m]);
                    }
                    assert(no_break_in(t, i, j));
                } else if i <= t.len() {
                    assert(buffer[t.len() as int] == '\n');
                }
            }
            assert forall|i: int|
                0 <= i <= buffer.len() && #[trigger] no_break_in(
                    buffer,
                    i,
                    buffer.len() as int,
                ) implies buffer.len() - i <= k % d + 1 by {
                if i <= t.len() {
                    assert(buffer[t.len() as int] == '\n');
                }
            }
        } else {
            // The same row: the cell is appended.
            assert(buffer == old.push(c));
            assert(buffer.drop_last() =~= old);
            assert(count_breaks(buffer) == count_breaks(old));
            assert(count_breaks(buffer) <= k / d);
            assert forall|i: int, j: int|
                0 <= i <= j <= buffer.len() && #[trigger] no_break_in(buffer, i, j) implies j - i
                <= d by {
                if j <= old.len() {
                    assert forall|m: int| i <= m < j implies #[trigger] old[m] != '\n' by {
                        assert(buffer[m] == old[m]);
                    }
                    assert(no_break_in(old, i, j));
                } else {
                    assert forall|m: int| i <= m < old.len() implies #[trigger] old[m] != '\n' by {
                        assert(buffer[m] == old[m]);
                    }
                    assert(no_break_in(old, i, old.len() as int));
                }
            }
            assert forall|i: int|
                0 <= i <= buffer.len() && #[trigger] no_break_in(
                    buffer,
                    i,
                    buffer.len() as int,
                ) implies buffer.len() - i <= k % d + 1 by {
                if i < buffer.len() {
                    assert forall|m: int| i <= m < old.len() implies #[trigger] old[m] != '\n' by {
                        assert(buffer[m] == old[m]);
                    }
                    assert(no_break_in(old, i, old.len() as int));
                }
            }
        }
    }
}

/// The text of a screen fits the screen: it has at most as many lines as
/// the screen, none longer than a row.
pub proof fn law_screen_text_fits_screen(cells: Seq<(i32, char)>, columns: usize, lines: usize)
    requires
        1 <= columns,
        1 <= lines,
        row_major(cells, columns, lines),
        cells_hold_no_break(cells),
    ensures
        fits_screen(screen_text(cells), columns, lines),
{
    let d = columns as int;
    let n = cells.len() as int;
    assert(n == d * lines) by (nonlinear_arith)
        requires
            n == columns * lines,
            d == columns,
    ;
    assert(n >= 1) by (nonlinear_arith)
        requires
            n == d * lines,
            d >= 1,
            lines >= 1,
    ;
    lemma_read_cells_fit(cells, columns, lines, n - 1);
    assert(cells.take(n) =~= cells);
    assert((n - 1) / d < lines) by (nonlinear_arith)
        requires
            n == d * lines,
            d >= 1,
            n >= 1,
    ;
    let buffer = read_cells(cells).0;
    lemma_trim_end_shape(buffer);
    let e = trim_end(buffer);
    lemma_fits_subrange(buffer, 0, e.len() as int, d);
    assert(buffer.subrange(0, e.len() as int) =~= e);
    lemma_trim_start_shape(e);
    let t = trim_start(e);
    let b = e.len() - t.len();
    lemma_fits_subrange(e, b, e.len() as int, d);
    assert(e.subrange(b, e.len() as int) =~= t);
}


/// The characters of line `i` of a screen `columns` wide.
pub open spec fn screen_row(cells: Seq<(i32, char)>, columns: usize, i: int) -> Seq<char> {
    cells.subrange(i * columns, (i + 1) * columns).map_values(|cell: (i32, char)| cell.1)
}

/// The lines of a `columns` × `lines` screen, from the top.
pub open spec fn screen_rows(cells: Seq<(i32, char)>, columns: usize, lines: usize) -> Seq<
    Seq<char>,
> {
    Seq::new(lines as nat, |i: int| screen_row(cells, columns, i))
}

/// The rows that hold more than whitespace, in order, each without its
/// trailing whitespace.
pub open spec fn kept_rows(rows: Seq<Seq<char>>) -> Seq<Seq<char>>
    decreases rows.len(),
{
    if rows.len() == 0 {
        seq![]
    } else {
        let t = trim_end(rows.last());
        if t.len() == 0 {
            kept_rows(rows.drop_last())
        } else {
            kept_rows(rows.drop_last()).push(t)
        }
    }
}

/// `parts` joined by line breaks.
pub open spec fn join_lines(parts: Seq<Seq<char>>) -> Seq<char>
    decreases parts.len(),
{
    if parts.len() == 0 {
        seq![]
    } else if parts.len() == 1 {
        parts[0]
    } else {
        join_lines(parts.drop_last()).push('\n') + parts.last()
    }
}

/// The text that a screen's rows make: one line per row that holds more
/// than whitespace, in order, without trailing whitespace, and with the
/// leading whitespace of the first removed.
pub open spec fn rows_text(rows: Seq<Seq<char>>) -> Seq<char> {
    trim_start(join_lines(kept_rows(rows)))
}

/// Whitespace at the end makes no difference to `trim_end`.
proof fn lemma_trim_end_push_space(s: Seq<char>, w: char)
    requires
        is_white_space(w),
    ensures
        trim_end(s.push(w)) == trim_end(s),
{
    assert(s.push(w).drop_last() =~= s);
}

/// Trimming twice is trimming once.
proof fn lemma_trim_end_twice(s: Seq<char>)
    ensures
        trim_end(trim_end(s)) == trim_end(s),
{
    lemma_trim_end_shape(s);
}

/// What trimming a concatenation leaves: the trimmed second part after the
/// whole first, or, when the second is all whitespace, the trimmed first.
proof fn lemma_trim_end_concat(x: Seq<char>, y: Seq<char>)
    ensures
        trim_end(x + y) == if trim_end(y).len() == 0 {
            trim_end(x)
        } else {
            x + trim_end(y)
        },
    decreases y.len(),
{
    if y.len() == 0 {
        assert(x + y =~= x);
    } else if is_white_space(y.last()) {
        assert((x + y).drop_last() =~= x + y.drop_last());
        assert((x + y).last() == y.last());
        lemma_trim_end_concat(x, y.drop_last());
    } else {
        assert((x + y).last() == y.last());
    }
}

/// Reading a screen row by row: after the first `j + 1` cells of row `k`,
/// the buffer holds what the rows before left, trimmed and followed by a
/// line break (nothing for the first row), and then those cells.
proof fn lemma_read_row(cells: Seq<(i32, char)>, columns: usize, lines: usize, k: int, j: int)
    requires
        1 <= columns,
        row_major(cells, columns, lines),
        0 <= k < lines,
        0 <= j < columns,
    ensures
        ({
            let d = columns as int;
            let before = if k == 0 {
                Seq::<char>::empty()
            } else {
                trim_end(read_cells(cells.take(k * d)).0).push('\n')
            };
            read_cells(cells.take(k * d + j + 1)) == (
                before + screen_row(cells, columns, k).take(j + 1),
                Some(cells[k * d + j].0),
            )
        }),
    decreases j,
{
    let d = columns as int;
    assert(0 <= k * d && k * d + d <= d * lines) by (nonlinear_arith)
        requires
            0 <= k < lines,
            d >= 1,
    ;
    assert((k + 1) * d == k * d + d) by (nonlinear_arith);
    let row = screen_row(cells, columns, k);
    assert(row.len() == d);
    let x = k * d + j;
    assert(cells.len() == d * lines) by (nonlinear_arith)
        requires
            cells.len() == columns * lines,
            d == columns,
    ;
    lemma_fundamental_div_mod_converse_div(x, d, k, j);
    assert(cells[x].0 == k);
    let upto = cells.take(x + 1);
    assert(upto.drop_last() =~= cells.take(x));
    assert(upto.last() == cells[x]);
    assert(row[j] == cells[x].1);
    let before = if k == 0 {
        Seq::<char>::empty()
    } else {
        trim_end(read_cells(cells.take(k * d)).0).push('\n')
    };
    if j == 0 {
        if k == 0 {
            assert(cells.take(0) =~= Seq::<(i32, char)>::empty());
        } else {
            assert((k - 1) * d + (d - 1) == k * d - 1) by (nonlinear_arith);
            lemma_fundamental_div_mod_converse_div(x - 1, d, k - 1, d - 1);
            assert(cells.take(x).last() == cells[x - 1]);
            assert(cells[x - 1].0 == k - 1);
            assert(read_cells(cells.take(x)).1 == Some(cells[x - 1].0));
            assert(read_cells(upto).0 == trim_end(read_cells(cells.take(x)).0).push('\n').push(
                cells[x].1,
            ));
        }
        assert(row.take(1) =~= seq![cells[x].1]);
        assert(read_cells(upto).0 =~= before + row.take(1));
    } else {
        lemma_read_row(cells, columns, lines, k, j - 1);
        lemma_fundamental_div_mod_converse_div(x - 1, d, k, j - 1);
        assert(cells.take(x) =~= cells.take(k * d + (j - 1) + 1));
        assert(row.take(j + 1) =~= row.take(j).push(row[j]));
        assert(read_cells(upto).0 =~= before + row.take(j + 1));
    }
}

/// What the buffer holds after whole rows: trimmed, it is the kept rows
/// joined, possibly after one line break.
proof fn lemma_read_rows(cells: Seq<(i32, char)>, columns: usize, lines: usize, k: int)
    requires
        1 <= columns,
        row_major(cells, columns, lines),
        1 <= k <= lines,
    ensures
        ({
            let t = trim_end(read_cells(cells.take(k * (columns as int))).0);
            let joined = join_lines(kept_rows(screen_rows(cells, columns, lines).take(k)));
            t == joined || (joined.len() > 0 && t == seq!['\n'] + joined)
        }),
    decreases k,
{
    let d = columns as int;
    let rows = screen_rows(cells, columns, lines);
    let row = screen_row(cells, columns, k - 1);
    assert(rows.take(k).drop_last() =~= rows.take(k - 1));
    assert(rows.take(k).last() == row);
    assert((k - 1) * d + (d - 1) + 1 == k * d) by (nonlinear_arith);
    lemma_read_row(cells, columns, lines, k - 1, d - 1);
    assert(0 <= (k - 1) * d && (k - 1) * d + d <= d * lines) by (nonlinear_arith)
        requires
            1 <= k <= lines,
            d >= 1,
    ;
    assert(row.len() == d);
    assert(row.take(d) =~= row);
    let tr = trim_end(row);
    if k == 1 {
        assert(rows.take(0) =~= Seq::<Seq<char>>::empty());
        assert(Seq::<char>::empty() + row =~= row);
        if tr.len() > 0 {
            assert(kept_rows(rows.take(1)) =~= seq![tr]);
        }
    } else {
        lemma_read_rows(cells, columns, lines, k - 1);
        let t0 = trim_end(read_cells(cells.take((k - 1) * d)).0);
        let joined0 = join_lines(kept_rows(rows.take(k - 1)));
        let kept0 = kept_rows(rows.take(k - 1));
        lemma_trim_end_concat(t0.push('\n'), row);
        if tr.len() == 0 {
            lemma_trim_end_push_space(t0, '\n');
            lemma_trim_end_twice(read_cells(cells.take((k - 1) * d)).0);
        } else {
            let kept = kept0.push(tr);
            assert(kept.drop_last() =~= kept0);
            if kept0.len() == 0 {
                assert(t0 =~= Seq::<char>::empty());
                assert(kept =~= seq![tr]);
                assert(t0.push('\n') + tr =~= seq!['\n'] + tr);
            } else if t0 == joined0 {
                assert(join_lines(kept) == joined0.push('\n') + tr);
            } else {
                assert(join_lines(kept) == joined0.push('\n') + tr);
                assert(t0.push('\n') + tr =~= seq!['\n'] + (joined0.push('\n') + tr));
            }
        }
    }
}

/// The text of a screen, line by line: the rows that hold more than
/// whitespace, in order from the top, each without trailing whitespace,
/// and the first also without leading whitespace; rows of whitespace are
/// left out wherever they stand.
pub proof fn law_screen_text_is_its_rows(cells: Seq<(i32, char)>, columns: usize, lines: usize)
    requires
        1 <= columns,
        1 <= lines,
        row_major(cells, columns, lines),
    ensures
        screen_text(cells) == rows_text(screen_rows(cells, columns, lines)),
{
    let d = columns as int;
    lemma_read_rows(cells, columns, lines, lines as int);
    assert(cells.len() == lines * d) by (nonlinear_arith)
        requires
            cells.len() == columns * lines,
            d == columns,
    ;
    assert(cells.take(lines * d) =~= cells);
    let rows = screen_rows(cells, columns, lines);
    assert(rows.take(lines as int) =~= rows);
    let joined = join_lines(kept_rows(rows));
    let t = trim_end(read_cells(cells).0);
    if t != joined {
        assert(t[0] == '\n');
        assert(t.drop_first() =~= joined);
    }
}

} // verus!
