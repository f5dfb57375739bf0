//! The byte stream that termrec's shell hooks produce, and the law that
//! splitting it gives back the commands that were recorded.

use vstd::prelude::*;
use vstd::utf8::*;

use crate::text::{lemma_trim_end_shape, trim_end};
use crate::transcript::parser::{
    command_header, command_marker, first_occurrence, lemma_first_occurrence_exists,
    lemma_first_occurrence_is, lemma_marker_shape, lemma_markers_differ,
    lemma_next_segment_progress, lemma_segments_unfold, next_segment, occurs_at,
    prompt_marker, segments, split_output, holds_no_marker, lemma_one_command_header,
    one_command_session, Segment, BEL, ESC,
};

verus! {

/// What the hooks print for one command: the command marker, the command
/// line and a BEL right before it runs, then whatever the command prints,
/// then the prompt marker and a BEL before the next prompt.
pub open spec fn hook_output(command: Seq<char>, output: Seq<u8>) -> Seq<u8> {
    command_marker() + encode_utf8(command) + seq![BEL] + output + prompt_marker() + seq![BEL]
}

/// What the hooks print for a whole session of commands.
pub open spec fn hook_session(commands: Seq<Segment>) -> Seq<u8>
    decreases commands.len(),
{
    if commands.len() == 0 {
        seq![]
    } else {
        hook_output(commands[0].command, commands[0].output) + hook_session(commands.drop_first())
    }
}

/// A command that the markers can carry unambiguously: its line holds no
/// BEL (which ends the marker) and no trailing whitespace (which is
/// trimmed), and its output holds no whole marker.
pub open spec fn recordable(segment: Segment) -> bool {
    &&& forall|i: int| 0 <= i < segment.command.len() ==> segment.command[i] as u32 != 0x07
    &&& trim_end(segment.command) == segment.command
    &&& holds_no_marker(segment.output)
}

/// Both markers hold the escape byte at their start and nowhere else.
proof fn lemma_markers_escape_once()
    ensures
        forall|k: int| 1 <= k < command_marker().len() ==> #[trigger] command_marker()[k] != ESC,
        forall|k: int| 1 <= k < prompt_marker().len() ==> #[trigger] prompt_marker()[k] != ESC,
{
    reveal(command_marker);
    reveal(prompt_marker);
}

/// A marker found at `j` in an output followed by the prompt marker at `o`
/// lies wholly inside the output: it cannot reach over the escape byte that
/// opens the prompt marker.
proof fn lemma_no_marker_across(output: Seq<u8>, rest: Seq<u8>, marker: Seq<u8>, j: int)
    requires
        holds_no_marker(output),
        marker == command_marker() || marker == prompt_marker(),
        rest.take(output.len() as int) == output,
        output.len() < rest.len(),
        rest[output.len() as int] == ESC,
        0 <= j < output.len(),
    ensures
        !occurs_at(rest, marker, j),
{
    lemma_marker_shape();
    lemma_markers_escape_once();
    let o = output.len() as int;
    if occurs_at(rest, marker, j) {
        if j + marker.len() <= o {
            assert forall|m: int| 0 <= m < marker.len() implies output.subrange(j, j + marker.len())[m]
                == marker[m] by {
                assert(rest.subrange(j, j + marker.len())[m] == marker[m]);
                assert(rest[j + m] == rest.take(o)[j + m]);
            }
            assert(output.subrange(j, j + marker.len()) =~= marker);
            assert(occurs_at(output, marker, j));
        } else {
            assert(rest.subrange(j, j + marker.len())[o - j] == rest[o]);
            assert(marker[o - j] != ESC);
        }
    }
}

proof fn lemma_or_high_bit(a: u8, x: u8)
    by (bit_vector)
    requires
        a >= 0x80,
    ensures
        (a | x) >= 0x80,
{
}

proof fn lemma_ascii_scalar_byte(s: u32)
    by (bit_vector)
    requires
        s <= 0x7f,
    ensures
        (s & 0x7f) as u8 == s,
{
}

/// A character other than BEL encodes to bytes other than BEL.
proof fn lemma_scalar_has_no_bel(c: char)
    requires
        c as u32 != 0x07,
    ensures
        forall|i: int|
            0 <= i < encode_scalar(c as u32).len() ==> #[trigger] encode_scalar(c as u32)[i] != BEL,
{
    let s = c as u32;
    if has_width_1_encoding(s) {
        lemma_ascii_scalar_byte(s);
    } else if has_width_2_encoding(s) {
        lemma_or_high_bit(0xC0, ((s >> 6) & 0x1F) as u8);
        lemma_or_high_bit(0x80, (s & 0x3F) as u8);
    } else if has_width_3_encoding(s) {
        lemma_or_high_bit(0xE0, ((s >> 12) & 0x0F) as u8);
        lemma_or_high_bit(0x80, ((s >> 6) & 0x3F) as u8);
        lemma_or_high_bit(0x80, (s & 0x3F) as u8);
    } else {
        lemma_or_high_bit(0xF0, ((s >> 18) & 0x7) as u8);
        lemma_or_high_bit(0x80, ((s >> 12) & 0x3F) as u8);
        lemma_or_high_bit(0x80, ((s >> 6) & 0x3F) as u8);
        lemma_or_high_bit(0x80, (s & 0x3F) as u8);
    }
}

/// A line without BEL encodes to bytes without BEL.
proof fn lemma_encoding_has_no_bel(command: Seq<char>)
    requires
        forall|i: int| 0 <= i < command.len() ==> command[i] as u32 != 0x07,
    ensures
        forall|i: int| 0 <= i < encode_utf8(command).len() ==> encode_utf8(command)[i] != BEL,
    decreases command.len(),
{
    if command.len() > 0 {
        lemma_scalar_has_no_bel(command[0]);
        lemma_encoding_has_no_bel(command.drop_first());
        let head = encode_scalar(command[0] as u32);
        let tail = encode_utf8(command.drop_first());
        assert forall|i: int| 0 <= i < encode_utf8(command).len() implies encode_utf8(command)[i]
            != BEL by {
            if i >= head.len() {
                assert(encode_utf8(command)[i] == tail[i - head.len()]);
            }
        }
    }
}

/// The first BEL after a BEL-free text is the one that follows it.
proof fn lemma_first_bel_after(text: Seq<u8>, rest: Seq<u8>)
    requires
        forall|i: int| 0 <= i < text.len() ==> text[i] != BEL,
    ensures
        first_occurrence(text + seq![BEL] + rest, seq![BEL]) == Some(text.len() as int),
{
    let tail = text + seq![BEL] + rest;
    assert(tail.subrange(text.len() as int, text.len() + 1int) =~= seq![BEL]);
    assert forall|j: int| 0 <= j < text.len() implies !occurs_at(tail, seq![BEL], j) by {
        assert(tail.subrange(j, j + 1)[0] == text[j]);
    }
    lemma_first_occurrence_is(tail, seq![BEL], text.len() as int);
}

/// The command marker opens a hook record.
proof fn lemma_marker_first(rest: Seq<u8>)
    ensures
        first_occurrence(command_marker() + rest, command_marker()) == Some(0int),
        (command_marker() + rest).skip(command_marker().len() as int) == rest,
{
    let data = command_marker() + rest;
    assert(data.subrange(0, command_marker().len() as int) =~= command_marker());
    lemma_first_occurrence_is(data, command_marker(), 0);
    assert(data.skip(command_marker().len() as int) =~= rest);
}

/// The header of a hook record is the recorded line, and its output starts
/// right after the line's BEL.
#[verifier::rlimit(50)]
proof fn lemma_hook_header(command: Seq<char>, rest: Seq<u8>)
    requires
        forall|i: int| 0 <= i < command.len() ==> command[i] as u32 != 0x07,
        trim_end(command) == command,
    ensures
        command_header(command_marker() + encode_utf8(command) + seq![BEL] + rest) == Some(
            (command, command_marker().len() + encode_utf8(command).len() + 1int),
        ),
{
    let text = encode_utf8(command);
    let tail = text + seq![BEL] + rest;
    lemma_marker_first(tail);
    assert(command_marker() + text + seq![BEL] + rest =~= command_marker() + tail);
    lemma_encoding_has_no_bel(command);
    lemma_first_bel_after(text, rest);
    assert(tail.take(text.len() as int) =~= text);
    encode_utf8_valid_utf8(command);
    encode_utf8_decode_utf8(command);
    reveal(command_header);
}

/// The output of a hook record is the recorded output, and the prompt
/// marker with its BEL is consumed.
#[verifier::rlimit(40)]
proof fn lemma_hook_output_split(output: Seq<u8>, more: Seq<u8>)
    requires
        holds_no_marker(output),
    ensures
        split_output(output + prompt_marker() + seq![BEL] + more) == (
            output,
            (output.len() + prompt_marker().len() + 1) as nat,
        ),
{
    reveal(split_output);
    lemma_marker_shape();
    lemma_markers_differ();
    let rest = output + prompt_marker() + seq![BEL] + more;
    let o = output.len() as int;
    assert(rest.take(o) =~= output);
    assert(rest[o] == prompt_marker()[0]);
    assert(rest.subrange(o, o + 20) =~= prompt_marker());
    assert forall|j: int| 0 <= j < o implies !occurs_at(rest, prompt_marker(), j) by {
        lemma_no_marker_across(output, rest, prompt_marker(), j);
    }
    lemma_first_occurrence_is(rest, prompt_marker(), o);
    assert forall|j: int| 0 <= j <= o implies !occurs_at(rest, command_marker(), j) by {
        if j < o {
            lemma_no_marker_across(output, rest, command_marker(), j);
        } else if j + 22 <= rest.len() {
            assert(rest.subrange(j, j + 22)[14] == prompt_marker()[14]);
        }
    }
    if let Some(next) = first_occurrence(rest, command_marker()) {
        lemma_first_occurrence_exists(
            rest,
            command_marker(),
            choose|i: int| occurs_at(rest, command_marker(), i),
        );
    }
    assert(rest[o + 20] == BEL);
}

/// Splitting a hook record yields the recorded command, and spans the
/// whole record.
proof fn lemma_hook_record_split(segment: Segment, more: Seq<u8>)
    requires
        recordable(segment),
    ensures
        next_segment(hook_output(segment.command, segment.output) + more) == Some(
            (segment, hook_output(segment.command, segment.output).len()),
        ),
{
    lemma_marker_shape();
    let text = encode_utf8(segment.command);
    let tail = segment.output + prompt_marker() + seq![BEL] + more;
    let data = hook_output(segment.command, segment.output) + more;
    assert(data =~= command_marker() + text + seq![BEL] + tail);
    lemma_hook_header(segment.command, tail);
    let start = 22 + text.len() + 1int;
    assert(data.skip(start) =~= tail);
    lemma_hook_output_split(segment.output, more);
}

/// What the hooks record is what splitting gives back: a session made of
/// hook records of recordable commands splits into exactly those commands,
/// lines and outputs alike.
pub proof fn law_hook_session_round_trip(commands: Seq<Segment>)
    requires
        forall|i: int| 0 <= i < commands.len() ==> recordable(#[trigger] commands[i]),
    ensures
        segments(hook_session(commands)) == commands,
    decreases commands.len(),
{
    let data = hook_session(commands);
    lemma_segments_unfold(data);
    if commands.len() == 0 {
        assert(data =~= Seq::<u8>::empty());
        reveal(command_header);
        assert(segments(data) =~= commands);
    } else {
        let first = commands[0];
        let more = hook_session(commands.drop_first());
        assert(recordable(commands[0]));
        lemma_hook_record_split(first, more);
        law_hook_session_round_trip(commands.drop_first());
        let record = hook_output(first.command, first.output);
        assert(data.skip(record.len() as int) =~= more);
        assert(segments(data) =~= seq![first] + commands.drop_first());
        assert(seq![first] + commands.drop_first() =~= commands);
    }
}

/// Encoding a concatenation concatenates the encodings.
proof fn lemma_encode_concat(a: Seq<char>, b: Seq<char>)
    ensures
        encode_utf8(a + b) == encode_utf8(a) + encode_utf8(b),
    decreases a.len(),
{
    if a.len() > 0 {
        lemma_encode_concat(a.drop_first(), b);
        assert((a + b).drop_first() =~= a.drop_first() + b);
        assert((a + b)[0] == a[0]);
    } else {
        assert(a + b =~= b);
    }
}

/// UTF-8 without a BEL byte decodes to characters other than BEL.
proof fn lemma_decoding_has_no_bel(text: Seq<u8>)
    requires
        valid_utf8(text),
        forall|i: int| 0 <= i < text.len() ==> text[i] != BEL,
    ensures
        forall|i: int|
            0 <= i < decode_utf8(text).len() ==> #[trigger] decode_utf8(text)[i] as u32 != 0x07,
{
    let chars = decode_utf8(text);
    decode_utf8_encode_utf8(text);
    assert forall|i: int| 0 <= i < chars.len() implies #[trigger] chars[i] as u32 != 0x07 by {
        if chars[i] as u32 == 0x07 {
            let before = chars.take(i);
            let after = chars.skip(i + 1);
            assert(chars =~= before + seq![chars[i]] + after);
            lemma_encode_concat(before + seq![chars[i]], after);
            lemma_encode_concat(before, seq![chars[i]]);
            lemma_ascii_scalar_byte(0x07);
            let single = seq![chars[i]];
            assert(single.drop_first() =~= Seq::<char>::empty());
            assert(encode_utf8(Seq::<char>::empty()) =~= Seq::<u8>::empty());
            assert(encode_utf8(single.drop_first()) =~= Seq::<u8>::empty());
            assert(encode_scalar(single[0] as u32) =~= seq![0x07u8]);
            assert(encode_utf8(single) =~= seq![0x07u8]);
            assert(text[encode_utf8(before).len() as int] == 0x07);
        }
    }
}

/// The command line of a header holds no BEL.
proof fn lemma_command_header_has_no_bel(rest: Seq<u8>)
    ensures
        command_header(rest) matches Some(header) ==> forall|i: int|
            0 <= i < header.0.len() ==> #[trigger] header.0[i] as u32 != 0x07,
{
    reveal(command_header);
    if let Some(marker) = first_occurrence(rest, command_marker()) {
        let tail = rest.skip(marker + command_marker().len());
        if let Some(len) = first_occurrence(tail, seq![BEL]) {
            lemma_first_occurrence_exists(
                tail,
                seq![BEL],
                choose|i: int| occurs_at(tail, seq![BEL], i),
            );
            let text = tail.take(len);
            if valid_utf8(text) {
                assert forall|i: int| 0 <= i < text.len() implies text[i] != BEL by {
                    assert(!occurs_at(tail, seq![BEL], i));
                    assert(tail.subrange(i, i + 1) =~= seq![text[i]]);
                }
                lemma_decoding_has_no_bel(text);
                let chars = decode_utf8(text);
                lemma_trim_end_shape(chars);
                assert forall|i: int| 0 <= i < trim_end(chars).len() implies #[trigger] trim_end(
                    chars,
                )[i] as u32 != 0x07 by {
                    assert(trim_end(chars)[i] == chars[i]);
                }
            }
        }
    }
}

/// A command line, taken from its marker up to the BEL that ends it, never
/// holds a BEL itself.
pub proof fn law_command_lines_hold_no_bel(data: Seq<u8>)
    ensures
        forall|k: int, i: int|
            0 <= k < segments(data).len() && 0 <= i < segments(data)[k].command.len()
                ==> #[trigger] segments(data)[k].command[i] as u32 != 0x07,
    decreases data.len(),
{
    lemma_segments_unfold(data);
    if let Some(found) = next_segment(data) {
        lemma_next_segment_progress(data);
        let after = data.skip(found.1 as int);
        law_command_lines_hold_no_bel(after);
        lemma_command_header_has_no_bel(data);
        assert forall|k: int, i: int|
            0 <= k < segments(data).len() && 0 <= i < segments(data)[k].command.len()
                implies #[trigger] segments(data)[k].command[i] as u32 != 0x07 by {
            if k > 0 {
                assert(segments(data)[k] == segments(after)[k - 1]);
            }
        }
    }
}


/// An output that holds no marker ends where the marker after it starts,
/// be it a prompt marker or the next command marker.
#[verifier::rlimit(40)]
proof fn lemma_output_ends_at_marker(output: Seq<u8>, marker: Seq<u8>, rest: Seq<u8>)
    requires
        holds_no_marker(output),
        marker == command_marker() || marker == prompt_marker(),
    ensures
        split_output(output + marker + rest).0 == output,
{
    reveal(split_output);
    lemma_marker_shape();
    lemma_markers_differ();
    let t = output + marker + rest;
    let o = output.len() as int;
    assert(t.take(o) =~= output);
    assert(t[o] == marker[0]);
    assert(t.subrange(o, o + marker.len()) =~= marker);
    assert forall|j: int| 0 <= j < o implies !occurs_at(t, prompt_marker(), j) && !occurs_at(
        t,
        command_marker(),
        j,
    ) by {
        lemma_no_marker_across(output, t, prompt_marker(), j);
        lemma_no_marker_across(output, t, command_marker(), j);
    }
    if marker == prompt_marker() {
        lemma_first_occurrence_is(t, prompt_marker(), o);
        assert forall|j: int| 0 <= j <= o implies !occurs_at(t, command_marker(), j) by {
            if j == o && j + 22 <= t.len() {
                assert(t.subrange(j, j + 22)[14] == prompt_marker()[14]);
            }
        }
        if let Some(next) = first_occurrence(t, command_marker()) {
            lemma_first_occurrence_exists(
                t,
                command_marker(),
                choose|i: int| occurs_at(t, command_marker(), i),
            );
        }
    } else {
        lemma_first_occurrence_is(t, command_marker(), o);
        assert forall|j: int| 0 <= j <= o implies !occurs_at(t, prompt_marker(), j) by {
            if j == o && j + 20 <= t.len() {
                assert(t.subrange(j, j + 20)[14] == command_marker()[14]);
            }
        }
        if let Some(p) = first_occurrence(t, prompt_marker()) {
            lemma_first_occurrence_exists(
                t,
                prompt_marker(),
                choose|i: int| occurs_at(t, prompt_marker(), i),
            );
        }
    }
}

/// A command's output is every byte after the BEL that ends its command
/// line, up to the marker that follows: the prompt marker, or the next
/// command's marker when no prompt marker comes first. Its line is the
/// recorded text without trailing whitespace.
pub proof fn law_output_runs_to_next_marker(
    command: Seq<u8>,
    output: Seq<u8>,
    marker: Seq<u8>,
    rest: Seq<u8>,
)
    requires
        valid_utf8(command),
        forall|i: int| 0 <= i < command.len() ==> command[i] != BEL,
        holds_no_marker(output),
        marker == command_marker() || marker == prompt_marker(),
    ensures
        segments(command_marker() + command + seq![BEL] + output + marker + rest).len() >= 1,
        segments(command_marker() + command + seq![BEL] + output + marker + rest)[0].output
            == output,
        segments(command_marker() + command + seq![BEL] + output + marker + rest)[0].command
            == trim_end(decode_utf8(command)),
{
    let tail = output + marker + rest;
    let data = command_marker() + command + seq![BEL] + output + marker + rest;
    assert(data =~= one_command_session(command, tail));
    lemma_marker_shape();
    lemma_one_command_header(command, tail);
    assert(data.skip((command_marker().len() + command.len() + 1) as int) =~= tail);
    lemma_output_ends_at_marker(output, marker, rest);
    lemma_segments_unfold(data);
}

} // verus!
