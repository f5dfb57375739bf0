//! Splitting a raw session on the OSC 777 markers that termrec's shell hooks
//! print around each command.

use vstd::prelude::*;
use vstd::utf8::*;

use vstd::slice::slice_subrange;

use crate::text::{lemma_trim_end_shape, str_from_utf8, trim_end, trim_end_str};

verus! {

/// The escape byte that opens every OSC sequence.
pub const ESC: u8 = 0x1b;

/// The BEL byte that terminates an OSC sequence.
pub const BEL: u8 = 0x07;

/// `\x1b]777;termrec;command;`: printed right before a command runs, and
/// followed by the command text and a BEL.
#[verifier::opaque]
pub open spec fn command_marker() -> Seq<u8> {
    seq![
        0x1bu8, 0x5d, 0x37, 0x37, 0x37, 0x3b, 0x74, 0x65, 0x72, 0x6d, 0x72, 0x65, 0x63, 0x3b,
        0x63, 0x6f, 0x6d, 0x6d, 0x61, 0x6e, 0x64, 0x3b,
    ]
}

/// `\x1b]777;termrec;prompt`: printed before each prompt, followed by a BEL.
#[verifier::opaque]
pub open spec fn prompt_marker() -> Seq<u8> {
    seq![
        0x1bu8, 0x5d, 0x37, 0x37, 0x37, 0x3b, 0x74, 0x65, 0x72, 0x6d, 0x72, 0x65, 0x63, 0x3b,
        0x70, 0x72, 0x6f, 0x6d, 0x70, 0x74,
    ]
}

/// The lengths of the markers, and the escape byte that opens both.
pub proof fn lemma_marker_shape()
    ensures
        command_marker().len() == 22,
        prompt_marker().len() == 20,
        command_marker()[0] == ESC,
        prompt_marker()[0] == ESC,
{
    reveal(command_marker);
    reveal(prompt_marker);
}

/// The markers share their first fourteen bytes and differ at the next one.
pub proof fn lemma_markers_differ()
    ensures
        command_marker()[14] == 0x63,
        prompt_marker()[14] == 0x70,
{
    reveal(command_marker);
    reveal(prompt_marker);
}

/// The bytes of the command marker.
pub fn command_marker_bytes() -> (m: Vec<u8>)
    ensures
        m@ == command_marker(),
{
    let m: Vec<u8> = vec![
        0x1bu8, 0x5d, 0x37, 0x37, 0x37, 0x3b, 0x74, 0x65, 0x72, 0x6d, 0x72, 0x65, 0x63, 0x3b,
        0x63, 0x6f, 0x6d, 0x6d, 0x61, 0x6e, 0x64, 0x3b,
    ];
    assert(m@ =~= command_marker()) by {
        reveal(command_marker);
    }
    m
}

/// The bytes of the prompt marker.
pub fn prompt_marker_bytes() -> (m: Vec<u8>)
    ensures
        m@ == prompt_marker(),
{
    let m: Vec<u8> = vec![
        0x1bu8, 0x5d, 0x37, 0x37, 0x37, 0x3b, 0x74, 0x65, 0x72, 0x6d, 0x72, 0x65, 0x63, 0x3b,
        0x70, 0x72, 0x6f, 0x6d, 0x70, 0x74,
    ];
    assert(m@ =~= prompt_marker()) by {
        reveal(prompt_marker);
    }
    m
}

/// `needle` stands in `hay` starting at index `i`.
pub open spec fn occurs_at(hay: Seq<u8>, needle: Seq<u8>, i: int) -> bool {
    &&& 0 <= i
    &&& i + needle.len() <= hay.len()
    &&& hay.subrange(i, i + needle.len()) == needle
}

/// The index of the first occurrence of `needle` in `hay`, if any.
pub open spec fn first_occurrence(hay: Seq<u8>, needle: Seq<u8>) -> Option<int> {
    if exists|i: int| occurs_at(hay, needle, i) {
        Some(
            choose|i: int|
                occurs_at(hay, needle, i) && forall|j: int| 0 <= j < i ==> !occurs_at(hay, needle, j),
        )
    } else {
        None
    }
}

/// An occurrence of `needle` at `k` with none before it is the first one.
pub proof fn lemma_first_occurrence_is(hay: Seq<u8>, needle: Seq<u8>, k: int)
    requires
        occurs_at(hay, needle, k),
        forall|j: int| 0 <= j < k ==> !occurs_at(hay, needle, j),
    ensures
        first_occurrence(hay, needle) == Some(k),
{
    let c = choose|i: int|
        occurs_at(hay, needle, i) && forall|j: int| 0 <= j < i ==> !occurs_at(hay, needle, j);
    assert(occurs_at(hay, needle, c) && forall|j: int| 0 <= j < c ==> !occurs_at(hay, needle, j));
    if c < k {
        assert(!occurs_at(hay, needle, c));
    }
    if k < c {
        assert(!occurs_at(hay, needle, k));
    }
}

/// When `needle` occurs in `hay`, there is a first occurrence.
pub proof fn lemma_first_occurrence_exists(hay: Seq<u8>, needle: Seq<u8>, i: int)
    requires
        occurs_at(hay, needle, i),
    ensures
        first_occurrence(hay, needle) matches Some(k) && occurs_at(hay, needle, k) && k <= i
            && forall|j: int| 0 <= j < k ==> !occurs_at(hay, needle, j),
    decreases i,
{
    if forall|j: int| 0 <= j < i ==> !occurs_at(hay, needle, j) {
        lemma_first_occurrence_is(hay, needle, i);
    } else {
        let j = choose|j: int| 0 <= j < i && occurs_at(hay, needle, j);
        lemma_first_occurrence_exists(hay, needle, j);
    }
}

/// The index of the first occurrence of `needle` in `haystack`.
///
/// The needle must not be empty: an empty window has no meaning here.
pub fn find_subslice(haystack: &[u8], needle: &[u8]) -> (r: Option<usize>)
    requires
        needle@.len() > 0,
    ensures
        match r {
            Some(k) => first_occurrence(haystack@, needle@) == Some(k as int),
            None => first_occurrence(haystack@, needle@) is None,
        },
        r matches Some(k) ==> occurs_at(haystack@, needle@, k as int) && forall|j: int|
            0 <= j < k ==> !occurs_at(haystack@, needle@, j),
        r is None ==> forall|j: int| !occurs_at(haystack@, needle@, j),
{
    let n = needle.len();
    let len = haystack.len();
    if n > len {
        assert forall|j: int| !occurs_at(haystack@, needle@, j) by {}
        return None;
    }
    let mut i: usize = 0;
    while i <= len - n
        invariant
            n == needle@.len(),
            len == haystack@.len(),
            n <= len,
            i <= len - n + 1,
            forall|j: int| 0 <= j < i ==> !occurs_at(haystack@, needle@, j),
        decreases len - n + 1 - i,
    {
        let mut k: usize = 0;
        while k < n && haystack[i + k] == needle[k]
            invariant
                n == needle@.len(),
                len == haystack@.len(),
                i + n <= len,
                k <= n,
                forall|t: int| 0 <= t < k ==> haystack@[i + t] == needle@[t],
            decreases n - k,
        {
            k = k + 1;
        }
        if k == n {
            assert(haystack@.subrange(i as int, i + n) =~= needle@);
            proof {
                lemma_first_occurrence_is(haystack@, needle@, i as int);
            }
            return Some(i);
        }
        assert(haystack@.subrange(i as int, i + n)[k as int] != needle@[k as int]);
        i = i + 1;
    }
    assert forall|j: int| !occurs_at(haystack@, needle@, j) by {
        if 0 <= j && j + n <= len {
            assert(j < i);
        }
    }
    None
}

/// One command of a session, in the terms of the specification: its text
/// and the raw bytes of its output.
pub struct Segment {
    pub command: Seq<char>,
    pub output: Seq<u8>,
}

/// Where the output that starts `rest` ends, and how many bytes of `rest`
/// belong to it: up to the next prompt marker (which is consumed, with its
/// BEL when one follows), or up to the next command marker when that comes
/// first, or everything that is left.
#[verifier::opaque]
pub open spec fn split_output(rest: Seq<u8>) -> (Seq<u8>, nat) {
    let prompt = first_occurrence(rest, prompt_marker());
    let next = first_occurrence(rest, command_marker());
    if prompt is Some && next is Some && next->0 < prompt->0 {
        (rest.take(next->0), next->0 as nat)
    } else if prompt is Some {
        let end = prompt->0 + prompt_marker().len();
        let consumed = if end < rest.len() && rest[end] == BEL {
            end + 1
        } else {
            end
        };
        (rest.take(prompt->0), consumed as nat)
    } else if next is Some {
        (rest.take(next->0), next->0 as nat)
    } else {
        (rest, rest.len())
    }
}

/// The command that the first command marker of `rest` announces: its
/// text, trailing whitespace trimmed, and the index where its output starts
/// (right after the marker's BEL). `None` when no command marker follows,
/// when the marker's BEL is missing, or when the text is not UTF-8.
#[verifier::opaque]
pub open spec fn command_header(rest: Seq<u8>) -> Option<(Seq<char>, int)> {
    match first_occurrence(rest, command_marker()) {
        None => None,
        Some(marker) => {
            let command_start = marker + command_marker().len();
            let tail = rest.skip(command_start);
            match first_occurrence(tail, seq![BEL]) {
                None => None,
                Some(len) => {
                    let text = tail.take(len);
                    if !valid_utf8(text) {
                        None
                    } else {
                        Some((trim_end(decode_utf8(text)), command_start + len + 1))
                    }
                },
            }
        },
    }
}

/// The first command of `rest`, with the number of bytes of `rest` that it
/// spans: from the start of `rest` through its output.
pub open spec fn next_segment(rest: Seq<u8>) -> Option<(Segment, nat)> {
    match command_header(rest) {
        None => None,
        Some(header) => {
            let split = split_output(rest.skip(header.1));
            Some(
                (
                    Segment { command: header.0, output: split.0 },
                    (header.1 + split.1) as nat,
                ),
            )
        },
    }
}

/// All the commands of a session, in order.
pub open spec fn segments(rest: Seq<u8>) -> Seq<Segment>
    decreases rest.len(),
{
    match next_segment(rest) {
        Some(found) => if 0 < found.1 <= rest.len() {
            seq![found.0] + segments(rest.skip(found.1 as int))
        } else {
            seq![]
        },
        None => seq![],
    }
}

/// The output of a command starts after its marker and within `rest`.
pub proof fn lemma_command_header_bounds(rest: Seq<u8>)
    ensures
        command_header(rest) matches Some(header) ==> command_marker().len() < header.1
            <= rest.len(),
{
    reveal(command_header);
    if let Some(marker) = first_occurrence(rest, command_marker()) {
        lemma_first_occurrence_exists(
            rest,
            command_marker(),
            choose|i: int| occurs_at(rest, command_marker(), i),
        );
        let command_start = marker + command_marker().len();
        let tail = rest.skip(command_start);
        if first_occurrence(tail, seq![BEL]) is Some {
            lemma_first_occurrence_exists(
                tail,
                seq![BEL],
                choose|i: int| occurs_at(tail, seq![BEL], i),
            );
        }
    }
}

/// What the output of a command spans never exceeds what is left.
pub proof fn lemma_split_output_bounds(rest: Seq<u8>)
    ensures
        split_output(rest).1 <= rest.len(),
        split_output(rest).0.len() <= split_output(rest).1,
        split_output(rest).0 == rest.take(split_output(rest).0.len() as int),
{
    reveal(split_output);
    let prompt = first_occurrence(rest, prompt_marker());
    let next = first_occurrence(rest, command_marker());
    if prompt is Some {
        lemma_first_occurrence_exists(
            rest,
            prompt_marker(),
            choose|i: int| occurs_at(rest, prompt_marker(), i),
        );
    }
    if next is Some {
        lemma_first_occurrence_exists(
            rest,
            command_marker(),
            choose|i: int| occurs_at(rest, command_marker(), i),
        );
    }
    if prompt is None && next is None {
        assert(rest.take(rest.len() as int) =~= rest);
    }
}

/// A found command always spans at least its marker and never more than
/// what is left.
pub proof fn lemma_next_segment_progress(rest: Seq<u8>)
    ensures
        next_segment(rest) matches Some(found) ==> command_marker().len() < found.1 <= rest.len(),
{
    lemma_command_header_bounds(rest);
    if let Some(header) = command_header(rest) {
        lemma_split_output_bounds(rest.skip(header.1));
    }
}

/// The text and output start of the first command of `rest`.
fn read_command_header(rest: &[u8]) -> (r: Option<(String, usize)>)
    ensures
        match command_header(rest@) {
            None => r is None,
            Some(header) => r matches Some(found) && found.0@ == header.0 && found.1 == header.1,
        },
{
    reveal(command_header);
    let command_marker = command_marker_bytes();
    let bel: Vec<u8> = vec![BEL];
    assert(bel@ =~= seq![BEL]);
    proof {
        lemma_marker_shape();
    }
    let marker_offset = match find_subslice(rest, command_marker.as_slice()) {
        Some(k) => k,
        None => return None,
    };
    assert(occurs_at(rest@, command_marker@, marker_offset as int));
    assert(marker_offset + command_marker@.len() <= rest@.len());
    assert(rest@.len() == rest.len());
    let command_start = marker_offset + command_marker.len();
    let marker_tail = slice_subrange(rest, command_start, rest.len());
    assert(marker_tail@ =~= rest@.skip(command_start as int));
    let command_len = match find_subslice(marker_tail, bel.as_slice()) {
        Some(k) => k,
        None => return None,
    };
    let text_bytes = slice_subrange(marker_tail, 0, command_len);
    let text = match str_from_utf8(text_bytes) {
        Some(t) => t,
        None => return None,
    };
    Some((trim_end_str(text), command_start + command_len + 1))
}

/// The output that starts `rest` and the number of bytes it spans.
fn split_command_output(rest: &[u8]) -> (r: (&[u8], usize))
    ensures
        r.0@ == split_output(rest@).0,
        r.1 == split_output(rest@).1,
{
    reveal(split_output);
    proof {
        lemma_marker_shape();
    }
    let prompt_marker = prompt_marker_bytes();
    let command_marker = command_marker_bytes();
    let prompt_offset = find_subslice(rest, prompt_marker.as_slice());
    let command_offset = find_subslice(rest, command_marker.as_slice());
    proof {
        lemma_split_output_bounds(rest@);
    }
    match prompt_offset {
        Some(prompt) => {
            let next_first = match command_offset {
                Some(next) => next < prompt,
                None => false,
            };
            if next_first {
                let next = command_offset.unwrap();
                (slice_subrange(rest, 0, next), next)
            } else {
                assert(rest@.len() == rest.len());
                assert(occurs_at(rest@, prompt_marker@, prompt as int));
                let mut end = prompt + prompt_marker.len();
                if end < rest.len() && rest[end] == BEL {
                    end = end + 1;
                }
                (slice_subrange(rest, 0, prompt), end)
            }
        },
        None => match command_offset {
            Some(next) => (slice_subrange(rest, 0, next), next),
            None => {
                assert(rest@.take(rest@.len() as int) =~= rest@);
                (rest, rest.len())
            },
        },
    }
}

/// One command: its text (taken from its marker, trailing whitespace
/// trimmed) and its raw output bytes.
pub struct Command<'a> {
    pub command: String,
    pub output: &'a [u8],
}

/// Splits a raw typescript into commands on the OSC 777 markers.
///
/// Bytes before the first command marker (shell banner, setup) are dropped.
pub struct Commands<'a> {
    data: &'a [u8],
    pos: usize,
}

impl<'a> Commands<'a> {
    #[verifier::type_invariant]
    spec fn position_in_bounds(&self) -> bool {
        self.pos <= self.data@.len()
    }

    /// The bytes that are still to be split.
    pub closed spec fn rest(&self) -> Seq<u8> {
        self.data@.skip(self.pos as int)
    }

    /// A splitter positioned at the start of `data`.
    pub fn new(data: &'a [u8]) -> (c: Self)
        ensures
            c.rest() == data@,
    {
        let c = Commands { data, pos: 0 };
        assert(data@.skip(0) =~= data@);
        c
    }

    /// The next command, if one follows.
    ///
    /// Once it returns `None`, nothing is consumed and it keeps returning
    /// `None`.
    pub fn next(&mut self) -> (r: Option<Command<'a>>)
        ensures
            match next_segment(old(self).rest()) {
                None => r is None && final(self).rest() == old(self).rest(),
                Some(found) => r matches Some(c) && c.command@ == found.0.command && c.output@
                    == found.0.output && final(self).rest() == old(self).rest().skip(
                    found.1 as int,
                ),
            },
    {
        proof {
            use_type_invariant(&*self);
            lemma_next_segment_progress(old(self).rest());
            lemma_command_header_bounds(old(self).rest());
        }
        let data = self.data;
        let pos = self.pos;
        let rest = slice_subrange(data, pos, data.len());
        let (command, output_start) = match read_command_header(rest) {
            Some(header) => header,
            None => return None,
        };
        let output_rest = slice_subrange(rest, output_start, rest.len());
        let (output, consumed) = split_command_output(output_rest);
        proof {
            lemma_split_output_bounds(output_rest@);
        }
        self.pos = pos + output_start + consumed;
        assert(data@.skip(self.pos as int) =~= rest@.skip(output_start + consumed));
        Some(Command { command, output })
    }
}

/// The segments of `rest` are its first command followed by the segments
/// of what comes after it.
pub proof fn lemma_segments_unfold(rest: Seq<u8>)
    ensures
        match next_segment(rest) {
            None => segments(rest) == Seq::<Segment>::empty(),
            Some(found) => segments(rest) == seq![found.0] + segments(rest.skip(found.1 as int)),
        },
{
    lemma_next_segment_progress(rest);
}

/// `command` holds the text and output of `segment`.
pub open spec fn command_matches(command: Command, segment: Segment) -> bool {
    command.command@ == segment.command && command.output@ == segment.output
}

/// All the commands of `data`, in order.
pub fn collect_commands<'a>(data: &'a [u8]) -> (v: Vec<Command<'a>>)
    ensures
        v.len() == segments(data@).len(),
        forall|i: int| 0 <= i < v.len() ==> command_matches(#[trigger] v[i], segments(data@)[i]),
{
    let mut commands = Commands::new(data);
    let mut v: Vec<Command<'a>> = Vec::new();
    loop
        invariant
            v.len() + segments(commands.rest()).len() == segments(data@).len(),
            forall|i: int| 0 <= i < v.len() ==> command_matches(#[trigger] v[i], segments(data@)[i]),
            forall|i: int|
                0 <= i < segments(commands.rest()).len() ==> #[trigger] segments(
                    commands.rest(),
                )[i] == segments(data@)[v.len() + i],
        decreases commands.rest().len(),
    {
        let ghost before = commands.rest();
        proof {
            lemma_segments_unfold(before);
            lemma_next_segment_progress(before);
        }
        match commands.next() {
            None => {
                return v;
            },
            Some(command) => {
                let ghost found = next_segment(before)->0;
                assert(segments(before)[0] == found.0);
                assert forall|i: int|
                    0 <= i < segments(commands.rest()).len() implies #[trigger] segments(
                    commands.rest(),
                )[i] == segments(data@)[v.len() + 1 + i] by {
                    assert(segments(before)[i + 1] == segments(commands.rest())[i]);
                }
                v.push(command);
            },
        }
    }
}

/// An occurrence inside a prefix of `hay` is an occurrence in `hay`.
pub proof fn lemma_occurs_in_prefix(hay: Seq<u8>, needle: Seq<u8>, x: int, j: int)
    requires
        0 <= x <= hay.len(),
        occurs_at(hay.take(x), needle, j),
    ensures
        occurs_at(hay, needle, j),
        j + needle.len() <= x,
{
    assert(hay.take(x).subrange(j, j + needle.len()) =~= hay.subrange(j, j + needle.len()));
}

/// No occurrence of `needle` starts before index `x` of `hay`, so none
/// stands whole inside `hay.take(x)`.
pub proof fn lemma_prefix_before_first(hay: Seq<u8>, needle: Seq<u8>, x: int)
    requires
        0 <= x <= hay.len(),
        needle.len() > 0,
        forall|j: int| 0 <= j < x ==> !occurs_at(hay, needle, j),
    ensures
        forall|j: int| !occurs_at(hay.take(x), needle, j),
{
    assert forall|j: int| !occurs_at(hay.take(x), needle, j) by {
        if occurs_at(hay.take(x), needle, j) {
            lemma_occurs_in_prefix(hay, needle, x, j);
        }
    }
}

/// The output of a command holds no whole marker.
pub proof fn lemma_split_output_has_no_marker(rest: Seq<u8>)
    ensures
        forall|j: int| !occurs_at(split_output(rest).0, command_marker(), j),
        forall|j: int| !occurs_at(split_output(rest).0, prompt_marker(), j),
{
    reveal(split_output);
    let prompt = first_occurrence(rest, prompt_marker());
    let next = first_occurrence(rest, command_marker());
    lemma_marker_shape();
    if let Some(p) = prompt {
        lemma_first_occurrence_exists(
            rest,
            prompt_marker(),
            choose|i: int| occurs_at(rest, prompt_marker(), i),
        );
    }
    if let Some(n) = next {
        lemma_first_occurrence_exists(
            rest,
            command_marker(),
            choose|i: int| occurs_at(rest, command_marker(), i),
        );
    }
    if prompt is Some && next is Some && next->0 < prompt->0 {
        let n = next->0;
        lemma_prefix_before_first(rest, command_marker(), n);
        lemma_prefix_before_first(rest, prompt_marker(), n);
    } else if prompt is Some {
        let p = prompt->0;
        lemma_prefix_before_first(rest, prompt_marker(), p);
        assert forall|j: int| 0 <= j < p implies !occurs_at(rest, command_marker(), j) by {
            if occurs_at(rest, command_marker(), j) {
                lemma_first_occurrence_exists(rest, command_marker(), j);
            }
        }
        lemma_prefix_before_first(rest, command_marker(), p);
    } else if next is Some {
        let n = next->0;
        lemma_prefix_before_first(rest, command_marker(), n);
        assert forall|j: int| 0 <= j < n implies !occurs_at(rest, prompt_marker(), j) by {
            if occurs_at(rest, prompt_marker(), j) {
                lemma_first_occurrence_exists(rest, prompt_marker(), j);
            }
        }
        lemma_prefix_before_first(rest, prompt_marker(), n);
    } else {
        assert forall|j: int| !occurs_at(rest, prompt_marker(), j) by {
            if occurs_at(rest, prompt_marker(), j) {
                lemma_first_occurrence_exists(rest, prompt_marker(), j);
            }
        }
        assert forall|j: int| !occurs_at(rest, command_marker(), j) by {
            if occurs_at(rest, command_marker(), j) {
                lemma_first_occurrence_exists(rest, command_marker(), j);
            }
        }
    }
}

/// `bytes` holds neither marker whole.
pub open spec fn holds_no_marker(bytes: Seq<u8>) -> bool {
    &&& forall|j: int| !occurs_at(bytes, command_marker(), j)
    &&& forall|j: int| !occurs_at(bytes, prompt_marker(), j)
}

/// The output of every command ends before the next marker: no command's
/// output holds a whole command marker or prompt marker.
pub proof fn law_outputs_hold_no_marker(data: Seq<u8>)
    ensures
        forall|i: int|
            0 <= i < segments(data).len() ==> holds_no_marker(#[trigger] segments(data)[i].output),
    decreases data.len(),
{
    lemma_segments_unfold(data);
    if let Some(found) = next_segment(data) {
        lemma_next_segment_progress(data);
        let after = data.skip(found.1 as int);
        law_outputs_hold_no_marker(after);
        lemma_command_header_bounds(data);
        let header = command_header(data)->0;
        lemma_split_output_has_no_marker(data.skip(header.1));
        assert forall|i: int| 0 <= i < segments(data).len() implies holds_no_marker(
            #[trigger] segments(data)[i].output,
        ) by {
            if i > 0 {
                assert(segments(data)[i] == segments(after)[i - 1]);
            }
        }
    }
}

/// Cutting a session at its first command marker keeps the header of that
/// command, shifted by the cut.
#[verifier::spinoff_prover]
#[verifier::rlimit(60)]
proof fn lemma_command_header_cut(data: Seq<u8>, k: int)
    requires
        first_occurrence(data, command_marker()) == Some(k),
    ensures
        match command_header(data) {
            None => command_header(data.skip(k)) is None,
            Some(header) => command_header(data.skip(k)) == Some((header.0, header.1 - k)),
        },
{
    reveal(command_header);
    lemma_first_occurrence_exists(
        data,
        command_marker(),
        choose|i: int| occurs_at(data, command_marker(), i),
    );
    let cut = data.skip(k);
    lemma_marker_shape();
    assert(cut.subrange(0, 22) =~= data.subrange(k, k + 22));
    lemma_first_occurrence_is(cut, command_marker(), 0);
    assert(cut.skip(22) =~= data.skip(k + 22));
}

/// Cutting a session at its first command marker keeps its first command,
/// and shifts the span of that command by the cut.
proof fn lemma_next_segment_cut(data: Seq<u8>, k: int)
    requires
        first_occurrence(data, command_marker()) == Some(k),
    ensures
        0 <= k <= data.len(),
        match next_segment(data) {
            None => next_segment(data.skip(k)) is None,
            Some(found) => next_segment(data.skip(k)) == Some((found.0, (found.1 - k) as nat))
                && k <= found.1,
        },
{
    lemma_first_occurrence_exists(
        data,
        command_marker(),
        choose|i: int| occurs_at(data, command_marker(), i),
    );
    let cut = data.skip(k);
    lemma_command_header_cut(data, k);
    lemma_command_header_bounds(cut);
    if let Some(header) = command_header(data) {
        assert(cut.skip(header.1 - k) =~= data.skip(header.1));
    }
}

/// Bytes before the first command marker (a shell banner, setup typed
/// before the hook was loaded) are dropped: the commands of a session are
/// those of the session cut at its first command marker, and a session with
/// no command marker has no commands.
pub proof fn law_leading_bytes_are_dropped(data: Seq<u8>)
    ensures
        first_occurrence(data, command_marker()) matches Some(k) ==> segments(data) == segments(
            data.skip(k),
        ),
        first_occurrence(data, command_marker()) is None ==> segments(data).len() == 0,
{
    lemma_segments_unfold(data);
    if let Some(k) = first_occurrence(data, command_marker()) {
        let cut = data.skip(k);
        lemma_next_segment_cut(data, k);
        lemma_next_segment_progress(data);
        lemma_segments_unfold(cut);
        if let Some(found) = next_segment(data) {
            assert(cut.skip(found.1 - k) =~= data.skip(found.1 as int));
        }
    } else {
        reveal(command_header);
    }
}

/// The command line in a header is already trimmed.
proof fn lemma_command_header_trimmed(rest: Seq<u8>)
    ensures
        command_header(rest) matches Some(header) ==> trim_end(header.0) == header.0,
{
    reveal(command_header);
    if let Some(marker) = first_occurrence(rest, command_marker()) {
        let tail = rest.skip(marker + command_marker().len());
        if let Some(len) = first_occurrence(tail, seq![BEL]) {
            lemma_trim_end_shape(decode_utf8(tail.take(len)));
        }
    }
}

/// Every command line of a session ends in something other than
/// whitespace: trimming it again changes nothing.
pub proof fn law_command_lines_are_trimmed(data: Seq<u8>)
    ensures
        forall|i: int|
            0 <= i < segments(data).len() ==> trim_end(#[trigger] segments(data)[i].command)
                == segments(data)[i].command,
    decreases data.len(),
{
    lemma_segments_unfold(data);
    if let Some(found) = next_segment(data) {
        lemma_next_segment_progress(data);
        let after = data.skip(found.1 as int);
        law_command_lines_are_trimmed(after);
        lemma_command_header_trimmed(data);
        assert forall|i: int| 0 <= i < segments(data).len() implies trim_end(
            #[trigger] segments(data)[i].command,
        ) == segments(data)[i].command by {
            if i > 0 {
                assert(segments(data)[i] == segments(after)[i - 1]);
            }
        }
    }
}

/// Where each command of `rest` lies: the index of its command marker, and
/// the indices where its output starts and ends.
#[verifier::opaque]
pub open spec fn segment_spans(rest: Seq<u8>) -> Seq<(int, int, int)>
    decreases rest.len(),
{
    match next_segment(rest) {
        Some(found) => if 0 < found.1 <= rest.len() {
            let marker = first_occurrence(rest, command_marker())->0;
            let start = (command_header(rest)->0).1;
            let here = (marker, start, start + found.0.output.len());
            let n = found.1 as int;
            seq![here] + segment_spans(rest.skip(n)).map_values(
                |span: (int, int, int)| (span.0 + n, span.1 + n, span.2 + n),
            )
        } else {
            seq![]
        },
        None => seq![],
    }
}

/// The span of a command is where it lies in `data`: a command marker,
/// then its output, whose bytes are those of `data` there.
#[verifier::opaque]
pub open spec fn span_fits(data: Seq<u8>, span: (int, int, int), segment: Segment) -> bool {
    &&& occurs_at(data, command_marker(), span.0)
    &&& span.0 + command_marker().len() < span.1 <= span.2 <= data.len()
    &&& data.subrange(span.1, span.2) == segment.output
}

/// The spans of `rest` are that of its first command followed by those of
/// what comes after it, shifted.
proof fn lemma_segment_spans_unfold(rest: Seq<u8>)
    ensures
        match next_segment(rest) {
            None => segment_spans(rest) == Seq::<(int, int, int)>::empty(),
            Some(found) => segment_spans(rest) == seq![
                (
                    first_occurrence(rest, command_marker())->0,
                    (command_header(rest)->0).1,
                    (command_header(rest)->0).1 + found.0.output.len(),
                ),
            ] + segment_spans(rest.skip(found.1 as int)).map_values(
                |span: (int, int, int)|
                    (span.0 + found.1 as int, span.1 + found.1 as int, span.2 + found.1 as int),
            ),
        },
{
    reveal(segment_spans);
    lemma_next_segment_progress(rest);
}

/// A command's output starts after its own marker.
proof fn lemma_command_header_after_marker(rest: Seq<u8>)
    ensures
        command_header(rest) matches Some(header) ==> first_occurrence(
            rest,
            command_marker(),
        ) matches Some(marker) && occurs_at(rest, command_marker(), marker) && marker
            + command_marker().len() < header.1 <= rest.len(),
{
    reveal(command_header);
    if let Some(marker) = first_occurrence(rest, command_marker()) {
        lemma_first_occurrence_exists(
            rest,
            command_marker(),
            choose|i: int| occurs_at(rest, command_marker(), i),
        );
        let tail = rest.skip(marker + command_marker().len());
        if first_occurrence(tail, seq![BEL]) is Some {
            lemma_first_occurrence_exists(
                tail,
                seq![BEL],
                choose|i: int| occurs_at(tail, seq![BEL], i),
            );
        }
    }
}

/// The first command of `rest` lies within what it spans.
#[verifier::spinoff_prover]
#[verifier::rlimit(60)]
proof fn lemma_first_span(rest: Seq<u8>)
    requires
        next_segment(rest) is Some,
    ensures
        ({
            let found = next_segment(rest)->0;
            let marker = first_occurrence(rest, command_marker())->0;
            let start = (command_header(rest)->0).1;
            &&& span_fits(rest, (marker, start, start + found.0.output.len()), found.0)
            &&& start + found.0.output.len() <= found.1
        }),
{
    reveal(span_fits);
    lemma_command_header_after_marker(rest);
    let start = (command_header(rest)->0).1;
    let out = rest.skip(start);
    lemma_split_output_bounds(out);
    let output = split_output(out).0;
    assert(rest.subrange(start, start + output.len()) =~= out.take(output.len() as int));
}

/// A span that fits in a suffix of `data` fits in `data`, shifted.
proof fn lemma_span_shift(data: Seq<u8>, n: int, span: (int, int, int), segment: Segment)
    requires
        0 <= n <= data.len(),
        span_fits(data.skip(n), span, segment),
    ensures
        span_fits(data, (span.0 + n, span.1 + n, span.2 + n), segment),
        n <= span.0 + n,
{
    reveal(span_fits);
    let after = data.skip(n);
    lemma_marker_shape();
    assert(after.subrange(span.0, span.0 + 22) =~= data.subrange(span.0 + n, span.0 + n + 22));
    assert(after.subrange(span.1, span.2) =~= data.subrange(span.1 + n, span.2 + n));
}

/// Each command of a session lies after its own command marker, with its
/// output taken whole from the session's bytes, and the commands lie in the
/// session in order without overlapping: each one ends before the next
/// one's marker. So there are never more commands than command markers.
pub proof fn law_segments_lie_in_order(data: Seq<u8>)
    ensures
        segment_spans(data).len() == segments(data).len(),
        forall|i: int|
            0 <= i < segments(data).len() ==> span_fits(
                data,
                #[trigger] segment_spans(data)[i],
                segments(data)[i],
            ),
        forall|i: int, j: int|
            0 <= i < j < segments(data).len() ==> #[trigger] segment_spans(data)[i].2
                <= #[trigger] segment_spans(data)[j].0,
    decreases data.len(),
{
    lemma_segments_unfold(data);
    lemma_segment_spans_unfold(data);
    if let Some(found) = next_segment(data) {
        lemma_next_segment_progress(data);
        lemma_first_span(data);
        let n = found.1 as int;
        let after = data.skip(n);
        law_segments_lie_in_order(after);
        let spans = segment_spans(data);
        let later = segment_spans(after);
        let segs = segments(data);
        assert(segs == seq![found.0] + segments(after));
        assert forall|i: int| 0 <= i < segs.len() implies span_fits(
            data,
            #[trigger] spans[i],
            segs[i],
        ) by {
            if i > 0 {
                let s = later[i - 1];
                assert(spans[i] == (s.0 + n, s.1 + n, s.2 + n));
                assert(segs[i] == segments(after)[i - 1]);
                lemma_span_shift(data, n, s, segs[i]);
            }
        }
        assert forall|i: int, j: int| 0 <= i < j < segs.len() implies #[trigger] spans[i].2
            <= #[trigger] spans[j].0 by {
            let s = later[j - 1];
            assert(spans[j] == (s.0 + n, s.1 + n, s.2 + n));
            lemma_span_shift(data, n, s, segments(after)[j - 1]);
            if i > 0 {
                let r = later[i - 1];
                assert(spans[i] == (r.0 + n, r.1 + n, r.2 + n));
            }
        }
    }
}

/// The session that records one command: the command marker, the
/// command's bytes, the BEL, then the output.
pub open spec fn one_command_session(command: Seq<u8>, output: Seq<u8>) -> Seq<u8> {
    command_marker() + command + seq![BEL] + output
}

/// The header of a one-command session: the command's text, and its
/// output right after the BEL.
#[verifier::spinoff_prover]
#[verifier::rlimit(50)]
pub(crate) proof fn lemma_one_command_header(command: Seq<u8>, output: Seq<u8>)
    requires
        valid_utf8(command),
        forall|i: int| 0 <= i < command.len() ==> command[i] != BEL,
    ensures
        command_header(one_command_session(command, output)) == Some(
            (trim_end(decode_utf8(command)), (command_marker().len() + command.len() + 1) as int),
        ),
{
    let s = one_command_session(command, output);
    let cm = command_marker();
    let n = command.len() as int;
    lemma_marker_shape();
    assert(s.subrange(0, cm.len() as int) =~= cm);
    lemma_first_occurrence_is(s, cm, 0);
    let tail = s.skip(cm.len() as int);
    assert(tail =~= command + seq![BEL] + output);
    assert(tail.subrange(n, n + 1) =~= seq![BEL]);
    assert forall|j: int| 0 <= j < n implies !occurs_at(tail, seq![BEL], j) by {
        assert(tail.subrange(j, j + 1)[0] == command[j]);
    }
    lemma_first_occurrence_is(tail, seq![BEL], n);
    assert(tail.take(n) =~= command);
    reveal(command_header);
}

/// Output that holds no marker is taken whole.
proof fn lemma_split_output_whole(output: Seq<u8>)
    requires
        holds_no_marker(output),
    ensures
        split_output(output) == (output, output.len()),
{
    reveal(split_output);
}

/// Nothing holds no command.
proof fn lemma_no_segments_in_nothing()
    ensures
        segments(Seq::<u8>::empty()).len() == 0,
{
    lemma_marker_shape();
    reveal(command_header);
    assert(first_occurrence(Seq::<u8>::empty(), command_marker()) is None);
    lemma_segments_unfold(Seq::<u8>::empty());
}

/// A command recorded alone is read back as itself: a session of one
/// command whose text is UTF-8 without a BEL, and whose output holds no
/// marker, splits into exactly that command, its text trimmed at the end,
/// with exactly that output.
pub proof fn law_one_command_session(command: Seq<u8>, output: Seq<u8>)
    requires
        valid_utf8(command),
        forall|i: int| 0 <= i < command.len() ==> command[i] != BEL,
        holds_no_marker(output),
    ensures
        segments(one_command_session(command, output)).len() == 1,
        segments(one_command_session(command, output))[0].command == trim_end(
            decode_utf8(command),
        ),
        segments(one_command_session(command, output))[0].output == output,
{
    let s = one_command_session(command, output);
    let n = command.len() as int;
    lemma_marker_shape();
    lemma_one_command_header(command, output);
    let after = s.skip(command_marker().len() + n + 1);
    assert(after =~= output);
    lemma_split_output_whole(output);
    lemma_segments_unfold(s);
    let rest = s.skip(s.len() as int);
    assert(rest =~= Seq::<u8>::empty());
    lemma_no_segments_in_nothing();
    assert(segments(s) =~= seq![segments(s)[0]]);
}

} // verus!
