//! Assembly of a transcript: one section per recorded command.

use vstd::prelude::*;
use vstd::utf8::*;

use crate::transcript::parser::{
    collect_commands, command_matches, law_one_command_session, law_outputs_hold_no_marker,
    one_command_session, segments, BEL,
};
use crate::transcript::screen::{
    can_replay, fits_screen, render_segment, replayable, rows_text, screen_cells, screen_rows, screen_text,
    tidy_text,
};

verus! {

/// A moment in UTC: whole seconds since the Unix epoch and the nanoseconds
/// past that second.
#[derive(Clone, Copy, Debug, PartialEq, Eq)]
pub struct Timestamp {
    pub seconds: i64,
    pub nanoseconds: u32,
}

/// One recorded command: the command line plus its rendered output.
#[derive(Debug)]
pub struct Section {
    pub command: String,
    pub output: String,
}

/// A reconstructed recording: an ordered list of command sections.
#[derive(Debug)]
pub struct Transcript {
    pub name: String,
    pub started_ts: Timestamp,
    pub sections: Vec<Section>,
}

/// The section that a replay on a `columns` × `lines` screen makes of the
/// command `command` with raw output `output`.
pub open spec fn section_of(command: Seq<char>, output: Seq<u8>, columns: usize, lines: usize) -> (
    Seq<char>,
    Seq<char>,
) {
    (command, screen_text(screen_cells(output, columns, lines)))
}

/// Every command's output in `data` can be replayed on a `columns` ×
/// `lines` screen. A recording without commands needs no screen at all.
pub open spec fn replayable_recording(data: Seq<u8>, columns: usize, lines: usize) -> bool {
    forall|i: int|
        0 <= i < segments(data).len() ==> replayable(
            #[trigger] segments(data)[i].output,
            columns,
            lines,
        )
}

/// `t` is the transcript of `data`, named `name`, started at `started_ts`
/// and replayed on a `columns` × `lines` screen: one section per command,
/// in order, each with the command's line and the text its output leaves
/// on a fresh screen. That text is tidy and, for screens of up to
/// `i32::MAX` lines, fits the screen and is the screen's rows that hold
/// more than whitespace.
pub open spec fn replay_of(
    t: Transcript,
    data: Seq<u8>,
    name: Seq<char>,
    started_ts: Timestamp,
    columns: usize,
    lines: usize,
) -> bool {
    &&& t.name@ == name
    &&& t.started_ts == started_ts
    &&& t.sections.len() == segments(data).len()
    &&& forall|i: int|
        0 <= i < t.sections.len() ==> (#[trigger] t.sections[i].command@, t.sections[i].output@)
            == section_of(segments(data)[i].command, segments(data)[i].output, columns, lines)
    &&& forall|i: int| 0 <= i < t.sections.len() ==> tidy_text(#[trigger] t.sections[i].output@)
    &&& lines <= i32::MAX ==> forall|i: int|
        0 <= i < t.sections.len() ==> fits_screen(#[trigger] t.sections[i].output@, columns, lines)
    &&& lines <= i32::MAX ==> forall|i: int|
        0 <= i < t.sections.len() ==> #[trigger] t.sections[i].output@ == rows_text(
            screen_rows(screen_cells(segments(data)[i].output, columns, lines), columns, lines),
        )
}

impl Transcript {
    /// Replay a raw recording through the terminal emulator, splitting it
    /// into one section per command.
    pub fn from_recording(
        data: &[u8],
        name: String,
        started_ts: Timestamp,
        cmd_width: usize,
        cmd_height: usize,
    ) -> (t: Self)
        requires
            replayable_recording(data@, cmd_width, cmd_height),
        ensures
            replay_of(t, data@, name@, started_ts, cmd_width, cmd_height),
    {
        let commands = collect_commands(data);
        let mut sections: Vec<Section> = Vec::new();
        let mut i: usize = 0;
        while i < commands.len()
            invariant
                forall|k: int|
                    0 <= k < segments(data@).len() ==> replayable(
                        #[trigger] segments(data@)[k].output,
                        cmd_width,
                        cmd_height,
                    ),
                i <= commands.len(),
                commands.len() == segments(data@).len(),
                forall|j: int|
                    0 <= j < commands.len() ==> command_matches(#[trigger] commands[j], segments(data@)[j]),
                sections.len() == i,
                forall|j: int|
                    0 <= j < i ==> (#[trigger] sections[j].command@, sections[j].output@) == section_of(
                        segments(data@)[j].command,
                        segments(data@)[j].output,
                        cmd_width,
                        cmd_height,
                    ),
                forall|j: int| 0 <= j < i ==> tidy_text(#[trigger] sections[j].output@),
                cmd_height <= i32::MAX ==> forall|j: int|
                    0 <= j < i ==> fits_screen(#[trigger] sections[j].output@, cmd_width, cmd_height),
                cmd_height <= i32::MAX ==> forall|j: int|
                    0 <= j < i ==> #[trigger] sections[j].output@ == rows_text(
                        screen_rows(
                            screen_cells(segments(data@)[j].output, cmd_width, cmd_height),
                            cmd_width,
                            cmd_height,
                        ),
                    ),
            decreases commands.len() - i,
        {
            let command = &commands[i];
            assert(command_matches(commands[i as int], segments(data@)[i as int]));
            assert(replayable(segments(data@)[i as int].output, cmd_width, cmd_height));
            let output = render_segment(command.output, cmd_width, cmd_height);
            sections.push(Section { command: command.command.clone(), output });
            i = i + 1;
        }
        Transcript { name, started_ts, sections }
    }

    /// Replay a raw recording when the emulator can replay the output of
    /// every command on the screen; `None` when it cannot.
    pub fn try_from_recording(
        data: &[u8],
        name: String,
        started_ts: Timestamp,
        cmd_width: usize,
        cmd_height: usize,
    ) -> (r: Option<Self>)
        ensures
            r is Some <==> replayable_recording(data@, cmd_width, cmd_height),
            r matches Some(t) ==> replay_of(t, data@, name@, started_ts, cmd_width, cmd_height),
    {
        let commands = collect_commands(data);
        let mut i: usize = 0;
        while i < commands.len()
            invariant
                i <= commands.len(),
                commands.len() == segments(data@).len(),
                forall|j: int|
                    0 <= j < commands.len() ==> command_matches(#[trigger] commands[j], segments(data@)[j]),
                forall|k: int|
                    0 <= k < i ==> replayable(#[trigger] segments(data@)[k].output, cmd_width, cmd_height),
            decreases commands.len() - i,
        {
            assert(command_matches(commands[i as int], segments(data@)[i as int]));
            if !can_replay(commands[i].output, cmd_width, cmd_height) {
                return None;
            }
            i = i + 1;
        }
        Some(Transcript::from_recording(data, name, started_ts, cmd_width, cmd_height))
    }
}


/// No state carries over from one section to the next: the output of each
/// command reads as it would in a session that recorded that command alone,
/// whatever text that command had, and that session can be replayed on
/// any screen on which the whole recording can.
pub proof fn law_sections_replay_alone(
    data: Seq<u8>,
    i: int,
    command: Seq<u8>,
    columns: usize,
    lines: usize,
)
    requires
        0 <= i < segments(data).len(),
        valid_utf8(command),
        forall|k: int| 0 <= k < command.len() ==> command[k] != BEL,
    ensures
        replayable_recording(data, columns, lines) ==> replayable_recording(
            one_command_session(command, segments(data)[i].output),
            columns,
            lines,
        ),
        ({
            let alone = segments(one_command_session(command, segments(data)[i].output));
            &&& alone.len() == 1
            &&& section_of(alone[0].command, alone[0].output, columns, lines).1 == section_of(
                segments(data)[i].command,
                segments(data)[i].output,
                columns,
                lines,
            ).1
        }),
{
    law_outputs_hold_no_marker(data);
    law_one_command_session(command, segments(data)[i].output);
}

} // verus!
