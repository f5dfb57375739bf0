//! The `run` subcommand: record a session, replay it, store the transcript.

use vstd::prelude::*;

use crate::config::Config;
use crate::paths::{
    joined, new_recording_path, new_typescript_path, recordings_dir, stamped_name, typescript_dir,
};
use crate::text::{decimal, decimal_chars, signed_decimal, signed_decimal_chars, string_from_chars};
use crate::ui::{Status, StatusLine};

verus! {

/// Arguments for the `run` subcommand.
#[derive(Debug)]
pub struct RunArguments {
    /// Name of the recording: the base name of the stored files and the
    /// transcript's title; also exported to the recording session as
    /// `TERMREC_RECORDING_NAME`.
    pub name: String,
    /// Terminal height (in rows) used when replaying the recording.
    pub cmd_height: Option<usize>,
    /// Terminal width (in columns) used when replaying the recording.
    pub cmd_width: Option<usize>,
}

/// Why `run` refuses to record.
#[derive(Clone, Copy, Debug, PartialEq, Eq)]
pub enum RunRefusal {
    /// The environment says a recording is already running: sessions never
    /// nest.
    AlreadyRecording,
    /// No shell hook announced itself, so there would be no command
    /// boundaries to split on.
    HookMissing,
}

/// Whether a recording may start: not inside another one
/// (`TERMREC_ACTIVE` set), and only with a shell hook installed
/// (`TERMREC_SUPPORT_ENABLED` set). The nesting check comes first.
pub fn check_run_allowed(already_recording: bool, hook_installed: bool) -> (r: Result<(), RunRefusal>)
    ensures
        already_recording ==> r == Err::<(), RunRefusal>(RunRefusal::AlreadyRecording),
        !already_recording && !hook_installed ==> r == Err::<(), RunRefusal>(
            RunRefusal::HookMissing,
        ),
        !already_recording && hook_installed ==> r is Ok,
{
    if already_recording {
        Err(RunRefusal::AlreadyRecording)
    } else if !hook_installed {
        Err(RunRefusal::HookMissing)
    } else {
        Ok(())
    }
}

fn status_line(status: Status, message: &str) -> (l: StatusLine)
    ensures
        l.status == status,
        l.message@ == message@,
{
    StatusLine { status, message: String::from_str(message) }
}

impl RunRefusal {
    /// The lines printed when `run` refuses, before it exits with status 1.
    pub fn status_lines(&self) -> (lines: Vec<StatusLine>)
        ensures
            *self == RunRefusal::AlreadyRecording ==> {
                &&& lines.len() == 2
                &&& lines[0].status == Status::Error
                &&& lines[0].message@ == "Already running inside a termrec session."@
                &&& lines[1].status == Status::Info
                &&& lines[1].message@ == "Run `termrec run` from a plain terminal instead."@
            },
            *self == RunRefusal::HookMissing ==> {
                &&& lines.len() == 5
                &&& lines[0].status == Status::Error
                &&& lines[0].message@ == "termrec requires its shell support hook to be installed."@
                &&& lines[1].status == Status::Detail
                &&& lines[1].message@
                    == "Source the hook for your shell and add it to your startup file:"@
                &&& lines[2].status == Status::Detail
                &&& lines[2].message@ == "  bash: https://github.com/termrec/termrec.sh"@
                &&& lines[3].status == Status::Detail
                &&& lines[3].message@ == "  zsh:  https://github.com/termrec/termrec.zsh"@
                &&& lines[4].status == Status::Detail
                &&& lines[4].message@ == "  fish: https://github.com/termrec/termrec.fish"@
            },
    {
        let mut lines: Vec<StatusLine> = Vec::new();
        match self {
            RunRefusal::AlreadyRecording => {
                lines.push(status_line(Status::Error, "Already running inside a termrec session."));
                lines.push(
                    status_line(Status::Info, "Run `termrec run` from a plain terminal instead."),
                );
            },
            RunRefusal::HookMissing => {
                lines.push(
                    status_line(
                        Status::Error,
                        "termrec requires its shell support hook to be installed.",
                    ),
                );
                lines.push(
                    status_line(
                        Status::Detail,
                        "Source the hook for your shell and add it to your startup file:",
                    ),
                );
                lines.push(
                    status_line(Status::Detail, "  bash: https://github.com/termrec/termrec.sh"),
                );
                lines.push(
                    status_line(Status::Detail, "  zsh:  https://github.com/termrec/termrec.zsh"),
                );
                lines.push(
                    status_line(Status::Detail, "  fish: https://github.com/termrec/termrec.fish"),
                );
            },
        }
        lines
    }
}

/// What a recording needs once it may start.
#[derive(Debug)]
pub struct RunPlan {
    /// Replay width: flag, then config file, then 80.
    pub cmd_width: usize,
    /// Replay height: flag, then config file, then 1000.
    pub cmd_height: usize,
    /// Environment exported to the recording session: `TERMREC_ACTIVE=1`,
    /// so the hooks know they are inside a recording, and
    /// `TERMREC_RECORDING_NAME`, for external tools.
    pub session_env: Vec<(String, String)>,
    /// Directories to create first: the recordings', then the typescripts'.
    pub directories: Vec<String>,
    /// Where the raw session bytes go.
    pub typescript_path: String,
    /// Where the transcript goes.
    pub recording_path: String,
}

/// The plan of a recording named by `args`, started at Unix time `started`,
/// with its files under `data_dir`.
pub fn plan_run(args: &RunArguments, config: &Config, data_dir: &str, started: i64) -> (p: RunPlan)
    ensures
        p.cmd_width == config.cmd_width(args.cmd_width),
        p.cmd_height == config.cmd_height(args.cmd_height),
        p.session_env.len() == 2,
        p.session_env[0].0@ == "TERMREC_ACTIVE"@,
        p.session_env[0].1@ == "1"@,
        p.session_env[1].0@ == "TERMREC_RECORDING_NAME"@,
        p.session_env[1].1@ == args.name@,
        p.directories.len() == 2,
        p.directories[0]@ == joined(data_dir@, "recordings"@),
        p.directories[1]@ == joined(data_dir@, "typescripts"@),
        p.typescript_path@ == joined(
            joined(data_dir@, "typescripts"@),
            stamped_name(args.name@, started),
        ),
        p.recording_path@ == joined(
            joined(data_dir@, "recordings"@),
            stamped_name(args.name@, started) + ".json"@,
        ),
{
    let mut session_env: Vec<(String, String)> = Vec::new();
    session_env.push((String::from_str("TERMREC_ACTIVE"), String::from_str("1")));
    session_env.push((String::from_str("TERMREC_RECORDING_NAME"), args.name.clone()));
    let mut directories: Vec<String> = Vec::new();
    directories.push(recordings_dir(data_dir));
    directories.push(typescript_dir(data_dir));
    RunPlan {
        cmd_width: config.cmd_width(args.cmd_width),
        cmd_height: config.cmd_height(args.cmd_height),
        session_env,
        directories,
        typescript_path: new_typescript_path(data_dir, args.name.as_str(), started),
        recording_path: new_recording_path(data_dir, args.name.as_str(), started),
    }
}

/// Whole minutes in `seconds`, rounded toward zero.
pub open spec fn whole_minutes(seconds: int) -> int {
    if seconds >= 0 {
        seconds / 60
    } else {
        -((-seconds) / 60)
    }
}

/// A duration in seconds as a compact human string (`42s`, `1m 12s`):
/// whole minutes when there are any, then the seconds left over.
pub open spec fn duration_text(seconds: int) -> Seq<char> {
    let minutes = whole_minutes(seconds);
    let secs = seconds - 60 * minutes;
    if minutes == 0 {
        signed_decimal(secs) + "s"@
    } else {
        signed_decimal(minutes) + "m "@ + signed_decimal(secs) + "s"@
    }
}

/// Format a duration in seconds as a compact human string (`42s`, `1m 12s`).
pub fn format_duration(seconds: i64) -> (s: String)
    ensures
        s@ == duration_text(seconds as int),
        0 <= seconds < 60 ==> s@ == decimal(seconds as nat) + "s"@,
        60 <= seconds ==> s@ == decimal((seconds / 60) as nat) + "m "@ + decimal(
            (seconds % 60) as nat,
        ) + "s"@,
{
    proof {
        if 0 <= seconds {
            if seconds < 60 {
                law_short_durations_are_seconds(seconds as int);
            } else {
                law_duration_text_is_minutes_and_seconds((seconds / 60) as int, (seconds % 60) as int);
                assert(60 * (seconds / 60) + seconds % 60 == seconds);
            }
        }
    }
    let (minutes, secs): (i64, i64) = if seconds >= 0 {
        let total = seconds as u64;
        ((total / 60) as i64, (total % 60) as i64)
    } else {
        let total: u64 = (0i128 - seconds as i128) as u64;
        (0 - ((total / 60) as i64), 0 - ((total % 60) as i64))
    };
    assert(minutes == whole_minutes(seconds as int));
    assert(secs == seconds - 60 * minutes);
    if minutes == 0 {
        let mut s = string_from_chars(&signed_decimal_chars(secs));
        s.append("s");
        s
    } else {
        let mut s = string_from_chars(&signed_decimal_chars(minutes));
        s.append("m ");
        let rest = string_from_chars(&signed_decimal_chars(secs));
        s.append(rest.as_str());
        s.append("s");
        s
    }
}

/// The plural ending of "command" for `count` of them.
pub open spec fn plural(count: nat) -> Seq<char> {
    if count == 1 {
        ""@
    } else {
        "s"@
    }
}

/// "Saved \"NAME\": N command(s) captured in DURATION."
pub open spec fn saved_text(name: Seq<char>, count: nat, duration: Seq<char>) -> Seq<char> {
    "Saved \""@ + name + "\": "@ + decimal(count) + " command"@ + plural(count) + " captured in "@
        + duration + "."@
}

/// `count` followed by " command" or " commands".
pub(crate) fn count_of_commands(count: usize) -> (s: String)
    ensures
        s@ == decimal(count as nat) + " command"@ + plural(count as nat),
{
    let mut s = string_from_chars(&decimal_chars(count as u64));
    s.append(" command");
    if count != 1 {
        s.append("s");
    } else {
        proof {
            reveal_strlit("");
        }
        assert(s@ =~= s@ + ""@);
    }
    s
}

/// The line announcing that recording has started.
pub fn recording_started(name: &str) -> (l: StatusLine)
    ensures
        l.status == Status::Info,
        l.message@ == "Recording \""@ + name@ + "\". Type `exit` or press Ctrl-D to stop."@,
{
    let mut message = String::from_str("Recording \"");
    message.append(name);
    message.append("\". Type `exit` or press Ctrl-D to stop.");
    StatusLine { status: Status::Info, message }
}

/// The line announcing that the recording shell has exited.
pub fn session_captured() -> (l: StatusLine)
    ensures
        l.status == Status::Success,
        l.message@ == "Session captured."@,
{
    status_line(Status::Success, "Session captured.")
}

/// The lines printed once a recording is stored: where its files are, how
/// many commands it holds and how long it took, and how to render it.
pub fn run_summary(
    typescript_path: &str,
    recording_path: &str,
    name: &str,
    count: usize,
    elapsed: i64,
) -> (lines: Vec<StatusLine>)
    ensures
        lines.len() == 4,
        lines[0].status == Status::Detail,
        lines[0].message@ == "Typescript: "@ + typescript_path@,
        lines[1].status == Status::Detail,
        lines[1].message@ == "Recording:  "@ + recording_path@,
        lines[2].status == Status::Success,
        lines[2].message@ == saved_text(name@, count as nat, duration_text(elapsed as int)),
        lines[3].status == Status::Info,
        lines[3].message@ == "You can render your recording using \"termrec render\"."@,
{
    let mut lines: Vec<StatusLine> = Vec::new();
    let mut typescript = String::from_str("Typescript: ");
    typescript.append(typescript_path);
    lines.push(StatusLine { status: Status::Detail, message: typescript });
    let mut recording = String::from_str("Recording:  ");
    recording.append(recording_path);
    lines.push(StatusLine { status: Status::Detail, message: recording });
    let mut saved = String::from_str("Saved \"");
    saved.append(name);
    saved.append("\": ");
    let counted = count_of_commands(count);
    saved.append(counted.as_str());
    saved.append(" captured in ");
    let duration = format_duration(elapsed);
    saved.append(duration.as_str());
    saved.append(".");
    lines.push(StatusLine { status: Status::Success, message: saved });
    lines.push(
        status_line(Status::Info, "You can render your recording using \"termrec render\"."),
    );
    lines
}


/// A duration under a minute reads as its seconds: `s` seconds is `Ns`.
pub proof fn law_short_durations_are_seconds(s: int)
    requires
        0 <= s < 60,
    ensures
        duration_text(s) == decimal(s as nat) + "s"@,
{
}

/// A duration of a minute or more reads as the minutes and seconds it is
/// made of: `m` minutes and `s` seconds, with `s` under a minute, is
/// `Mm Ss`, so the text always adds back up to the duration.
pub proof fn law_duration_text_is_minutes_and_seconds(m: int, s: int)
    requires
        1 <= m,
        0 <= s < 60,
    ensures
        duration_text(60 * m + s) == decimal(m as nat) + "m "@ + decimal(s as nat) + "s"@,
{
    let t = 60 * m + s;
    assert(t / 60 == m && t % 60 == s) by (nonlinear_arith)
        requires
            t == 60 * m + s,
            0 <= s < 60,
            1 <= m,
    ;
    assert(whole_minutes(t) == m);
}

/// A negative duration reads as the negated minutes and seconds of its
/// length: `-(60 m + s)` seconds is `-Mm -Ss` (`-Ss` alone under a minute,
/// and `0s` for no seconds).
pub proof fn law_negative_durations_mirror(m: int, s: int)
    requires
        0 <= m,
        0 <= s < 60,
        0 < 60 * m + s,
    ensures
        m == 0 ==> duration_text(-s) == signed_decimal(-s) + "s"@,
        m >= 1 ==> duration_text(-(60 * m + s)) == signed_decimal(-m) + "m "@ + signed_decimal(-s)
            + "s"@,
{
    let t = 60 * m + s;
    assert(t / 60 == m) by (nonlinear_arith)
        requires
            t == 60 * m + s,
            0 <= s < 60,
            0 <= m,
    ;
    assert(whole_minutes(-t) == -m);
}

} // verus!
