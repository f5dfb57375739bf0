//! User-facing status lines.
//!
//! Status lines go to stderr so stdout stays clean for data. ANSI colors are
//! only used when stderr is a terminal; the caller says whether it is.

use vstd::prelude::*;

verus! {

/// `text` wrapped in the ANSI color `code` when `color` holds, else `text`.
pub open spec fn painted(code: Seq<char>, text: Seq<char>, color: bool) -> Seq<char> {
    if color {
        "\x1b["@ + code + "m"@ + text + "\x1b[0m"@
    } else {
        text
    }
}

/// Wrap `text` in an ANSI color code, or leave it plain.
pub fn paint(code: &str, text: &str, color: bool) -> (s: String)
    ensures
        s@ == painted(code@, text@, color),
{
    if color {
        let mut s = String::from_str("\x1b[");
        s.append(code);
        s.append("m");
        s.append(text);
        s.append("\x1b[0m");
        s
    } else {
        String::from_str(text)
    }
}

/// The kinds of status line.
#[derive(Clone, Copy, Debug, PartialEq, Eq)]
pub enum Status {
    /// An informational line (e.g. "recording started").
    Info,
    /// A success line (e.g. "saved 3 commands").
    Success,
    /// A warning.
    Warn,
    /// An error.
    Error,
    /// A muted detail line, indented, typically a file path.
    Detail,
}

/// A status line to print: its kind and its message.
#[derive(Debug)]
pub struct StatusLine {
    pub status: Status,
    pub message: String,
}

/// The marker in front of a status line and its color code.
pub open spec fn status_icon(status: Status) -> (Seq<char>, Seq<char>) {
    match status {
        Status::Info => ("\u{2192}"@, "36"@),
        Status::Success => ("\u{2713}"@, "32"@),
        Status::Warn => ("!"@, "33"@),
        Status::Error => ("\u{2717}"@, "31"@),
        Status::Detail => (""@, "90"@),
    }
}

/// The printed text of a status line: a colored marker, a space and the
/// message; a detail line is the message itself, muted and indented.
pub open spec fn status_text(status: Status, message: Seq<char>, color: bool) -> Seq<char> {
    let (icon, code) = status_icon(status);
    match status {
        Status::Detail => "  "@ + painted(code, message, color),
        _ => painted(code, icon, color) + " "@ + message,
    }
}

/// The text to print for `line`.
pub fn render_status(line: &StatusLine, color: bool) -> (s: String)
    ensures
        s@ == status_text(line.status, line.message@, color),
{
    match line.status {
        Status::Detail => {
            let mut s = String::from_str("  ");
            let painted = paint("90", line.message.as_str(), color);
            s.append(painted.as_str());
            s
        },
        _ => {
            let (icon, code) = match line.status {
                Status::Info => ("\u{2192}", "36"),
                Status::Success => ("\u{2713}", "32"),
                Status::Warn => ("!", "33"),
                _ => ("\u{2717}", "31"),
            };
            let mut s = paint(code, icon, color);
            s.append(" ");
            s.append(line.message.as_str());
            s
        },
    }
}

} // verus!
