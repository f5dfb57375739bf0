//! The `render` subcommand: pick a stored recording and a template, and
//! write the formatted transcript.

use vstd::prelude::*;

use crate::commands::run::{count_of_commands, plural};
use crate::text::decimal;
use crate::ui::{Status, StatusLine};

verus! {

/// Arguments for the `render` subcommand.
#[derive(Debug)]
pub struct RenderArguments {
    /// Prompt string shown in front of each command in the transcript.
    pub prompt: Option<String>,
    /// File to write the rendered transcript to; stdout when absent.
    pub out_file_name: Option<String>,
    /// Render with this template, skipping the interactive picker.
    pub template: Option<String>,
    /// Render the recording of this name, skipping the interactive picker.
    pub name: Option<String>,
}

/// Which of the candidates to use: a given one, or the user's pick.
#[derive(Clone, Copy, Debug, PartialEq, Eq)]
pub enum Choice {
    Index(usize),
    Ask,
}

/// Why `render` fails.
#[derive(Debug, PartialEq, Eq)]
pub enum RenderError {
    /// The store holds no recording.
    NoRecordings,
    /// No stored recording has this name.
    NoSuchRecording(String),
    /// No template has this name; `available` lists the names there are.
    NoSuchTemplate { name: String, available: String },
}

/// The names, separated by `, `.
pub open spec fn comma_list(names: Seq<Seq<char>>) -> Seq<char>
    decreases names.len(),
{
    if names.len() == 0 {
        seq![]
    } else if names.len() == 1 {
        names[0]
    } else {
        comma_list(names.drop_last()) + ", "@ + names.last()
    }
}

/// The text of each name.
pub open spec fn texts(names: Seq<String>) -> Seq<Seq<char>> {
    names.map_values(|name: String| name@)
}

/// The message that reports `error`.
pub open spec fn error_text(error: RenderError) -> Seq<char> {
    match error {
        RenderError::NoRecordings => "No recordings found. Record one first with `termrec run <name>`."@,
        RenderError::NoSuchRecording(name) => "No recording named '"@ + name@ + "'."@,
        RenderError::NoSuchTemplate { name, available } => "No template named '"@ + name@
            + "'. Available templates: "@ + available@ + "."@,
    }
}

impl RenderError {
    /// The message that reports this error.
    pub fn message(&self) -> (m: String)
        ensures
            m@ == error_text(*self),
    {
        match self {
            RenderError::NoRecordings => String::from_str(
                "No recordings found. Record one first with `termrec run <name>`.",
            ),
            RenderError::NoSuchRecording(name) => {
                let mut m = String::from_str("No recording named '");
                m.append(name.as_str());
                m.append("'.");
                m
            },
            RenderError::NoSuchTemplate { name, available } => {
                let mut m = String::from_str("No template named '");
                m.append(name.as_str());
                m.append("'. Available templates: ");
                m.append(available.as_str());
                m.append(".");
                m
            },
        }
    }
}

/// The first index of `wanted` among `names`.
fn position_of(names: &Vec<String>, wanted: &String) -> (r: Option<usize>)
    ensures
        match r {
            Some(i) => i < names.len() && names[i as int]@ == wanted@ && forall|j: int|
                0 <= j < i ==> names[j]@ != wanted@,
            None => forall|j: int| 0 <= j < names.len() ==> names[j]@ != wanted@,
        },
{
    let mut i: usize = 0;
    while i < names.len()
        invariant
            i <= names.len(),
            forall|j: int| 0 <= j < i ==> names[j]@ != wanted@,
        decreases names.len() - i,
    {
        if names[i].eq(wanted) {
            return Some(i);
        }
        i = i + 1;
    }
    None
}

/// Which stored recording to render, given the names of the stored ones in
/// the order they were found. With none stored, there is nothing to render.
/// A wanted name selects the first recording of that name. Without one,
/// a single recording is taken as it is and otherwise the user picks.
pub fn select_recording(names: &Vec<String>, wanted: &Option<String>) -> (r: Result<
    Choice,
    RenderError,
>)
    ensures
        names.len() == 0 ==> r == Err::<Choice, RenderError>(RenderError::NoRecordings),
        names.len() > 0 && wanted is None ==> r == Ok::<Choice, RenderError>(
            if names.len() == 1 {
                Choice::Index(0)
            } else {
                Choice::Ask
            },
        ),
        names.len() > 0 && wanted is Some ==> match r {
            Ok(Choice::Index(i)) => i < names.len() && names[i as int]@ == wanted->0@ && forall|
                j: int,
            | 0 <= j < i ==> names[j]@ != wanted->0@,
            Err(RenderError::NoSuchRecording(name)) => name@ == wanted->0@ && forall|j: int|
                0 <= j < names.len() ==> names[j]@ != wanted->0@,
            _ => false,
        },
{
    if names.len() == 0 {
        return Err(RenderError::NoRecordings);
    }
    match wanted {
        Some(name) => match position_of(names, name) {
            Some(i) => Ok(Choice::Index(i)),
            None => Err(RenderError::NoSuchRecording(name.clone())),
        },
        None => if names.len() == 1 {
            Ok(Choice::Index(0))
        } else {
            Ok(Choice::Ask)
        },
    }
}

/// The names joined by `, `.
pub fn join_names(names: &Vec<String>) -> (s: String)
    ensures
        s@ == comma_list(texts(names@)),
{
    let mut s = String::from_str("");
    let mut i: usize = 0;
    proof {
        reveal_strlit("");
        assert(texts(names@).take(0) =~= Seq::<Seq<char>>::empty());
    }
    while i < names.len()
        invariant
            i <= names.len(),
            s@ == comma_list(texts(names@).take(i as int)),
        decreases names.len() - i,
    {
        if i > 0 {
            s.append(", ");
        }
        s.append(names[i].as_str());
        i = i + 1;
        let ghost all = texts(names@);
        assert(all.take(i as int).drop_last() =~= all.take(i - 1));
        assert(all.take(i as int).last() == names[i - 1]@);
        if i == 1 {
            assert(all.take(1) =~= seq![names[0]@]);
        }
    }
    assert(texts(names@).take(names.len() as int) =~= texts(names@));
    s
}

/// Which template to render with, given the names of the available ones.
/// A wanted name selects the first template of that name, and is an error
/// that lists the available names when none has it. Without one, a single
/// template is taken as it is and otherwise the user picks.
pub fn select_template(names: &Vec<String>, wanted: &Option<String>) -> (r: Result<
    Choice,
    RenderError,
>)
    ensures
        wanted is None ==> r == Ok::<Choice, RenderError>(
            if names.len() == 1 {
                Choice::Index(0)
            } else {
                Choice::Ask
            },
        ),
        wanted is Some ==> match r {
            Ok(Choice::Index(i)) => i < names.len() && names[i as int]@ == wanted->0@ && forall|
                j: int,
            | 0 <= j < i ==> names[j]@ != wanted->0@,
            Err(RenderError::NoSuchTemplate { name, available }) => name@ == wanted->0@
                && available@ == comma_list(texts(names@)) && forall|j: int|
                0 <= j < names.len() ==> names[j]@ != wanted->0@,
            _ => false,
        },
{
    match wanted {
        Some(name) => match position_of(names, name) {
            Some(i) => Ok(Choice::Index(i)),
            None => Err(
                RenderError::NoSuchTemplate { name: name.clone(), available: join_names(names) },
            ),
        },
        None => if names.len() == 1 {
            Ok(Choice::Index(0))
        } else {
            Ok(Choice::Ask)
        },
    }
}

/// The warning printed before an existing output file is overwritten.
pub fn overwrite_warning(out_file_name: &str) -> (l: StatusLine)
    ensures
        l.status == Status::Warn,
        l.message@ == "Overwriting existing file "@ + out_file_name@,
{
    let mut message = String::from_str("Overwriting existing file ");
    message.append(out_file_name);
    StatusLine { status: Status::Warn, message }
}

/// The line printed once a transcript has been written to a file.
pub fn rendered(name: &str, count: usize, out_file_name: &str) -> (l: StatusLine)
    ensures
        l.status == Status::Success,
        l.message@ == "Rendered \""@ + name@ + "\": "@ + decimal(count as nat) + " command"@
            + plural(count as nat) + " \u{2192} "@ + out_file_name@,
{
    let mut message = String::from_str("Rendered \"");
    message.append(name);
    message.append("\": ");
    let counted = count_of_commands(count);
    message.append(counted.as_str());
    message.append(" \u{2192} ");
    message.append(out_file_name);
    StatusLine { status: Status::Success, message }
}

} // verus!
