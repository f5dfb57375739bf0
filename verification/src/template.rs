//! The names under which templates are offered and chosen.

use std::path::Path;

use vstd::prelude::*;

use crate::text::str_chars;

verus! {

/// The index of the last `.` in `name`, if any.
pub open spec fn last_dot(name: Seq<char>) -> Option<int>
    decreases name.len(),
{
    if name.len() == 0 {
        None
    } else if name.last() == '.' {
        Some(name.len() - 1)
    } else {
        last_dot(name.drop_last())
    }
}

/// The stem of a file name: the whole name when it has no `.`, or when its
/// only `.` is its first character; otherwise what comes before its last `.`.
pub open spec fn stem_of(name: Seq<char>) -> Seq<char> {
    match last_dot(name) {
        Some(i) => if i == 0 {
            name
        } else {
            name.take(i)
        },
        None => name,
    }
}

/// `name` is one ordinary path component: not empty, without separator,
/// and neither `.` nor `..`.
pub open spec fn single_component(name: Seq<char>) -> bool {
    &&& name.len() > 0
    &&& forall|i: int| 0 <= i < name.len() ==> name[i] != '/'
    &&& name != seq!['.']
    &&& name != seq!['.', '.']
}

/// What `Path::file_stem` gives for the path `p`, as text.
pub uninterp spec fn path_file_stem(p: Seq<char>) -> Option<Seq<char>>;

/// The file stem of the path `file_name`.
///
/// Trusted: calls `std::path::Path::file_stem` and reads the stem as text;
/// a stem cut out of a `&str` at a `.` or `/` is always valid text. The
/// contract names the result; for a single ordinary component it states the
/// documented rule (the file name itself is the last component, and its
/// stem is the name before its last `.`, unless that `.` is its first
/// character). What it gives for longer paths is left to the name.
#[verifier::external_body]
fn file_stem(file_name: &str) -> (r: Option<String>)
    ensures
        r is None <==> path_file_stem(file_name@) is None,
        r matches Some(s) ==> path_file_stem(file_name@) == Some(s@),
        single_component(file_name@) ==> r is Some && r->0@ == stem_of(file_name@),
{
    Path::new(file_name).file_stem().and_then(|stem| stem.to_str()).map(String::from)
}

/// The name shown for a template whose stem is `stem`: the stem itself, or
/// `<Unknown>` when there is none, or when it is `.` or `..` and so names no
/// file.
pub open spec fn shown_name(stem: Option<Seq<char>>) -> Seq<char> {
    match stem {
        Some(s) => if s == seq!['.'] || s == seq!['.', '.'] {
            "<Unknown>"@
        } else {
            s
        },
        None => "<Unknown>"@,
    }
}

/// The name under which a template file is offered and chosen with
/// `--template`: its file name without the extension (`markdown.jinja` is
/// `markdown`).
pub fn template_name(file_name: &str) -> (name: String)
    ensures
        name@ == shown_name(path_file_stem(file_name@)),
        single_component(file_name@) && stem_of(file_name@) != seq!['.'] && stem_of(file_name@)
            != seq!['.', '.'] ==> name@ == stem_of(file_name@),
{
    match file_stem(file_name) {
        Some(stem) => {
            let chars = str_chars(stem.as_str());
            let dots = (chars.len() == 1 && chars[0] == '.') || (chars.len() == 2 && chars[0]
                == '.' && chars[1] == '.');
            if dots {
                assert(stem@ == seq!['.'] || stem@ == seq!['.', '.']) by {
                    if chars.len() == 1 {
                        assert(chars@ =~= seq!['.']);
                    } else {
                        assert(chars@ =~= seq!['.', '.']);
                    }
                }
                String::from_str("<Unknown>")
            } else {
                assert(stem@ != seq!['.'] && stem@ != seq!['.', '.']) by {
                    if stem@ == seq!['.'] {
                        assert(chars@.len() == 1 && chars@[0] == '.');
                    }
                    if stem@ == seq!['.', '.'] {
                        assert(chars@.len() == 2 && chars@[0] == '.' && chars@[1] == '.');
                    }
                }
                stem
            }
        },
        None => String::from_str("<Unknown>"),
    }
}

} // verus!
