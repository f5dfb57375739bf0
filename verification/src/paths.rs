//! Where termrec keeps its files: the data and config directories (given
//! by the XDG base directories of the platform) and the timestamped names
//! of the files stored in them.

use vstd::prelude::*;

use crate::text::{decimal, digit, signed_decimal, signed_decimal_chars, string_from_chars};

verus! {

/// `component` adjoined to the path `base`, as `PathBuf::push` does: an
/// absolute component replaces the path; otherwise a separator is put
/// between the two unless `base` is empty or already ends with one.
pub open spec fn joined(base: Seq<char>, component: Seq<char>) -> Seq<char> {
    if component.len() > 0 && component[0] == '/' {
        component
    } else if base.len() == 0 || base.last() == '/' {
        base + component
    } else {
        base + seq!['/'] + component
    }
}

/// The path `base` with `component` adjoined.
pub fn join(base: &str, component: &str) -> (p: String)
    ensures
        p@ == joined(base@, component@),
{
    let component_chars = crate::text::str_chars(component);
    if component_chars.len() > 0 && component_chars[0] == '/' {
        return string_from_chars(&component_chars);
    }
    let base_chars = crate::text::str_chars(base);
    let mut p = String::from_str(base);
    if base_chars.len() > 0 && base_chars[base_chars.len() - 1] != '/' {
        p.append("/");
        proof {
            reveal_strlit("/");
        }
    }
    p.append(component);
    assert(p@ =~= joined(base@, component@));
    p
}

/// The default location of the config file.
pub fn default_config_path(config_dir: &str) -> (p: String)
    ensures
        p@ == joined(config_dir@, "config.toml"@),
{
    join(config_dir, "config.toml")
}

/// The directory of the user's own templates.
pub fn templates_dir(config_dir: &str) -> (p: String)
    ensures
        p@ == joined(config_dir@, "templates"@),
{
    join(config_dir, "templates")
}

/// The directory of the raw session byte dumps.
pub fn typescript_dir(data_dir: &str) -> (p: String)
    ensures
        p@ == joined(data_dir@, "typescripts"@),
{
    join(data_dir, "typescripts")
}

/// The directory of the stored transcripts.
pub fn recordings_dir(data_dir: &str) -> (p: String)
    ensures
        p@ == joined(data_dir@, "recordings"@),
{
    join(data_dir, "recordings")
}

/// The name of the files of a recording: the Unix timestamp of its start,
/// a dash, and the recording's name.
pub open spec fn stamped_name(name: Seq<char>, timestamp: i64) -> Seq<char> {
    signed_decimal(timestamp as int) + seq!['-'] + name
}

fn stamped_file_name(name: &str, timestamp: i64) -> (s: String)
    ensures
        s@ == stamped_name(name@, timestamp),
{
    let mut chars = signed_decimal_chars(timestamp);
    chars.push('-');
    let mut s = string_from_chars(&chars);
    s.append(name);
    s
}

/// Where the raw bytes of a recording started at `timestamp` are dumped.
pub fn new_typescript_path(data_dir: &str, name: &str, timestamp: i64) -> (p: String)
    ensures
        p@ == joined(joined(data_dir@, "typescripts"@), stamped_name(name@, timestamp)),
{
    let dir = typescript_dir(data_dir);
    let file_name = stamped_file_name(name, timestamp);
    join(dir.as_str(), file_name.as_str())
}

/// Where the transcript of a recording started at `timestamp` is stored.
pub fn new_recording_path(data_dir: &str, name: &str, timestamp: i64) -> (p: String)
    ensures
        p@ == joined(
            joined(data_dir@, "recordings"@),
            stamped_name(name@, timestamp) + ".json"@,
        ),
{
    let dir = recordings_dir(data_dir);
    let mut file_name = stamped_file_name(name, timestamp);
    file_name.append(".json");
    join(dir.as_str(), file_name.as_str())
}

/// The decimal notation never is empty.
pub proof fn lemma_decimal_len(n: nat)
    ensures
        decimal(n).len() >= 1,
        n >= 10 ==> decimal(n).len() >= 2,
    decreases n,
{
    if n >= 10 {
        lemma_decimal_len(n / 10);
    }
}

/// Different numbers have different decimal notations.
pub proof fn lemma_decimal_injective(n: nat, m: nat)
    requires
        decimal(n) == decimal(m),
    ensures
        n == m,
    decreases n,
{
    lemma_decimal_len(n);
    lemma_decimal_len(m);
    if n < 10 && m < 10 {
        assert(decimal(n)[0] == digit(n));
        assert(decimal(m)[0] == digit(m));
    } else if n >= 10 && m >= 10 {
        assert(decimal(n).last() == digit(n % 10));
        assert(decimal(m).last() == digit(m % 10));
        assert(decimal(n / 10) =~= decimal(n).drop_last());
        assert(decimal(m / 10) =~= decimal(m).drop_last());
        lemma_decimal_injective(n / 10, m / 10);
    }
}

/// Decimal notations start with a digit.
proof fn lemma_decimal_starts_with_digit(n: nat)
    ensures
        decimal(n)[0] != '-',
    decreases n,
{
    lemma_decimal_len(n);
    if n >= 10 {
        lemma_decimal_starts_with_digit(n / 10);
        lemma_decimal_len(n / 10);
        assert(decimal(n)[0] == decimal(n / 10)[0]);
    }
}

/// Different integers have different signed decimal notations.
pub proof fn lemma_signed_decimal_injective(n: int, m: int)
    requires
        signed_decimal(n) == signed_decimal(m),
    ensures
        n == m,
{
    if n < 0 && m < 0 {
        assert(decimal((-n) as nat) =~= signed_decimal(n).drop_first());
        assert(decimal((-m) as nat) =~= signed_decimal(m).drop_first());
        lemma_decimal_injective((-n) as nat, (-m) as nat);
    } else if n >= 0 && m >= 0 {
        lemma_decimal_injective(n as nat, m as nat);
    } else if n < 0 {
        lemma_decimal_starts_with_digit(m as nat);
    } else {
        lemma_decimal_starts_with_digit(n as nat);
    }
}

/// Adjoining to the same path is one-to-one for relative components.
proof fn lemma_joined_injective(base: Seq<char>, a: Seq<char>, b: Seq<char>)
    requires
        a.len() > 0 && a[0] != '/',
        b.len() > 0 && b[0] != '/',
        joined(base, a) == joined(base, b),
    ensures
        a == b,
{
    let prefix = if base.len() == 0 || base.last() == '/' {
        base
    } else {
        base + seq!['/']
    };
    assert(joined(base, a) == prefix + a);
    assert(joined(base, b) == prefix + b);
    assert(a =~= joined(base, a).skip(prefix.len() as int));
    assert(b =~= joined(base, b).skip(prefix.len() as int));
}

/// Recordings of the same name started at different seconds are stored in
/// different files, and so are their raw dumps.
pub proof fn law_distinct_timestamps_give_distinct_files(
    data_dir: Seq<char>,
    name: Seq<char>,
    first: i64,
    second: i64,
)
    requires
        first != second,
    ensures
        joined(joined(data_dir, "recordings"@), stamped_name(name, first) + ".json"@) != joined(
            joined(data_dir, "recordings"@),
            stamped_name(name, second) + ".json"@,
        ),
        joined(joined(data_dir, "typescripts"@), stamped_name(name, first)) != joined(
            joined(data_dir, "typescripts"@),
            stamped_name(name, second),
        ),
{
    let a = signed_decimal(first as int);
    let b = signed_decimal(second as int);
    reveal_strlit(".json");
    let ja = stamped_name(name, first) + ".json"@;
    let jb = stamped_name(name, second) + ".json"@;
    let ta = stamped_name(name, first);
    let tb = stamped_name(name, second);
    lemma_stamped_name_shape(name, first);
    lemma_stamped_name_shape(name, second);
    if joined(joined(data_dir, "recordings"@), ja) == joined(joined(data_dir, "recordings"@), jb) {
        lemma_joined_injective(joined(data_dir, "recordings"@), ja, jb);
        assert(a =~= ja.take(ja.len() - name.len() - 6));
        assert(b =~= jb.take(jb.len() - name.len() - 6));
        lemma_signed_decimal_injective(first as int, second as int);
    }
    if joined(joined(data_dir, "typescripts"@), ta) == joined(joined(data_dir, "typescripts"@), tb) {
        lemma_joined_injective(joined(data_dir, "typescripts"@), ta, tb);
        assert(a =~= ta.take(ta.len() - name.len() - 1));
        assert(b =~= tb.take(tb.len() - name.len() - 1));
        lemma_signed_decimal_injective(first as int, second as int);
    }
}

/// A stamped name starts with a sign or a digit, never with a separator.
proof fn lemma_stamped_name_shape(name: Seq<char>, timestamp: i64)
    ensures
        stamped_name(name, timestamp).len() > 0,
        stamped_name(name, timestamp)[0] != '/',
{
    let t = timestamp as int;
    if t < 0 {
        assert(stamped_name(name, timestamp)[0] == '-');
    } else {
        lemma_decimal_len(t as nat);
        lemma_digit_is_not_separator(t as nat);
        assert(stamped_name(name, timestamp)[0] == decimal(t as nat)[0]);
    }
}

/// Decimal notations start with a digit, not a separator.
proof fn lemma_digit_is_not_separator(n: nat)
    ensures
        decimal(n).len() > 0 && decimal(n)[0] != '/',
    decreases n,
{
    lemma_decimal_len(n);
    if n >= 10 {
        lemma_digit_is_not_separator(n / 10);
        assert(decimal(n)[0] == decimal(n / 10)[0]);
    }
}

} // verus!
