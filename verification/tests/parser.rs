use termrec::transcript::parser::{
    collect_commands, command_marker_bytes, find_subslice, prompt_marker_bytes, Commands, BEL,
};

fn commands(data: &[u8]) -> Vec<(String, Vec<u8>)> {
    collect_commands(data)
        .into_iter()
        .map(|command| (command.command, command.output.to_vec()))
        .collect()
}

fn prompt_with_bel() -> Vec<u8> {
    let mut prompt = prompt_marker_bytes();
    prompt.push(BEL);
    prompt
}

#[test]
fn finds_marker_prefixes() {
    let cmd = command_marker_bytes();
    let prompt = prompt_with_bel();
    assert!(cmd.starts_with(b"\x1b]"));
    assert!(prompt.ends_with(&[0x07]));
}

#[test]
fn splits_commands_and_output() {
    let data = b"\x1b]777;termrec;command;echo hi\x07hi\r\n\x1b]777;termrec;prompt\x07\x1b]777;termrec;command;echo bye\x07bye\r\n";

    let parsed = commands(data);

    assert_eq!(parsed.len(), 2);
    assert_eq!(parsed[0].0, "echo hi");
    assert_eq!(parsed[0].1, b"hi\r\n");
    assert_eq!(parsed[1].0, "echo bye");
    assert_eq!(parsed[1].1, b"bye\r\n");
}

#[test]
fn last_command_without_prompt_marker_takes_remaining_bytes() {
    let data = b"\x1b]777;termrec;command;ls\x07file1\r\nfile2\r\n";

    let parsed = commands(data);

    assert_eq!(parsed.len(), 1);
    assert_eq!(parsed[0].0, "ls");
    assert_eq!(parsed[0].1, b"file1\r\nfile2\r\n");
}

#[test]
fn empty_output_produces_empty_segment() {
    let data = b"\x1b]777;termrec;command;true\x07\x1b]777;termrec;prompt\x07\x1b]777;termrec;command;ls\x07x\r\n";

    let parsed = commands(data);

    assert_eq!(parsed.len(), 2);
    assert_eq!(parsed[0].0, "true");
    assert!(parsed[0].1.is_empty());
    assert_eq!(parsed[1].0, "ls");
}

#[test]
fn bytes_before_first_marker_are_dropped() {
    let data = b"shell banner\r\n$ setup stuff\r\n\x1b]777;termrec;command;ls\x07file\r\n";

    let parsed = commands(data);

    assert_eq!(parsed.len(), 1);
    assert_eq!(parsed[0].0, "ls");
}

#[test]
fn command_text_with_punctuation_and_whitespace_preserved() {
    let data = b"\x1b]777;termrec;command;echo \"a; b\" | tr ';' ','\x07x\r\n";

    let parsed = commands(data);

    assert_eq!(parsed.len(), 1);
    assert_eq!(parsed[0].0, "echo \"a; b\" | tr ';' ','");
}

#[test]
fn output_containing_marker_bytes_without_escape_is_not_a_boundary() {
    let data = b"\x1b]777;termrec;command;cat x\x07the ]777;termrec;prompt marker\x1b]777;termrec;prompt\x07\x1b]777;termrec;command;next\x07y\r\n";

    let parsed = commands(data);

    assert_eq!(parsed.len(), 2);
    assert_eq!(parsed[0].0, "cat x");
    assert_eq!(parsed[0].1, b"the ]777;termrec;prompt marker");
    assert_eq!(parsed[1].0, "next");
}

#[test]
fn command_text_is_trimmed_of_trailing_whitespace() {
    let data = b"\x1b]777;termrec;command;ls  \x07file\r\n";

    let parsed = commands(data);

    assert_eq!(parsed[0].0, "ls");
}

#[test]
fn no_markers_yields_no_commands() {
    let data = b"just some random output\r\nwith no markers";

    let parsed = commands(data);

    assert!(parsed.is_empty());
}

#[test]
fn find_subslice_locates_needle() {
    assert_eq!(find_subslice(b"abcxyz", b"xy"), Some(3));
    assert_eq!(find_subslice(b"abc", b"xyz"), None);
    assert_eq!(find_subslice(b"aaa", b"aa"), Some(0));
}

#[test]
fn command_text_that_is_not_utf8_ends_the_split() {
    let data = b"\x1b]777;termrec;command;ls\x07a\x1b]777;termrec;prompt\x07\x1b]777;termrec;command;\xff\xfe\x07b";

    let parsed = commands(data);

    assert_eq!(parsed.len(), 1);
    assert_eq!(parsed[0].0, "ls");
    assert_eq!(parsed[0].1, b"a");
}

#[test]
fn command_text_with_multibyte_characters_is_decoded() {
    let data = "\x1b]777;termrec;command;echo h\u{e9}llo \u{2192}\u{3000}\x07x".as_bytes();

    let parsed = commands(data);

    assert_eq!(parsed.len(), 1);
    assert_eq!(parsed[0].0, "echo h\u{e9}llo \u{2192}");
}

#[test]
fn marker_without_bel_yields_no_command() {
    let data = b"\x1b]777;termrec;command;ls with no end";

    assert!(commands(data).is_empty());
}

#[test]
fn next_command_marker_before_prompt_ends_the_output() {
    let data = b"\x1b]777;termrec;command;a\x07one\x1b]777;termrec;command;b\x07two\x1b]777;termrec;prompt\x07";

    let parsed = commands(data);

    assert_eq!(parsed.len(), 2);
    assert_eq!(parsed[0].1, b"one");
    assert_eq!(parsed[1].0, "b");
    assert_eq!(parsed[1].1, b"two");
}

#[test]
fn prompt_marker_without_bel_still_ends_the_output() {
    let data = b"\x1b]777;termrec;command;a\x07one\x1b]777;termrec;promptX\x1b]777;termrec;command;b\x07two";

    let parsed = commands(data);

    assert_eq!(parsed.len(), 2);
    assert_eq!(parsed[0].1, b"one");
    assert_eq!(parsed[1].1, b"two");
}

#[test]
fn splitter_keeps_returning_none_once_done() {
    let data = b"\x1b]777;termrec;command;ls\x07x";
    let mut splitter = Commands::new(data);

    let first = splitter.next().unwrap();
    assert_eq!(first.command, "ls");
    assert!(splitter.next().is_none());
    assert!(splitter.next().is_none());
}

#[test]
fn find_subslice_reports_only_whole_needles() {
    assert_eq!(find_subslice(b"", b"a"), None);
    assert_eq!(find_subslice(b"xxab", b"ab"), Some(2));
    assert_eq!(find_subslice(b"aba", b"ab"), Some(0));
}
