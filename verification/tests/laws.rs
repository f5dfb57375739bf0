//! Concrete instances of the laws that the library proves.

use termrec::paths::new_recording_path;
use termrec::transcript::parser::{
    collect_commands, command_marker_bytes, find_subslice, prompt_marker_bytes, BEL,
};
use termrec::transcript::screen::render_segment;

fn hook_session(commands: &[(&str, &[u8])]) -> Vec<u8> {
    let mut data = Vec::new();
    for (command, output) in commands {
        data.extend(command_marker_bytes());
        data.extend(command.as_bytes());
        data.push(BEL);
        data.extend(*output);
        data.extend(prompt_marker_bytes());
        data.push(BEL);
    }
    data
}

fn split(data: &[u8]) -> Vec<(String, Vec<u8>)> {
    collect_commands(data)
        .into_iter()
        .map(|command| (command.command, command.output.to_vec()))
        .collect()
}

#[test]
fn hook_session_splits_back_into_its_commands() {
    let recorded: Vec<(&str, &[u8])> = vec![
        ("echo hi", b"hi\r\n"),
        ("true", b""),
        ("printf '\u{e9}'", "\u{e9}".as_bytes()),
        ("cat ]777;termrec;prompt", b"]777;termrec;command;x"),
    ];

    let parsed = split(&hook_session(&recorded));

    assert_eq!(parsed.len(), recorded.len());
    for (got, want) in parsed.iter().zip(recorded.iter()) {
        assert_eq!(got.0, want.0);
        assert_eq!(got.1, want.1);
    }
}

#[test]
fn coloured_outputs_split_back_into_their_commands() {
    let recorded: Vec<(&str, &[u8])> = vec![
        ("ls --color", b"\x1b[01;34mdir\x1b[0m\r\n"),
        ("tput clear", b"\x1b[H\x1b[2J"),
        ("printf '\\033'", b"\x1b"),
        ("printf '\\033]777'", b"\x1b]777;termrec;promp"),
    ];

    let parsed = split(&hook_session(&recorded));

    assert_eq!(parsed.len(), recorded.len());
    for (got, want) in parsed.iter().zip(recorded.iter()) {
        assert_eq!(got.0, want.0);
        assert_eq!(got.1, want.1);
    }
}

#[test]
fn leading_bytes_before_the_first_marker_do_not_matter() {
    let session = hook_session(&[("ls", b"a\r\n"), ("pwd", b"/\r\n")]);
    let mut with_banner = b"Welcome!\r\n$ ".to_vec();
    with_banner.extend(&session);

    let cut = find_subslice(&with_banner, &command_marker_bytes()).unwrap();
    assert_eq!(cut, 12);
    assert_eq!(split(&with_banner), split(&with_banner[cut..]));
    assert_eq!(split(&with_banner), split(&session));
}

#[test]
fn outputs_hold_no_marker() {
    let data = b"\x1b]777;termrec;command;a\x07x\x1b]777;termrec;command;b\x07y\x1b]777;termrec;prompt\x07z";
    let cmd = command_marker_bytes();
    let prompt = prompt_marker_bytes();
    for (_, output) in split(data) {
        assert_eq!(find_subslice(&output, &cmd), None);
        assert_eq!(find_subslice(&output, &prompt), None);
    }
}

#[test]
fn screen_text_is_tidy() {
    let text = render_segment(b"\r\n  a  \r\n\r\nb \r\n   \r\n", 10, 8);
    assert_eq!(text, "a\nb");
    assert!(!text.starts_with(char::is_whitespace));
    assert!(!text.ends_with(char::is_whitespace));
    assert!(!text.contains("\n\n"));
    assert!(!text.contains(" \n"));
}

#[test]
fn distinct_timestamps_give_distinct_files() {
    let stamps = [-10, -1, 0, 1, 9, 10, 99, 100, 1_700_000_000, i64::MAX, i64::MIN];
    let paths: Vec<String> = stamps.iter().map(|t| new_recording_path("/d", "x", *t)).collect();
    for i in 0..paths.len() {
        for j in 0..paths.len() {
            assert_eq!(paths[i] == paths[j], i == j);
        }
    }
}
