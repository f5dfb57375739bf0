use termrec::transcript::screen::{can_replay, cells_text, prints_no_wide, render_segment};
use termrec::transcript::{Timestamp, Transcript};

fn at_epoch() -> Timestamp {
    Timestamp { seconds: 1_700_000_000, nanoseconds: 0 }
}

fn build(data: &[u8]) -> Transcript {
    Transcript::from_recording(data, "test".to_owned(), at_epoch(), 80, 1000)
}

#[test]
fn splits_recording_into_sections() {
    let data = b"\x1b]777;termrec;command;echo hi\x07hi\r\n\x1b]777;termrec;prompt\x07\x1b]777;termrec;command;echo bye\x07bye\r\n";

    let transcript = build(data);

    assert_eq!(transcript.name, "test");
    assert_eq!(transcript.sections.len(), 2);
    assert_eq!(transcript.sections[0].command, "echo hi");
    assert_eq!(transcript.sections[0].output, "hi");
    assert_eq!(transcript.sections[1].command, "echo bye");
    assert_eq!(transcript.sections[1].output, "bye");
}

#[test]
fn empty_recording_has_no_sections() {
    let transcript = build(b"");
    assert!(transcript.sections.is_empty());
}

#[test]
fn rendering_strips_ansi_colors() {
    let data = b"\x1b]777;termrec;command;echo red\x07\x1b[31mred\x1b[0m\r\n";

    let transcript = build(data);

    assert_eq!(transcript.sections[0].output, "red");
}

#[test]
fn rendering_applies_carriage_return_overwrite() {
    let data = b"\x1b]777;termrec;command;foo\x07one\rTWO\r\n";

    let transcript = build(data);

    assert_eq!(transcript.sections[0].output, "TWO");
}

#[test]
fn rendering_applies_backspace_erasure() {
    let data = b"\x1b]777;termrec;command;foo\x07abc\x08d\r\n";

    let transcript = build(data);

    assert_eq!(transcript.sections[0].output, "abd");
}

#[test]
fn rendering_handles_clear_screen() {
    let data = b"\x1b]777;termrec;command;foo\x07\x1b[2Jfresh\r\n";

    let transcript = build(data);

    assert_eq!(transcript.sections[0].output, "fresh");
}

#[test]
fn rendering_joins_multiline_output() {
    let data = b"\x1b]777;termrec;command;foo\x07line one\r\nline two\r\n";

    let transcript = build(data);

    assert_eq!(transcript.sections[0].output, "line one\nline two");
}

#[test]
fn rendering_uses_configured_terminal_size() {
    let data = b"\x1b]777;termrec;command;foo\x07abcdef\r\n";

    let transcript = Transcript::from_recording(data, "test".to_owned(), at_epoch(), 4, 1000);

    assert_eq!(transcript.sections[0].output, "abcd\nef");
}

#[test]
fn transcript_keeps_name_and_start() {
    let started = Timestamp { seconds: 42, nanoseconds: 7 };
    let transcript = Transcript::from_recording(b"", "demo".to_owned(), started, 80, 1000);

    assert_eq!(transcript.name, "demo");
    assert_eq!(transcript.started_ts, started);
}

#[test]
fn pipeline_recording_reconstructs_commands_and_outputs() {
    let recording: &[u8] = b"shell banner bytes\r\n\
    $ \x1b]777;termrec;prompt\x07\
    \x1b]777;termrec;command;echo hi\x07hi\r\n\
    \x1b]777;termrec;prompt\x07\
    \x1b]777;termrec;command;ls -la\x07file1\r\nfile2\r\n\
    \x1b]777;termrec;prompt\x07";

    let transcript = Transcript::from_recording(recording, "demo".to_owned(), at_epoch(), 80, 1000);

    assert_eq!(transcript.name, "demo");
    assert_eq!(transcript.sections.len(), 2);
    assert_eq!(transcript.sections[0].command, "echo hi");
    assert_eq!(transcript.sections[0].output, "hi");
    assert_eq!(transcript.sections[1].command, "ls -la");
    assert_eq!(transcript.sections[1].output, "file1\nfile2");
}

#[test]
fn interactive_output_renders_final_screen_state() {
    let data: &[u8] = b"\x1b]777;termrec;command;progress\x07\
        compiling...\r\
        100%\x1b[K\r\n\
        \x1b]777;termrec;prompt\x07";

    let transcript = Transcript::from_recording(data, "demo".to_owned(), at_epoch(), 80, 1000);

    assert_eq!(transcript.sections.len(), 1);
    assert_eq!(transcript.sections[0].output, "100%");
}

#[test]
fn blank_screen_lines_are_dropped() {
    let output = render_segment(b"  one  \r\n\r\n   \r\ntwo\r\n", 80, 24);
    assert_eq!(output, "one\ntwo");
}

#[test]
fn screen_text_trims_rows_and_joins_them() {
    let cells = vec![
        (0, ' '),
        (0, 'a'),
        (0, ' '),
        (1, ' '),
        (1, ' '),
        (2, 'b'),
        (2, 'c'),
        (2, '\u{3000}'),
    ];
    assert_eq!(cells_text(&cells), "a\nbc");
    assert_eq!(cells_text(&vec![]), "");
    assert_eq!(cells_text(&vec![(0, ' '), (1, ' ')]), "");
}

#[test]
fn screen_sizes_are_checked() {
    assert!(can_replay(b"abc", 80, 1000));
    assert!(can_replay("\u{4e2d}".as_bytes(), 2, 1));
    assert!(can_replay(b"abc", 1, 1));
    assert!(!can_replay("\u{4e2d}".as_bytes(), 1, 1));
    assert!(!can_replay(b"abc", 0, 1000));
    assert!(!can_replay(b"abc", 80, 0));
    assert!(can_replay(b"abc", 80, 300_000));
    assert!(can_replay(b"abc", usize::MAX, usize::MAX));
    assert!(can_replay("caf\u{e9}".as_bytes(), 1, 1));
    assert!(!can_replay(b"x\xe4\xb8\xady", 1, 1));
}

#[test]
fn wide_characters_are_found() {
    assert!(prints_no_wide(b"plain\r\n"));
    assert!(prints_no_wide("\u{e9}\u{3b1}\u{416}".as_bytes()));
    assert!(prints_no_wide(&[0x80, 0xff, 0xe4]));
    assert!(!prints_no_wide("\u{4e2d}".as_bytes()));
    assert!(!prints_no_wide("ok \u{1f600}".as_bytes()));
    assert!(!prints_no_wide(b"\x1b]0;\xef\xbc\xa1\x07"));
}

#[test]
fn single_column_replays_narrow_characters() {
    let data = "\x1b]777;termrec;command;echo\x07caf\u{e9}\r\n".as_bytes();
    let transcript = Transcript::from_recording(data, "narrow".to_owned(), at_epoch(), 1, 10);
    assert_eq!(transcript.sections[0].output, "c\na\nf\n\u{e9}");
}

#[test]
fn replay_is_refused_only_where_it_cannot_run() {
    let wide = "\x1b]777;termrec;command;echo\x07\u{4e2d}\r\n".as_bytes();
    assert!(Transcript::try_from_recording(wide, "w".to_owned(), at_epoch(), 1, 10).is_none());
    assert!(Transcript::try_from_recording(wide, "w".to_owned(), at_epoch(), 2, 10).is_some());
    let banner_only = "\u{4e2d} welcome".as_bytes();
    let empty = Transcript::try_from_recording(banner_only, "b".to_owned(), at_epoch(), 1, 10).unwrap();
    assert!(empty.sections.is_empty());
    let none = Transcript::try_from_recording(b"", "z".to_owned(), at_epoch(), 0, 0).unwrap();
    assert!(none.sections.is_empty());
    let command_line = "\x1b]777;termrec;command;echo \u{4e2d}\x07ok\r\n".as_bytes();
    let t = Transcript::try_from_recording(command_line, "c".to_owned(), at_epoch(), 1, 10).unwrap();
    assert_eq!(t.sections[0].command, "echo \u{4e2d}");
    assert_eq!(t.sections[0].output, "o\nk");
}

#[test]
fn single_column_replays_plain_ascii() {
    let data = b"\x1b]777;termrec;command;ls\x07ab\r\n";
    let transcript = Transcript::from_recording(data, "narrow".to_owned(), at_epoch(), 1, 10);
    assert_eq!(transcript.sections[0].output, "a\nb");
}

#[test]
fn tall_screens_are_replayed() {
    let data = b"\x1b]777;termrec;command;ls\x07file\r\n";
    let transcript = Transcript::from_recording(data, "tall".to_owned(), at_epoch(), 80, 20_000);
    assert_eq!(transcript.sections[0].output, "file");
}

#[test]
fn output_never_exceeds_the_screen() {
    let data = b"\x1b]777;termrec;command;seq\x071\r\n2\r\n3\r\n4\r\n5 and more\r\n";
    let transcript = Transcript::from_recording(data, "small".to_owned(), at_epoch(), 4, 2);
    let output = &transcript.sections[0].output;
    assert!(output.lines().count() <= 2);
    assert!(output.lines().all(|line| line.chars().count() <= 4));
    assert_eq!(output, "re");
}

#[test]
fn blank_rows_between_lines_are_left_out() {
    let data = b"\x1b]777;termrec;command;ls\x07a\r\n\r\n   \r\nb";
    assert_eq!(build(data).sections[0].output, "a\nb");
}

#[test]
fn only_the_first_line_loses_its_indentation() {
    let data = b"\x1b]777;termrec;command;ls\x07  x\r\n  y   ";
    assert_eq!(build(data).sections[0].output, "x\n  y");
}

#[test]
fn each_section_reads_as_if_recorded_alone() {
    let data = b"\x1b]777;termrec;command;one\x07\x1b[31mfirst\r\n\x1b]777;termrec;command;two\x07second\r\n";
    let whole = build(data);
    let alone = build(b"\x1b]777;termrec;command;c\x07second\r\n");
    assert_eq!(alone.sections.len(), 1);
    assert_eq!(whole.sections[1].output, alone.sections[0].output);
    assert_eq!(whole.sections[1].output, "second");
}
