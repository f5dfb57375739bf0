use std::path::PathBuf;

use termrec::cli::Cli;
use termrec::commands::render::{
    join_names, overwrite_warning, rendered, select_recording, select_template, Choice, RenderError,
};
use termrec::commands::run::{
    check_run_allowed, format_duration, plan_run, recording_started, run_summary, session_captured,
    RunRefusal,
};
use termrec::commands::{dispatch, Commands, RenderArguments, RunArguments};
use termrec::config::Config;
use termrec::ui::{paint, render_status, Status, StatusLine};

fn names(list: &[&str]) -> Vec<String> {
    list.iter().map(|name| name.to_string()).collect()
}

fn run_args(name: &str, cmd_width: Option<usize>, cmd_height: Option<usize>) -> RunArguments {
    RunArguments { name: name.to_owned(), cmd_height, cmd_width }
}

#[test]
fn dispatch_keeps_config_path_and_subcommand() {
    let cli = Cli {
        config: Some(PathBuf::from("custom.toml")),
        debug: 2,
        command: Some(Commands::Run(run_args("demo", None, None))),
    };
    let plan = dispatch(cli);
    assert_eq!(plan.config_path, Some(PathBuf::from("custom.toml")));
    match plan.command {
        Some(Commands::Run(args)) => assert_eq!(args.name, "demo"),
        other => panic!("expected run subcommand, got {other:?}"),
    }

    let bare = dispatch(Cli { config: None, debug: 0, command: None });
    assert!(bare.config_path.is_none());
    assert!(bare.command.is_none());

    let render = dispatch(Cli {
        config: None,
        debug: 0,
        command: Some(Commands::Render(RenderArguments {
            prompt: None,
            out_file_name: None,
            template: None,
            name: Some("demo".to_owned()),
        })),
    });
    assert!(matches!(render.command, Some(Commands::Render(_))));
}

#[test]
fn formats_durations() {
    assert_eq!(format_duration(0), "0s");
    assert_eq!(format_duration(42), "42s");
    assert_eq!(format_duration(59), "59s");
    assert_eq!(format_duration(60), "1m 0s");
    assert_eq!(format_duration(72), "1m 12s");
    assert_eq!(format_duration(3725), "62m 5s");
    assert_eq!(format_duration(-5), "-5s");
    assert_eq!(format_duration(-65), "-1m -5s");
    assert_eq!(format_duration(i64::MIN), format!("{}m {}s", i64::MIN / 60, i64::MIN % 60));
}

#[test]
fn recording_is_refused_inside_a_recording_first() {
    assert_eq!(check_run_allowed(true, true), Err(RunRefusal::AlreadyRecording));
    assert_eq!(check_run_allowed(true, false), Err(RunRefusal::AlreadyRecording));
    assert_eq!(check_run_allowed(false, false), Err(RunRefusal::HookMissing));
    assert_eq!(check_run_allowed(false, true), Ok(()));
}

#[test]
fn refusals_explain_themselves() {
    let nested = RunRefusal::AlreadyRecording.status_lines();
    assert_eq!(nested.len(), 2);
    assert_eq!(nested[0].status, Status::Error);
    assert!(nested[0].message.contains("Already running inside a termrec session"));

    let hookless = RunRefusal::HookMissing.status_lines();
    assert_eq!(hookless.len(), 5);
    assert!(hookless[0].message.contains("shell support hook"));
    assert_eq!(hookless[4].message, "  fish: https://github.com/termrec/termrec.fish");
}

#[test]
fn run_plan_resolves_dimensions_and_paths() {
    let config = Config { prompt: None, cmd_width: Some(99), cmd_height: None };
    let plan = plan_run(&run_args("demo", Some(120), None), &config, "/data/termrec", 1_700_000_000);

    assert_eq!(plan.cmd_width, 120);
    assert_eq!(plan.cmd_height, 1000);
    assert_eq!(
        plan.session_env,
        vec![
            ("TERMREC_ACTIVE".to_owned(), "1".to_owned()),
            ("TERMREC_RECORDING_NAME".to_owned(), "demo".to_owned()),
        ]
    );
    assert_eq!(plan.directories, vec!["/data/termrec/recordings", "/data/termrec/typescripts"]);
    assert_eq!(plan.typescript_path, "/data/termrec/typescripts/1700000000-demo");
    assert_eq!(plan.recording_path, "/data/termrec/recordings/1700000000-demo.json");
}

#[test]
fn run_messages() {
    let started = recording_started("demo");
    assert_eq!(started.status, Status::Info);
    assert_eq!(started.message, "Recording \"demo\". Type `exit` or press Ctrl-D to stop.");
    assert_eq!(session_captured().message, "Session captured.");

    let lines = run_summary("/t/1-demo", "/r/1-demo.json", "demo", 3, 42);
    assert_eq!(lines.len(), 4);
    assert_eq!(lines[0].message, "Typescript: /t/1-demo");
    assert_eq!(lines[1].message, "Recording:  /r/1-demo.json");
    assert_eq!(lines[2].message, "Saved \"demo\": 3 commands captured in 42s.");
    assert_eq!(lines[3].message, "You can render your recording using \"termrec render\".");

    let single = run_summary("t", "r", "demo", 1, 72);
    assert_eq!(single[2].message, "Saved \"demo\": 1 command captured in 1m 12s.");
}

#[test]
fn recordings_are_selected_by_name_or_picked() {
    let stored = names(&["demo", "other", "demo"]);
    assert_eq!(select_recording(&vec![], &None), Err(RenderError::NoRecordings));
    assert_eq!(
        select_recording(&vec![], &Some("demo".to_owned())),
        Err(RenderError::NoRecordings)
    );
    assert_eq!(select_recording(&stored, &Some("demo".to_owned())), Ok(Choice::Index(0)));
    assert_eq!(select_recording(&stored, &Some("other".to_owned())), Ok(Choice::Index(1)));
    assert_eq!(
        select_recording(&stored, &Some("nope".to_owned())),
        Err(RenderError::NoSuchRecording("nope".to_owned()))
    );
    assert_eq!(select_recording(&stored, &None), Ok(Choice::Ask));
    assert_eq!(select_recording(&names(&["only"]), &None), Ok(Choice::Index(0)));
}

#[test]
fn templates_are_selected_by_name_or_picked() {
    let available = names(&["blog", "markdown", "plain"]);
    assert_eq!(select_template(&available, &Some("markdown".to_owned())), Ok(Choice::Index(1)));
    assert_eq!(select_template(&available, &None), Ok(Choice::Ask));
    assert_eq!(select_template(&names(&["markdown"]), &None), Ok(Choice::Index(0)));
    assert_eq!(select_template(&vec![], &None), Ok(Choice::Ask));
    let missing = select_template(&available, &Some("nope".to_owned())).unwrap_err();
    assert_eq!(
        missing.message(),
        "No template named 'nope'. Available templates: blog, markdown, plain."
    );
}

#[test]
fn render_errors_explain_themselves() {
    assert_eq!(
        RenderError::NoRecordings.message(),
        "No recordings found. Record one first with `termrec run <name>`."
    );
    assert_eq!(
        RenderError::NoSuchRecording("nope".to_owned()).message(),
        "No recording named 'nope'."
    );
    assert_eq!(join_names(&vec![]), "");
    assert_eq!(join_names(&names(&["a"])), "a");
    assert_eq!(join_names(&names(&["a", "b"])), "a, b");
}

#[test]
fn render_messages() {
    let warning = overwrite_warning("out.md");
    assert_eq!(warning.status, Status::Warn);
    assert_eq!(warning.message, "Overwriting existing file out.md");
    assert_eq!(rendered("demo", 3, "demo.md").message, "Rendered \"demo\": 3 commands \u{2192} demo.md");
    assert_eq!(rendered("demo", 1, "demo.md").message, "Rendered \"demo\": 1 command \u{2192} demo.md");
}

#[test]
fn status_lines_are_painted_only_with_color() {
    assert_eq!(paint("36", "x", true), "\x1b[36mx\x1b[0m");
    assert_eq!(paint("36", "x", false), "x");
    let info = StatusLine { status: Status::Info, message: "hello".to_owned() };
    assert_eq!(render_status(&info, false), "\u{2192} hello");
    assert_eq!(render_status(&info, true), "\x1b[36m\u{2192}\x1b[0m hello");
    let detail = StatusLine { status: Status::Detail, message: "path".to_owned() };
    assert_eq!(render_status(&detail, false), "  path");
    assert_eq!(render_status(&detail, true), "  \x1b[90mpath\x1b[0m");
    let error = StatusLine { status: Status::Error, message: "bad".to_owned() };
    assert_eq!(render_status(&error, false), "\u{2717} bad");
    let success = StatusLine { status: Status::Success, message: "ok".to_owned() };
    assert_eq!(render_status(&success, false), "\u{2713} ok");
    let warn = StatusLine { status: Status::Warn, message: "hm".to_owned() };
    assert_eq!(render_status(&warn, true), "\x1b[33m!\x1b[0m hm");
}
