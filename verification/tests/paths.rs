use std::path::Path;

use termrec::paths::{
    default_config_path, join, new_recording_path, new_typescript_path, recordings_dir,
    templates_dir, typescript_dir,
};

const DATA: &str = "/home/user/.local/share/termrec";

#[test]
fn typescript_path_combines_timestamp_and_name() {
    let path = new_typescript_path(DATA, "demo", 1_700_000_000);

    assert_eq!(Path::new(&path).file_name().unwrap(), "1700000000-demo");
    assert!(Path::new(&path).starts_with(typescript_dir(DATA)));
}

#[test]
fn recording_path_combines_timestamp_name_and_json() {
    let path = new_recording_path(DATA, "demo", 1_700_000_000);

    assert_eq!(Path::new(&path).file_name().unwrap(), "1700000000-demo.json");
    assert!(Path::new(&path).starts_with(recordings_dir(DATA)));
}

#[test]
fn names_containing_dashes_are_kept() {
    let path = new_typescript_path(DATA, "my-session", 1_700_000_000);

    assert_eq!(Path::new(&path).file_name().unwrap(), "1700000000-my-session");
}

#[test]
fn different_timestamps_produce_different_files() {
    let a = new_recording_path(DATA, "demo", 1_700_000_000);
    let b = new_recording_path(DATA, "demo", 1_700_000_001);

    assert_ne!(a, b);
}

#[test]
fn directories_sit_under_their_base() {
    assert_eq!(typescript_dir(DATA), "/home/user/.local/share/termrec/typescripts");
    assert_eq!(recordings_dir(DATA), "/home/user/.local/share/termrec/recordings");
    assert_eq!(default_config_path("/etc/termrec"), "/etc/termrec/config.toml");
    assert_eq!(templates_dir("/etc/termrec/"), "/etc/termrec/templates");
}

#[test]
fn joining_follows_path_rules() {
    assert_eq!(join("", "a"), "a");
    assert_eq!(join("base/", "a"), "base/a");
    assert_eq!(join("base", "a"), "base/a");
    assert_eq!(join("base", "/abs"), "/abs");
    for (base, component) in [("x", "y"), ("x/", "y"), ("", "y"), ("x", "/y")] {
        assert_eq!(
            Path::new(base).join(component).to_str().unwrap(),
            join(base, component)
        );
    }
}

#[test]
fn negative_timestamps_keep_their_sign() {
    let path = new_typescript_path(DATA, "old", -5);
    assert_eq!(Path::new(&path).file_name().unwrap(), "-5-old");
    let zero = new_typescript_path(DATA, "x", 0);
    assert_eq!(Path::new(&zero).file_name().unwrap(), "0-x");
    let min = new_recording_path(DATA, "x", i64::MIN);
    assert_eq!(
        Path::new(&min).file_name().unwrap(),
        "-9223372036854775808-x.json"
    );
}
