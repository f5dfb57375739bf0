use termrec::config::Config;

fn config(prompt: Option<&str>, cmd_width: Option<usize>, cmd_height: Option<usize>) -> Config {
    Config { prompt: prompt.map(str::to_owned), cmd_width, cmd_height }
}

#[test]
fn settings_from_the_config_file_are_used() {
    let config = config(Some(">>> "), Some(120), Some(40));

    assert_eq!(config.prompt(None), ">>> ");
    assert_eq!(config.cmd_width(None), 120);
    assert_eq!(config.cmd_height(None), 40);
}

#[test]
fn empty_config_uses_built_in_defaults() {
    let config = Config::default();

    assert_eq!(config.prompt(None), "$ ");
    assert_eq!(config.cmd_width(None), 80);
    assert_eq!(config.cmd_height(None), 1000);
}

#[test]
fn partial_config_defaults_missing_settings() {
    let config = config(None, Some(120), None);

    assert_eq!(config.cmd_width(None), 120);
    assert_eq!(config.cmd_height(None), 1000);
    assert_eq!(config.prompt(None), "$ ");
}

#[test]
fn flags_override_the_config_file() {
    let config = config(Some("cfg"), Some(99), None);

    assert_eq!(config.prompt(Some("flag".to_owned())), "flag");
    assert_eq!(config.cmd_width(Some(120)), 120);
    assert_eq!(config.cmd_height(Some(7)), 7);
    assert_eq!(config.prompt(None), "cfg");
    assert_eq!(config.cmd_width(None), 99);
}
