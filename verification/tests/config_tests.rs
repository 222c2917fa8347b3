use minigrep::Config;
use minigrep::ConfigError;

fn args_of(parts: &[&str]) -> Vec<String> {
    parts.iter().map(|s| s.to_string()).collect()
}

#[test]
fn one_argument_is_not_enough() {
    let args = args_of(&["prog"]);
    let resolved = Config::new(&args, false);
    assert_eq!(Err(ConfigError::NotEnoughArguments), resolved.map(|_| ()));
}

#[test]
fn two_arguments_are_not_enough() {
    let args = args_of(&["prog", "query"]);
    let resolved = Config::new(&args, false);
    assert_eq!(Err(ConfigError::NotEnoughArguments), resolved.map(|_| ()));
}

#[test]
fn no_arguments_are_not_enough() {
    let args: Vec<String> = Vec::new();
    let resolved = Config::new(&args, false);
    assert_eq!(Err(ConfigError::NotEnoughArguments), resolved.map(|_| ()));
}

#[test]
fn three_arguments_resolve_verbatim() {
    let args = args_of(&["prog", " query ", "file.txt"]);
    let config = Config::new(&args, false).unwrap();
    assert_eq!(" query ", config.query);
    assert_eq!("file.txt", config.filename);
    assert!(config.case_sensitive);
}

#[test]
fn extra_arguments_are_ignored() {
    let args = args_of(&["prog", "query", "file.txt", "extra"]);
    let config = Config::new(&args, false).unwrap();
    assert_eq!("query", config.query);
    assert_eq!("file.txt", config.filename);
}

#[test]
fn present_toggle_forces_case_insensitive() {
    let args = args_of(&["prog", "query", "file.txt"]);
    let config = Config::new(&args, true).unwrap();
    assert!(!config.case_sensitive);
}

#[test]
fn error_message_is_human_readable() {
    let args = args_of(&["prog"]);
    let err = Config::new(&args, false).unwrap_err();
    assert_eq!("Not enough arguments", err.message());
}
