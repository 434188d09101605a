use minigrep::Args;
use minigrep::Config;

fn argv(parts: &[&str]) -> Vec<String> {
    parts.iter().map(|p| p.to_string()).collect()
}

#[test]
fn build_without_query_fails() {
    assert_eq!(
        Err("Didn't get a query string"),
        Config::build(argv(&[]), false).map(|_| ())
    );
    assert_eq!(
        Err("Didn't get a query string"),
        Config::build(argv(&["prog"]), false).map(|_| ())
    );
}

#[test]
fn build_without_file_path_fails() {
    assert_eq!(
        Err("Didn't get a file path"),
        Config::build(argv(&["prog", "query"]), false).map(|_| ())
    );
}

#[test]
fn build_keeps_query_and_file_path() {
    let config = Config::build(argv(&["prog", "needle", "notes.txt"]), false).unwrap();
    assert_eq!("needle", config.query);
    assert_eq!("notes.txt", config.file_path);
    assert!(!config.args.ignore_case);
    assert!(!config.args.save_output);
}

#[test]
fn environment_default_sets_ignore_case() {
    let config = Config::build(argv(&["prog", "q", "f"]), true).unwrap();
    assert!(config.args.ignore_case);
}

#[test]
fn flag_sets_ignore_case_without_environment() {
    let config = Config::build(argv(&["prog", "q", "f", "--ignore-case"]), false).unwrap();
    assert!(config.args.ignore_case);
}

#[test]
fn environment_default_cannot_be_turned_off() {
    let config = Config::build(argv(&["prog", "q", "f", "--save-output"]), true).unwrap();
    assert!(config.args.ignore_case);
}

#[test]
fn save_output_flag_is_recognized() {
    let config = Config::build(argv(&["prog", "q", "f", "--save-output"]), false).unwrap();
    assert!(config.args.save_output);
    assert!(!config.args.ignore_case);
}

#[test]
fn flags_combine_in_any_order() {
    let config = Config::build(
        argv(&["prog", "q", "f", "--save-output", "--ignore-case"]),
        false,
    )
    .unwrap();
    assert!(config.args.ignore_case);
    assert!(config.args.save_output);
}

#[test]
fn unrecognized_tokens_are_ignored() {
    let config = Config::build(argv(&["prog", "q", "f", "--bogus", "extra"]), false).unwrap();
    assert!(!config.args.ignore_case);
    assert!(!config.args.save_output);
}

#[test]
fn config_args_only_switches_settings_on() {
    let mut args = Args::new(true);
    args.config_args(&argv(&["unrelated"]));
    assert!(args.ignore_case);
    args.config_args(&argv(&["--save-output"]));
    assert!(args.ignore_case);
    assert!(args.save_output);
}

#[test]
fn search_lines_dispatches_on_ignore_case() {
    let contents = "Rust:\nsafe, fast, productive.\nPick three.\nTrust me.";
    let sensitive = Config::build(argv(&["prog", "rUsT", "f"]), false).unwrap();
    let empty: Vec<&str> = Vec::new();
    assert_eq!(empty, sensitive.search_lines(contents));
    let insensitive = Config::build(argv(&["prog", "rUsT", "f", "--ignore-case"]), false).unwrap();
    assert_eq!(vec!["Rust:", "Trust me."], insensitive.search_lines(contents));
}
