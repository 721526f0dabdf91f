use specific::args::{command_of, parse_args, ArgsError, Command};

fn strings(args: &[&str]) -> Vec<String> {
    args.iter().map(|s| s.to_string()).collect()
}

#[test]
fn parses_file_and_options() {
    let args = parse_args(&strings(&["--system-prompt", "p", "--system-prompt-file", "f", "x.md"]), "d").unwrap();
    assert_eq!(args.file_name.as_deref(), Some("x.md"));
    assert_eq!(args.system_prompt.as_deref(), Some("p"));
    assert_eq!(args.system_prompt_file.as_deref(), Some("f"));
    let args = parse_args(&strings(&["--system-prompt"]), "d").unwrap();
    assert_eq!(args.system_prompt.as_deref(), Some("d"));
}

#[test]
fn separator_allows_dashed_file_names() {
    let args = parse_args(&strings(&["--", "-build"]), "d").unwrap();
    assert_eq!(args.file_name.as_deref(), Some("-build"));
    let args = parse_args(&strings(&["x", "--"]), "d").unwrap();
    assert_eq!(args.file_name.as_deref(), Some("x"));
    assert!(matches!(parse_args(&strings(&["x", "--", "y"]), "d"), Err(ArgsError::TooManyArguments)));
    assert!(matches!(parse_args(&strings(&["--", "a", "b"]), "d"), Err(ArgsError::TooManyArguments)));
}

#[test]
fn rejects_bad_options_and_extra_files() {
    assert!(matches!(parse_args(&strings(&["-x"]), "d"), Err(ArgsError::BadOption(o)) if o == "-x"));
    assert!(matches!(parse_args(&strings(&["a", "b"]), "d"), Err(ArgsError::TooManyArguments)));
    assert!(matches!(parse_args(&strings(&["a", "--system-prompt"]), "d"), Err(ArgsError::TooManyArguments)));
    assert!(matches!(
        parse_args(&strings(&["--system-prompt-file"]), "d"),
        Err(ArgsError::MissingOptionValue(o)) if o == "--system-prompt-file"
    ));
}

#[test]
fn version_and_unnamed_commands() {
    assert!(matches!(command_of(&strings(&[]), "d"), Ok(Command::Unnamed)));
    assert!(matches!(command_of(&strings(&["--version"]), "d"), Ok(Command::Version)));
    assert!(matches!(command_of(&strings(&["--version", "--"]), "d"), Ok(Command::Version)));
    assert!(matches!(command_of(&strings(&["--version", "x"]), "d"), Err(ArgsError::BadOption(o)) if o == "--version"));
    assert!(matches!(command_of(&strings(&["f"]), "d"), Ok(Command::Edit(a)) if a.file_name.as_deref() == Some("f")));
}
