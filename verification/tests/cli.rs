use rockdown::cli::{parse, startup_step, CliError, StartupError, StartupStep};

fn args(list: &[&str]) -> Vec<Option<String>> {
    list.iter().map(|a| Some(a.to_string())).collect()
}

#[test]
fn startup_parser_preserves_options_and_supports_option_terminator() {
    let cli = parse(&args(&[
        "first.md",
        "--config",
        "settings.toml",
        "second.md",
        "--check-config",
    ]))
    .unwrap();
    assert_eq!(cli.paths, vec![0, 3]);
    assert_eq!(cli.config_path, Some(2));
    assert!(cli.check);
    assert!(parse(&args(&["--help"])).unwrap().help);
    assert!(parse(&args(&["-h"])).unwrap().help);
    assert_eq!(
        parse(&args(&["--", "-note.md", "--check-config"])).unwrap().paths,
        vec![1, 2]
    );
    assert_eq!(parse(&args(&["--config"])).err(), Some(CliError::ConfigNeedsPath));
    assert_eq!(
        parse(&args(&["--unknown"])).err(),
        Some(CliError::UnknownArgument(0))
    );
}

#[test]
fn help_stops_reading_and_non_unicode_arguments_are_paths() {
    let cli = parse(&args(&["a.md", "--help", "--unknown"])).unwrap();
    assert!(cli.help);
    assert_eq!(cli.paths, vec![0]);
    let cli = parse(&vec![None, Some("-x".to_string())]);
    assert_eq!(cli.err(), Some(CliError::UnknownArgument(1)));
    let cli = parse(&vec![Some("--config".to_string()), None]).unwrap();
    assert_eq!(cli.config_path, Some(1));
    assert!(cli.paths.is_empty());
}

#[test]
fn startup_opens_files_or_one_directory_alone() {
    assert_eq!(startup_step(2, false, false), StartupStep::OpenFile);
    assert_eq!(startup_step(1, false, true), StartupStep::OpenDirectory);
    assert_eq!(startup_step(2, false, true), StartupStep::Refuse(StartupError::DirectoryAmongFiles));
    assert_eq!(startup_step(1, true, false), StartupStep::Refuse(StartupError::EmptyPath));
    assert_eq!(startup_step(1, true, true), StartupStep::Refuse(StartupError::EmptyPath));
}
