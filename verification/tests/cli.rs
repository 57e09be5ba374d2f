use smb_heat_spike::cli::{
    parse_archive_dir, parse_bind, parse_command, parse_db, parse_flush_secs, parse_share,
    parse_value, Command, Mode, DEFAULT_ARCHIVE_DIR, DEFAULT_BIND,
};

fn words(a: &[&str]) -> Vec<String> {
    a.iter().map(|s| s.to_string()).collect()
}

#[test]
fn cli_defaults_and_overrides() {
    let none: Vec<String> = vec!["collector".into()];
    assert_eq!(parse_bind(&none).unwrap(), DEFAULT_BIND);
    assert_eq!(parse_archive_dir(&none).unwrap(), DEFAULT_ARCHIVE_DIR);
    assert_eq!(parse_db(&none).unwrap(), None);

    let some: Vec<String> = vec![
        "collector".into(),
        "--bind".into(),
        "127.0.0.1:9999".into(),
        "--archive-dir".into(),
        "/srv/dumps".into(),
        "--db".into(),
        "/srv/heat.duckdb".into(),
    ];
    assert_eq!(parse_bind(&some).unwrap(), "127.0.0.1:9999");
    assert_eq!(parse_archive_dir(&some).unwrap(), "/srv/dumps");
    assert_eq!(parse_db(&some).unwrap(), Some("/srv/heat.duckdb".to_string()));
}

#[test]
fn a_flag_without_a_value() {
    let args = words(&["collector", "--db"]);
    assert_eq!(parse_db(&args).unwrap_err(), "--db needs a value");
    assert_eq!(parse_value(&args, "--bind").unwrap(), None);
    // The program's own name is no flag, and the first flag counts.
    assert_eq!(parse_value(&words(&["--x", "y"]), "--x").unwrap(), None);
    assert_eq!(
        parse_value(&words(&["p", "--x", "1", "--x", "2"]), "--x").unwrap(),
        Some("1")
    );
    assert_eq!(parse_bind(&words(&["p", "--bind"])).unwrap_err(), "--bind needs a value");
    assert!(parse_archive_dir(&words(&["p", "--archive-dir"])).is_err());
}

#[test]
fn agent_commands() {
    let mode = |a: &[&str]| match parse_command(&words(a)) {
        Command::Trace { mode, mask } => (mode, mask),
        other => panic!("{other:?}"),
    };
    assert_eq!(mode(&["p"]), (Mode::Resolve, 0xF0));
    assert_eq!(mode(&["p", "resolve"]), (Mode::Resolve, 0xF0));
    assert_eq!(mode(&["p", "discover"]), (Mode::Discover, 0xF0));
    assert_eq!(mode(&["p", "resolve", "--rundown"]), (Mode::Resolve, 0x1_00F0));
    match parse_command(&words(&["p", "walk", "Share", "C:\\x"])) {
        Command::Walk { share, root } => assert_eq!((share.as_str(), root.as_str()), ("Share", "C:\\x")),
        other => panic!("{other:?}"),
    }
    assert!(matches!(parse_command(&words(&["p", "walk", "Share"])), Command::WalkUsage));
    match parse_command(&words(&["p", "what"])) {
        Command::UnknownMode(m) => assert_eq!(m, "what"),
        other => panic!("{other:?}"),
    }
}

#[test]
fn agent_options() {
    assert_eq!(
        parse_share("Data=C:\\a=b"),
        Some(("Data".to_string(), "C:\\a=b".to_string()))
    );
    assert_eq!(parse_share("Data"), None);
    assert_eq!(parse_flush_secs(&words(&["p"]), 300).unwrap(), 300);
    assert_eq!(parse_flush_secs(&words(&["p", "--flush-secs", "60"]), 300).unwrap(), 60);
    assert!(parse_flush_secs(&words(&["p", "--flush-secs", "0"]), 300).is_err());
    assert!(parse_flush_secs(&words(&["p", "--flush-secs", "x"]), 300).is_err());
    assert_eq!(
        parse_flush_secs(&words(&["p", "--flush-secs"]), 300).unwrap_err(),
        "--flush-secs needs a value"
    );
}
