//! Scenarios for command line parsing.

use electron_detector::cli::CliArgs;

#[test]
fn parses_supported_flags() {
    let args = CliArgs::parse_from(&[
        "electron-detector",
        "--refresh",
        "--json",
        "--paths",
        "--help",
        "--version",
    ])
    .unwrap();

    assert!(args.refresh);
    assert!(args.json);
    assert!(args.paths);
    assert!(args.help);
    assert!(args.version);
}

#[test]
fn parses_short_help_and_version_flags() {
    let args = CliArgs::parse_from(&["electron-detector", "-h", "-V"]).unwrap();

    assert!(args.help);
    assert!(args.version);
}

#[test]
fn rejects_unknown_flags() {
    let err = CliArgs::parse_from(&["electron-detector", "--deep"]).unwrap_err();

    assert_eq!(err, "unknown argument: --deep");
}
