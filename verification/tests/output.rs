//! Help text, flag parsing edge cases and the exact text report.

use electron_detector::cli::CliArgs;
use electron_detector::detect::ElectronApp;
use electron_detector::text::char_is_whitespace;
use electron_detector::{
    decimal_string, format_app_line, format_text, help_text, refresh_hint, request_of, Report, Request,
    HELP_TEXT,
};

fn app(name: &str, path: &str) -> ElectronApp {
    ElectronApp {
        name: name.to_string(),
        path: path.to_string(),
        sources: vec!["ntfs".to_string()],
    }
}

#[test]
fn help_output_lists_supported_options() {
    let args = CliArgs::parse_from(&["electron-detector", "--help"]).unwrap();
    assert!(args.help);

    let output = help_text();

    assert!(output.contains("-h, --help"));
    assert!(output.contains("-V, --version"));
    assert!(output.contains("--refresh"));
    assert_eq!(output, HELP_TEXT);
}

#[test]
fn repeated_flags_parse_like_single_ones() {
    let once = CliArgs::parse_from(&["electron-detector", "--json"]).unwrap();
    let twice = CliArgs::parse_from(&["electron-detector", "--json", "--json"]).unwrap();
    assert_eq!(once, twice);
    assert!(once.json);
    assert!(!once.refresh && !once.paths && !once.help && !once.version);
}

#[test]
fn no_arguments_set_no_flags() {
    let none = CliArgs::parse_from(&[]).unwrap();
    let program_only = CliArgs::parse_from(&["electron-detector"]).unwrap();
    assert_eq!(none, program_only);
    assert!(!none.refresh && !none.json && !none.paths && !none.help && !none.version);
}

#[test]
fn first_unknown_argument_is_reported() {
    let err = CliArgs::parse_from(&["electron-detector", "--json", "--deep", "-x"]).unwrap_err();
    assert_eq!(err, "unknown argument: --deep");
    let err = CliArgs::parse_from(&["electron-detector", "--help", "json"]).unwrap_err();
    assert_eq!(err, "unknown argument: json");
}

#[test]
fn formats_decimal_counts() {
    assert_eq!(decimal_string(0), "0");
    assert_eq!(decimal_string(7), "7");
    assert_eq!(decimal_string(1204), "1204");
    assert_eq!(decimal_string(usize::MAX), usize::MAX.to_string());
}

#[test]
fn formats_app_lines() {
    let a = app("Code", r"C:\Apps\Code");
    assert_eq!(format_app_line(&a, false), "- Code\n");
    assert_eq!(format_app_line(&a, true), "- Code (C:\\Apps\\Code)\n");
}

#[test]
fn formats_the_whole_text_report() {
    let report = Report {
        running: Vec::new(),
        installed: vec![app("Code", r"C:\Apps\Code"), app("Slack", r"C:\Apps\Slack")],
        warnings: vec!["cache missing".to_string(), "query failed".to_string()],
    };
    assert_eq!(
        format_text(&report, false),
        "Running Electron apps: 0\n\nInstalled Electron apps: 2\n- Code\n- Slack\nwarning: cache missing\nwarning: query failed\n"
    );
}

#[test]
fn text_without_paths_ignores_app_paths() {
    let first = Report {
        running: vec![app("Code", r"C:\Apps\Code\Code.exe")],
        installed: vec![app("Slack", r"C:\Apps\Slack")],
        warnings: vec!["w".to_string()],
    };
    let second = Report {
        running: vec![app("Code", r"D:\Elsewhere\Code.exe")],
        installed: vec![app("Slack", r"E:\Slack")],
        warnings: vec!["w".to_string()],
    };
    assert_eq!(format_text(&first, false), format_text(&second, false));
    assert_ne!(format_text(&first, true), format_text(&second, true));
}

#[test]
fn help_wins_over_version_and_detection() {
    let both = CliArgs::parse_from(&["electron-detector", "-V", "-h", "--json"]).unwrap();
    assert_eq!(request_of(&both), Request::Help);
    let version = CliArgs::parse_from(&["electron-detector", "--json", "-V"]).unwrap();
    assert_eq!(request_of(&version), Request::Version);
    let plain = CliArgs::parse_from(&["electron-detector", "--paths"]).unwrap();
    assert_eq!(request_of(&plain), Request::Detect);
}

#[test]
fn cache_warning_suggests_a_refresh() {
    assert_eq!(
        refresh_hint("LOCALAPPDATA is not set"),
        "LOCALAPPDATA is not set; run electron-detector --refresh"
    );
}

#[test]
fn whitespace_matches_the_standard_library() {
    for code in 0u32..=0x10ffff {
        if let Some(c) = char::from_u32(code) {
            assert_eq!(char_is_whitespace(c), c.is_whitespace(), "{code:#x}");
        }
    }
}
