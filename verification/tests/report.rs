//! Scenarios for the text report.

use electron_detector::detect::ElectronApp;
use electron_detector::{format_text, Report};

fn sample_report() -> Report {
    Report {
        running: vec![ElectronApp {
            name: "Code".to_string(),
            path: r"C:\Users\me\AppData\Local\Programs\Microsoft VS Code\Code.exe".to_string(),
            sources: vec!["running".to_string()],
        }],
        installed: vec![ElectronApp {
            name: "Program".to_string(),
            path: r"C:\Program Files (x86)\Thunder Network\Thunder\Program".to_string(),
            sources: vec!["ntfs".to_string()],
        }],
        warnings: Vec::new(),
    }
}

#[test]
fn text_output_hides_app_paths_by_default() {
    let report = sample_report();

    let output = format_text(&report, false);

    assert!(output.contains("- Code\n"));
    assert!(output.contains("- Program\n"));
    assert!(!output.contains(r"C:\Users\me\AppData\Local\Programs\Microsoft VS Code"));
    assert!(!output.contains(r"C:\Program Files (x86)\Thunder Network\Thunder\Program"));
}

#[test]
fn text_output_includes_app_paths_when_requested() {
    let report = sample_report();

    let output = format_text(&report, true);

    assert!(output
        .contains(r"- Code (C:\Users\me\AppData\Local\Programs\Microsoft VS Code\Code.exe)"));
    assert!(
        output.contains(r"- Program (C:\Program Files (x86)\Thunder Network\Thunder\Program)")
    );
}
