//! Scenarios for classifying candidate paths and grouping them into apps.

use electron_detector::detect::{candidate_kind, installed_apps_from_candidates, CandidateKind, ElectronApp};

#[test]
fn classifies_candidate_paths() {
    assert_eq!(
        candidate_kind(r"C:\Users\me\AppData\Local\Programs\Code\resources\app.asar"),
        Some(CandidateKind::AppAsar)
    );
    assert_eq!(
        candidate_kind(
            r"C:\Users\me\AppData\Local\Programs\Microsoft VS Code\4fe60c8b1c\resources\app\package.json"
        ),
        Some(CandidateKind::AppPackageJson)
    );
    assert_eq!(
        candidate_kind(r"C:\Tools\Electron\electron.exe"),
        Some(CandidateKind::ElectronExe)
    );
    assert_eq!(
        candidate_kind(r"C:\Users\me\AppData\Local\Programs\Code\resources"),
        Some(CandidateKind::ResourcesDir)
    );
    assert_eq!(candidate_kind(r"C:\Windows\notepad.exe"), None);
}

#[test]
fn groups_candidates_by_app_root() {
    let apps = installed_apps_from_candidates(vec![
        r"C:\Users\me\AppData\Local\Programs\Code\resources\app.asar".to_string(),
        r"C:\Users\me\AppData\Local\Programs\Code\resources\electron.exe".to_string(),
        r"C:\Users\me\AppData\Local\Programs\Slack\resources\app.asar".to_string(),
    ]);

    assert_eq!(
        apps,
        vec![
            ElectronApp {
                name: "Code".to_string(),
                path: r"C:\Users\me\AppData\Local\Programs\Code".to_string(),
                sources: vec!["ntfs".to_string()],
            },
            ElectronApp {
                name: "Slack".to_string(),
                path: r"C:\Users\me\AppData\Local\Programs\Slack".to_string(),
                sources: vec!["ntfs".to_string()],
            },
        ]
    );
}

#[test]
fn ignores_bare_resources_directory() {
    let apps = installed_apps_from_candidates(vec![r"C:\Random\resources".to_string()]);

    assert!(apps.is_empty());
}

#[test]
fn groups_electron_exe_under_resources_by_app_root() {
    let apps = installed_apps_from_candidates(vec![
        r"C:\Users\me\AppData\Local\Programs\Cursor\resources\electron.exe".to_string(),
    ]);

    assert_eq!(
        apps,
        vec![ElectronApp {
            name: "Cursor".to_string(),
            path: r"C:\Users\me\AppData\Local\Programs\Cursor".to_string(),
            sources: vec!["ntfs".to_string()],
        }]
    );
}

#[test]
fn uses_root_exe_name_for_generic_win_unpacked_root() {
    let apps = installed_apps_from_candidates(vec![
        r"D:\projects\UI\ele\dist\win-unpacked\resources\app.asar".to_string(),
        r"D:\projects\UI\ele\dist\win-unpacked\ATLaserTrackClient.exe".to_string(),
    ]);

    assert_eq!(
        apps,
        vec![ElectronApp {
            name: "ATLaserTrackClient".to_string(),
            path: r"D:\projects\UI\ele\dist\win-unpacked".to_string(),
            sources: vec!["ntfs".to_string()],
        }]
    );
}

#[test]
fn detects_unpacked_vscode_layout_without_app_asar() {
    let apps = installed_apps_from_candidates(vec![
        r"C:\Users\me\AppData\Local\Programs\Microsoft VS Code\4fe60c8b1c\resources\app\package.json"
            .to_string(),
    ]);

    assert_eq!(
        apps,
        vec![ElectronApp {
            name: "Microsoft VS Code".to_string(),
            path: r"C:\Users\me\AppData\Local\Programs\Microsoft VS Code".to_string(),
            sources: vec!["ntfs".to_string()],
        }]
    );
}

#[test]
fn uses_root_exe_name_for_generic_app_root() {
    let apps = installed_apps_from_candidates(vec![
        r"C:\Program Files\WindowsApps\OpenAI.Codex_1.0_x64__id\app\resources\app.asar"
            .to_string(),
        r"C:\Program Files\WindowsApps\OpenAI.Codex_1.0_x64__id\app\Codex.exe".to_string(),
    ]);

    assert_eq!(
        apps,
        vec![ElectronApp {
            name: "Codex".to_string(),
            path: r"C:\Program Files\WindowsApps\OpenAI.Codex_1.0_x64__id\app".to_string(),
            sources: vec!["ntfs".to_string()],
        }]
    );
}

#[test]
fn detects_unpacked_vscode_layout_with_nested_package_candidates() {
    let apps = installed_apps_from_candidates(vec![
        r"C:\Users\me\AppData\Local\Programs\Microsoft VS Code\4fe60c8b1c\resources\app\node_modules\foo\package.json"
            .to_string(),
        r"C:\Users\me\AppData\Local\Programs\Microsoft VS Code\4fe60c8b1c\resources\app\package.json"
            .to_string(),
        r"C:\Users\me\AppData\Local\Programs\Microsoft VS Code\Code.exe".to_string(),
    ]);

    assert_eq!(
        apps,
        vec![ElectronApp {
            name: "Code".to_string(),
            path: r"C:\Users\me\AppData\Local\Programs\Microsoft VS Code".to_string(),
            sources: vec!["ntfs".to_string()],
        }]
    );
}

#[test]
fn deduplicates_versioned_app_dirs_by_parent_path() {
    let apps = installed_apps_from_candidates(vec![
        r"C:\Users\me\AppData\Local\Figma\app-1.0.0\resources\app.asar".to_string(),
        r"C:\Users\me\AppData\Local\Figma\app-2.0.0\resources\app.asar".to_string(),
    ]);

    assert_eq!(
        apps,
        vec![ElectronApp {
            name: "Figma".to_string(),
            path: r"C:\Users\me\AppData\Local\Figma".to_string(),
            sources: vec!["ntfs".to_string()],
        }]
    );
}

#[test]
fn preserves_absolute_and_unc_root_prefixes() {
    let apps = installed_apps_from_candidates(vec![
        "/Applications/Foo.app/Contents/resources/app.asar".to_string(),
        r"\\server\share\App\resources\app.asar".to_string(),
    ]);

    let paths: Vec<_> = apps.into_iter().map(|app| app.path).collect();

    assert_eq!(
        paths,
        ["/Applications/Foo.app/Contents", r"\\server\share\App",]
    );
}
