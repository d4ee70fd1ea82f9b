//! Candidate classification and grouping edge cases, and the refresh cache.

use electron_detector::cache::{CacheData, VolumeState};
use electron_detector::text::component_spans;
use electron_detector::detect::{
    candidate_kind, installed_apps_from_candidates, is_path_separator, source_list, CandidateKind,
    ElectronApp,
};

fn app(name: &str, path: &str) -> ElectronApp {
    ElectronApp {
        name: name.to_string(),
        path: path.to_string(),
        sources: vec!["ntfs".to_string()],
    }
}

fn strings(paths: &[&str]) -> Vec<String> {
    paths.iter().map(|p| p.to_string()).collect()
}

#[test]
fn classifies_edge_paths() {
    assert_eq!(candidate_kind(""), None);
    assert_eq!(candidate_kind(r"\\"), None);
    assert_eq!(candidate_kind("APP.ASAR"), Some(CandidateKind::AppAsar));
    assert_eq!(
        candidate_kind(r"C:\App\Resources\APP\Package.json"),
        Some(CandidateKind::AppPackageJson)
    );
    assert_eq!(candidate_kind(r"C:\App\app\package.json"), None);
    assert_eq!(
        candidate_kind("/opt/x/RESOURCES/readme.md"),
        Some(CandidateKind::ResourcesDir)
    );
    assert_eq!(candidate_kind(r"C:\Apps\ELECTRON.EXE"), Some(CandidateKind::ElectronExe));
    assert!(is_path_separator('/'));
    assert!(is_path_separator('\\'));
    assert!(!is_path_separator(':'));
}

#[test]
fn no_app_signal_gives_no_apps() {
    let apps = installed_apps_from_candidates(strings(&[
        r"C:\Random\resources",
        r"C:\Windows\notepad.exe",
        r"C:\Apps\Thing\resources\readme.txt",
    ]));
    assert!(apps.is_empty());
    assert!(installed_apps_from_candidates(Vec::new()).is_empty());
}

#[test]
fn roots_differing_in_case_give_one_app() {
    let apps = installed_apps_from_candidates(strings(&[
        r"C:\Apps\Code\resources\app.asar",
        r"c:\apps\code\resources\electron.exe",
    ]));
    assert_eq!(apps, vec![app("Code", r"C:\Apps\Code")]);
}

#[test]
fn hexish_roots_take_the_parent_directory_name() {
    let apps = installed_apps_from_candidates(strings(&[r"C:\Apps\Foo\0123abcd\resources\app.asar"]));
    assert_eq!(apps, vec![app("Foo", r"C:\Apps\Foo")]);
}

#[test]
fn signal_paths_each_give_an_app_listed_by_root() {
    let apps = installed_apps_from_candidates(strings(&[
        r"D:\Zed\resources\app.asar",
        r"C:\Alpha\resources\app\package.json",
    ]));
    assert_eq!(apps, vec![app("Alpha", r"C:\Alpha"), app("Zed", r"D:\Zed")]);
}

#[test]
fn grouping_does_not_depend_on_duplicates() {
    let once = installed_apps_from_candidates(strings(&[r"C:\Apps\Slack\resources\app.asar"]));
    let twice = installed_apps_from_candidates(strings(&[
        r"C:\Apps\Slack\resources\app.asar",
        r"C:\Apps\Slack\resources\app.asar",
    ]));
    assert_eq!(once, twice);
}

#[test]
fn labels_sources() {
    assert_eq!(source_list("ntfs"), vec!["ntfs".to_string()]);
}

#[test]
fn cache_from_scan_merges_volume_candidates_in_order() {
    let volumes = vec![
        VolumeState {
            root: r"C:\".to_string(),
            journal_id: 456,
            next_usn: 789,
        },
        VolumeState {
            root: r"D:\".to_string(),
            journal_id: 1,
            next_usn: -2,
        },
    ];
    let per_volume = vec![
        strings(&[r"C:\B\resources\app.asar"]),
        strings(&[r"C:\A\resources\app.asar", r"C:\B\resources\app.asar"]),
    ];

    let cache = CacheData::from_scan(123, per_volume, volumes.clone());

    assert_eq!(
        cache,
        CacheData {
            built_at_unix: 123,
            candidates: strings(&[r"C:\A\resources\app.asar", r"C:\B\resources\app.asar"]),
            installed_apps: vec![app("A", r"C:\A"), app("B", r"C:\B")],
            volumes,
        }
    );
}

#[test]
fn cache_from_an_empty_scan_is_empty() {
    let cache = CacheData::from_scan(0, Vec::new(), Vec::new());
    assert!(cache.candidates.is_empty());
    assert!(cache.installed_apps.is_empty());
    assert!(cache.volumes.is_empty());
}

#[test]
fn app_paths_are_directories_of_candidates() {
    let candidates = strings(&[
        r"C:\Apps\Foo\0123abcd\resources\app.asar",
        r"D:\Zed\\resources\electron.exe",
        r"E:\x\win-unpacked\resources\app.asar",
        r"E:\x\win-unpacked\Tool.exe",
    ]);
    let apps = installed_apps_from_candidates(candidates.clone());
    assert_eq!(apps.len(), 3);
    for a in &apps {
        assert!(!a.path.is_empty());
        assert!(candidates.iter().any(|c| c.len() > a.path.len()
            && c.starts_with(&a.path)
            && matches!(c[a.path.len()..].chars().next(), Some('\\') | Some('/'))));
    }
    assert!(apps.iter().any(|a| a.path.eq_ignore_ascii_case(r"d:\zed")));
    assert_eq!(apps[2].name, "Tool");
}

#[test]
fn component_spans_are_the_runs_between_separators() {
    let chars: Vec<char> = r"\a//bc\".chars().collect();
    assert_eq!(component_spans(&chars), vec![(1, 2), (4, 6)]);
    let none: Vec<char> = r"//\".chars().collect();
    assert!(component_spans(&none).is_empty());
}
