//! Running-app decisions given what the disk says about `resources\app.asar`.

use electron_detector::detect::ElectronApp;
use electron_detector::process::{
    adjacent_archive_of, adjacent_archive_path, apps_from_processes, apps_from_processes_with,
    format_powershell_query_error, is_electron_process,
    query_failure_message, ProcessInfo,
};

fn process(name: &str, path: &str, command_line: &str) -> ProcessInfo {
    ProcessInfo {
        name: name.to_string(),
        executable_path: path.to_string(),
        command_line: command_line.to_string(),
    }
}

#[test]
fn adjacent_app_asar_marks_a_custom_product_as_electron() {
    let p = process(
        "CustomProduct.exe",
        r"C:\Programs\CustomProduct\CustomProduct.exe",
        "",
    );
    assert!(is_electron_process(&p, true));
    assert!(!is_electron_process(&p, false));

    let apps = apps_from_processes_with(vec![p], &vec![true]);
    assert_eq!(
        apps,
        vec![ElectronApp {
            name: "CustomProduct".to_string(),
            path: r"C:\Programs\CustomProduct\CustomProduct.exe".to_string(),
            sources: vec!["running".to_string()],
        }]
    );
}

#[test]
fn uninstallers_are_never_running_apps() {
    let p = process(
        "Uninstall Foxglove.exe",
        r"C:\Programs\Foxglove\Uninstall Foxglove.exe",
        r"C:\Programs\Foxglove\resources\app.asar",
    );
    assert!(!is_electron_process(&p, true));
    assert!(apps_from_processes_with(vec![p], &vec![true]).is_empty());
}

#[test]
fn host_processes_are_excluded_even_next_to_app_asar() {
    for name in ["cmd.exe", "POWERSHELL.EXE", "pwsh.exe", "node.exe", "cargo.exe", "rustc.exe", "conhost.exe"] {
        let p = process(name, r"C:\Tools\host.exe", "electron.exe app.asar");
        assert!(!is_electron_process(&p, true), "{name}");
    }
}

#[test]
fn running_apps_have_distinct_keys_in_key_order() {
    let processes = vec![
        process("Zeta.exe", r"C:\Apps\Zeta\Zeta.exe", "--type=renderer resources\\app.asar"),
        process("zeta.exe", r"c:\apps\zeta\ZETA.EXE", "--type=gpu resources\\app.asar"),
        process("Alpha.exe", r"C:\Apps\Alpha\Alpha.exe", "prod=Electron"),
    ];
    let adjacent = vec![false, false, false];

    let apps = apps_from_processes_with(processes, &adjacent);

    let names: Vec<&str> = apps.iter().map(|a| a.name.as_str()).collect();
    assert_eq!(names, vec!["Alpha", "Zeta"]);
    assert_eq!(apps[1].path, r"C:\Apps\Zeta\Zeta.exe");
}

#[test]
fn processes_without_path_are_keyed_by_display_name() {
    let processes = vec![
        process("Slack.exe", "", "--app-path=C:\\Slack\\resources\\app"),
        process("slack.EXE", "", "--app-path=C:\\Slack\\resources\\app"),
    ];
    let apps = apps_from_processes_with(processes, &vec![false, false]);
    assert_eq!(apps.len(), 1);
    assert_eq!(apps[0].name, "Slack");
    assert_eq!(apps[0].path, "");
}

#[test]
fn electron_runtime_identity_is_a_path_component() {
    let runtime = process("electron.exe", r"C:\Tools\Electron\electron.exe", "");
    assert!(is_electron_process(&runtime, false));
    let lookalike = process("electronic.exe", r"C:\Tools\electronic\electronic.exe", "");
    assert!(!is_electron_process(&lookalike, false));
}

#[test]
fn query_failure_prefers_error_output_then_standard_output() {
    assert_eq!(
        query_failure_message("exit code: 1", "  denied\n", "ignored"),
        "PowerShell process query failed (exit code: 1): denied"
    );
    assert_eq!(
        query_failure_message("exit code: 2", " \t", "\n fallback "),
        "PowerShell process query failed (exit code: 2): fallback"
    );
    assert_eq!(
        query_failure_message("exit code: 3", "", "  "),
        "PowerShell process query failed (exit code: 3)"
    );
}

#[test]
fn query_failure_replaces_invalid_utf8() {
    assert_eq!(
        format_powershell_query_error("exit code: 4", b"bad \xff bytes", b""),
        "PowerShell process query failed (exit code: 4): bad \u{fffd} bytes"
    );
}

#[test]
fn processes_without_executable_path_are_not_judged_by_disk() {
    let apps = apps_from_processes(vec![process("CustomProduct.exe", "", "")]);
    assert!(apps.is_empty());
}

#[test]
fn probes_resources_app_asar_in_the_executable_directory() {
    let unix = Some("/opt/App/resources/app.asar".to_string());
    let windows = Some(r"/opt/App\resources\app.asar".to_string());
    let got = adjacent_archive_of("/opt/App/App");
    assert!(got == unix || got == windows, "{got:?}");
    assert_eq!(adjacent_archive_of(""), None);
    let bare = adjacent_archive_path("");
    assert!(bare == "resources/app.asar" || bare == r"resources\app.asar", "{bare}");
    let slash = adjacent_archive_path("/opt/App/");
    assert!(slash == "/opt/App/resources/app.asar" || slash == r"/opt/App/resources\app.asar", "{slash}");
}

#[test]
fn excluded_processes_change_nothing() {
    let base = vec![
        process("Zeta.exe", r"C:\Apps\Zeta\Zeta.exe", "resources\\app.asar"),
        process("Alpha.exe", r"C:\Apps\Alpha\Alpha.exe", "prod=Electron"),
    ];
    let before = apps_from_processes_with(base.clone(), &vec![false, false]);
    for extra in [
        process("node.exe", r"C:\Apps\Alpha\Alpha.exe", "electron app.asar"),
        process("Uninstall Zeta.exe", r"C:\Apps\Zeta\Uninstall Zeta.exe", "prod=Electron"),
    ] {
        for at in 0..=base.len() {
            let mut more = base.clone();
            more.insert(at, extra.clone());
            let mut adjacent = vec![false, false];
            adjacent.insert(at, true);
            assert_eq!(apps_from_processes_with(more, &adjacent), before);
        }
    }
}
