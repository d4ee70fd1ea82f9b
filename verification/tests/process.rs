//! Scenarios for judging running processes.

use electron_detector::process::{apps_from_processes, format_powershell_query_error, ProcessInfo};

#[test]
fn detects_running_electron_apps_from_process_metadata() {
    let apps = apps_from_processes(vec![
        ProcessInfo {
            name: "AnyName.exe".to_string(),
            executable_path: r"C:\Users\me\AppData\Local\Programs\AnyName\AnyName.exe"
                .to_string(),
            command_line: r#""AnyName.exe" --type=renderer C:\AnyName\resources\app.asar"#
                .to_string(),
        },
        ProcessInfo {
            name: "notepad.exe".to_string(),
            executable_path: r"C:\Windows\notepad.exe".to_string(),
            command_line: "notepad.exe".to_string(),
        },
    ]);

    assert_eq!(apps.len(), 1);
    assert_eq!(apps[0].name, "AnyName");
    assert_eq!(apps[0].sources, ["running"]);
}

#[test]
fn detects_running_unpacked_electron_app_from_app_path() {
    let apps = apps_from_processes(vec![ProcessInfo {
        name: "Anything.exe".to_string(),
        executable_path: r"C:\Users\me\AppData\Local\Programs\Anything\Anything.exe"
            .to_string(),
        command_line:
            r#""Anything.exe" --app-path="C:\Users\me\AppData\Local\Programs\Anything\resources\app""#
                .to_string(),
    }]);

    assert_eq!(apps.len(), 1);
    assert_eq!(apps[0].name, "Anything");
}

#[test]
fn ignores_non_electron_process_paths_under_resources_app() {
    let apps = apps_from_processes(vec![ProcessInfo {
        name: "BackgroundDownload.exe".to_string(),
        executable_path: r"C:\Program Files (x86)\Microsoft Visual Studio\Installer\resources\app\ServiceHub\Services\Microsoft.VisualStudio.Setup.Service\BackgroundDownload.exe"
            .to_string(),
        command_line: r#""C:\Program Files (x86)\Microsoft Visual Studio\Installer\resources\app\ServiceHub\Services\Microsoft.VisualStudio.Setup.Service\BackgroundDownload.exe""#
            .to_string(),
    }]);

    assert!(apps.is_empty());
}

#[test]
fn ignores_project_paths_that_only_contain_electron_in_their_name() {
    let apps = apps_from_processes(vec![ProcessInfo {
        name: "electron-detector.exe".to_string(),
        executable_path:
            r"C:\Users\me\repo\electron-detector\target\debug\electron-detector.exe".to_string(),
        command_line: r"C:\Users\me\repo\electron-detector\target\debug\electron-detector.exe"
            .to_string(),
    }]);

    assert!(apps.is_empty());
}

#[test]
fn ignores_shell_and_tool_hosts_that_mention_electron() {
    let apps = apps_from_processes(vec![
        ProcessInfo {
            name: "cmd.exe".to_string(),
            executable_path: r"C:\Windows\System32\cmd.exe".to_string(),
            command_line: r"cmd.exe /c electron .".to_string(),
        },
        ProcessInfo {
            name: "node.exe".to_string(),
            executable_path: r"C:\Program Files\nodejs\node.exe".to_string(),
            command_line: r"node.exe C:\tools\electron\cli.js C:\App\resources\app.asar"
                .to_string(),
        },
    ]);

    assert!(apps.is_empty());
}

#[test]
fn deduplicates_running_apps_by_executable_path_when_available() {
    let apps = apps_from_processes(vec![
        ProcessInfo {
            name: "electron.exe".to_string(),
            executable_path: r"C:\Apps\Alpha\electron.exe".to_string(),
            command_line: r"C:\Apps\Alpha\electron.exe".to_string(),
        },
        ProcessInfo {
            name: "electron.exe".to_string(),
            executable_path: r"C:\Apps\Beta\electron.exe".to_string(),
            command_line: r"C:\Apps\Beta\electron.exe".to_string(),
        },
    ]);

    assert_eq!(apps.len(), 2);
}

#[test]
fn formats_failed_powershell_query_with_status_and_output() {
    assert_eq!(
        format_powershell_query_error("exit code: 1", b" access denied \r\n", b"ignored"),
        "PowerShell process query failed (exit code: 1): access denied"
    );
    assert_eq!(
        format_powershell_query_error("exit code: 2", b" \r\n", b" fallback \n"),
        "PowerShell process query failed (exit code: 2): fallback"
    );
}
