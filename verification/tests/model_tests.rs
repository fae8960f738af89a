use app_manager::models::{
    extract_exe_name, RegistryHive, Source, StartupEntry, EnabledStatus, RunState,
};

fn run_source(name: &str) -> Source {
    let _ = name;
    Source::RegistryRun {
        hive: RegistryHive::HKCU,
        key_path: r"Software\Microsoft\Windows\CurrentVersion\Run".to_string(),
    }
}

#[test]
fn exe_name_plain_path() {
    assert_eq!(
        extract_exe_name(r"C:\Apps\Launcher.exe"),
        Some("launcher.exe".to_string())
    );
}

#[test]
fn exe_name_unquoted_path_truncates_at_space() {
    // an unquoted command is cut at the first whitespace, so a spaced
    // path yields the truncated component
    assert_eq!(
        extract_exe_name(r"C:\Program Files\App\Launcher.exe"),
        Some("program".to_string())
    );
}

#[test]
fn exe_name_quoted_with_args() {
    assert_eq!(
        extract_exe_name(r#""C:\Program Files\My App\Run Me.exe" --minimized --tray"#),
        Some("run me.exe".to_string())
    );
}

#[test]
fn exe_name_unquoted_args_stop_at_whitespace() {
    assert_eq!(
        extract_exe_name(r"C:\Tools\agent.exe /background"),
        Some("agent.exe".to_string())
    );
}

#[test]
fn exe_name_forward_slashes() {
    assert_eq!(
        extract_exe_name("C:/tools/Helper.EXE"),
        Some("helper.exe".to_string())
    );
}

#[test]
fn exe_name_empty_and_blank() {
    assert_eq!(extract_exe_name(""), None);
    assert_eq!(extract_exe_name("   \t "), None);
}

#[test]
fn exe_name_trailing_separator_is_none() {
    assert_eq!(extract_exe_name(r"C:\Program\"), None);
}

#[test]
fn exe_name_bare_name_is_lowered() {
    assert_eq!(extract_exe_name("NOTEPAD.EXE"), Some("notepad.exe".to_string()));
}

#[test]
fn sort_key_precedence_order() {
    let run = run_source("a");
    let run_once = Source::RegistryRunOnce {
        hive: RegistryHive::HKLM,
        key_path: "k".to_string(),
    };
    let folder = Source::StartupFolder { path: "p".to_string(), is_common: false };
    let task = Source::TaskScheduler { task_path: r"\Tasks\T".to_string() };
    let service = Source::Service {
        service_name: "svc".to_string(),
        command_line: "cmd".to_string(),
    };
    assert_eq!(run.sort_key(), 0);
    assert_eq!(run_once.sort_key(), 1);
    assert_eq!(folder.sort_key(), 2);
    assert_eq!(task.sort_key(), 3);
    assert_eq!(service.sort_key(), 4);
}

#[test]
fn display_location_variants() {
    let run = run_source("a");
    assert_eq!(
        run.display_location(),
        r"HKCU\Software\Microsoft\Windows\CurrentVersion\Run"
    );
    let folder = Source::StartupFolder { path: "p".to_string(), is_common: true };
    assert_eq!(folder.display_location(), "Common Startup Folder");
    let user_folder = Source::StartupFolder { path: "p".to_string(), is_common: false };
    assert_eq!(user_folder.display_location(), "User Startup Folder");
    let task = Source::TaskScheduler { task_path: r"\Microsoft\Foo".to_string() };
    assert_eq!(task.display_location(), r"Task: \Microsoft\Foo");
    let service = Source::Service {
        service_name: "svc".to_string(),
        command_line: r"C:\w\s.exe".to_string(),
    };
    assert_eq!(service.display_location(), r"C:\w\s.exe");
}

#[test]
fn new_entry_defaults() {
    let e = StartupEntry::new(
        "Name".to_string(),
        "cmd.exe".to_string(),
        run_source("Name"),
    );
    assert_eq!(e.enabled, EnabledStatus::Unknown);
    assert_eq!(e.run_state, RunState::Stopped);
    assert_eq!(e.last_ran, None);
    assert!(!e.requires_admin);
    assert_eq!(e.runs_as, "");
    assert_eq!(e.product_name, "");
    assert_eq!(e.exe_name(), Some("cmd.exe".to_string()));
}

use app_manager::models::clean_account_name;

#[test]
fn account_names_are_normalized() {
    assert_eq!(clean_account_name(""), "SYSTEM");
    assert_eq!(clean_account_name("  "), "SYSTEM");
    assert_eq!(clean_account_name("LocalSystem"), "SYSTEM");
    assert_eq!(clean_account_name("localsystem"), "SYSTEM");
    assert_eq!(clean_account_name("NT AUTHORITY\\LocalService"), "LocalService");
    assert_eq!(clean_account_name("alice"), "alice");
}
