use app_manager::collector::{collect_all_entries, enrich_entry, nonadmin_task_paths, Caches};
use app_manager::models::{
    EnabledStatus, RegistryHive, RunState, Source, StartupEntry, Timestamp,
};
use app_manager::snapshots::{PrefetchCache, PrefetchRecord, ProcessRecord, ProcessSnapshot};
use app_manager::status::{build_approval_store, ApprovalBranch, RawApproval, FILETIME_UNIX_DIFF};

fn ts(secs: i64) -> Timestamp {
    Timestamp { secs, nanos: 0 }
}

fn run_entry(name: &str, command: &str) -> StartupEntry {
    StartupEntry::new(
        name.to_string(),
        command.to_string(),
        Source::RegistryRun {
            hive: RegistryHive::HKCU,
            key_path: r"Software\Microsoft\Windows\CurrentVersion\Run".to_string(),
        },
    )
}

fn task_entry(name: &str, path: &str) -> StartupEntry {
    let mut e = StartupEntry::new(
        name.to_string(),
        r"C:\tasks\runner.exe".to_string(),
        Source::TaskScheduler { task_path: path.to_string() },
    );
    e.enabled = EnabledStatus::Enabled;
    e.runs_as = "TaskUser".to_string();
    e
}

fn service_entry(name: &str) -> StartupEntry {
    let mut e = StartupEntry::new(
        name.to_string(),
        r"C:\w\svc.exe".to_string(),
        Source::Service {
            service_name: name.to_string(),
            command_line: r"C:\w\svc.exe".to_string(),
        },
    );
    e.enabled = EnabledStatus::Manual;
    e.run_state = RunState::Running;
    e
}

fn empty_caches(accessible: bool) -> Caches {
    Caches {
        approvals: build_approval_store(vec![]),
        processes: ProcessSnapshot::new(&vec![]),
        prefetch: PrefetchCache::new(&vec![], accessible),
        products: vec![],
        current_user: "alice".to_string(),
    }
}

fn disabled_bytes(ft: u64) -> Vec<u8> {
    let mut v = vec![0x03, 0, 0, 0];
    v.extend_from_slice(&ft.to_le_bytes());
    v
}

#[test]
fn enrichment_is_idempotent() {
    let caches = Caches {
        approvals: build_approval_store(vec![RawApproval {
            hive: RegistryHive::HKCU,
            branch: ApprovalBranch::Run,
            value_name: "App".to_string(),
            data: disabled_bytes(FILETIME_UNIX_DIFF + 1_600_000_000u64 * 10_000_000),
        }]),
        processes: ProcessSnapshot::new(&vec![ProcessRecord {
            name: "other.exe".to_string(),
            start_secs: 50,
        }]),
        prefetch: PrefetchCache::new(
            &vec![PrefetchRecord {
                file_name: "APP.EXE-00000001.pf".to_string(),
                modified: ts(700),
            }],
            true,
        ),
        products: vec![(r"C:\p\app.exe".to_string(), "The App".to_string())],
        current_user: "alice".to_string(),
    };
    let raw = run_entry("App", r"C:\p\app.exe");
    let once = enrich_entry(raw.clone(), &caches);
    let twice = enrich_entry(once.clone(), &caches);
    assert_eq!(once, twice);
    // and the single pass did real work
    assert_eq!(once.enabled, EnabledStatus::Disabled);
    assert_eq!(once.runs_as, "alice");
    assert_eq!(once.product_name, "The App");
    assert_eq!(once.run_state, RunState::Stopped);
}

#[test]
fn live_process_time_overwrites_existing_value() {
    let caches = Caches {
        approvals: build_approval_store(vec![]),
        processes: ProcessSnapshot::new(&vec![ProcessRecord {
            name: "app.exe".to_string(),
            start_secs: 12345,
        }]),
        prefetch: PrefetchCache::new(&vec![], true),
        products: vec![],
        current_user: "alice".to_string(),
    };
    let mut raw = run_entry("App", r"C:\p\App.exe");
    raw.last_ran = Some(ts(1)); // already known, but the live process wins
    let enriched = enrich_entry(raw, &caches);
    assert_eq!(enriched.run_state, RunState::Running);
    assert_eq!(enriched.last_ran, Some(ts(12345)));
}

#[test]
fn stopped_entry_falls_back_to_prefetch_by_upper_name() {
    let caches = Caches {
        approvals: build_approval_store(vec![]),
        processes: ProcessSnapshot::new(&vec![]),
        prefetch: PrefetchCache::new(
            &vec![PrefetchRecord {
                file_name: "APP.EXE-0A0A0A0A.pf".to_string(),
                modified: ts(4242),
            }],
            true,
        ),
        products: vec![],
        current_user: "alice".to_string(),
    };
    let enriched = enrich_entry(run_entry("App", r"C:\p\app.exe"), &caches);
    assert_eq!(enriched.run_state, RunState::Stopped);
    assert_eq!(enriched.last_ran, Some(ts(4242)));
    // with no prefetch record either, the time stays unset
    let bare = enrich_entry(run_entry("App", r"C:\p\nothere.exe"), &empty_caches(true));
    assert_eq!(bare.last_ran, None);
}

#[test]
fn service_keeps_reader_supplied_account() {
    let mut named = service_entry("Svc");
    named.runs_as = "LocalService".to_string();
    let enriched = enrich_entry(named, &empty_caches(false));
    assert_eq!(enriched.runs_as, "LocalService");
    // a service whose reader left the account empty runs as the user
    let enriched2 = enrich_entry(service_entry("Svc2"), &empty_caches(false));
    assert_eq!(enriched2.runs_as, "alice");
}

#[test]
fn task_entries_keep_their_reader_fields() {
    let enriched = enrich_entry(task_entry("T", r"\Microsoft\T"), &empty_caches(false));
    assert_eq!(enriched.enabled, EnabledStatus::Enabled);
    assert_eq!(enriched.runs_as, "TaskUser");
}

#[test]
fn nonelevated_pass_marks_nothing_admin_only() {
    let result = collect_all_entries(
        vec![run_entry("A", "a.exe")],
        vec![],
        vec![],
        Some(vec![task_entry("T", r"\Microsoft\Foo")]),
        vec![],
        &empty_caches(false),
        &None,
    );
    assert!(!result.is_admin);
    assert!(result.entries.iter().all(|e| !e.requires_admin));
}

#[test]
fn elevated_pass_marks_tasks_missing_from_saved_set() {
    let saved = Some(vec![r"\Microsoft\Foo".to_string(), r"\Bar".to_string()]);
    let result = collect_all_entries(
        vec![],
        vec![],
        vec![],
        Some(vec![
            task_entry("Foo", r"\Microsoft\Foo"),
            task_entry("Bar", r"\Bar"),
            task_entry("Baz", r"\Baz"),
        ]),
        vec![],
        &empty_caches(true),
        &saved,
    );
    assert!(result.is_admin);
    for e in &result.entries {
        let admin_only = match &e.source {
            Source::TaskScheduler { task_path } => task_path == r"\Baz",
            _ => false,
        };
        assert_eq!(e.requires_admin, admin_only, "entry {}", e.name);
    }
}

#[test]
fn elevated_pass_without_saved_set_marks_nothing() {
    let result = collect_all_entries(
        vec![],
        vec![],
        vec![],
        Some(vec![task_entry("Foo", r"\Microsoft\Foo")]),
        vec![],
        &empty_caches(true),
        &None,
    );
    assert!(result.is_admin);
    assert!(result.entries.iter().all(|e| !e.requires_admin));
}

#[test]
fn end_to_end_sort_is_source_major_name_minor() {
    let result = collect_all_entries(
        vec![run_entry("A", "a.exe"), run_entry("B", "b.exe")],
        vec![],
        vec![],
        None,
        vec![service_entry("b")],
        &empty_caches(false),
        &None,
    );
    let names: Vec<&str> = result.entries.iter().map(|e| e.name.as_str()).collect();
    assert_eq!(names, vec!["A", "B", "b"]);
    assert!(matches!(result.entries[0].source, Source::RegistryRun { .. }));
    assert!(matches!(result.entries[1].source, Source::RegistryRun { .. }));
    assert!(matches!(result.entries[2].source, Source::Service { .. }));
}

#[test]
fn failed_task_reader_contributes_nothing() {
    let with_none = collect_all_entries(
        vec![run_entry("A", "a.exe")],
        vec![],
        vec![],
        None,
        vec![],
        &empty_caches(false),
        &None,
    );
    assert_eq!(with_none.entries.len(), 1);
}

#[test]
fn task_paths_are_collected_in_order() {
    let entries = vec![
        run_entry("A", "a.exe"),
        task_entry("T1", r"\One"),
        service_entry("S"),
        task_entry("T2", r"\Two"),
    ];
    assert_eq!(
        nonadmin_task_paths(&entries),
        vec![r"\One".to_string(), r"\Two".to_string()]
    );
}

#[test]
fn sort_is_stable_for_tied_names() {
    // two distinct run entries with names equal up to case keep arrival order
    let first = run_entry("alpha", "first.exe");
    let second = run_entry("ALPHA", "second.exe");
    let result = collect_all_entries(
        vec![first, second],
        vec![],
        vec![],
        None,
        vec![],
        &empty_caches(false),
        &None,
    );
    assert_eq!(result.entries[0].command, "first.exe");
    assert_eq!(result.entries[1].command, "second.exe");
}

#[test]
fn shuffled_sources_sort_by_precedence() {
    let result = collect_all_entries(
        vec![run_entry("zz", "z.exe")],
        vec![StartupEntry::new(
            "mm".to_string(),
            "m.exe".to_string(),
            Source::RegistryRunOnce { hive: RegistryHive::HKLM, key_path: "k".to_string() },
        )],
        vec![StartupEntry::new(
            "aa".to_string(),
            "a.exe".to_string(),
            Source::StartupFolder { path: r"C:\s\aa.lnk".to_string(), is_common: false },
        )],
        Some(vec![task_entry("bb", r"\B")]),
        vec![service_entry("cc")],
        &empty_caches(false),
        &None,
    );
    let keys: Vec<u8> = result.entries.iter().map(|e| e.source.sort_key()).collect();
    assert_eq!(keys, vec![0, 1, 2, 3, 4]);
    let names: Vec<&str> = result.entries.iter().map(|e| e.name.as_str()).collect();
    assert_eq!(names, vec!["zz", "mm", "aa", "bb", "cc"]);
}
