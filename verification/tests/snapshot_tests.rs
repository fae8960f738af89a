use app_manager::models::Timestamp;
use app_manager::snapshots::{
    parse_prefetch_filename, PrefetchCache, PrefetchRecord, ProcessRecord, ProcessSnapshot,
};

fn ts(secs: i64) -> Timestamp {
    Timestamp { secs, nanos: 0 }
}

#[test]
fn prefetch_filename_strips_hash_and_extension() {
    assert_eq!(
        parse_prefetch_filename("CHROME.EXE-AB12CD34.pf"),
        Some("CHROME.EXE".to_string())
    );
    assert_eq!(
        parse_prefetch_filename("chrome.exe-ab12cd34.PF"),
        Some("CHROME.EXE".to_string())
    );
}

#[test]
fn prefetch_filename_rejects_odd_shapes() {
    assert_eq!(parse_prefetch_filename("NOHASH.pf"), None);
    assert_eq!(parse_prefetch_filename("CHROME.EXE-AB12CD34.txt"), None);
    assert_eq!(parse_prefetch_filename(""), None);
    assert_eq!(parse_prefetch_filename(".pf"), None);
}

#[test]
fn snapshot_running_set_is_case_insensitive() {
    let snap = ProcessSnapshot::new(&vec![
        ProcessRecord { name: "Chrome.EXE".to_string(), start_secs: 100 },
        ProcessRecord { name: "agent.exe".to_string(), start_secs: 0 },
    ]);
    assert!(snap.is_running("chrome.exe"));
    assert!(snap.is_running("CHROME.exe"));
    assert!(snap.is_running("agent.exe"));
    assert!(!snap.is_running("other.exe"));
}

#[test]
fn snapshot_keeps_earliest_start_time_per_name() {
    let snap = ProcessSnapshot::new(&vec![
        ProcessRecord { name: "app.exe".to_string(), start_secs: 500 },
        ProcessRecord { name: "APP.EXE".to_string(), start_secs: 200 },
        ProcessRecord { name: "app.exe".to_string(), start_secs: 900 },
    ]);
    assert_eq!(snap.start_time("App.exe"), Some(ts(200)));
}

#[test]
fn snapshot_ignores_zero_start_times() {
    let snap = ProcessSnapshot::new(&vec![ProcessRecord {
        name: "app.exe".to_string(),
        start_secs: 0,
    }]);
    assert!(snap.is_running("app.exe"));
    assert_eq!(snap.start_time("app.exe"), None);
}

#[test]
fn prefetch_cache_keeps_most_recent_record() {
    let cache = PrefetchCache::new(
        &vec![
            PrefetchRecord { file_name: "APP.EXE-11111111.pf".to_string(), modified: ts(300) },
            PrefetchRecord { file_name: "APP.EXE-22222222.pf".to_string(), modified: ts(800) },
            PrefetchRecord { file_name: "APP.EXE-33333333.pf".to_string(), modified: ts(500) },
            PrefetchRecord { file_name: "junk.txt".to_string(), modified: ts(999) },
        ],
        true,
    );
    assert!(cache.accessible);
    assert_eq!(cache.last_ran("app.exe"), Some(ts(800)));
    assert_eq!(cache.last_ran("APP.EXE"), Some(ts(800)));
    assert_eq!(cache.last_ran("other.exe"), None);
}

#[test]
fn prefetch_cache_records_inaccessibility() {
    let cache = PrefetchCache::new(&vec![], false);
    assert!(!cache.accessible);
    assert_eq!(cache.last_ran("app.exe"), None);
}
