use app_manager::models::{EnabledStatus, RegistryHive, Source, Timestamp};
use app_manager::status::{
    build_approval_store, filetime_to_timestamp, get_approval_status, parse_startup_approved,
    timestamp_to_filetime, ApprovalBranch, RawApproval, FILETIME_UNIX_DIFF,
};
use chrono::TimeZone;

fn record(hive: RegistryHive, branch: ApprovalBranch, name: &str, data: Vec<u8>) -> RawApproval {
    RawApproval { hive, branch, value_name: name.to_string(), data }
}

fn enabled_bytes() -> Vec<u8> {
    vec![0x02, 0, 0, 0, 0, 0, 0, 0, 0, 0, 0, 0]
}

fn disabled_bytes(ft: u64) -> Vec<u8> {
    let mut v = vec![0x03, 0, 0, 0];
    v.extend_from_slice(&ft.to_le_bytes());
    v
}

#[test]
fn status_byte_two_and_six_are_enabled() {
    for b in [0x02u8, 0x06] {
        let mut data = vec![b];
        data.extend_from_slice(&[0u8; 11]);
        let info = parse_startup_approved(&data);
        assert_eq!(info.enabled, EnabledStatus::Enabled);
        assert_eq!(info.disabled_timestamp, None);
    }
}

#[test]
fn every_other_status_byte_is_disabled() {
    for b in 0u16..=255 {
        let b = b as u8;
        if b == 0x02 || b == 0x06 {
            continue;
        }
        let mut data = vec![b];
        data.extend_from_slice(&[0u8; 11]);
        let info = parse_startup_approved(&data);
        assert_eq!(info.enabled, EnabledStatus::Disabled, "byte {b:#x}");
        // all-zero FILETIME bytes carry no timestamp
        assert_eq!(info.disabled_timestamp, None);
    }
}

#[test]
fn short_buffers_are_unknown_regardless_of_first_byte() {
    for len in 0usize..12 {
        let mut data = vec![0x02u8; len.max(1)];
        data.truncate(len);
        let info = parse_startup_approved(&data);
        assert_eq!(info.enabled, EnabledStatus::Unknown, "len {len}");
        assert_eq!(info.disabled_timestamp, None);
    }
}

#[test]
fn disabled_timestamp_is_decoded_little_endian() {
    let ft = FILETIME_UNIX_DIFF + 1_700_000_000u64 * 10_000_000;
    let info = parse_startup_approved(&disabled_bytes(ft));
    assert_eq!(info.enabled, EnabledStatus::Disabled);
    let t = info.disabled_timestamp.expect("timestamp expected");
    assert_eq!(t.secs, 1_700_000_000);
    assert_eq!(t.nanos, 0);
}

#[test]
fn filetime_zero_and_pre_epoch_decode_to_none() {
    assert_eq!(filetime_to_timestamp(0), None);
    assert_eq!(filetime_to_timestamp(FILETIME_UNIX_DIFF - 1), None);
    assert!(filetime_to_timestamp(FILETIME_UNIX_DIFF).is_some());
}

#[test]
fn filetime_round_trip_against_calendar() {
    // a known calendar moment, through chrono, to seconds
    let moment = chrono::Utc.with_ymd_and_hms(2023, 5, 1, 12, 30, 45).unwrap();
    let secs = moment.timestamp();
    let ts = Timestamp { secs, nanos: 0 };
    let ft = timestamp_to_filetime(ts).expect("in range");
    let back = filetime_to_timestamp(ft).expect("decodes");
    assert_eq!(back.secs, secs);
    let round = chrono::DateTime::from_timestamp(back.secs, back.nanos).unwrap();
    assert_eq!(round, moment);
}

#[test]
fn filetime_round_trip_keeps_seconds_with_nanos() {
    let ts = Timestamp { secs: 1_650_000_000, nanos: 999_999_937 };
    let ft = timestamp_to_filetime(ts).unwrap();
    let back = filetime_to_timestamp(ft).unwrap();
    assert_eq!(back.secs, ts.secs);
    assert_eq!(back.nanos, (ts.nanos / 100) * 100);
}

#[test]
fn store_skips_nameless_values() {
    let store = build_approval_store(vec![
        record(RegistryHive::HKCU, ApprovalBranch::Run, "", enabled_bytes()),
        record(RegistryHive::HKCU, ApprovalBranch::Run, "App", enabled_bytes()),
    ]);
    assert_eq!(store.len(), 1);
    assert_eq!(store[0].value_name, "App");
}

#[test]
fn run_key_lookup_and_run32_fallback() {
    let ft = FILETIME_UNIX_DIFF + 1_600_000_000u64 * 10_000_000;
    let store = build_approval_store(vec![
        record(RegistryHive::HKCU, ApprovalBranch::Run32, "Legacy", disabled_bytes(ft)),
        record(RegistryHive::HKCU, ApprovalBranch::Run, "Fresh", enabled_bytes()),
    ]);
    let src = Source::RegistryRun {
        hive: RegistryHive::HKCU,
        key_path: "k".to_string(),
    };
    let (enabled, ts) = get_approval_status("Fresh", &src, &store);
    assert_eq!(enabled, EnabledStatus::Enabled);
    assert_eq!(ts, None);
    // not under Run: the probe repeats against Run32
    let (enabled, ts) = get_approval_status("Legacy", &src, &store);
    assert_eq!(enabled, EnabledStatus::Disabled);
    assert_eq!(ts.unwrap().secs, 1_600_000_000);
    // a record in the other hive is not consulted
    let other = Source::RegistryRun {
        hive: RegistryHive::HKLM,
        key_path: "k".to_string(),
    };
    let (enabled, _) = get_approval_status("Fresh", &other, &store);
    assert_eq!(enabled, EnabledStatus::Enabled); // absent defaults to enabled
}

#[test]
fn startup_folder_lookup_uses_file_name() {
    let ft = FILETIME_UNIX_DIFF + 1_500_000_000u64 * 10_000_000;
    let store = build_approval_store(vec![record(
        RegistryHive::HKCU,
        ApprovalBranch::StartupFolder,
        "Discord.lnk",
        disabled_bytes(ft),
    )]);
    let src = Source::StartupFolder {
        path: r"C:\Users\me\Start Menu\Programs\Startup\Discord.lnk".to_string(),
        is_common: false,
    };
    // the display name plays no part in the lookup
    let (enabled, ts) = get_approval_status("Discord", &src, &store);
    assert_eq!(enabled, EnabledStatus::Disabled);
    assert_eq!(ts.unwrap().secs, 1_500_000_000);
    // a common-folder item looks under the machine hive instead
    let common = Source::StartupFolder {
        path: r"C:\ProgramData\Start Menu\Programs\Startup\Discord.lnk".to_string(),
        is_common: true,
    };
    let (enabled, _) = get_approval_status("Discord", &common, &store);
    assert_eq!(enabled, EnabledStatus::Enabled);
}

#[test]
fn run_once_tasks_and_services_bypass_the_store() {
    let store = build_approval_store(vec![]);
    let ro = Source::RegistryRunOnce { hive: RegistryHive::HKCU, key_path: "k".to_string() };
    assert_eq!(get_approval_status("X", &ro, &store), (EnabledStatus::Enabled, None));
    let task = Source::TaskScheduler { task_path: r"\T".to_string() };
    assert_eq!(get_approval_status("X", &task, &store), (EnabledStatus::Unknown, None));
    let svc = Source::Service { service_name: "s".to_string(), command_line: "c".to_string() };
    assert_eq!(get_approval_status("X", &svc, &store), (EnabledStatus::Unknown, None));
}
