//! The approval store: the per-entry enable/disable flags the OS keeps
//! under its startup-approval keys, decoded from raw value bytes, and the
//! lookup rules that tie a `StartupEntry` to its record.

use vstd::prelude::*;
use crate::models::{
    EnabledStatus, RegistryHive, Source, SourceView, Timestamp, file_part, file_name_of,
};
use crate::text::str_eq;
use vstd::arithmetic::div_mod::lemma_fundamental_div_mod_converse;
use vstd::string::*;

verus! {

/// FILETIME ticks (100 ns) from 1601-01-01 to the Unix epoch.
pub const FILETIME_UNIX_DIFF: u64 = 116_444_736_000_000_000;

/// Largest `secs` a timestamp may hold and still fit a FILETIME.
pub const FILETIME_MAX_SECS: i64 = 1_833_029_933_769;

/// What a FILETIME decodes to: ticks before the Unix epoch (including the
/// zero sentinel) carry no timestamp; anything else splits into whole
/// seconds and a nanosecond remainder.
pub open spec fn filetime_to_timestamp_spec(ft: u64) -> Option<Timestamp> {
    if ft < 116_444_736_000_000_000 {
        None
    } else {
        let d = ft - 116_444_736_000_000_000;
        Some(
            Timestamp {
                secs: (d / 10_000_000) as i64,
                nanos: ((d % 10_000_000) * 100) as u32,
            },
        )
    }
}

/// Decodes a FILETIME into a Unix timestamp. `0`, or any tick count below
/// the Unix-epoch constant, reads as "no timestamp".
pub fn filetime_to_timestamp(ft: u64) -> (r: Option<Timestamp>)
    ensures
        r == filetime_to_timestamp_spec(ft),
        r matches Some(t) ==> t.wf() && t.secs >= 0,
{
    if ft < FILETIME_UNIX_DIFF {
        return None;
    }
    let d = ft - FILETIME_UNIX_DIFF;
    let q = d / 10_000_000;
    assert(q * 10_000_000 + d % 10_000_000 == d) by {
        vstd::arithmetic::div_mod::lemma_fundamental_div_mod(d as int, 10_000_000);
    }
    let secs = q as i64;
    let nanos = ((d % 10_000_000) * 100) as u32;
    Some(Timestamp { secs, nanos })
}

/// What a timestamp encodes to, where it fits: the epoch offset plus whole
/// seconds in ticks plus the nanoseconds rounded down to a tick.
pub open spec fn timestamp_to_filetime_spec(t: Timestamp) -> Option<u64> {
    if t.secs < 0 || t.secs > 1_833_029_933_769 || t.nanos >= 1_000_000_000 {
        None
    } else {
        Some((116_444_736_000_000_000 + t.secs * 10_000_000 + t.nanos / 100) as u64)
    }
}

/// Encodes a Unix timestamp as a FILETIME; out-of-range values have none.
pub fn timestamp_to_filetime(t: Timestamp) -> (r: Option<u64>)
    ensures
        r == timestamp_to_filetime_spec(t),
{
    if t.secs < 0 || t.secs > FILETIME_MAX_SECS || t.nanos >= 1_000_000_000 {
        return None;
    }
    let ticks = (t.secs as u64) * 10_000_000 + (t.nanos as u64) / 100;
    Some(FILETIME_UNIX_DIFF + ticks)
}

/// Encoding a timestamp as a FILETIME and decoding it again loses at most
/// the sub-tick part of the nanoseconds: the seconds survive exactly.
pub proof fn lemma_filetime_round_trip(t: Timestamp)
    requires
        0 <= t.secs <= 1_833_029_933_769,
        t.nanos < 1_000_000_000,
    ensures
        timestamp_to_filetime_spec(t) matches Some(ft) && filetime_to_timestamp_spec(ft)
            matches Some(u) && u.secs == t.secs && u.nanos == (t.nanos / 100) * 100,
{
    let ft = (116_444_736_000_000_000 + t.secs * 10_000_000 + t.nanos / 100) as u64;
    let d = ft - 116_444_736_000_000_000;
    assert(d == t.secs * 10_000_000 + t.nanos / 100);
    lemma_fundamental_div_mod_converse(
        d as int,
        10_000_000,
        t.secs as int,
        (t.nanos / 100) as int,
    );
}

/// A FILETIME of zero, or any value below the Unix-epoch constant,
/// never decodes to a date.
pub proof fn lemma_pre_epoch_decodes_to_none(ft: u64)
    requires
        ft < 116_444_736_000_000_000,
    ensures
        filetime_to_timestamp_spec(ft) is None,
{
}

/// One decoded approval record: the flag, and — when disabled — the time
/// the user toggled it off.
#[derive(Debug, Clone, Copy, PartialEq, Eq)]
pub struct ApprovalInfo {
    pub enabled: EnabledStatus,
    pub disabled_timestamp: Option<Timestamp>,
}

/// A little-endian 64-bit integer read from eight bytes.
pub open spec fn le64(b: Seq<u8>) -> int
    recommends
        b.len() == 8,
{
    b[0] + b[1] * 0x100 + b[2] * 0x1_0000 + b[3] * 0x100_0000 + b[4] * 0x1_0000_0000 + b[5]
        * 0x100_0000_0000 + b[6] * 0x1_0000_0000_0000 + b[7] * 0x100_0000_0000_0000
}

/// How raw approval bytes decode. Fewer than 12 bytes is not an error but
/// an unknown flag; status byte 2 or 6 is enabled; every other status byte
/// is disabled, with bytes 4..12 read as a little-endian FILETIME.
pub open spec fn parse_approval_spec(b: Seq<u8>) -> ApprovalInfo {
    if b.len() < 12 {
        ApprovalInfo { enabled: EnabledStatus::Unknown, disabled_timestamp: None }
    } else if b[0] == 2 || b[0] == 6 {
        ApprovalInfo { enabled: EnabledStatus::Enabled, disabled_timestamp: None }
    } else {
        ApprovalInfo {
            enabled: EnabledStatus::Disabled,
            disabled_timestamp: filetime_to_timestamp_spec(le64(b.subrange(4, 12)) as u64),
        }
    }
}

/// Decodes one startup-approval value.
pub fn parse_startup_approved(bytes: &[u8]) -> (r: ApprovalInfo)
    ensures
        r == parse_approval_spec(bytes@),
        r.disabled_timestamp matches Some(t) ==> t.wf(),
{
    if bytes.len() < 12 {
        return ApprovalInfo { enabled: EnabledStatus::Unknown, disabled_timestamp: None };
    }
    let status = bytes[0];
    if status == 2 || status == 6 {
        return ApprovalInfo { enabled: EnabledStatus::Enabled, disabled_timestamp: None };
    }
    let ft: u64 = (bytes[4] as u64) + (bytes[5] as u64) * 0x100 + (bytes[6] as u64) * 0x1_0000 + (
    bytes[7] as u64) * 0x100_0000 + (bytes[8] as u64) * 0x1_0000_0000 + (bytes[9] as u64)
        * 0x100_0000_0000 + (bytes[10] as u64) * 0x1_0000_0000_0000 + (bytes[11] as u64)
        * 0x100_0000_0000_0000;
    proof {
        let s = bytes@.subrange(4, 12);
        assert(s[0] == bytes@[4] && s[1] == bytes@[5] && s[2] == bytes@[6] && s[3] == bytes@[7]
            && s[4] == bytes@[8] && s[5] == bytes@[9] && s[6] == bytes@[10] && s[7] == bytes@[11]);
        assert(ft == le64(s) as u64);
    }
    ApprovalInfo { enabled: EnabledStatus::Disabled, disabled_timestamp: filetime_to_timestamp(ft) }
}

/// The three approval branches the OS keeps records under.
#[derive(Debug, Clone, Copy, PartialEq, Eq, Structural)]
pub enum ApprovalBranch {
    Run,
    Run32,
    StartupFolder,
}

/// One raw value as the registry reader hands it over: where it was found
/// and its undecoded bytes.
#[derive(Debug, Clone)]
pub struct RawApproval {
    pub hive: RegistryHive,
    pub branch: ApprovalBranch,
    pub value_name: String,
    pub data: Vec<u8>,
}

/// One decoded record of the store.
#[derive(Debug, Clone)]
pub struct ApprovalRecord {
    pub hive: RegistryHive,
    pub branch: ApprovalBranch,
    pub value_name: String,
    pub info: ApprovalInfo,
}

/// How the store is built: records in reading order, values decoded,
/// nameless values skipped.
pub open spec fn store_spec(raw: Seq<RawApproval>) -> Seq<ApprovalRecord>
    decreases raw.len(),
{
    if raw.len() == 0 {
        Seq::empty()
    } else {
        let head = raw[0];
        let rest = store_spec(raw.drop_first());
        if head.value_name@.len() == 0 {
            rest
        } else {
            seq![
                ApprovalRecord {
                    hive: head.hive,
                    branch: head.branch,
                    value_name: head.value_name,
                    info: parse_approval_spec(head.data@),
                },
            ] + rest
        }
    }
}

/// Decodes every raw value into the store, in order, dropping values with
/// empty names.
pub fn build_approval_store(raw: Vec<RawApproval>) -> (r: Vec<ApprovalRecord>)
    ensures
        r@ == store_spec(raw@),
{
    let ghost orig = raw@;
    let mut v = raw;
    let mut out: Vec<ApprovalRecord> = Vec::new();
    proof {
        assert(v@ =~= orig.subrange(0, orig.len() as int));
        assert(out@ + store_spec(v@) =~= store_spec(orig));
    }
    while v.len() > 0
        invariant
            v@.len() <= orig.len(),
            v@ == orig.subrange(orig.len() - v@.len(), orig.len() as int),
            store_spec(orig) == out@ + store_spec(v@),
        decreases v.len(),
    {
        let ghost prev = v@;
        let rec = v.remove(0);
        proof {
            assert(v@ =~= orig.subrange(orig.len() - v@.len(), orig.len() as int));
            assert(prev[0] == rec);
            assert(prev.drop_first() =~= v@);
        }
        if rec.value_name.as_str().unicode_len() > 0 {
            let info = parse_startup_approved(rec.data.as_slice());
            let ghost out_before = out@;
            let decoded = ApprovalRecord {
                hive: rec.hive,
                branch: rec.branch,
                value_name: rec.value_name,
                info,
            };
            out.push(decoded);
            proof {
                assert(store_spec(prev) == seq![decoded] + store_spec(v@));
                assert(out@ + store_spec(v@) =~= out_before + (seq![decoded] + store_spec(v@)));
            }
        } else {
            proof {
                assert(store_spec(prev) == store_spec(v@));
            }
        }
    }
    proof {
        assert(v@ =~= Seq::<RawApproval>::empty());
        assert(store_spec(v@) =~= Seq::<ApprovalRecord>::empty());
        assert(out@ + store_spec(v@) =~= out@);
    }
    out
}

/// The first record matching hive, branch and value name, if any.
pub open spec fn lookup_spec(
    s: Seq<ApprovalRecord>,
    hive: RegistryHive,
    branch: ApprovalBranch,
    name: Seq<char>,
) -> Option<ApprovalInfo>
    decreases s.len(),
{
    if s.len() == 0 {
        None
    } else if s[0].hive == hive && s[0].branch == branch && s[0].value_name@ == name {
        Some(s[0].info)
    } else {
        lookup_spec(s.drop_first(), hive, branch, name)
    }
}

/// Scans the store for the record of one key.
pub fn lookup_approval(
    store: &Vec<ApprovalRecord>,
    hive: RegistryHive,
    branch: ApprovalBranch,
    name: &str,
) -> (r: Option<ApprovalInfo>)
    ensures
        r == lookup_spec(store@, hive, branch, name@),
{
    let ghost whole = store@;
    let mut i: usize = 0;
    proof {
        assert(whole.subrange(0, whole.len() as int) =~= whole);
    }
    while i < store.len()
        invariant
            i <= store@.len(),
            whole == store@,
            lookup_spec(whole, hive, branch, name@) == lookup_spec(
                whole.subrange(i as int, whole.len() as int),
                hive,
                branch,
                name@,
            ),
        decreases store.len() - i,
    {
        let ghost suffix = whole.subrange(i as int, whole.len() as int);
        let rec = &store[i];
        assert(suffix[0] == whole[i as int]);
        if rec.hive == hive && rec.branch == branch && str_eq(rec.value_name.as_str(), name) {
            return Some(rec.info);
        }
        proof {
            assert(suffix.drop_first() =~= whole.subrange(i + 1, whole.len() as int));
        }
        i = i + 1;
    }
    proof {
        assert(whole.subrange(whole.len() as int, whole.len() as int) =~= Seq::<
            ApprovalRecord,
        >::empty());
    }
    None
}

/// What the approval lookup yields for an entry, per the key-derivation
/// rules: run keys probe their hive's `Run` branch and fall back to
/// `Run32`; startup-folder items are looked up by file name under the
/// `StartupFolder` branch of the hive their folder implies; run-once
/// entries always read enabled; tasks and services never consult the
/// store. An eligible entry with no record defaults to enabled.
pub open spec fn approval_status_spec(
    name: Seq<char>,
    src: SourceView,
    s: Seq<ApprovalRecord>,
) -> (EnabledStatus, Option<Timestamp>) {
    match src {
        SourceView::RegistryRun { hive, .. } => match lookup_spec(
            s,
            hive,
            ApprovalBranch::Run,
            name,
        ) {
            Some(info) => (info.enabled, info.disabled_timestamp),
            None => match lookup_spec(s, hive, ApprovalBranch::Run32, name) {
                Some(info) => (info.enabled, info.disabled_timestamp),
                None => (EnabledStatus::Enabled, None),
            },
        },
        SourceView::RegistryRunOnce { .. } => (EnabledStatus::Enabled, None),
        SourceView::StartupFolder { path, is_common } => {
            let hive = if is_common {
                RegistryHive::HKLM
            } else {
                RegistryHive::HKCU
            };
            let key = if file_part(path).len() == 0 {
                name
            } else {
                file_part(path)
            };
            match lookup_spec(s, hive, ApprovalBranch::StartupFolder, key) {
                Some(info) => (info.enabled, info.disabled_timestamp),
                None => (EnabledStatus::Enabled, None),
            }
        },
        SourceView::TaskScheduler { .. } => (EnabledStatus::Unknown, None),
        SourceView::Service { .. } => (EnabledStatus::Unknown, None),
    }
}

/// The approval status of one entry, by name and source.
pub fn get_approval_status(
    name: &str,
    source: &Source,
    store: &Vec<ApprovalRecord>,
) -> (r: (EnabledStatus, Option<Timestamp>))
    ensures
        r == approval_status_spec(name@, source@, store@),
{
    match source {
        Source::RegistryRun { hive, .. } => {
            match lookup_approval(store, *hive, ApprovalBranch::Run, name) {
                Some(info) => (info.enabled, info.disabled_timestamp),
                None => match lookup_approval(store, *hive, ApprovalBranch::Run32, name) {
                    Some(info) => (info.enabled, info.disabled_timestamp),
                    None => (EnabledStatus::Enabled, None),
                },
            }
        },
        Source::RegistryRunOnce { .. } => (EnabledStatus::Enabled, None),
        Source::StartupFolder { path, is_common } => {
            let hive = if *is_common {
                RegistryHive::HKLM
            } else {
                RegistryHive::HKCU
            };
            let file_name = file_name_of(path.as_str());
            let key = if file_name.as_str().unicode_len() == 0 {
                name
            } else {
                file_name.as_str()
            };
            match lookup_approval(store, hive, ApprovalBranch::StartupFolder, key) {
                Some(info) => (info.enabled, info.disabled_timestamp),
                None => (EnabledStatus::Enabled, None),
            }
        },
        Source::TaskScheduler { .. } => (EnabledStatus::Unknown, None),
        Source::Service { .. } => (EnabledStatus::Unknown, None),
    }
}

} // verus!
