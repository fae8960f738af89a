//! The two point-in-time caches enrichment draws on: a snapshot of the
//! running processes (case-insensitive name set plus earliest start time
//! per name) and the execution-history cache (latest record per
//! executable). Both are built once per collection pass from plain
//! records and read only.

use vstd::prelude::*;
use crate::models::Timestamp;
use crate::text::{lower, upper, last_where, to_lowercase, to_uppercase, str_to_chars,
    chars_to_string, str_eq, lemma_last_where_unique};
use vstd::string::*;

verus! {

/// Strictly-earlier order on timestamps.
pub open spec fn ts_lt(a: Timestamp, b: Timestamp) -> bool {
    a.secs < b.secs || (a.secs == b.secs && a.nanos < b.nanos)
}

fn ts_before(a: &Timestamp, b: &Timestamp) -> (r: bool)
    ensures
        r == ts_lt(*a, *b),
{
    a.secs < b.secs || (a.secs == b.secs && a.nanos < b.nanos)
}

/// A keyed timestamp list seen as character sequences.
pub open spec fn pairs_view(s: Seq<(String, Timestamp)>) -> Seq<(Seq<char>, Timestamp)> {
    s.map_values(|p: (String, Timestamp)| (p.0@, p.1))
}

/// The earliest time recorded under `key`, scanning left to right and
/// keeping the first-seen value on ties.
pub open spec fn earliest_time(
    pairs: Seq<(Seq<char>, Timestamp)>,
    key: Seq<char>,
) -> Option<Timestamp>
    decreases pairs.len(),
{
    if pairs.len() == 0 {
        None
    } else {
        let rest = earliest_time(pairs.drop_last(), key);
        if pairs.last().0 == key {
            match rest {
                None => Some(pairs.last().1),
                Some(t) => if ts_lt(pairs.last().1, t) {
                    Some(pairs.last().1)
                } else {
                    Some(t)
                },
            }
        } else {
            rest
        }
    }
}

/// The latest time recorded under `key`, keeping the first-seen value on
/// ties.
pub open spec fn latest_time(
    pairs: Seq<(Seq<char>, Timestamp)>,
    key: Seq<char>,
) -> Option<Timestamp>
    decreases pairs.len(),
{
    if pairs.len() == 0 {
        None
    } else {
        let rest = latest_time(pairs.drop_last(), key);
        if pairs.last().0 == key {
            match rest {
                None => Some(pairs.last().1),
                Some(t) => if ts_lt(t, pairs.last().1) {
                    Some(pairs.last().1)
                } else {
                    Some(t)
                },
            }
        } else {
            rest
        }
    }
}

/// One observed process: executable file name and start time in whole
/// seconds since the Unix epoch, `0` when unknown.
#[derive(Debug, Clone)]
pub struct ProcessRecord {
    pub name: String,
    pub start_secs: u64,
}

/// The lower-cased name of every observed process, in order.
pub open spec fn running_spec(recs: Seq<ProcessRecord>) -> Seq<Seq<char>> {
    recs.map_values(|r: ProcessRecord| lower(r.name@))
}

/// The (lower-cased name, start time) pairs of the processes whose start
/// time is known.
pub open spec fn start_pairs_spec(recs: Seq<ProcessRecord>) -> Seq<(Seq<char>, Timestamp)>
    decreases recs.len(),
{
    if recs.len() == 0 {
        Seq::empty()
    } else {
        start_pairs_spec(recs.drop_last()) + if recs.last().start_secs > 0 {
            seq![
                (
                    lower(recs.last().name@),
                    Timestamp { secs: recs.last().start_secs as i64, nanos: 0u32 },
                ),
            ]
        } else {
            Seq::empty()
        }
    }
}

/// A point-in-time view of the running processes.
#[derive(Debug)]
pub struct ProcessSnapshot {
    pub running: Vec<String>,
    pub start_times: Vec<(String, Timestamp)>,
}

impl ProcessSnapshot {
    /// Builds the snapshot from one pass over the live processes.
    pub fn new(records: &Vec<ProcessRecord>) -> (s: Self)
        ensures
            s.running.deep_view() == running_spec(records@),
            pairs_view(s.start_times@) == start_pairs_spec(records@),
    {
        let mut running: Vec<String> = Vec::new();
        let mut start_times: Vec<(String, Timestamp)> = Vec::new();
        let mut i: usize = 0;
        proof {
            assert(running.deep_view() =~= running_spec(records@.subrange(0, 0)));
            assert(pairs_view(start_times@) =~= start_pairs_spec(records@.subrange(0, 0)));
        }
        while i < records.len()
            invariant
                i <= records@.len(),
                running.deep_view() == running_spec(records@.subrange(0, i as int)),
                pairs_view(start_times@) == start_pairs_spec(records@.subrange(0, i as int)),
            decreases records.len() - i,
        {
            let rec = &records[i];
            let key = to_lowercase(rec.name.as_str());
            let ghost pre_run = running.deep_view();
            running.push(key.clone());
            proof {
                let prefix = records@.subrange(0, i as int);
                let cur = records@.subrange(0, i + 1);
                assert(cur.drop_last() =~= prefix);
                assert(running_spec(cur) =~= running_spec(cur.drop_last()).push(
                    lower(cur.last().name@),
                ));
                assert(running.deep_view() =~= pre_run.push(key@));
            }
            if rec.start_secs > 0 {
                let ghost pre_st = pairs_view(start_times@);
                let t = Timestamp {
                    secs: #[verifier::truncate] (rec.start_secs as i64),
                    nanos: 0u32,
                };
                start_times.push((key, t));
                proof {
                    let prefix = records@.subrange(0, i as int);
                    let cur = records@.subrange(0, i + 1);
                    assert(cur.drop_last() =~= prefix);
                    assert(pairs_view(start_times@) =~= pre_st.push((key@, t)));
                    assert(start_pairs_spec(cur) =~= start_pairs_spec(prefix).push(
                        (lower(cur.last().name@), t),
                    ));
                }
            } else {
                proof {
                    let prefix = records@.subrange(0, i as int);
                    let cur = records@.subrange(0, i + 1);
                    assert(cur.drop_last() =~= prefix);
                    assert(start_pairs_spec(cur) =~= start_pairs_spec(prefix));
                }
            }
            i = i + 1;
        }
        proof {
            assert(records@.subrange(0, records@.len() as int) =~= records@);
        }
        ProcessSnapshot { running, start_times }
    }

    /// Whether a process with this executable name (compared
    /// case-insensitively) was running.
    pub fn is_running(&self, exe_name: &str) -> (r: bool)
        ensures
            r == self.running.deep_view().contains(lower(exe_name@)),
    {
        let key = to_lowercase(exe_name);
        let mut i: usize = 0;
        while i < self.running.len()
            invariant
                i <= self.running@.len(),
                key@ == lower(exe_name@),
                forall|k: int| 0 <= k < i ==> self.running.deep_view()[k] != key@,
            decreases self.running.len() - i,
        {
            if str_eq(self.running[i].as_str(), key.as_str()) {
                assert(self.running.deep_view()[i as int] == key@);
                return true;
            }
            i = i + 1;
        }
        proof {
            if self.running.deep_view().contains(key@) {
                let k = choose|k: int|
                    0 <= k < self.running.deep_view().len() && self.running.deep_view()[k] == key@;
            }
        }
        false
    }

    /// The earliest observed start time of any process with this name.
    pub fn start_time(&self, exe_name: &str) -> (r: Option<Timestamp>)
        ensures
            r == earliest_time(pairs_view(self.start_times@), lower(exe_name@)),
    {
        let key = to_lowercase(exe_name);
        let mut acc: Option<Timestamp> = None;
        let mut i: usize = 0;
        proof {
            assert(pairs_view(self.start_times@.subrange(0, 0)) =~= Seq::<
                (Seq<char>, Timestamp),
            >::empty());
        }
        while i < self.start_times.len()
            invariant
                i <= self.start_times@.len(),
                key@ == lower(exe_name@),
                acc == earliest_time(
                    pairs_view(self.start_times@.subrange(0, i as int)),
                    key@,
                ),
            decreases self.start_times.len() - i,
        {
            let p = &self.start_times[i];
            proof {
                let prefix = self.start_times@.subrange(0, i as int);
                let cur = self.start_times@.subrange(0, i + 1);
                assert(cur.drop_last() =~= prefix);
                assert(pairs_view(cur).drop_last() =~= pairs_view(prefix));
                assert(pairs_view(cur).last() == (self.start_times@[i as int].0@,
                self.start_times@[i as int].1));
            }
            if str_eq(p.0.as_str(), key.as_str()) {
                let better = match &acc {
                    None => true,
                    Some(t) => ts_before(&p.1, t),
                };
                if better {
                    acc = Some(p.1);
                }
            }
            i = i + 1;
        }
        proof {
            assert(self.start_times@.subrange(0, self.start_times@.len() as int)
                =~= self.start_times@);
        }
        acc
    }
}

/// What an execution-history file name parses to: the upper-cased
/// executable name before the trailing hash suffix, for names of the form
/// `NAME-HASH.pf` (or `.PF`).
pub open spec fn parse_prefetch_spec(f: Seq<char>) -> Option<Seq<char>> {
    if f.len() >= 3 && f[f.len() - 3] == '.' && ((f[f.len() - 2] == 'p' && f[f.len() - 1] == 'f')
        || (f[f.len() - 2] == 'P' && f[f.len() - 1] == 'F')) {
        let w = f.subrange(0, f.len() - 3);
        let d = last_where(w, |c: char| c == '-');
        if d < 0 {
            None
        } else {
            Some(upper(w.subrange(0, d)))
        }
    } else {
        None
    }
}

/// Extracts the executable name from an execution-history file name:
/// the extension and the trailing `-HASH` are stripped, the rest is
/// upper-cased.
pub fn parse_prefetch_filename(filename: &str) -> (r: Option<String>)
    ensures
        r.deep_view() == parse_prefetch_spec(filename@),
{
    let chars = str_to_chars(filename);
    let n = chars.len();
    if n < 3 {
        return None;
    }
    let dot_ok = chars[n - 3] == '.';
    let lower_ok = chars[n - 2] == 'p' && chars[n - 1] == 'f';
    let upper_ok = chars[n - 2] == 'P' && chars[n - 1] == 'F';
    if !(dot_ok && (lower_ok || upper_ok)) {
        return None;
    }
    let mut w: Vec<char> = Vec::new();
    let mut k: usize = 0;
    while k < n - 3
        invariant
            k <= n - 3,
            n == chars@.len(),
            w@ == chars@.subrange(0, k as int),
        decreases n - 3 - k,
    {
        w.push(chars[k]);
        k = k + 1;
        assert(w@ =~= chars@.subrange(0, k as int));
    }
    proof {
        assert(w@ =~= filename@.subrange(0, filename@.len() - 3));
    }
    let mut d: usize = w.len();
    while d > 0 && w[d - 1] != '-'
        invariant
            d <= w@.len(),
            forall|k2: int| d <= k2 < w@.len() ==> w@[k2] != '-',
        decreases d,
    {
        d = d - 1;
    }
    if d == 0 {
        proof {
            lemma_last_where_unique(w@, |c: char| c == '-', -1);
        }
        return None;
    }
    proof {
        lemma_last_where_unique(w@, |c: char| c == '-', d - 1);
    }
    let mut name: Vec<char> = Vec::new();
    let mut k2: usize = 0;
    while k2 < d - 1
        invariant
            k2 <= d - 1,
            d <= w@.len(),
            name@ == w@.subrange(0, k2 as int),
        decreases d - 1 - k2,
    {
        name.push(w[k2]);
        k2 = k2 + 1;
        assert(name@ =~= w@.subrange(0, k2 as int));
    }
    let uppered = to_uppercase(chars_to_string(&name).as_str());
    proof {
        assert(name@ =~= w@.subrange(0, d - 1));
    }
    Some(uppered)
}

/// One execution-history record: the raw file name and its modification
/// time.
#[derive(Debug, Clone)]
pub struct PrefetchRecord {
    pub file_name: String,
    pub modified: Timestamp,
}

/// The (parsed name, modification time) pairs of the records whose file
/// name parses.
pub open spec fn prefetch_pairs_spec(recs: Seq<PrefetchRecord>) -> Seq<(Seq<char>, Timestamp)>
    decreases recs.len(),
{
    if recs.len() == 0 {
        Seq::empty()
    } else {
        prefetch_pairs_spec(recs.drop_last()) + match parse_prefetch_spec(
            recs.last().file_name@,
        ) {
            Some(key) => seq![(key, recs.last().modified)],
            None => Seq::empty(),
        }
    }
}

/// The execution-history cache. `accessible` records whether the scan was
/// permitted at all; the collector reads it as its elevation heuristic.
#[derive(Debug)]
pub struct PrefetchCache {
    pub entries: Vec<(String, Timestamp)>,
    pub accessible: bool,
}

impl PrefetchCache {
    /// Builds the cache from the scanned records; `accessible` says
    /// whether the scan succeeded.
    pub fn new(records: &Vec<PrefetchRecord>, accessible: bool) -> (s: Self)
        ensures
            pairs_view(s.entries@) == prefetch_pairs_spec(records@),
            s.accessible == accessible,
    {
        let mut entries: Vec<(String, Timestamp)> = Vec::new();
        let mut i: usize = 0;
        proof {
            assert(pairs_view(entries@) =~= prefetch_pairs_spec(records@.subrange(0, 0)));
        }
        while i < records.len()
            invariant
                i <= records@.len(),
                pairs_view(entries@) == prefetch_pairs_spec(records@.subrange(0, i as int)),
            decreases records.len() - i,
        {
            let rec = &records[i];
            let ghost prefix = records@.subrange(0, i as int);
            let ghost cur = records@.subrange(0, i + 1);
            proof {
                assert(cur.drop_last() =~= prefix);
            }
            match parse_prefetch_filename(rec.file_name.as_str()) {
                Some(key) => {
                    let ghost pre = pairs_view(entries@);
                    let ghost keyv = key@;
                    entries.push((key, rec.modified));
                    proof {
                        assert(pairs_view(entries@) =~= pre.push((keyv, rec.modified)));
                        assert(prefetch_pairs_spec(cur) =~= prefetch_pairs_spec(prefix).push(
                            (keyv, rec.modified),
                        ));
                    }
                },
                None => {
                    proof {
                        assert(prefetch_pairs_spec(cur) =~= prefetch_pairs_spec(prefix));
                    }
                },
            }
            i = i + 1;
        }
        proof {
            assert(records@.subrange(0, records@.len() as int) =~= records@);
        }
        PrefetchCache { entries, accessible }
    }

    /// The most recent recorded run of this executable, looked up by its
    /// upper-cased name.
    pub fn last_ran(&self, exe_name: &str) -> (r: Option<Timestamp>)
        ensures
            r == latest_time(pairs_view(self.entries@), upper(exe_name@)),
    {
        let key = to_uppercase(exe_name);
        let mut acc: Option<Timestamp> = None;
        let mut i: usize = 0;
        proof {
            assert(pairs_view(self.entries@.subrange(0, 0)) =~= Seq::<
                (Seq<char>, Timestamp),
            >::empty());
        }
        while i < self.entries.len()
            invariant
                i <= self.entries@.len(),
                key@ == upper(exe_name@),
                acc == latest_time(pairs_view(self.entries@.subrange(0, i as int)), key@),
            decreases self.entries.len() - i,
        {
            let p = &self.entries[i];
            proof {
                let prefix = self.entries@.subrange(0, i as int);
                let cur = self.entries@.subrange(0, i + 1);
                assert(cur.drop_last() =~= prefix);
                assert(pairs_view(cur).drop_last() =~= pairs_view(prefix));
                assert(pairs_view(cur).last() == (self.entries@[i as int].0@,
                self.entries@[i as int].1));
            }
            if str_eq(p.0.as_str(), key.as_str()) {
                let better = match &acc {
                    None => true,
                    Some(t) => ts_before(t, &p.1),
                };
                if better {
                    acc = Some(p.1);
                }
            }
            i = i + 1;
        }
        proof {
            assert(self.entries@.subrange(0, self.entries@.len() as int) =~= self.entries@);
        }
        acc
    }
}

} // verus!
