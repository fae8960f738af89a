//! The collection pipeline: raw reader output is merged, every entry is
//! enriched from the caches, admin-only visibility is resolved against the
//! saved non-admin task list, and the result is sorted. Every phase is a
//! pure function of its inputs; the readers and the handoff file live
//! outside the crate.

use vstd::prelude::*;
use crate::models::{
    StartupEntry, EntryView, Source, SourceView, RunState, Timestamp, exe_name_spec,
    file_part, exe_token,
};
use crate::status::{ApprovalRecord, approval_status_spec, get_approval_status};
use crate::snapshots::{
    ProcessSnapshot, PrefetchCache, pairs_view, earliest_time, latest_time,
};
use crate::sort::{sort_spec, sort_entries};
use crate::text::{upper, trim, str_eq, vec_contains_str, lemma_lower_idempotent};
use vstd::string::*;

verus! {

/// Everything Phase 2 gathers for enrichment: the decoded approval store,
/// the process snapshot, the execution-history cache, the product-name
/// table keyed by command, and the interactive user's name.
#[derive(Debug)]
pub struct Caches {
    pub approvals: Vec<ApprovalRecord>,
    pub processes: ProcessSnapshot,
    pub prefetch: PrefetchCache,
    pub products: Vec<(String, String)>,
    pub current_user: String,
}

/// A product table seen as character sequences.
pub open spec fn products_view(s: Seq<(String, String)>) -> Seq<(Seq<char>, Seq<char>)> {
    s.map_values(|p: (String, String)| (p.0@, p.1@))
}

/// Ghost image of the caches.
#[verifier::ext_equal]
pub ghost struct CachesView {
    pub approvals: Seq<ApprovalRecord>,
    pub running: Seq<Seq<char>>,
    pub start_times: Seq<(Seq<char>, Timestamp)>,
    pub prefetch: Seq<(Seq<char>, Timestamp)>,
    pub prefetch_accessible: bool,
    pub products: Seq<(Seq<char>, Seq<char>)>,
    pub current_user: Seq<char>,
}

impl View for Caches {
    type V = CachesView;

    open spec fn view(&self) -> CachesView {
        CachesView {
            approvals: self.approvals@,
            running: self.processes.running.deep_view(),
            start_times: pairs_view(self.processes.start_times@),
            prefetch: pairs_view(self.prefetch.entries@),
            prefetch_accessible: self.prefetch.accessible,
            products: products_view(self.products@),
            current_user: self.current_user@,
        }
    }
}

/// The first product name recorded for this command, if any.
pub open spec fn lookup_product_spec(
    products: Seq<(Seq<char>, Seq<char>)>,
    cmd: Seq<char>,
) -> Option<Seq<char>>
    decreases products.len(),
{
    if products.len() == 0 {
        None
    } else if products[0].0 == cmd {
        Some(products[0].1)
    } else {
        lookup_product_spec(products.drop_first(), cmd)
    }
}

/// Scans the product table for one command.
fn lookup_product(products: &Vec<(String, String)>, cmd: &str) -> (r: Option<String>)
    ensures
        r.deep_view() == lookup_product_spec(products_view(products@), cmd@),
{
    let ghost whole = products_view(products@);
    let mut i: usize = 0;
    proof {
        assert(whole.subrange(0, whole.len() as int) =~= whole);
    }
    while i < products.len()
        invariant
            i <= products@.len(),
            whole == products_view(products@),
            lookup_product_spec(whole, cmd@) == lookup_product_spec(
                whole.subrange(i as int, whole.len() as int),
                cmd@,
            ),
        decreases products.len() - i,
    {
        let ghost suffix = whole.subrange(i as int, whole.len() as int);
        assert(suffix[0] == whole[i as int]);
        if str_eq(products[i].0.as_str(), cmd) {
            return Some(products[i].1.clone());
        }
        proof {
            assert(suffix.drop_first() =~= whole.subrange(i + 1, whole.len() as int));
        }
        i = i + 1;
    }
    proof {
        assert(whole.subrange(whole.len() as int, whole.len() as int) =~= Seq::<
            (Seq<char>, Seq<char>),
        >::empty());
    }
    None
}

/// Whether the source is a scheduled task.
pub open spec fn is_task_source(s: SourceView) -> bool {
    s is TaskScheduler
}

/// Phase 3 for one entry. In order: `runs_as` becomes the current user
/// except where the reader already knew better; non-task entries take
/// their flag — and, failing a better signal, their last-run time — from
/// the approval store; the product name is looked up by command; finally
/// the run state is resolved through the extracted executable name, a
/// live process always winning the timestamp and the execution history
/// serving as last resort.
pub open spec fn enrich_view(e: EntryView, c: CachesView) -> EntryView {
    let runs_as = match e.source {
        SourceView::TaskScheduler { .. } => e.runs_as,
        SourceView::Service { .. } => if e.runs_as.len() == 0 {
            c.current_user
        } else {
            e.runs_as
        },
        _ => c.current_user,
    };
    let approval = approval_status_spec(e.name, e.source, c.approvals);
    let enabled = if is_task_source(e.source) {
        e.enabled
    } else {
        approval.0
    };
    let last_after_approval = if is_task_source(e.source) {
        e.last_ran
    } else if e.last_ran is None {
        approval.1
    } else {
        e.last_ran
    };
    let product_name = match lookup_product_spec(c.products, e.command) {
        Some(p) => p,
        None => Seq::empty(),
    };
    let state_and_time = match exe_name_spec(e.command) {
        None => (e.run_state, last_after_approval),
        Some(x) => if c.running.contains(x) {
            (
                RunState::Running,
                match earliest_time(c.start_times, x) {
                    Some(t) => Some(t),
                    None => last_after_approval,
                },
            )
        } else {
            (
                RunState::Stopped,
                if last_after_approval is None {
                    latest_time(c.prefetch, upper(x))
                } else {
                    last_after_approval
                },
            )
        },
    };
    EntryView {
        enabled,
        run_state: state_and_time.0,
        last_ran: state_and_time.1,
        runs_as,
        product_name,
        ..e
    }
}

/// Enriches one entry from the caches.
pub fn enrich_entry(e: StartupEntry, c: &Caches) -> (r: StartupEntry)
    ensures
        r@ == enrich_view(e@, c@),
{
    let ghost e0 = e@;
    let mut e = e;
    let is_task = match &e.source {
        Source::TaskScheduler { .. } => true,
        _ => false,
    };
    if !is_task {
        let is_service = match &e.source {
            Source::Service { .. } => true,
            _ => false,
        };
        if is_service {
            if e.runs_as.as_str().unicode_len() == 0 {
                e.runs_as = c.current_user.clone();
            }
        } else {
            e.runs_as = c.current_user.clone();
        }
        let looked_up = get_approval_status(e.name.as_str(), &e.source, &c.approvals);
        e.enabled = looked_up.0;
        if e.last_ran.is_none() {
            e.last_ran = looked_up.1;
        }
    }
    e.product_name = match lookup_product(&c.products, e.command.as_str()) {
        Some(p) => p,
        None => String::new(),
    };
    let exe = e.exe_name();
    match exe {
        Some(x) => {
            proof {
                let f = file_part(exe_token(trim(e0.command)));
                lemma_lower_idempotent(f);
            }
            if c.processes.is_running(x.as_str()) {
                e.run_state = RunState::Running;
                match c.processes.start_time(x.as_str()) {
                    Some(t) => {
                        e.last_ran = Some(t);
                    },
                    None => {},
                }
            } else {
                e.run_state = RunState::Stopped;
                if e.last_ran.is_none() {
                    e.last_ran = c.prefetch.last_ran(x.as_str());
                }
            }
        },
        None => {},
    }
    proof {
        assert(e@ =~= enrich_view(e0, c@));
    }
    e
}

/// Enrichment settles: a second pass over the same caches changes
/// nothing. There is no hidden accumulation between passes.
pub proof fn lemma_enrich_idempotent(e: EntryView, c: CachesView)
    ensures
        enrich_view(enrich_view(e, c), c) == enrich_view(e, c),
{
    let once = enrich_view(e, c);
    let twice = enrich_view(once, c);
    assert(twice =~= once);
}

/// Whether Phase 4 marks the entry admin-only: only in an elevated pass
/// with comparison data, and only a scheduled task whose path the
/// non-admin pass did not see.
pub open spec fn admin_only(e: EntryView, is_admin: bool, saved: Option<Seq<Seq<char>>>) -> bool {
    match (e.source, saved) {
        (SourceView::TaskScheduler { task_path }, Some(paths)) => is_admin && !paths.contains(
            task_path,
        ),
        _ => false,
    }
}

/// Phase 4 for one entry: only the visibility flag changes.
pub open spec fn admin_flag_view(
    e: EntryView,
    is_admin: bool,
    saved: Option<Seq<Seq<char>>>,
) -> EntryView {
    EntryView { requires_admin: admin_only(e, is_admin, saved), ..e }
}

/// Resolves the admin-only flag of every entry against the saved
/// non-admin task paths, if a saved set exists.
pub fn apply_admin_flags(
    entries: Vec<StartupEntry>,
    is_admin: bool,
    saved: &Option<Vec<String>>,
) -> (r: Vec<StartupEntry>)
    ensures
        r.deep_view() == entries.deep_view().map_values(
            |e: EntryView| admin_flag_view(e, is_admin, saved.deep_view()),
        ),
{
    let ghost orig = entries.deep_view();
    let ghost goal = orig.map_values(
        |e: EntryView| admin_flag_view(e, is_admin, saved.deep_view()),
    );
    let mut v = entries;
    let mut out: Vec<StartupEntry> = Vec::new();
    proof {
        assert(v.deep_view() =~= orig.subrange(0, orig.len() as int));
        assert(out.deep_view() =~= goal.subrange(0, 0));
    }
    while v.len() > 0
        invariant
            v.deep_view().len() <= orig.len(),
            goal == orig.map_values(
                |e: EntryView| admin_flag_view(e, is_admin, saved.deep_view()),
            ),
            out.deep_view() == goal.subrange(0, orig.len() - v.deep_view().len()),
            v.deep_view() == orig.subrange(orig.len() - v.deep_view().len(), orig.len() as int),
        decreases v.len(),
    {
        let ghost done = orig.len() - v.deep_view().len();
        let ghost prev = v@;
        let ghost pre = v.deep_view();
        let mut e = v.remove(0);
        proof {
            assert(e == prev[0]);
            assert(pre[0] == prev[0].deep_view());
            assert(pre[0] == orig.subrange(done as int, orig.len() as int)[0]);
            assert(e@ == orig[done as int]);
            assert(v@ == prev.remove(0));
            assert forall|i: int| 0 <= i < v.deep_view().len() implies v.deep_view()[i] == orig[
                done + 1 + i
            ] by {
                assert(v@[i] == prev[i + 1]);
                assert(pre[i + 1] == prev[i + 1].deep_view());
                assert(pre[i + 1] == orig.subrange(done as int, orig.len() as int)[i + 1]);
            }
            assert(v.deep_view() =~= orig.subrange(done + 1, orig.len() as int));
        }
        let flag = match &e.source {
            Source::TaskScheduler { task_path } => {
                if is_admin {
                    match saved {
                        Some(paths) => !vec_contains_str(paths, task_path.as_str()),
                        None => false,
                    }
                } else {
                    false
                }
            },
            _ => false,
        };
        let ghost out_before = out.deep_view();
        e.requires_admin = flag;
        proof {
            assert(e@ =~= admin_flag_view(orig[done as int], is_admin, saved.deep_view()));
        }
        out.push(e);
        proof {
            assert(out.deep_view() =~= out_before.push(e@));
            assert(out.deep_view() =~= goal.subrange(0, done + 1));
        }
    }
    proof {
        assert(goal.subrange(0, orig.len() as int) =~= goal);
    }
    out
}

/// Enriches every entry, in order.
pub fn enrich_all(entries: Vec<StartupEntry>, c: &Caches) -> (r: Vec<StartupEntry>)
    ensures
        r.deep_view() == entries.deep_view().map_values(|e: EntryView| enrich_view(e, c@)),
{
    let ghost orig = entries.deep_view();
    let ghost goal = orig.map_values(|e: EntryView| enrich_view(e, c@));
    let mut v = entries;
    let mut out: Vec<StartupEntry> = Vec::new();
    proof {
        assert(v.deep_view() =~= orig.subrange(0, orig.len() as int));
        assert(out.deep_view() =~= goal.subrange(0, 0));
    }
    while v.len() > 0
        invariant
            v.deep_view().len() <= orig.len(),
            goal == orig.map_values(|e: EntryView| enrich_view(e, c@)),
            out.deep_view() == goal.subrange(0, orig.len() - v.deep_view().len()),
            v.deep_view() == orig.subrange(orig.len() - v.deep_view().len(), orig.len() as int),
        decreases v.len(),
    {
        let ghost done = orig.len() - v.deep_view().len();
        let ghost prev = v@;
        let ghost pre = v.deep_view();
        let e = v.remove(0);
        proof {
            assert(e == prev[0]);
            assert(pre[0] == prev[0].deep_view());
            assert(pre[0] == orig.subrange(done as int, orig.len() as int)[0]);
            assert(e@ == orig[done as int]);
            assert(v@ == prev.remove(0));
            assert forall|i: int| 0 <= i < v.deep_view().len() implies v.deep_view()[i] == orig[
                done + 1 + i
            ] by {
                assert(v@[i] == prev[i + 1]);
                assert(pre[i + 1] == prev[i + 1].deep_view());
                assert(pre[i + 1] == orig.subrange(done as int, orig.len() as int)[i + 1]);
            }
            assert(v.deep_view() =~= orig.subrange(done + 1, orig.len() as int));
        }
        let enriched = enrich_entry(e, c);
        let ghost out_before = out.deep_view();
        out.push(enriched);
        proof {
            assert(out.deep_view() =~= out_before.push(enriched@));
            assert(out.deep_view() =~= goal.subrange(0, done + 1));
        }
    }
    proof {
        assert(goal.subrange(0, orig.len() as int) =~= goal);
    }
    out
}

/// One collection pass, as handed to the presentation side.
#[derive(Debug)]
pub struct CollectionResult {
    pub entries: Vec<StartupEntry>,
    pub is_admin: bool,
}

/// The whole pipeline over the five readers' output: concatenation in
/// reader order (a failed task reader contributing nothing), enrichment,
/// admin-visibility resolution, and the final sort.
pub open spec fn collect_view(
    run: Seq<EntryView>,
    run_once: Seq<EntryView>,
    folders: Seq<EntryView>,
    tasks: Option<Seq<EntryView>>,
    services: Seq<EntryView>,
    c: CachesView,
    saved: Option<Seq<Seq<char>>>,
) -> Seq<EntryView> {
    let raw = run + run_once + folders + (match tasks {
        Some(t) => t,
        None => Seq::empty(),
    }) + services;
    sort_spec(
        raw.map_values(
            |e: EntryView| admin_flag_view(enrich_view(e, c), c.prefetch_accessible, saved),
        ),
    )
}

/// Whatever the readers hand in, the collection comes out sorted, and
/// it is a permutation of the enriched, admin-resolved input: the
/// pipeline neither drops nor invents entries.
pub proof fn lemma_collect_view_ordered(
    run: Seq<EntryView>,
    run_once: Seq<EntryView>,
    folders: Seq<EntryView>,
    tasks: Option<Seq<EntryView>>,
    services: Seq<EntryView>,
    c: CachesView,
    saved: Option<Seq<Seq<char>>>,
)
    ensures
        crate::sort::entries_sorted(
            collect_view(run, run_once, folders, tasks, services, c, saved),
        ),
        collect_view(run, run_once, folders, tasks, services, c, saved).len() == run.len()
            + run_once.len() + folders.len() + (match tasks {
            Some(t) => t.len(),
            None => 0,
        }) + services.len(),
{
    let raw = run + run_once + folders + (match tasks {
        Some(t) => t,
        None => Seq::empty(),
    }) + services;
    let flagged = raw.map_values(
        |e: EntryView| admin_flag_view(enrich_view(e, c), c.prefetch_accessible, saved),
    );
    crate::sort::lemma_sort_spec_sorted(flagged);
}

/// Runs one full collection pass over the readers' output. No input can
/// fail it: a reader that could not enumerate hands in nothing, and a
/// missing handoff file means no entry is marked admin-only. Elevation is
/// inferred from whether the execution-history scan was permitted.
pub fn collect_all_entries(
    run: Vec<StartupEntry>,
    run_once: Vec<StartupEntry>,
    folders: Vec<StartupEntry>,
    tasks: Option<Vec<StartupEntry>>,
    services: Vec<StartupEntry>,
    caches: &Caches,
    saved_nonadmin: &Option<Vec<String>>,
) -> (r: CollectionResult)
    ensures
        r.is_admin == caches.prefetch.accessible,
        r.entries.deep_view() == collect_view(
            run.deep_view(),
            run_once.deep_view(),
            folders.deep_view(),
            tasks.deep_view(),
            services.deep_view(),
            caches@,
            saved_nonadmin.deep_view(),
        ),
{
    let ghost rv = run.deep_view();
    let ghost rov = run_once.deep_view();
    let ghost fv = folders.deep_view();
    let ghost tv = tasks.deep_view();
    let ghost sv = services.deep_view();
    let mut raw = run;
    let mut rest = run_once;
    raw.append(&mut rest);
    let mut rest = folders;
    raw.append(&mut rest);
    match tasks {
        Some(t) => {
            let mut rest = t;
            raw.append(&mut rest);
        },
        None => {},
    }
    let mut rest = services;
    raw.append(&mut rest);
    proof {
        assert(raw.deep_view() =~= rv + rov + fv + (match tv {
            Some(t) => t,
            None => Seq::<EntryView>::empty(),
        }) + sv);
    }
    let ghost raw_views = raw.deep_view();
    let is_admin = caches.prefetch.accessible;
    let enriched = enrich_all(raw, caches);
    let flagged = apply_admin_flags(enriched, is_admin, saved_nonadmin);
    proof {
        assert(flagged.deep_view() =~= raw_views.map_values(
            |e: EntryView| admin_flag_view(
                enrich_view(e, caches@),
                caches@.prefetch_accessible,
                saved_nonadmin.deep_view(),
            ),
        ));
    }
    let sorted = sort_entries(flagged);
    CollectionResult { entries: sorted, is_admin }
}

/// A live process is the most authoritative timestamp source: when the
/// entry's executable is in the running set and the snapshot has a start
/// time for it, that time overwrites whatever was there before.
pub proof fn lemma_running_time_wins(e: EntryView, c: CachesView, x: Seq<char>, t: Timestamp)
    requires
        exe_name_spec(e.command) == Some(x),
        c.running.contains(x),
        earliest_time(c.start_times, x) == Some(t),
    ensures
        enrich_view(e, c).run_state == RunState::Running,
        enrich_view(e, c).last_ran == Some(t),
{
}

/// With the executable not running and no timestamp from any earlier
/// source, the execution history keyed by the upper-cased name decides —
/// or the entry stays without one.
pub proof fn lemma_stopped_prefetch_fallback(e: EntryView, c: CachesView, x: Seq<char>)
    requires
        exe_name_spec(e.command) == Some(x),
        !c.running.contains(x),
        e.last_ran is None,
        !is_task_source(e.source) ==> approval_status_spec(e.name, e.source, c.approvals).1
            is None,
    ensures
        enrich_view(e, c).run_state == RunState::Stopped,
        enrich_view(e, c).last_ran == latest_time(c.prefetch, upper(x)),
{
}

/// The task-scheduler paths of the entries, in order: what a non-admin
/// pass writes to the handoff file before elevating.
pub open spec fn task_paths_spec(s: Seq<EntryView>) -> Seq<Seq<char>>
    decreases s.len(),
{
    if s.len() == 0 {
        Seq::empty()
    } else {
        task_paths_spec(s.drop_last()) + (match s.last().source {
            SourceView::TaskScheduler { task_path } => seq![task_path],
            _ => Seq::<Seq<char>>::empty(),
        })
    }
}

/// Collects the task paths visible in this pass.
pub fn nonadmin_task_paths(entries: &Vec<StartupEntry>) -> (r: Vec<String>)
    ensures
        r.deep_view() == task_paths_spec(entries.deep_view()),
{
    let mut out: Vec<String> = Vec::new();
    let mut i: usize = 0;
    proof {
        assert(out.deep_view() =~= task_paths_spec(entries.deep_view().subrange(0, 0)));
    }
    while i < entries.len()
        invariant
            i <= entries@.len(),
            out.deep_view() == task_paths_spec(entries.deep_view().subrange(0, i as int)),
        decreases entries.len() - i,
    {
        let ghost prefix = entries.deep_view().subrange(0, i as int);
        let ghost cur = entries.deep_view().subrange(0, i + 1);
        proof {
            assert(cur.drop_last() =~= prefix);
            assert(cur.last() == entries.deep_view()[i as int]);
        }
        match &entries[i].source {
            Source::TaskScheduler { task_path } => {
                let ghost out_before = out.deep_view();
                out.push(task_path.clone());
                proof {
                    assert(out.deep_view() =~= out_before.push(task_path@));
                    assert(out.deep_view() =~= task_paths_spec(cur));
                }
            },
            _ => {
                proof {
                    assert(task_paths_spec(cur) =~= task_paths_spec(prefix));
                }
            },
        }
        i = i + 1;
    }
    proof {
        assert(entries.deep_view().subrange(0, entries.deep_view().len() as int)
            =~= entries.deep_view());
    }
    out
}

} // verus!
