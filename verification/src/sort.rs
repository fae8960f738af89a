//! The deterministic order of the entry list: source precedence first,
//! case-insensitive name second. The sort is specified as a stable
//! insertion sort, and its laws — sortedness, permutation, stability —
//! are proved below.

use vstd::prelude::*;
use crate::models::{StartupEntry, EntryView, source_rank};
use crate::text::{lower, lex_lt, name_lt};
use crate::text::{lemma_lex_lt_total, lemma_lex_lt_trans, lemma_lex_lt_irrefl};

verus! {

/// Strict "sorts before": lower source precedence wins; within one source
/// kind the case-insensitively smaller name wins.
pub open spec fn entry_lt(a: EntryView, b: EntryView) -> bool {
    source_rank(a.source) < source_rank(b.source) || (source_rank(a.source) == source_rank(
        b.source,
    ) && lex_lt(lower(a.name), lower(b.name)))
}

/// Non-strict companion of `entry_lt`.
pub open spec fn entry_le(a: EntryView, b: EntryView) -> bool {
    !entry_lt(b, a)
}

/// Two entries the order cannot tell apart: same source precedence and
/// the same name up to case.
pub open spec fn same_sort_key(a: EntryView, b: EntryView) -> bool {
    source_rank(a.source) == source_rank(b.source) && lower(a.name) == lower(b.name)
}

/// The order is total: entries it cannot separate share their sort key.
pub proof fn lemma_entry_order_total(a: EntryView, b: EntryView)
    ensures
        entry_lt(a, b) || entry_lt(b, a) || same_sort_key(a, b),
{
    if !entry_lt(a, b) && !entry_lt(b, a) {
        lemma_lex_lt_total(lower(a.name), lower(b.name));
    }
}

/// The order is asymmetric.
pub proof fn lemma_entry_lt_asym(a: EntryView, b: EntryView)
    requires
        entry_lt(a, b),
    ensures
        !entry_lt(b, a),
{
    if entry_lt(b, a) {
        if source_rank(a.source) == source_rank(b.source) {
            lemma_lex_lt_trans(lower(a.name), lower(b.name), lower(a.name));
            lemma_lex_lt_irrefl(lower(a.name));
        }
    }
}

/// The order is transitive.
pub proof fn lemma_entry_lt_trans(a: EntryView, b: EntryView, c: EntryView)
    requires
        entry_lt(a, b),
        entry_lt(b, c),
    ensures
        entry_lt(a, c),
{
    if source_rank(a.source) == source_rank(b.source) && source_rank(b.source) == source_rank(
        c.source,
    ) {
        lemma_lex_lt_trans(lower(a.name), lower(b.name), lower(c.name));
    }
}

/// Strictly-before composed with not-after is still strictly-before.
pub proof fn lemma_entry_lt_le(a: EntryView, b: EntryView, c: EntryView)
    requires
        entry_lt(a, b),
        entry_le(b, c),
    ensures
        entry_lt(a, c),
{
    lemma_entry_order_total(a, c);
    if entry_lt(c, a) {
        lemma_entry_lt_trans(c, a, b);
    } else if same_sort_key(a, c) {
        if entry_lt(c, b) {
        }
    }
}

/// Where the next element lands in an already sorted tail: before the
/// first element it sorts strictly before, after everything else.
pub open spec fn insert_sorted(e: EntryView, s: Seq<EntryView>) -> Seq<EntryView>
    decreases s.len(),
{
    if s.len() == 0 {
        seq![e]
    } else if entry_lt(e, s[0]) {
        seq![e] + s
    } else {
        seq![s[0]] + insert_sorted(e, s.drop_first())
    }
}

/// The whole sort: each element in turn inserted into the sorted image
/// of what came before it, so ties keep their arrival order.
pub open spec fn sort_spec(s: Seq<EntryView>) -> Seq<EntryView>
    decreases s.len(),
{
    if s.len() == 0 {
        Seq::empty()
    } else {
        insert_sorted(s.last(), sort_spec(s.drop_last()))
    }
}

/// Sortedness under the entry order.
pub open spec fn entries_sorted(s: Seq<EntryView>) -> bool {
    forall|i: int, j: int| 0 <= i < j < s.len() ==> entry_le(#[trigger] s[i], #[trigger] s[j])
}

/// Inserting adds exactly the inserted element.
pub proof fn lemma_insert_sorted_multiset(e: EntryView, s: Seq<EntryView>)
    ensures
        insert_sorted(e, s).to_multiset() == s.to_multiset().insert(e),
        insert_sorted(e, s).len() == s.len() + 1,
    decreases s.len(),
{
    broadcast use vstd::seq_lib::group_to_multiset_ensures;

    if s.len() == 0 {
        assert(insert_sorted(e, s) =~= s.insert(0, e));
    } else if entry_lt(e, s[0]) {
        assert(insert_sorted(e, s) =~= s.insert(0, e));
    } else {
        lemma_insert_sorted_multiset(e, s.drop_first());
        let t = insert_sorted(e, s.drop_first());
        assert(insert_sorted(e, s) =~= t.insert(0, s[0]));
        assert(t.to_multiset().insert(s[0]) =~= s.drop_first().to_multiset().insert(e).insert(
            s[0],
        ));
        assert(s =~= s.drop_first().insert(0, s[0]));
        assert(s.to_multiset() == s.drop_first().to_multiset().insert(s[0]));
        assert(s.drop_first().to_multiset().insert(e).insert(s[0]) =~= s.drop_first().to_multiset()
            .insert(s[0]).insert(e));
    }
}

/// Everything in the inserted result is the new element or an old one.
pub proof fn lemma_insert_sorted_elems(e: EntryView, s: Seq<EntryView>, k: int)
    requires
        0 <= k < insert_sorted(e, s).len(),
    ensures
        insert_sorted(e, s)[k] == e || s.contains(insert_sorted(e, s)[k]),
    decreases s.len(),
{
    if s.len() == 0 {
    } else if entry_lt(e, s[0]) {
        if k > 0 {
            assert(insert_sorted(e, s)[k] == s[k - 1]);
        }
    } else {
        if k > 0 {
            lemma_insert_sorted_elems(e, s.drop_first(), k - 1);
            let x = insert_sorted(e, s)[k];
            assert(x == insert_sorted(e, s.drop_first())[k - 1]);
            if x != e {
                let i = choose|i: int|
                    0 <= i < s.drop_first().len() && s.drop_first()[i] == x;
                assert(s[i + 1] == x);
            }
        }
    }
}

/// Inserting into a sorted sequence keeps it sorted.
pub proof fn lemma_insert_sorted_sorted(e: EntryView, s: Seq<EntryView>)
    requires
        entries_sorted(s),
    ensures
        entries_sorted(insert_sorted(e, s)),
    decreases s.len(),
{
    let r = insert_sorted(e, s);
    if s.len() == 0 {
    } else if entry_lt(e, s[0]) {
        assert forall|i: int, j: int| 0 <= i < j < r.len() implies entry_le(r[i], r[j]) by {
            if i == 0 {
                assert(r[j] == s[j - 1]);
                if j == 1 {
                    lemma_entry_lt_asym(e, s[0]);
                } else {
                    lemma_entry_lt_le(e, s[0], s[j - 1]);
                    lemma_entry_lt_asym(e, s[j - 1]);
                }
            } else {
                assert(r[i] == s[i - 1] && r[j] == s[j - 1]);
            }
        }
    } else {
        assert forall|i: int, j: int| 0 <= i < j < s.drop_first().len() implies entry_le(
            #[trigger] s.drop_first()[i],
            #[trigger] s.drop_first()[j],
        ) by {
            assert(s.drop_first()[i] == s[i + 1] && s.drop_first()[j] == s[j + 1]);
        }
        lemma_insert_sorted_sorted(e, s.drop_first());
        let t = insert_sorted(e, s.drop_first());
        assert forall|i: int, j: int| 0 <= i < j < r.len() implies entry_le(r[i], r[j]) by {
            if i == 0 {
                assert(r[j] == t[j - 1]);
                lemma_insert_sorted_elems(e, s.drop_first(), j - 1);
                if t[j - 1] == e {
                    lemma_entry_order_total(s[0], e);
                } else {
                    let m = choose|m: int|
                        0 <= m < s.drop_first().len() && s.drop_first()[m] == t[j - 1];
                    assert(s[m + 1] == t[j - 1]);
                    assert(entry_le(s[0], s[m + 1]));
                }
            } else {
                assert(r[i] == t[i - 1] && r[j] == t[j - 1]);
            }
        }
    }
}

/// The sorted image of any input is sorted, and a permutation of it.
pub proof fn lemma_sort_spec_sorted(s: Seq<EntryView>)
    ensures
        entries_sorted(sort_spec(s)),
        sort_spec(s).to_multiset() == s.to_multiset(),
        sort_spec(s).len() == s.len(),
    decreases s.len(),
{
    broadcast use vstd::seq_lib::group_to_multiset_ensures;

    if s.len() > 0 {
        lemma_sort_spec_sorted(s.drop_last());
        lemma_insert_sorted_sorted(s.last(), sort_spec(s.drop_last()));
        lemma_insert_sorted_multiset(s.last(), sort_spec(s.drop_last()));
        assert(s =~= s.drop_last().push(s.last()));
        assert(s.drop_last().push(s.last()).to_multiset() == s.drop_last().to_multiset().insert(
            s.last(),
        ));
    }
}

/// Insertion leaves every tied-key class in order: the new element lands
/// after all old elements with its key, and disturbs no other class.
pub proof fn lemma_insert_sorted_filter(e: EntryView, s: Seq<EntryView>, f: EntryView)
    requires
        entries_sorted(s),
    ensures
        insert_sorted(e, s).filter(|x: EntryView| same_sort_key(x, f)) == s.filter(
            |x: EntryView| same_sort_key(x, f),
        ) + if same_sort_key(e, f) {
            seq![e]
        } else {
            Seq::<EntryView>::empty()
        },
    decreases s.len(),
{
    reveal(Seq::filter);
    let p = |x: EntryView| same_sort_key(x, f);
    let tail: Seq<EntryView> = if same_sort_key(e, f) {
        seq![e]
    } else {
        Seq::empty()
    };
    lemma_filter_single(e, p);
    if s.len() == 0 {
        assert(s.filter(p) =~= Seq::<EntryView>::empty());
        assert(seq![e].filter(p) =~= s.filter(p) + tail);
    } else if entry_lt(e, s[0]) {
        Seq::filter_distributes_over_add(seq![e], s, p);
        if same_sort_key(e, f) {
            // no old element shares e's key here: everything in s sorts
            // strictly after e, while a shared key would forbid that
            assert forall|i: int| 0 <= i < s.len() implies !p(#[trigger] s[i]) by {
                if i > 0 {
                    lemma_entry_lt_le(e, s[0], s[i]);
                } else {
                }
                if same_sort_key(s[i], f) {
                    lemma_entry_lt_asym(e, s[i]);
                }
            }
            lemma_filter_all_false(s, p);
            assert((seq![e] + s).filter(p) =~= s.filter(p) + tail);
        } else {
            assert((seq![e] + s).filter(p) =~= s.filter(p) + tail);
        }
    } else {
        assert forall|i: int, j: int| 0 <= i < j < s.drop_first().len() implies entry_le(
            #[trigger] s.drop_first()[i],
            #[trigger] s.drop_first()[j],
        ) by {
            assert(s.drop_first()[i] == s[i + 1] && s.drop_first()[j] == s[j + 1]);
        }
        lemma_insert_sorted_filter(e, s.drop_first(), f);
        Seq::filter_distributes_over_add(seq![s[0]], insert_sorted(e, s.drop_first()), p);
        Seq::filter_distributes_over_add(seq![s[0]], s.drop_first(), p);
        assert(insert_sorted(e, s) == seq![s[0]] + insert_sorted(e, s.drop_first()));
        assert(seq![s[0]] + s.drop_first() =~= s);
        assert((seq![s[0]] + insert_sorted(e, s.drop_first())).filter(p) == seq![s[0]].filter(p)
            + (s.drop_first().filter(p) + tail));
        assert(seq![s[0]].filter(p) + (s.drop_first().filter(p) + tail) =~= (seq![s[0]].filter(p)
            + s.drop_first().filter(p)) + tail);
    }
}

proof fn lemma_filter_single(e: EntryView, p: spec_fn(EntryView) -> bool)
    ensures
        seq![e].filter(p) == if p(e) {
            seq![e]
        } else {
            Seq::<EntryView>::empty()
        },
{
    reveal(Seq::filter);
    let s = seq![e];
    assert(s.drop_last() =~= Seq::<EntryView>::empty());
    assert(Seq::<EntryView>::empty().filter(p) == Seq::<EntryView>::empty());
    assert(s.last() == e);
    if p(e) {
        assert(s.filter(p) =~= seq![e]);
    }
}

proof fn lemma_filter_all_false(s: Seq<EntryView>, p: spec_fn(EntryView) -> bool)
    requires
        forall|i: int| 0 <= i < s.len() ==> !p(#[trigger] s[i]),
    ensures
        s.filter(p) == Seq::<EntryView>::empty(),
    decreases s.len(),
{
    reveal(Seq::filter);
    if s.len() > 0 {
        assert forall|i: int| 0 <= i < s.drop_last().len() implies !p(
            #[trigger] s.drop_last()[i],
        ) by {
            assert(s.drop_last()[i] == s[i]);
        }
        lemma_filter_all_false(s.drop_last(), p);
        assert(!p(s.last()));
    }
}

/// Stability: for every sort key, the tied entries come out in exactly
/// the order they went in.
pub proof fn lemma_sort_spec_stable(s: Seq<EntryView>, f: EntryView)
    ensures
        sort_spec(s).filter(|x: EntryView| same_sort_key(x, f)) == s.filter(
            |x: EntryView| same_sort_key(x, f),
        ),
    decreases s.len(),
{
    reveal(Seq::filter);
    let p = |x: EntryView| same_sort_key(x, f);
    if s.len() > 0 {
        lemma_sort_spec_stable(s.drop_last(), f);
        lemma_sort_spec_sorted(s.drop_last());
        lemma_insert_sorted_filter(s.last(), sort_spec(s.drop_last()), f);
        let tail: Seq<EntryView> = if same_sort_key(s.last(), f) {
            seq![s.last()]
        } else {
            Seq::empty()
        };
        assert(sort_spec(s).filter(p) == s.drop_last().filter(p) + tail);
        assert(s.drop_last().filter(p) + tail =~= s.filter(p));
    }
}

/// Whether `a` sorts strictly before `b`.
pub fn entry_before(a: &StartupEntry, b: &StartupEntry) -> (r: bool)
    ensures
        r == entry_lt(a@, b@),
{
    let ka = a.source.sort_key();
    let kb = b.source.sort_key();
    if ka < kb {
        true
    } else if ka > kb {
        false
    } else {
        name_lt(a.name.as_str(), b.name.as_str())
    }
}

proof fn lemma_insert_sorted_at(e: EntryView, s: Seq<EntryView>, i: int)
    requires
        0 <= i <= s.len(),
        forall|k: int| 0 <= k < i ==> !entry_lt(e, #[trigger] s[k]),
        i < s.len() ==> entry_lt(e, s[i]),
    ensures
        insert_sorted(e, s) == s.insert(i, e),
    decreases s.len(),
{
    if s.len() == 0 {
        assert(insert_sorted(e, s) =~= s.insert(0, e));
    } else if entry_lt(e, s[0]) {
        assert(i == 0);
        assert(insert_sorted(e, s) =~= s.insert(0, e));
    } else {
        assert(i > 0);
        assert forall|k: int| 0 <= k < i - 1 implies !entry_lt(e, #[trigger] s.drop_first()[k]) by {
            assert(s.drop_first()[k] == s[k + 1]);
        }
        assert(i - 1 < s.drop_first().len() ==> entry_lt(e, s.drop_first()[i - 1]));
        lemma_insert_sorted_at(e, s.drop_first(), i - 1);
        assert(insert_sorted(e, s) =~= s.insert(i, e));
    }
}

fn insert_entry(out: &mut Vec<StartupEntry>, e: StartupEntry)
    ensures
        final(out).deep_view() == insert_sorted(e@, old(out).deep_view()),
{
    let ghost s = old(out).deep_view();
    let mut i: usize = 0;
    while i < out.len() && !entry_before(&e, &out[i])
        invariant
            i <= out.len(),
            out@ == old(out)@,
            s == old(out).deep_view(),
            forall|k: int| 0 <= k < i ==> !entry_lt(e@, #[trigger] s[k]),
        decreases out.len() - i,
    {
        assert(s[i as int] == out@[i as int]@);
        i = i + 1;
    }
    proof {
        if i < out@.len() {
            assert(s[i as int] == out@[i as int]@);
        }
        lemma_insert_sorted_at(e@, s, i as int);
    }
    out.insert(i, e);
    proof {
        assert(final(out).deep_view() =~= s.insert(i as int, e@));
    }
}

/// Sorts the collected entries: source precedence major, case-insensitive
/// name minor, ties kept in arrival order.
pub fn sort_entries(entries: Vec<StartupEntry>) -> (r: Vec<StartupEntry>)
    ensures
        r.deep_view() == sort_spec(entries.deep_view()),
{
    let ghost orig = entries.deep_view();
    let mut v = entries;
    let mut out: Vec<StartupEntry> = Vec::new();
    proof {
        assert(orig.subrange(0, 0) =~= Seq::<EntryView>::empty());
        assert(v.deep_view() =~= orig.subrange(0, orig.len() as int));
    }
    while v.len() > 0
        invariant
            v.deep_view().len() <= orig.len(),
            out.deep_view() == sort_spec(orig.subrange(0, orig.len() - v.deep_view().len())),
            v.deep_view() == orig.subrange(
                orig.len() - v.deep_view().len(),
                orig.len() as int,
            ),
        decreases v.len(),
    {
        let ghost done = orig.len() - v.deep_view().len();
        let ghost prev = v@;
        let ghost pre = v.deep_view();
        let e = v.remove(0);
        proof {
            assert(e == prev[0]);
            assert(pre[0] == prev[0].deep_view());
            assert(pre[0] == orig.subrange(done as int, orig.len() as int)[0]);
            assert(e@ == orig[done as int]);
            assert(v@ == prev.remove(0));
            assert forall|i: int| 0 <= i < v.deep_view().len() implies v.deep_view()[i] == orig[
                done + 1 + i
            ] by {
                assert(v@[i] == prev[i + 1]);
                assert(pre[i + 1] == prev[i + 1].deep_view());
                assert(pre[i + 1] == orig.subrange(done as int, orig.len() as int)[i + 1]);
            }
            assert(v.deep_view() =~= orig.subrange(done + 1, orig.len() as int));
        }
        insert_entry(&mut out, e);
        proof {
            let pre = orig.subrange(0, done);
            let cur = orig.subrange(0, done + 1);
            assert(cur.drop_last() =~= pre);
            assert(cur.last() == orig[done]);
        }
    }
    proof {
        assert(orig.subrange(0, orig.len() as int) =~= orig);
    }
    out
}

} // verus!
