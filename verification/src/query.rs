//! The query engine: filter by patterns, order by sort key.
//!
//! With no patterns every record is listed, ordered by raw rank
//! descending whatever sort mode was asked for. With patterns the
//! matching records are ordered by the requested key descending. Ties keep
//! their original store order: the order is a stable insertion of each
//! record after all records with a key at least as large.

use vstd::prelude::*;
use vstd::multiset::Multiset;
use crate::record::History;
use crate::record::HistoryModel;
use crate::record::store_view;
use crate::scorer::SortBy;
use crate::scorer::sort_key;
use crate::matcher::path_matches;
use crate::matcher::views_of;

verus! {

/// The records whose paths satisfy the pattern list, in store order.
pub open spec fn matching(s: Seq<HistoryModel>, pats: Seq<Seq<u8>>) -> Seq<HistoryModel> {
    s.filter(|m: HistoryModel| path_matches(m.path, pats))
}

/// Keys never increase along the sequence.
pub open spec fn sorted_desc(s: Seq<HistoryModel>, sort: SortBy, now: int) -> bool {
    forall|i: int, j: int|
        0 <= i < j < s.len() ==> sort_key(s[i], sort, now) >= sort_key(s[j], sort, now)
}

/// One record placed after every leading record whose key is at least as
/// large: the insertion step of a stable descending sort.
pub open spec fn insert_sorted(
    s: Seq<HistoryModel>,
    m: HistoryModel,
    sort: SortBy,
    now: int,
) -> Seq<HistoryModel>
    decreases s.len(),
{
    if s.len() == 0 {
        seq![m]
    } else if sort_key(s[0], sort, now) >= sort_key(m, sort, now) {
        seq![s[0]] + insert_sorted(s.drop_first(), m, sort, now)
    } else {
        seq![m] + s
    }
}

/// The stable descending sort: records inserted one at a time in store
/// order, each after all records with a key at least as large.
pub open spec fn stable_sort(s: Seq<HistoryModel>, sort: SortBy, now: int) -> Seq<HistoryModel>
    decreases s.len(),
{
    if s.len() == 0 {
        Seq::empty()
    } else {
        insert_sorted(stable_sort(s.drop_last(), sort, now), s.last(), sort, now)
    }
}

/// What a query returns: with no patterns, the whole store by rank
/// descending whatever the sort mode; with patterns, the matching records
/// by the requested key descending; the best record alone unless a full
/// listing was asked for.
pub open spec fn query_spec(
    s: Seq<HistoryModel>,
    pats: Seq<Seq<u8>>,
    sort: SortBy,
    now: int,
    want_list: bool,
) -> Seq<HistoryModel> {
    let ranked = if pats.len() == 0 {
        stable_sort(s, SortBy::Rank, now)
    } else {
        stable_sort(matching(s, pats), sort, now)
    };
    if want_list {
        ranked
    } else if ranked.len() > 0 {
        seq![ranked[0]]
    } else {
        Seq::empty()
    }
}

/// Filtering by the patterns takes the store one record at a time from
/// the front.
proof fn lemma_matching_step(s: Seq<HistoryModel>, pats: Seq<Seq<u8>>, i: int)
    requires
        0 <= i < s.len(),
    ensures
        matching(s.take(i + 1), pats) == if path_matches(s[i].path, pats) {
            matching(s.take(i), pats).push(s[i])
        } else {
            matching(s.take(i), pats)
        },
{
    reveal(Seq::filter);
    assert(s.take(i + 1).drop_last() =~= s.take(i));
    assert(s.take(i + 1).last() == s[i]);
}

/// Inserting at the position the scan found: when the first `j` keys are
/// at least the new key and the key at `j` (if any) is smaller, the
/// insertion lands exactly at `j`.
proof fn lemma_insert_sorted_at(s: Seq<HistoryModel>, m: HistoryModel, sort: SortBy, now: int, j: int)
    requires
        0 <= j <= s.len(),
        forall|idx: int| 0 <= idx < j ==> sort_key(s[idx], sort, now) >= sort_key(m, sort, now),
        j < s.len() ==> sort_key(s[j], sort, now) < sort_key(m, sort, now),
    ensures
        insert_sorted(s, m, sort, now) == s.take(j) + seq![m] + s.skip(j),
    decreases s.len(),
{
    if s.len() == 0 {
        assert(insert_sorted(s, m, sort, now) =~= s.take(j) + seq![m] + s.skip(j));
    } else if j == 0 {
        assert(insert_sorted(s, m, sort, now) =~= s.take(0) + seq![m] + s.skip(0));
    } else {
        lemma_insert_sorted_at(s.drop_first(), m, sort, now, j - 1);
        assert(s.drop_first().take(j - 1) =~= s.take(j).drop_first());
        assert(s.drop_first().skip(j - 1) =~= s.skip(j));
        assert(seq![s[0]] + (s.take(j).drop_first() + seq![m] + s.skip(j)) =~= s.take(j)
            + seq![m] + s.skip(j));
    }
}

/// Every record of an insertion comes from the sequence or is the record
/// inserted.
proof fn lemma_insert_sorted_origin(s: Seq<HistoryModel>, m: HistoryModel, sort: SortBy, now: int)
    ensures
        insert_sorted(s, m, sort, now).len() == s.len() + 1,
        forall|i: int|
            0 <= i < s.len() + 1 ==> (exists|j: int|
                0 <= j < s.len() && #[trigger] insert_sorted(s, m, sort, now)[i] == s[j])
                || insert_sorted(s, m, sort, now)[i] == m,
    decreases s.len(),
{
    let r = insert_sorted(s, m, sort, now);
    if s.len() == 0 {
    } else if sort_key(s[0], sort, now) >= sort_key(m, sort, now) {
        lemma_insert_sorted_origin(s.drop_first(), m, sort, now);
        let rr = insert_sorted(s.drop_first(), m, sort, now);
        assert forall|i: int| 0 <= i < s.len() + 1 implies (exists|j: int|
            0 <= j < s.len() && #[trigger] r[i] == s[j]) || r[i] == m by {
            if i == 0 {
                assert(r[0] == s[0]);
            } else {
                assert(r[i] == rr[i - 1]);
                if rr[i - 1] == m {
                } else {
                    let j = choose|j: int| 0 <= j < s.drop_first().len() && rr[i - 1]
                        == s.drop_first()[j];
                    assert(r[i] == s[j + 1]);
                }
            }
        }
    } else {
        assert forall|i: int| 0 <= i < s.len() + 1 implies (exists|j: int|
            0 <= j < s.len() && #[trigger] r[i] == s[j]) || r[i] == m by {
            if i > 0 {
                assert(r[i] == s[i - 1]);
            }
        }
    }
}

/// Insertion keeps a descending sequence descending.
proof fn lemma_insert_sorted_sorted(s: Seq<HistoryModel>, m: HistoryModel, sort: SortBy, now: int)
    requires
        sorted_desc(s, sort, now),
    ensures
        sorted_desc(insert_sorted(s, m, sort, now), sort, now),
    decreases s.len(),
{
    let r = insert_sorted(s, m, sort, now);
    if s.len() == 0 {
    } else if sort_key(s[0], sort, now) >= sort_key(m, sort, now) {
        let rr = insert_sorted(s.drop_first(), m, sort, now);
        lemma_insert_sorted_sorted(s.drop_first(), m, sort, now);
        lemma_insert_sorted_origin(s.drop_first(), m, sort, now);
        assert forall|i: int, j: int|
            0 <= i < j < r.len() implies sort_key(r[i], sort, now) >= sort_key(
            r[j],
            sort,
            now,
        ) by {
            if i == 0 {
                assert(r[j] == rr[j - 1]);
                if rr[j - 1] == m {
                } else if exists|k: int|
                    0 <= k < s.drop_first().len() && rr[j - 1] == s.drop_first()[k] {
                    let k = choose|k: int|
                        0 <= k < s.drop_first().len() && rr[j - 1] == s.drop_first()[k];
                    assert(s.drop_first()[k] == s[k + 1]);
                }
            } else {
                assert(r[i] == rr[i - 1] && r[j] == rr[j - 1]);
            }
        }
    } else {
        assert forall|i: int, j: int|
            0 <= i < j < r.len() implies sort_key(r[i], sort, now) >= sort_key(
            r[j],
            sort,
            now,
        ) by {
            if i == 0 {
                assert(r[j] == s[j - 1]);
                assert(sort_key(s[0], sort, now) < sort_key(m, sort, now));
                if j > 1 {
                    assert(sort_key(s[0], sort, now) >= sort_key(s[j - 1], sort, now));
                }
            } else {
                assert(r[i] == s[i - 1] && r[j] == s[j - 1]);
            }
        }
    }
}

/// Insertion adds exactly the record inserted.
proof fn lemma_insert_sorted_multiset(s: Seq<HistoryModel>, m: HistoryModel, sort: SortBy, now: int)
    ensures
        insert_sorted(s, m, sort, now).to_multiset() == s.to_multiset().insert(m),
    decreases s.len(),
{
    broadcast use vstd::seq_lib::group_to_multiset_ensures;

    let r = insert_sorted(s, m, sort, now);
    if s.len() == 0 {
        assert(seq![m] =~= Seq::<HistoryModel>::empty().push(m));
        assert(r.to_multiset() =~= s.to_multiset().insert(m));
    } else if sort_key(s[0], sort, now) >= sort_key(m, sort, now) {
        let rr = insert_sorted(s.drop_first(), m, sort, now);
        lemma_insert_sorted_multiset(s.drop_first(), m, sort, now);
        vstd::seq_lib::lemma_multiset_commutative(seq![s[0]], rr);
        vstd::seq_lib::lemma_multiset_commutative(seq![s[0]], s.drop_first());
        assert(seq![s[0]] + s.drop_first() =~= s);
        assert(r.to_multiset() =~= s.to_multiset().insert(m));
    } else {
        vstd::seq_lib::lemma_multiset_commutative(seq![m], s);
        assert(seq![m].to_multiset() =~= Multiset::<HistoryModel>::empty().insert(m));
        assert(r.to_multiset() =~= s.to_multiset().insert(m));
    }
}

/// The stable sort orders its records by descending key.
pub proof fn lemma_stable_sort_sorted(s: Seq<HistoryModel>, sort: SortBy, now: int)
    ensures
        sorted_desc(stable_sort(s, sort, now), sort, now),
    decreases s.len(),
{
    if s.len() > 0 {
        lemma_stable_sort_sorted(s.drop_last(), sort, now);
        lemma_insert_sorted_sorted(stable_sort(s.drop_last(), sort, now), s.last(), sort, now);
    }
}

/// The stable sort is a permutation: it returns exactly the records it
/// was given.
pub proof fn lemma_stable_sort_multiset(s: Seq<HistoryModel>, sort: SortBy, now: int)
    ensures
        stable_sort(s, sort, now).to_multiset() == s.to_multiset(),
    decreases s.len(),
{
    broadcast use vstd::seq_lib::group_to_multiset_ensures;

    if s.len() > 0 {
        lemma_stable_sort_multiset(s.drop_last(), sort, now);
        lemma_insert_sorted_multiset(stable_sort(s.drop_last(), sort, now), s.last(), sort, now);
        assert(s.drop_last().push(s.last()) =~= s);
    }
}

/// Where the new record goes: past every leading record with a key at
/// least as large.
fn insert_pos(out: &Vec<History>, key: u128, sort: SortBy, now: u64) -> (j: usize)
    ensures
        j <= out@.len(),
        forall|idx: int|
            0 <= idx < j ==> sort_key(store_view(out@)[idx], sort, now as int) >= key,
        j < out@.len() ==> sort_key(store_view(out@)[j as int], sort, now as int) < key,
{
    let mut j: usize = 0;
    while j < out.len()
        invariant_except_break
            j <= out@.len(),
            forall|idx: int|
                0 <= idx < j ==> sort_key(store_view(out@)[idx], sort, now as int) >= key,
        ensures
            j <= out@.len(),
            forall|idx: int|
                0 <= idx < j ==> sort_key(store_view(out@)[idx], sort, now as int) >= key,
            j < out@.len() ==> sort_key(store_view(out@)[j as int], sort, now as int) < key,
        decreases out@.len() - j,
    {
        assert(store_view(out@)[j as int] == out@[j as int]@);
        if out[j].get_sort(sort, now) < key {
            break;
        }
        j = j + 1;
    }
    j
}

/// Sort the records by the given key, descending, stably.
fn sort_records(cands: Vec<History>, sort: SortBy, now: u64) -> (out: Vec<History>)
    ensures
        store_view(out@) == stable_sort(store_view(cands@), sort, now as int),
{
    let ghost cv = store_view(cands@);
    let mut out: Vec<History> = Vec::new();
    let mut i: usize = 0;
    while i < cands.len()
        invariant
            i <= cands@.len(),
            cv == store_view(cands@),
            store_view(out@) == stable_sort(cv.take(i as int), sort, now as int),
        decreases cands@.len() - i,
    {
        let ghost prev = store_view(out@);
        let h = cands[i].duplicate();
        let key = h.get_sort(sort, now);
        let j = insert_pos(&out, key, sort, now);
        let ghost prev_vec = out@;
        out.insert(j, h);
        proof {
            lemma_insert_sorted_at(prev, cv[i as int], sort, now as int, j as int);
            prev_vec.insert_ensures(j as int, h);
            assert(store_view(out@) =~= prev.take(j as int) + seq![cv[i as int]] + prev.skip(
                j as int,
            ));
            assert(cv.take(i + 1).drop_last() =~= cv.take(i as int));
            assert(cv.take(i + 1).last() == cv[i as int]);
        }
        i = i + 1;
    }
    assert(cv.take(cv.len() as int) =~= cv);
    out
}

/// Look records up: filter by the patterns, order by the key, and return
/// the full listing or the single best record.
pub fn query(
    store: &Vec<History>,
    patterns: &Vec<Vec<u8>>,
    sort: SortBy,
    now: u64,
    want_list: bool,
) -> (res: Vec<History>)
    ensures
        store_view(res@) == query_spec(
            store_view(store@),
            views_of(patterns@),
            sort,
            now as int,
            want_list,
        ),
{
    let ghost sv = store_view(store@);
    let ghost pats = views_of(patterns@);
    let mut cands: Vec<History> = Vec::new();
    let mut i: usize = 0;
    if patterns.len() == 0 {
        while i < store.len()
            invariant
                i <= store@.len(),
                sv == store_view(store@),
                store_view(cands@) == sv.take(i as int),
            decreases store@.len() - i,
        {
            let ghost prev = store_view(cands@);
            let h = store[i].duplicate();
            cands.push(h);
            assert(store_view(cands@) =~= prev.push(sv[i as int]));
            assert(sv.take(i + 1) =~= sv.take(i as int).push(sv[i as int]));
            i = i + 1;
        }
        assert(sv.take(sv.len() as int) =~= sv);
        let out = sort_records(cands, SortBy::Rank, now);
        finish(out, want_list)
    } else {
        while i < store.len()
            invariant
                i <= store@.len(),
                sv == store_view(store@),
                pats == views_of(patterns@),
                store_view(cands@) == matching(sv.take(i as int), pats),
            decreases store@.len() - i,
        {
            let ghost prev = store_view(cands@);
            proof {
                lemma_matching_step(sv, pats, i as int);
                assert(sv[i as int] == store@[i as int]@);
            }
            if store[i].matches(patterns) {
                let h = store[i].duplicate();
                cands.push(h);
                assert(store_view(cands@) =~= prev.push(sv[i as int]));
            }
            i = i + 1;
        }
        assert(sv.take(sv.len() as int) =~= sv);
        let out = sort_records(cands, sort, now);
        finish(out, want_list)
    }
}

/// The full listing, or the single best record, or nothing.
fn finish(out: Vec<History>, want_list: bool) -> (res: Vec<History>)
    ensures
        store_view(res@) == if want_list {
            store_view(out@)
        } else if store_view(out@).len() > 0 {
            seq![store_view(out@)[0]]
        } else {
            Seq::<HistoryModel>::empty()
        },
{
    if want_list {
        out
    } else if out.len() > 0 {
        let mut best: Vec<History> = Vec::new();
        best.push(out[0].duplicate());
        assert(store_view(best@) =~= seq![store_view(out@)[0]]);
        best
    } else {
        let empty: Vec<History> = Vec::new();
        assert(store_view(empty@) =~= Seq::<HistoryModel>::empty());
        empty
    }
}

} // verus!
