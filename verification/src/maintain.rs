//! Rank maintenance: increment on visit, global decay, pruning.
//!
//! A visit to a known path adds one rank unit and stamps the time; a visit
//! to an unknown path appends a fresh record. The home directory itself is
//! never recorded. After a batch of visits the store is maintained: when
//! the ranks sum to more than the decay threshold every rank is multiplied
//! by ninety-nine hundredths, and records whose rank then falls below one
//! unit are dropped.

use vstd::prelude::*;
use crate::record::History;
use crate::record::HistoryModel;
use crate::record::RANK_SCALE;
use crate::record::bytes_eq;
use crate::record::copy_bytes;
use crate::record::store_view;
use crate::matcher::views_of;

verus! {

/// Ranks summing to more than this (ninety hundred rank units, in
/// hundredths) trigger a global decay pass.
pub const DECAY_THRESHOLD: u64 = 900000;

/// A rank after one more visit: one unit higher, held at the integer
/// ceiling should it ever reach it.
pub open spec fn bump(r: int) -> int {
    if r + RANK_SCALE <= u64::MAX {
        r + RANK_SCALE
    } else {
        u64::MAX as int
    }
}

/// A record after a visit at time `now`.
pub open spec fn visited(m: HistoryModel, now: int) -> HistoryModel {
    HistoryModel { rank: bump(m.rank), time: now, ..m }
}

/// A record first created by a visit at time `now`.
pub open spec fn new_record(p: Seq<u8>, now: int) -> HistoryModel {
    HistoryModel { path: p, rank: RANK_SCALE as int, time: now }
}

/// Some record in the store has exactly this path.
pub open spec fn has_path(s: Seq<HistoryModel>, p: Seq<u8>) -> bool {
    exists|i: int| 0 <= i < s.len() && s[i].path == p
}

/// Every record whose path is `p` after a visit to `p`; the rest unchanged.
pub open spec fn visit_map(s: Seq<HistoryModel>, p: Seq<u8>, now: int) -> Seq<HistoryModel> {
    s.map_values(|m: HistoryModel| if m.path == p { visited(m, now) } else { m })
}

/// The store after one visit to `p` at time `now`: matching records are
/// bumped and restamped, and a fresh record is appended when none matched.
pub open spec fn apply_visit_spec(s: Seq<HistoryModel>, p: Seq<u8>, now: int) -> Seq<
    HistoryModel,
> {
    if has_path(s, p) {
        visit_map(s, p, now)
    } else {
        visit_map(s, p, now).push(new_record(p, now))
    }
}

/// The store after a batch of visits, applied in order; a path equal to
/// the home directory is skipped.
pub open spec fn apply_visits_spec(
    s: Seq<HistoryModel>,
    paths: Seq<Seq<u8>>,
    home: Seq<u8>,
    now: int,
) -> Seq<HistoryModel>
    decreases paths.len(),
{
    if paths.len() == 0 {
        s
    } else if paths[0] == home {
        apply_visits_spec(s, paths.drop_first(), home, now)
    } else {
        apply_visits_spec(apply_visit_spec(s, paths[0], now), paths.drop_first(), home, now)
    }
}

/// A record after one decay pass: its rank at ninety-nine hundredths,
/// rounded down to the hundredth.
pub open spec fn decayed(m: HistoryModel) -> HistoryModel {
    HistoryModel { rank: m.rank * 99 / 100, ..m }
}

/// Every record after one decay pass.
pub open spec fn decay_all(s: Seq<HistoryModel>) -> Seq<HistoryModel> {
    s.map_values(|m: HistoryModel| decayed(m))
}

/// A record worth keeping: at least one full rank unit.
pub open spec fn keep(m: HistoryModel) -> bool {
    m.rank >= RANK_SCALE
}

/// The sum of all ranks in the store.
pub open spec fn total_rank(s: Seq<HistoryModel>) -> int
    decreases s.len(),
{
    if s.len() == 0 {
        0
    } else {
        total_rank(s.drop_last()) + s.last().rank
    }
}

/// The store with the records below one rank unit dropped.
pub open spec fn prune(s: Seq<HistoryModel>) -> Seq<HistoryModel> {
    s.filter(|m: HistoryModel| keep(m))
}

/// The store after maintenance: decayed when the ranks total more than
/// the threshold, then pruned of records below one rank unit.
pub open spec fn maintain_spec(s: Seq<HistoryModel>) -> Seq<HistoryModel> {
    if total_rank(s) > DECAY_THRESHOLD {
        prune(decay_all(s))
    } else {
        prune(s)
    }
}

/// Pruning takes a sequence one record at a time from the front.
proof fn lemma_prune_step(s: Seq<HistoryModel>, i: int)
    requires
        0 <= i < s.len(),
    ensures
        prune(s.take(i + 1)) == if keep(s[i]) {
            prune(s.take(i)).push(s[i])
        } else {
            prune(s.take(i))
        },
{
    reveal(Seq::filter);
    assert(s.take(i + 1).drop_last() =~= s.take(i));
    assert(s.take(i + 1).last() == s[i]);
}

/// Every record that pruning keeps is worth keeping.
proof fn lemma_prune_kept(s: Seq<HistoryModel>, i: int)
    requires
        0 <= i < prune(s).len(),
    ensures
        keep(prune(s)[i]),
    decreases s.len(),
{
    reveal(Seq::filter);
    if s.len() == 0 {
    } else {
        if keep(s.last()) {
            if i < prune(s.drop_last()).len() {
                lemma_prune_kept(s.drop_last(), i);
            }
        } else {
            lemma_prune_kept(s.drop_last(), i);
        }
    }
}

/// Pruning keeps a store whose every record is worth keeping.
proof fn lemma_prune_identity(s: Seq<HistoryModel>)
    requires
        forall|i: int| 0 <= i < s.len() ==> keep(s[i]),
    ensures
        prune(s) == s,
    decreases s.len(),
{
    reveal(Seq::filter);
    if s.len() == 0 {
        assert(prune(s) =~= s);
    } else {
        lemma_prune_identity(s.drop_last());
        assert(keep(s[s.len() - 1]));
        assert(prune(s) =~= s);
    }
}

/// Record one visit to `path` at time `now`.
pub fn apply_visit(store: &mut Vec<History>, path: Vec<u8>, now: u64)
    ensures
        store_view(final(store)@) == apply_visit_spec(store_view(old(store)@), path@, now as int),
{
    let ghost orig = store_view(old(store)@);
    let mut found = false;
    let mut i: usize = 0;
    while i < store.len()
        invariant
            i <= store@.len(),
            store@.len() == orig.len(),
            orig == store_view(old(store)@),
            found == has_path(orig.take(i as int), path@),
            forall|j: int|
                0 <= j < i ==> store@[j]@ == (if orig[j].path == path@ {
                    visited(orig[j], now as int)
                } else {
                    orig[j]
                }),
            forall|j: int| i <= j < store@.len() ==> store@[j] == old(store)@[j],
        decreases store@.len() - i,
    {
        assert(store@[i as int] == old(store)@[i as int]);
        if bytes_eq(&store[i].path, &path) {
            let r: u64 = store[i].rank;
            let nr: u64 = if r <= u64::MAX - RANK_SCALE {
                r + RANK_SCALE
            } else {
                u64::MAX
            };
            let p = copy_bytes(&store[i].path);
            store.set(i, History { path: p, rank: nr, time: now });
            found = true;
            assert(has_path(orig.take(i + 1), path@)) by {
                assert(orig.take(i + 1)[i as int] == orig[i as int]);
            }
        } else {
            assert(found == has_path(orig.take(i + 1), path@)) by {
                assert(forall|j: int|
                    0 <= j < i + 1 && orig.take(i + 1)[j].path == path@ ==> 0 <= j < i
                        && #[trigger] orig.take(i as int)[j].path == path@);
                assert(forall|j: int|
                    0 <= j < i && orig.take(i as int)[j].path == path@
                        ==> #[trigger] orig.take(i + 1)[j].path == path@);
            }
        }
        i = i + 1;
    }
    assert(orig.take(orig.len() as int) =~= orig);
    if !found {
        store.push(History { path, rank: RANK_SCALE, time: now });
        assert(store_view(store@) =~= visit_map(orig, path@, now as int).push(
            new_record(path@, now as int),
        ));
    } else {
        assert(store_view(store@) =~= visit_map(orig, path@, now as int));
    }
}

/// Record a batch of visits in order, skipping the home directory itself.
pub fn apply_visits(store: &mut Vec<History>, paths: &Vec<Vec<u8>>, home: &Vec<u8>, now: u64)
    ensures
        store_view(final(store)@) == apply_visits_spec(
            store_view(old(store)@),
            views_of(paths@),
            home@,
            now as int,
        ),
{
    let ghost pvs = views_of(paths@);
    let ghost orig = store_view(old(store)@);
    let mut k: usize = 0;
    assert(pvs.skip(0) =~= pvs);
    while k < paths.len()
        invariant
            k <= paths@.len(),
            pvs == views_of(paths@),
            apply_visits_spec(store_view(store@), pvs.skip(k as int), home@, now as int)
                == apply_visits_spec(orig, pvs, home@, now as int),
        decreases paths@.len() - k,
    {
        let ghost rest = pvs.skip(k as int);
        assert(rest[0] == paths@[k as int]@);
        assert(rest.drop_first() =~= pvs.skip(k + 1));
        if !bytes_eq(&paths[k], home) {
            let p = copy_bytes(&paths[k]);
            apply_visit(store, p, now);
        }
        k = k + 1;
    }
    assert(pvs.skip(paths@.len() as int) =~= Seq::<Seq<u8>>::empty());
}

/// Maintain the store: one decay pass when the ranks total more than the
/// threshold, then pruning of records below one rank unit.
pub fn maintain(store: &mut Vec<History>)
    ensures
        store_view(final(store)@) == maintain_spec(store_view(old(store)@)),
{
    let ghost orig = store_view(old(store)@);
    let mut total: u128 = 0;
    let mut i: usize = 0;
    while i < store.len()
        invariant
            i <= store@.len(),
            store@ == old(store)@,
            orig == store_view(old(store)@),
            total == total_rank(orig.take(i as int)),
            total <= i * (u64::MAX as int),
        decreases store@.len() - i,
    {
        proof {
            assert(orig.take(i + 1).drop_last() =~= orig.take(i as int));
            assert(orig.take(i + 1).last() == orig[i as int]);
            assert(orig[i as int] == store@[i as int]@);
        }
        total = total + store[i].rank as u128;
        i = i + 1;
    }
    assert(orig.take(orig.len() as int) =~= orig);
    let decay = total > DECAY_THRESHOLD as u128;
    if decay {
        let mut i: usize = 0;
        while i < store.len()
            invariant
                i <= store@.len(),
                store@.len() == orig.len(),
                orig == store_view(old(store)@),
                forall|j: int| 0 <= j < i ==> store@[j]@ == decayed(orig[j]),
                forall|j: int| i <= j < store@.len() ==> store@[j] == old(store)@[j],
            decreases store@.len() - i,
        {
            assert(store@[i as int] == old(store)@[i as int]);
            let r: u64 = store[i].rank;
            let big: u128 = (r as u128) * 99 / 100;
            assert((r as u128) * 99 / 100 <= r) by (nonlinear_arith);
            let nr: u64 = big as u64;
            let p = copy_bytes(&store[i].path);
            let t: u64 = store[i].time;
            store.set(i, History { path: p, rank: nr, time: t });
            i = i + 1;
        }
    }
    let ghost mid = if total_rank(orig) > DECAY_THRESHOLD {
        decay_all(orig)
    } else {
        orig
    };
    proof {
        if decay {
            assert(store_view(store@) =~= decay_all(orig));
        }
        assert(store_view(store@) == mid);
    }
    let mut out: Vec<History> = Vec::new();
    let mut i: usize = 0;
    while i < store.len()
        invariant
            i <= store@.len(),
            store_view(store@) == mid,
            store_view(out@) == prune(mid.take(i as int)),
        decreases store@.len() - i,
    {
        let ghost prev = store_view(out@);
        proof {
            assert(mid[i as int] == store@[i as int]@);
            lemma_prune_step(mid, i as int);
        }
        if store[i].rank >= RANK_SCALE {
            let h = store[i].duplicate();
            out.push(h);
            assert(store_view(out@) =~= prev.push(mid[i as int]));
        }
        i = i + 1;
    }
    assert(mid.take(mid.len() as int) =~= mid);
    *store = out;
}

/// Maintenance is idempotent once converged: when the maintained store's
/// ranks total no more than the decay threshold, maintaining it again
/// changes nothing.
pub proof fn lemma_maintain_idempotent(s: Seq<HistoryModel>)
    requires
        total_rank(maintain_spec(s)) <= DECAY_THRESHOLD,
    ensures
        maintain_spec(maintain_spec(s)) == maintain_spec(s),
{
    let t = maintain_spec(s);
    assert forall|i: int| 0 <= i < t.len() implies keep(t[i]) by {
        if total_rank(s) > DECAY_THRESHOLD {
            lemma_prune_kept(decay_all(s), i);
        } else {
            lemma_prune_kept(s, i);
        }
    }
    lemma_prune_identity(t);
}

} // verus!
