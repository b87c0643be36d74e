//! The visit record: the one persisted entity, a `(path, rank, time)` triple.
//!
//! `rank` is a non-negative accumulator of visits. It is held in fixed-point
//! form, in hundredths of a visit, so that the decay factor of ninety-nine
//! hundredths and the persisted decimal form are both exact integer
//! operations: a rank of one visit is `RANK_SCALE`.

use vstd::prelude::*;

verus! {

/// One rank unit (a single visit) in fixed-point hundredths.
pub const RANK_SCALE: u64 = 100;

/// A tracked directory: its path as raw bytes, its accumulated rank in
/// hundredths, and the Unix time (seconds) of its most recent visit.
pub struct History {
    pub path: Vec<u8>,
    pub rank: u64,
    pub time: u64,
}

/// The mathematical shape of a record: the path as a byte sequence and the
/// two counters as unbounded integers.
pub ghost struct HistoryModel {
    pub path: Seq<u8>,
    pub rank: int,
    pub time: int,
}

impl View for History {
    type V = HistoryModel;

    open spec fn view(&self) -> HistoryModel {
        HistoryModel { path: self.path@, rank: self.rank as int, time: self.time as int }
    }
}

/// The model of a whole store: the records in their stored order.
pub open spec fn store_view(s: Seq<History>) -> Seq<HistoryModel> {
    s.map_values(|h: History| h@)
}

impl History {
    /// An owned copy of the record, equal to it in the model.
    pub fn duplicate(&self) -> (r: History)
        ensures
            r@ == self@,
    {
        History { path: copy_bytes(&self.path), rank: self.rank, time: self.time }
    }
}

/// An owned copy of a byte vector.
pub fn copy_bytes(v: &Vec<u8>) -> (r: Vec<u8>)
    ensures
        r@ == v@,
{
    let mut r: Vec<u8> = Vec::new();
    let mut i: usize = 0;
    while i < v.len()
        invariant
            i <= v.len(),
            r@ == v@.take(i as int),
        decreases v.len() - i,
    {
        r.push(v[i]);
        assert(r@ =~= v@.take(i + 1));
        i = i + 1;
    }
    assert(r@ =~= v@);
    r
}

/// Whether two byte vectors hold the same bytes.
pub fn bytes_eq(a: &Vec<u8>, b: &Vec<u8>) -> (r: bool)
    ensures
        r == (a@ == b@),
{
    if a.len() != b.len() {
        assert(a@ != b@) by {
            assert(a@.len() != b@.len());
        }
        return false;
    }
    let mut i: usize = 0;
    while i < a.len()
        invariant
            i <= a.len(),
            a@.len() == b@.len(),
            forall|j: int| 0 <= j < i ==> a@[j] == b@[j],
        decreases a.len() - i,
    {
        if a[i] != b[i] {
            return false;
        }
        i = i + 1;
    }
    assert(a@ =~= b@);
    true
}

} // verus!
