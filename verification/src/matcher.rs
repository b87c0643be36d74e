//! Ordered non-overlapping substring matching.
//!
//! A record's path satisfies a list of pattern fragments when, scanning the
//! lowercased path left to right with a cursor, every fragment in order is
//! found at or beyond the cursor, and the cursor then advances past the end
//! of that occurrence. Fragment order matters and occurrences may not
//! overlap. Fragments are taken as given; callers supply them already
//! lowercased. (The historical alternative, unordered containment of each
//! fragment, is deliberately not the semantics here.)

use vstd::prelude::*;
use crate::record::History;

verus! {

/// ASCII lowercasing of one byte.
pub open spec fn lower_byte(b: u8) -> u8 {
    if 65 <= b <= 90 {
        (b + 32) as u8
    } else {
        b
    }
}

/// ASCII lowercasing of a byte sequence.
pub open spec fn lower(s: Seq<u8>) -> Seq<u8> {
    s.map_values(|b: u8| lower_byte(b))
}

/// The pattern occurs in the haystack starting at position `i`.
pub open spec fn occurs_at(hay: Seq<u8>, pat: Seq<u8>, i: int) -> bool {
    0 <= i && i + pat.len() <= hay.len() && hay.subrange(i, i + pat.len()) == pat
}

/// `i` is the first occurrence of the pattern at or after the cursor.
pub open spec fn first_occurrence(hay: Seq<u8>, pat: Seq<u8>, cursor: int, i: int) -> bool {
    cursor <= i && occurs_at(hay, pat, i) && forall|j: int| cursor <= j < i ==> !occurs_at(
        hay,
        pat,
        j,
    )
}

/// The cursor scan of the matcher: each pattern in order is found at or
/// after the cursor, and the cursor advances past the occurrence found.
pub open spec fn matches_from(hay: Seq<u8>, pats: Seq<Seq<u8>>, cursor: int) -> bool
    decreases pats.len(),
{
    if pats.len() == 0 {
        true
    } else if exists|i: int| first_occurrence(hay, pats[0], cursor, i) {
        let i = choose|i: int| first_occurrence(hay, pats[0], cursor, i);
        matches_from(hay, pats.drop_first(), i + pats[0].len())
    } else {
        false
    }
}

/// A path matches a pattern list when the cursor scan of its lowercased
/// bytes succeeds from the start.
pub open spec fn path_matches(path: Seq<u8>, pats: Seq<Seq<u8>>) -> bool {
    matches_from(lower(path), pats, 0)
}

/// The byte sequences of a list of byte vectors.
pub open spec fn views_of(ps: Seq<Vec<u8>>) -> Seq<Seq<u8>> {
    ps.map_values(|p: Vec<u8>| p@)
}

/// A first occurrence at or after a given cursor is unique.
proof fn lemma_first_occurrence_unique(hay: Seq<u8>, pat: Seq<u8>, cursor: int, i: int, j: int)
    requires
        first_occurrence(hay, pat, cursor, i),
        first_occurrence(hay, pat, cursor, j),
    ensures
        i == j,
{
}

/// ASCII lowercasing of a byte vector.
pub fn to_lower(v: &Vec<u8>) -> (r: Vec<u8>)
    ensures
        r@ == lower(v@),
{
    let mut r: Vec<u8> = Vec::new();
    let mut i: usize = 0;
    while i < v.len()
        invariant
            i <= v.len(),
            r@ == lower(v@.take(i as int)),
        decreases v.len() - i,
    {
        let b: u8 = v[i];
        let lb: u8 = if 65 <= b && b <= 90 {
            b + 32
        } else {
            b
        };
        r.push(lb);
        assert(r@ =~= lower(v@.take(i + 1)));
        i = i + 1;
    }
    assert(v@.take(v.len() as int) =~= v@);
    r
}

/// Whether the pattern occurs in the haystack starting at `i`.
fn check_at(hay: &Vec<u8>, pat: &Vec<u8>, i: usize) -> (r: bool)
    requires
        i + pat.len() <= hay.len(),
    ensures
        r == occurs_at(hay@, pat@, i as int),
{
    let mut k: usize = 0;
    while k < pat.len()
        invariant
            k <= pat.len(),
            i + pat.len() <= hay.len(),
            forall|j: int| 0 <= j < k ==> hay@[i + j] == pat@[j],
        decreases pat.len() - k,
    {
        if hay[i + k] != pat[k] {
            assert(hay@.subrange(i as int, i + pat@.len()) != pat@) by {
                assert(hay@.subrange(i as int, i + pat@.len())[k as int] == hay@[i + k]);
            }
            return false;
        }
        k = k + 1;
    }
    assert(hay@.subrange(i as int, i + pat@.len()) =~= pat@);
    true
}

/// The first occurrence of the pattern at or after `from`, if any.
fn find_from(hay: &Vec<u8>, pat: &Vec<u8>, from: usize) -> (r: Option<usize>)
    ensures
        match r {
            Some(i) => first_occurrence(hay@, pat@, from as int, i as int),
            None => forall|i: int| from <= i ==> !occurs_at(hay@, pat@, i),
        },
{
    if pat.len() > hay.len() || from > hay.len() - pat.len() {
        assert(forall|i: int| from <= i ==> !occurs_at(hay@, pat@, i));
        return None;
    }
    if pat.len() == 0 {
        assert(hay@.subrange(from as int, from as int) =~= pat@);
        return Some(from);
    }
    let last: usize = hay.len() - pat.len();
    let mut i: usize = from;
    while i <= last
        invariant
            from <= i,
            last < usize::MAX,
            1 <= pat@.len(),
            pat@.len() + last == hay@.len(),
            forall|j: int| from <= j < i ==> !occurs_at(hay@, pat@, j),
        decreases last + 1 - i,
    {
        if check_at(hay, pat, i) {
            return Some(i);
        }
        i = i + 1;
    }
    assert(forall|j: int| from <= j ==> !occurs_at(hay@, pat@, j));
    None
}

impl History {
    /// Whether this record's path satisfies the pattern list, under the
    /// ordered non-overlapping semantics on the lowercased path.
    pub fn matches(&self, patterns: &Vec<Vec<u8>>) -> (r: bool)
        ensures
            r == path_matches(self@.path, views_of(patterns@)),
    {
        let ghost pats = views_of(patterns@);
        let hay = to_lower(&self.path);
        let mut cursor: usize = 0;
        let mut k: usize = 0;
        assert(pats.skip(0) =~= pats);
        while k < patterns.len()
            invariant
                k <= patterns.len(),
                pats == views_of(patterns@),
                hay@ == lower(self@.path),
                matches_from(hay@, pats, 0) == matches_from(hay@, pats.skip(k as int), cursor as int),
            decreases patterns.len() - k,
        {
            let ghost rest = pats.skip(k as int);
            assert(rest[0] == patterns@[k as int]@);
            match find_from(&hay, &patterns[k], cursor) {
                Some(i) => {
                    proof {
                        let w = choose|w: int| first_occurrence(hay@, rest[0], cursor as int, w);
                        lemma_first_occurrence_unique(hay@, rest[0], cursor as int, w, i as int);
                        assert(rest.drop_first() =~= pats.skip(k + 1));
                    }
                    let pl: usize = patterns[k].len();
                    assert(i + pl <= hay.len());
                    cursor = i + pl;
                    k = k + 1;
                },
                None => {
                    assert(!matches_from(hay@, rest, cursor as int));
                    return false;
                },
            }
        }
        assert(pats.skip(patterns.len() as int) =~= Seq::<Seq<u8>>::empty());
        true
    }
}

} // verus!
