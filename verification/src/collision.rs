//! The collision feed and the symmetric participant matcher.
//!
//! Each simulation tick the upstream collision source publishes discrete
//! signals, each naming two participant entity identifiers and whether the
//! contact started or ended. Consumers act on started contacts only.

use vstd::prelude::*;

verus! {

/// One discrete signal from the collision source: a contact between the two
/// named entities started or ended this tick.
#[derive(Clone, Copy, Debug, PartialEq, Eq, Structural)]
pub enum CollisionSignal {
    Started(u64, u64),
    Ended(u64, u64),
}

/// How one signal matches against two capability sets: a started contact
/// whose participants fall one in `lefts` and one in `rights` yields the
/// pair normalized as (left participant, right participant); when both
/// orderings apply, the raw ordering wins. Ended contacts never match.
pub open spec fn matched_pair(lefts: Seq<u64>, rights: Seq<u64>, sig: CollisionSignal) -> Option<(u64, u64)> {
    match sig {
        CollisionSignal::Started(x, y) => {
            if lefts.contains(x) && rights.contains(y) {
                Some((x, y))
            } else if lefts.contains(y) && rights.contains(x) {
                Some((y, x))
            } else {
                None
            }
        },
        CollisionSignal::Ended(_, _) => None,
    }
}

/// All normalized pairs of one tick's signals, in signal order.
pub open spec fn matching_pairs(sigs: Seq<CollisionSignal>, lefts: Seq<u64>, rights: Seq<u64>) -> Seq<(u64, u64)>
    decreases sigs.len(),
{
    if sigs.len() == 0 {
        Seq::empty()
    } else {
        let rest = matching_pairs(sigs.drop_last(), lefts, rights);
        match matched_pair(lefts, rights, sigs.last()) {
            Some(p) => rest.push(p),
            None => rest,
        }
    }
}

/// A signal that matches lands its normalized pair in the tick's output.
pub proof fn lemma_matching_pairs_contains(sigs: Seq<CollisionSignal>, lefts: Seq<u64>, rights: Seq<u64>, k: int)
    requires
        0 <= k < sigs.len(),
        matched_pair(lefts, rights, sigs[k]) is Some,
    ensures
        matching_pairs(sigs, lefts, rights).contains(matched_pair(lefts, rights, sigs[k])->Some_0),
    decreases sigs.len(),
{
    let out = matching_pairs(sigs, lefts, rights);
    let p = matched_pair(lefts, rights, sigs[k])->Some_0;
    if k == sigs.len() - 1 {
        assert(out[out.len() - 1] == p);
    } else {
        assert(sigs.drop_last()[k] == sigs[k]);
        lemma_matching_pairs_contains(sigs.drop_last(), lefts, rights, k);
        let rest = matching_pairs(sigs.drop_last(), lefts, rights);
        let m = choose|m: int| 0 <= m < rest.len() && rest[m] == p;
        assert(out[m] == p);
    }
}

/// Whether `ids` holds `x`.
pub fn contains_id(ids: &Vec<u64>, x: u64) -> (r: bool)
    ensures
        r == ids@.contains(x),
{
    let mut i: usize = 0;
    while i < ids.len()
        invariant
            0 <= i <= ids@.len(),
            forall|j: int| 0 <= j < i ==> ids@[j] != x,
        decreases ids@.len() - i,
    {
        if ids[i] == x {
            return true;
        }
        i = i + 1;
    }
    false
}

/// Scans one tick's signals for started contacts whose participants fall one
/// in `lefts` and one in `rights`, in either raw ordering, and hands back the
/// normalized (left, right) pairs in signal order.
pub fn find_matching_collisions(collisions: &Vec<CollisionSignal>, lefts: &Vec<u64>, rights: &Vec<u64>) -> (pairs: Vec<(u64, u64)>)
    ensures
        pairs@ == matching_pairs(collisions@, lefts@, rights@),
{
    let mut pairs: Vec<(u64, u64)> = Vec::new();
    let mut i: usize = 0;
    while i < collisions.len()
        invariant
            0 <= i <= collisions@.len(),
            pairs@ == matching_pairs(collisions@.take(i as int), lefts@, rights@),
        decreases collisions@.len() - i,
    {
        let sig = collisions[i];
        match sig {
            CollisionSignal::Started(x, y) => {
                if contains_id(lefts, x) && contains_id(rights, y) {
                    pairs.push((x, y));
                } else if contains_id(lefts, y) && contains_id(rights, x) {
                    pairs.push((y, x));
                }
            },
            CollisionSignal::Ended(_, _) => {},
        }
        proof {
            assert(collisions@.take(i + 1).drop_last() =~= collisions@.take(i as int));
            assert(collisions@.take(i + 1).last() == collisions@[i as int]);
        }
        i = i + 1;
    }
    proof {
        assert(collisions@.take(collisions@.len() as int) =~= collisions@);
    }
    pairs
}

} // verus!
