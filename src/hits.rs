//! Visible-surface and shadow queries over the hit distances of a scene.
//!
//! Each object of a scene answers a ray with a distance along it. The queries
//! here read those distances only through their order, so each one is handed
//! over as a key: `None` where the object is missed (the distance is not a
//! finite positive number), and `Some(k)` otherwise, where the keys order as
//! the distances do. For finite positive IEEE-754 single-precision numbers the
//! bit pattern read as an unsigned integer is such a key.
use vstd::prelude::*;
use vstd::multiset::Multiset;
use vstd::seq_lib::{group_to_multiset_ensures, to_multiset_insert};

verus! {

/// Index `i` holds the nearest hit of `keys`: no hit is nearer, and every hit
/// before it is strictly farther, so that the first of equal hits wins.
pub open spec fn is_nearest(keys: Seq<Option<u32>>, i: int) -> bool {
    &&& 0 <= i < keys.len()
    &&& keys[i] is Some
    &&& forall|j: int| #![auto] 0 <= j < keys.len() && keys[j] is Some ==> keys[i]->0 <= keys[j]->0
    &&& forall|j: int| #![auto] 0 <= j < i && keys[j] is Some ==> keys[i]->0 < keys[j]->0
}

/// No key of `keys` records a hit.
pub open spec fn all_missed(keys: Seq<Option<u32>>) -> bool {
    forall|j: int| #![auto] 0 <= j < keys.len() ==> keys[j] is None
}

/// The keys of all hits of `keys`, counted with their multiplicity.
pub open spec fn hit_multiset(keys: Seq<Option<u32>>) -> Multiset<u32>
    decreases keys.len(),
{
    if keys.len() == 0 {
        Multiset::empty()
    } else {
        let rest = hit_multiset(keys.drop_last());
        match keys.last() {
            Some(k) => rest.insert(k),
            None => rest,
        }
    }
}

/// `s` is in ascending order.
pub open spec fn is_ascending(s: Seq<u32>) -> bool {
    forall|a: int, b: int| 0 <= a < b < s.len() ==> s[a] <= s[b]
}

/// Some hit of `keys` is strictly nearer than `limit`.
pub open spec fn blocks(keys: Seq<Option<u32>>, limit: u32) -> bool {
    exists|j: int| #![auto] 0 <= j < keys.len() && keys[j] is Some && keys[j]->0 < limit
}

/// At most one index holds the nearest hit.
pub proof fn lemma_nearest_unique(keys: Seq<Option<u32>>, i: int, j: int)
    requires
        is_nearest(keys, i),
        is_nearest(keys, j),
    ensures
        i == j,
{
    if i < j {
        assert(keys[j]->0 < keys[i]->0);
    } else if j < i {
        assert(keys[i]->0 < keys[j]->0);
    }
}

/// A key is among the hits exactly when some object reports it.
pub proof fn lemma_hit_multiset_contains(keys: Seq<Option<u32>>, k: u32)
    ensures
        hit_multiset(keys).contains(k) <==> exists|j: int|
            #![auto]
            0 <= j < keys.len() && keys[j] == Some(k),
    decreases keys.len(),
{
    if keys.len() > 0 {
        let init = keys.drop_last();
        lemma_hit_multiset_contains(init, k);
        if hit_multiset(keys).contains(k) {
            if keys.last() != Some(k) {
                let j = choose|j: int| #![auto] 0 <= j < init.len() && init[j] == Some(k);
                assert(keys[j] == Some(k));
            }
        } else {
            assert forall|j: int| #![auto] 0 <= j < keys.len() implies keys[j] != Some(k) by {
                if j < init.len() {
                    assert(init[j] == keys[j]);
                }
            }
        }
    }
}

/// A hit that lies farther than another hit along the same ray is never the
/// nearest one, wherever the two objects stand in the scene.
pub proof fn lemma_farther_hit_never_nearest(keys: Seq<Option<u32>>, a: int, b: int)
    requires
        0 <= a < keys.len(),
        0 <= b < keys.len(),
        keys[a] is Some,
        keys[b] is Some,
        keys[a]->0 < keys[b]->0,
    ensures
        !is_nearest(keys, b),
{
}

/// Of two objects hit along the same ray, the nearer one is selected, in
/// either order of insertion.
pub proof fn lemma_nearer_of_two_selected(d1: u32, d2: u32)
    requires
        d1 < d2,
    ensures
        is_nearest(seq![Some(d1), Some(d2)], 0),
        forall|i: int| is_nearest(seq![Some(d1), Some(d2)], i) ==> i == 0,
        is_nearest(seq![Some(d2), Some(d1)], 1),
        forall|i: int| is_nearest(seq![Some(d2), Some(d1)], i) ==> i == 1,
{
    let first = seq![Some(d1), Some(d2)];
    let second = seq![Some(d2), Some(d1)];
    assert(is_nearest(first, 0));
    assert(is_nearest(second, 1));
    assert forall|i: int| is_nearest(first, i) implies i == 0 by {
        lemma_nearest_unique(first, i, 0);
    }
    assert forall|i: int| is_nearest(second, i) implies i == 1 by {
        lemma_nearest_unique(second, i, 1);
    }
}

/// An object that a shadow ray hits strictly before it reaches the light
/// blocks that light.
pub proof fn lemma_occluder_blocks(keys: Seq<Option<u32>>, j: int, limit: u32)
    requires
        0 <= j < keys.len(),
        keys[j] is Some,
        keys[j]->0 < limit,
    ensures
        blocks(keys, limit),
{
}

/// Finds the object that a ray meets first: the index of the smallest hit key,
/// the first of them where several are equal, or `None` where every object is
/// missed.
pub fn nearest_hit(keys: &Vec<Option<u32>>) -> (r: Option<usize>)
    ensures
        r matches None ==> all_missed(keys@),
        r matches Some(i) ==> is_nearest(keys@, i as int),
        r matches Some(i) ==> forall|j: int| is_nearest(keys@, j) ==> j == i,
{
    let mut best: Option<usize> = None;
    let mut best_key: u32 = 0;
    let mut i: usize = 0;
    while i < keys.len()
        invariant
            i <= keys.len(),
            best matches None ==> forall|j: int| #![auto] 0 <= j < i ==> keys@[j] is None,
            best matches Some(b) ==> {
                &&& b < i
                &&& keys@[b as int] == Some(best_key)
                &&& forall|j: int| #![auto] 0 <= j < i && keys@[j] is Some ==> best_key <= keys@[j]->0
                &&& forall|j: int| #![auto] 0 <= j < b && keys@[j] is Some ==> best_key < keys@[j]->0
            },
        decreases keys.len() - i,
    {
        if let Some(k) = keys[i] {
            let nearer = match best {
                None => true,
                Some(_) => k < best_key,
            };
            if nearer {
                best = Some(i);
                best_key = k;
            }
        }
        i = i + 1;
    }
    proof {
        if let Some(b) = best {
            assert forall|j: int| is_nearest(keys@, j) implies j == b by {
                lemma_nearest_unique(keys@, j, b as int);
            }
        }
    }
    best
}

/// Collects the keys of every hit, in ascending order.
pub fn all_positive_intersections(keys: &Vec<Option<u32>>) -> (r: Vec<u32>)
    ensures
        is_ascending(r@),
        r@.to_multiset() == hit_multiset(keys@),
{
    broadcast use group_to_multiset_ensures;

    let mut sorted: Vec<u32> = Vec::new();
    let mut i: usize = 0;
    while i < keys.len()
        invariant
            i <= keys.len(),
            is_ascending(sorted@),
            sorted@.to_multiset() == hit_multiset(keys@.take(i as int)),
        decreases keys.len() - i,
    {
        let ghost seen = keys@.take(i + 1);
        assert(seen.drop_last() == keys@.take(i as int));
        assert(seen.last() == keys@[i as int]);
        if let Some(k) = keys[i] {
            let mut pos: usize = 0;
            while pos < sorted.len() && sorted[pos] <= k
                invariant
                    pos <= sorted.len(),
                    forall|a: int| 0 <= a < pos ==> sorted@[a] <= k,
                decreases sorted.len() - pos,
            {
                pos = pos + 1;
            }
            let ghost before = sorted@;
            sorted.insert(pos, k);
            proof {
                to_multiset_insert(before, pos as int, k);
            }
            assert(sorted@.to_multiset() == before.to_multiset().insert(k));
            assert(hit_multiset(seen) == hit_multiset(keys@.take(i as int)).insert(k));
            assert forall|a: int, b: int| 0 <= a < b < sorted@.len() implies sorted@[a]
                <= sorted@[b] by {
                if b < pos {
                } else if b == pos {
                } else if a < pos {
                    assert(sorted@[b] == before[b - 1]);
                } else if a == pos {
                    assert(sorted@[b] == before[b - 1]);
                    assert(before[pos as int] > k);
                } else {
                    assert(sorted@[a] == before[a - 1]);
                    assert(sorted@[b] == before[b - 1]);
                }
            }
        } else {
            assert(hit_multiset(seen) == hit_multiset(keys@.take(i as int)));
        }
        i = i + 1;
    }
    assert(keys@.take(keys.len() as int) == keys@);
    sorted
}

/// Whether a hit lies strictly nearer than `limit`: an opaque object between a
/// surface point and a light, `limit` being the key of the light's distance.
pub fn is_blocked(keys: &Vec<Option<u32>>, limit: u32) -> (r: bool)
    ensures
        r == blocks(keys@, limit),
{
    let hits = all_positive_intersections(keys);
    let mut blocked = false;
    let mut i: usize = 0;
    while !blocked && i < hits.len()
        invariant
            i <= hits.len(),
            !blocked ==> forall|a: int| 0 <= a < i ==> hits@[a] >= limit,
            blocked ==> exists|a: int| 0 <= a < hits.len() && hits@[a] < limit,
        decreases hits.len() - i,
    {
        if hits[i] < limit {
            blocked = true;
        }
        i = i + 1;
    }
    proof {
        broadcast use group_to_multiset_ensures;

        if blocked {
            let a = choose|a: int| 0 <= a < hits.len() && hits@[a] < limit;
            let k = hits@[a];
            assert(hits@.to_multiset().contains(k));
            lemma_hit_multiset_contains(keys@, k);
        } else {
            assert forall|j: int| #![auto]
                0 <= j < keys@.len() && keys@[j] is Some implies keys@[j]->0 >= limit by {
                let k = keys@[j]->0;
                lemma_hit_multiset_contains(keys@, k);
                assert(hits@.to_multiset().contains(k));
                assert(hits@.contains(k));
                let a = choose|a: int| 0 <= a < hits.len() && hits@[a] == k;
                assert(hits@[a] >= limit);
            }
        }
    }
    blocked
}

} // verus!
