//! Laws of the map abstraction that the container's operations maintain.
//!
//! The public operations state their effect on the abstract map `self@`:
//! `insert` yields `old(self)@.insert(key@, value)`, `remove` yields
//! `old(self)@.remove(key@)`, `append` yields
//! `old(self)@.union_prefer_right(old(other)@)`, `get` returns `self@[key@]`
//! exactly for the keys of `self@`, and `len` returns `self@.dom().len()`.
//! The proofs here state what follows for whole usage patterns: filling a
//! map, overwriting, removing and reinserting, and merging two maps.

use vstd::prelude::*;

verus! {

/// The abstract map obtained by inserting every pair in order, starting from
/// the empty map: the result of inserting `pairs[i].0` with value
/// `pairs[i].1` for each `i` into a freshly constructed container.
pub open spec fn inserted_all<V>(pairs: Seq<(Seq<u8>, V)>) -> Map<Seq<u8>, V>
    decreases pairs.len(),
{
    if pairs.len() == 0 {
        Map::empty()
    } else {
        inserted_all(pairs.drop_last()).insert(pairs.last().0, pairs.last().1)
    }
}

/// Round trip: after inserting any finite collection of pairs with pairwise
/// distinct keys into an empty container, every key is present and mapped to
/// its own value, the key count equals the number of pairs, and no key other
/// than the inserted ones is present.
pub proof fn law_round_trip<V>(pairs: Seq<(Seq<u8>, V)>)
    requires
        forall|i: int, t: int| 0 <= i < t < pairs.len() ==> pairs[i].0 != pairs[t].0,
    ensures
        inserted_all(pairs).dom().finite(),
        inserted_all(pairs).dom().len() == pairs.len(),
        forall|i: int| 0 <= i < pairs.len()
            ==> inserted_all(pairs).contains_key((#[trigger] pairs[i]).0)
                && inserted_all(pairs)[pairs[i].0] == pairs[i].1,
        forall|q: Seq<u8>| inserted_all(pairs).contains_key(q)
            ==> exists|i: int| 0 <= i < pairs.len() && (#[trigger] pairs[i]).0 == q,
    decreases pairs.len(),
{
    if pairs.len() == 0 {
        assert(inserted_all(pairs).dom() =~= Set::<Seq<u8>>::empty());
    } else {
        let rest = pairs.drop_last();
        let last = pairs.last();
        assert forall|i: int, t: int| 0 <= i < t < rest.len()
            implies rest[i].0 != rest[t].0 by {
            assert(rest[i] == pairs[i] && rest[t] == pairs[t]);
        }
        law_round_trip(rest);
        assert(!inserted_all(rest).contains_key(last.0)) by {
            if inserted_all(rest).contains_key(last.0) {
                let i = choose|i: int|
                    0 <= i < rest.len() && (#[trigger] rest[i]).0 == last.0;
                assert(pairs[i].0 == pairs[pairs.len() - 1].0);
            }
        }
        assert(inserted_all(pairs).dom()
            =~= inserted_all(rest).dom().insert(last.0));
        assert forall|i: int| 0 <= i < pairs.len()
            implies inserted_all(pairs).contains_key((#[trigger] pairs[i]).0)
                && inserted_all(pairs)[pairs[i].0] == pairs[i].1 by {
            if i < pairs.len() - 1 {
                assert(rest[i] == pairs[i]);
                assert(pairs[i].0 != last.0);
            }
        }
        assert forall|q: Seq<u8>| inserted_all(pairs).contains_key(q)
            implies exists|i: int| 0 <= i < pairs.len() && (#[trigger] pairs[i]).0 == q by {
            if q != last.0 {
                let i = choose|i: int|
                    0 <= i < rest.len() && (#[trigger] rest[i]).0 == q;
                assert(pairs[i].0 == q);
            } else {
                assert(pairs[pairs.len() - 1].0 == q);
            }
        }
    }
}

/// Overwrite: inserting the same key twice leaves the value of the second
/// insertion and the same keys as a single insertion of that key; in
/// particular the key count does not change against the single insertion.
pub proof fn law_overwrite<V>(m: Map<Seq<u8>, V>, key: Seq<u8>, v1: V, v2: V)
    ensures
        m.insert(key, v1).insert(key, v2) == m.insert(key, v2),
        m.insert(key, v1).insert(key, v2)[key] == v2,
        m.insert(key, v1).insert(key, v2).dom() == m.insert(key, v2).dom(),
{
    assert(m.insert(key, v1).insert(key, v2) =~= m.insert(key, v2));
}

/// Prefix independence: inserting a key makes no other key present; in
/// particular a strict prefix of a stored key, never itself inserted, stays
/// absent.
pub proof fn law_prefix_independent<V>(m: Map<Seq<u8>, V>, key: Seq<u8>, prefix: Seq<u8>, v: V)
    requires
        prefix.len() < key.len(),
        prefix == key.take(prefix.len() as int),
        !m.contains_key(prefix),
    ensures
        !m.insert(key, v).contains_key(prefix),
{
    assert(prefix != key);
}

/// Remove then reinsert: removing a present key detaches exactly its value,
/// drops the key count by one, and reinserting that value restores the map
/// as it was.
pub proof fn law_remove_reinsert<V>(m: Map<Seq<u8>, V>, key: Seq<u8>)
    requires
        m.dom().finite(),
        m.contains_key(key),
    ensures
        !m.remove(key).contains_key(key),
        m.remove(key).dom().len() == m.dom().len() - 1,
        m.remove(key).insert(key, m[key]) == m,
{
    assert(m.remove(key).dom() =~= m.dom().remove(key));
    assert(m.remove(key).insert(key, m[key]) =~= m);
}

/// Append of maps with disjoint key sets: after the merge every key of
/// either map is present with its original value, and the key count is the
/// sum of the two counts.
pub proof fn law_append_disjoint<V>(a: Map<Seq<u8>, V>, b: Map<Seq<u8>, V>)
    requires
        a.dom().finite(),
        b.dom().finite(),
        a.dom().disjoint(b.dom()),
    ensures
        forall|q: Seq<u8>| #[trigger] a.contains_key(q)
            ==> a.union_prefer_right(b).contains_key(q)
                && a.union_prefer_right(b)[q] == a[q],
        forall|q: Seq<u8>| #[trigger] b.contains_key(q)
            ==> a.union_prefer_right(b).contains_key(q)
                && a.union_prefer_right(b)[q] == b[q],
        a.union_prefer_right(b).dom().len() == a.dom().len() + b.dom().len(),
{
    assert(a.union_prefer_right(b).dom() =~= a.dom() + b.dom());
    vstd::set_lib::lemma_set_disjoint_lens(a.dom(), b.dom());
}

} // verus!
