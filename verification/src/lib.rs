//! An ordered map keyed by byte sequences, implemented as a multiway trie
//! whose nodes live in a single growable arena and refer to one another by
//! stable integer indices.  Each node keeps its children as a pair of
//! parallel vectors sorted by key unit, so descent is a binary search per
//! level.  Values are stored behind shared `Rc` handles, so `get` returns a
//! cheap aliasing view without copying the payload.

use std::rc::Rc;
use vstd::prelude::*;

pub mod laws;

verus! {

/// One trie node: a back-reference to its parent (`None` for nodes directly
/// under the root), the sorted branching table (`keys` paired with `links`,
/// which are arena indices), and the value stored when some key terminates
/// exactly here.
struct Node<V: Clone> {
    parent: Option<usize>,
    keys: Vec<u8>,
    links: Vec<usize>,
    value: Option<Rc<V>>,
}

impl<V: Clone> Node<V> {
    fn new(parent: Option<usize>, value: Option<Rc<V>>) -> (r: Node<V>)
        ensures
            r.parent == parent,
            r.value == value,
            r.keys@ =~= Seq::<u8>::empty(),
            r.links@ =~= Seq::<usize>::empty(),
    {
        Node { parent, keys: Vec::new(), links: Vec::new(), value }
    }
}

/// A sequence is strictly increasing; a node's branching table is kept in
/// this shape at all times, so each key unit occurs at most once.
spec fn sorted_strict(s: Seq<u8>) -> bool {
    forall|i: int, j: int| 0 <= i < j < s.len() ==> s[i] < s[j]
}

/// Some slot of the table `keys`/`links` maps key unit `k` to arena index `j`.
spec fn has_entry(keys: Seq<u8>, links: Seq<usize>, k: u8, j: int) -> bool {
    exists|i: int| 0 <= i < keys.len() && i < links.len() && keys[i] == k && links[i] as int == j
}

/// The table lists key unit `k` in some slot.
spec fn table_has(keys: Seq<u8>, k: u8) -> bool {
    exists|i: int| 0 <= i < keys.len() && keys[i] == k
}

/// The value a shared handle wraps, as seen by the specifications.
spec fn rc_value<V>(rc: &Rc<V>) -> V {
    **rc
}

/// Relies on std::rc::Rc::clone: the returned handle shares the same
/// underlying value as the argument.
#[verifier::external_body]
fn rc_clone<V>(rc: &Rc<V>) -> (r: Rc<V>)
    ensures
        r == *rc,
{
    Rc::clone(rc)
}

/// An ordered map from non-empty byte sequences to values of type `V`.
///
/// `keys`/`links` form the root-level branching table (the conceptual root
/// node's children, kept outside the arena to avoid a sentinel node), `data`
/// is the arena owning every other node, and `length` counts the keys
/// currently mapped to a value.
///
/// The abstract content is the map `self@` from keys to values; `paths`
/// records, for every live arena index, the key sequence that reaches it.
pub struct TrieMap<V: Clone> {
    keys: Vec<u8>,
    links: Vec<usize>,
    data: Vec<Node<V>>,
    length: usize,
    paths: Ghost<Map<int, Seq<u8>>>,
    model: Ghost<Map<Seq<u8>, V>>,
}

impl<V: Clone> View for TrieMap<V> {
    type V = Map<Seq<u8>, V>;

    closed spec fn view(&self) -> Map<Seq<u8>, V> {
        self.model@
    }
}

impl<V: Clone> TrieMap<V> {
    /// Arena index `j` is live: it denotes a node reachable from the root.
    spec fn live(self, j: int) -> bool {
        self.paths@.dom().contains(j)
    }

    /// The key sequence consumed to reach the node at live index `j`.
    spec fn path_of(self, j: int) -> Seq<u8> {
        self.paths@[j]
    }

    /// Slot `i` of the table `keys`/`links` leads to a live node whose path
    /// extends `base` by the slot's key unit.
    spec fn entry_ok(self, keys: Seq<u8>, links: Seq<usize>, base: Seq<u8>, i: int) -> bool {
        &&& self.live(links[i] as int)
        &&& self.path_of(links[i] as int) == base.push(keys[i])
    }

    /// A whole branching table is well formed under prefix `base`.
    spec fn table_ok(self, keys: Seq<u8>, links: Seq<usize>, base: Seq<u8>) -> bool {
        &&& keys.len() == links.len()
        &&& sorted_strict(keys)
        &&& forall|i: int| 0 <= i < keys.len() ==> #[trigger] self.entry_ok(keys, links, base, i)
    }

    /// The node at live index `j` sits inside the arena, is reached by a
    /// non-empty path, and its own branching table is well formed.
    spec fn node_ok(self, j: int) -> bool {
        &&& 0 <= j < self.data@.len()
        &&& self.path_of(j).len() >= 1
        &&& self.table_ok(self.data@[j].keys@, self.data@[j].links@, self.path_of(j))
    }

    /// The node at live index `j` is linked from above: a depth-one node is
    /// parentless and listed in the root table, a deeper node records its
    /// parent, which is the node one prefix step up and lists it in turn.
    spec fn parent_ok(self, j: int) -> bool {
        let pj = self.path_of(j);
        if pj.len() <= 1 {
            &&& self.data@[j].parent is None
            &&& has_entry(self.keys@, self.links@, pj[0], j)
        } else {
            &&& self.data@[j].parent is Some
            &&& {
                let p = self.data@[j].parent.unwrap() as int;
                &&& self.live(p)
                &&& self.path_of(p) == pj.drop_last()
                &&& has_entry(self.data@[p].keys@, self.data@[p].links@, pj.last(), j)
            }
        }
    }

    /// The abstract map agrees with the arena: every live node holding a
    /// value contributes its path as a key, and every key is so contributed.
    spec fn model_ok(self) -> bool {
        &&& forall|j: int| #[trigger] self.live(j) && self.data@[j].value is Some
            ==> self.model@.dom().contains(self.path_of(j))
                && self.model@[self.path_of(j)] == self.data@[j].value.unwrap()
        &&& forall|q: Seq<u8>| #[trigger] self.model@.dom().contains(q)
            ==> exists|j: int| #[trigger] self.live(j) && self.path_of(j) == q
                && self.data@[j].value is Some
    }

    /// Internal consistency of the whole structure.  Constructors establish
    /// it and every public operation preserves it.
    pub closed spec fn wf(self) -> bool {
        &&& self.table_ok(self.keys@, self.links@, Seq::<u8>::empty())
        &&& forall|j: int| self.live(j) ==> #[trigger] self.node_ok(j)
        &&& forall|j1: int, j2: int|
            self.live(j1) && self.live(j2) && self.path_of(j1) == self.path_of(j2) ==> j1 == j2
        &&& forall|j: int| self.live(j) ==> #[trigger] self.parent_ok(j)
        &&& forall|j: int|
            0 <= j < self.data@.len() && !self.live(j)
                ==> (#[trigger] self.data@[j]).value is None
        &&& self.model_ok()
        &&& self.model@.dom().finite()
        &&& self.length == self.model@.dom().len()
    }

    /// Constructs an empty map.
    pub fn new_empty() -> (r: TrieMap<V>)
        ensures
            r.wf(),
            r@ == Map::<Seq<u8>, V>::empty(),
    {
        let r = TrieMap {
            keys: Vec::new(),
            links: Vec::new(),
            data: Vec::new(),
            length: 0,
            paths: Ghost(Map::empty()),
            model: Ghost(Map::empty()),
        };
        proof {
            assert(r.model@.dom() =~= Set::<Seq<u8>>::empty());
        }
        r
    }

    /// Walking parent references upward from a live node passes through a
    /// live node for every non-empty prefix of its path.
    proof fn lemma_prefix_live(self, j: int, len: int)
        requires
            self.wf(),
            self.live(j),
            1 <= len <= self.path_of(j).len(),
        ensures
            exists|m: int| #[trigger] self.live(m) && self.path_of(m) == self.path_of(j).take(len),
        decreases self.path_of(j).len(),
    {
        if len == self.path_of(j).len() {
            assert(self.path_of(j).take(len) =~= self.path_of(j));
            assert(self.live(j) && self.path_of(j) == self.path_of(j).take(len));
        } else {
            assert(self.parent_ok(j));
            let p = self.data@[j].parent.unwrap() as int;
            assert(self.path_of(p) == self.path_of(j).drop_last());
            assert(self.path_of(p).take(len) =~= self.path_of(j).take(len));
            self.lemma_prefix_live(p, len);
            let m = choose|m: int|
                #[trigger] self.live(m) && self.path_of(m) == self.path_of(p).take(len);
            assert(self.live(m) && self.path_of(m) == self.path_of(j).take(len));
        }
    }

    /// Empty-key no-op: the empty sequence is never a key of the abstract
    /// map, so `get` and `remove` on it return `None`, and `insert` with it
    /// leaves the map — and therefore `len()` — unchanged (the latter is
    /// stated directly in `insert`'s contract).
    pub proof fn law_empty_key_absent(self)
        requires
            self.wf(),
        ensures
            forall|q: Seq<u8>| q.len() == 0 ==> !self@.contains_key(q),
    {
        assert forall|q: Seq<u8>| q.len() == 0 implies !self@.contains_key(q) by {
            if self@.contains_key(q) {
                assert(self.model@.dom().contains(q));
                let j = choose|j: int|
                    #[trigger] self.live(j) && self.path_of(j) == q
                        && self.data@[j].value is Some;
                assert(self.node_ok(j));
            }
        }
    }

    /// A key whose first unit is missing from the root table is absent.
    proof fn lemma_absent_root(self, key: Seq<u8>)
        requires
            self.wf(),
            key.len() >= 1,
            !table_has(self.keys@, key[0]),
        ensures
            !self@.contains_key(key),
    {
        if self@.contains_key(key) {
            assert(self.model@.dom().contains(key));
            let j = choose|j: int|
                #[trigger] self.live(j) && self.path_of(j) == key && self.data@[j].value is Some;
            self.lemma_prefix_live(j, 1);
            let m = choose|m: int|
                #[trigger] self.live(m) && self.path_of(m) == self.path_of(j).take(1);
            assert(self.parent_ok(m));
            assert(self.path_of(m)[0] == key[0]);
            let i = choose|i: int|
                0 <= i < self.keys@.len() && i < self.links@.len() && self.keys@[i] == key[0]
                    && self.links@[i] as int == m;
            assert(table_has(self.keys@, key[0]));
        }
    }

    /// A key is absent when the descent reaches the node for its first `pos`
    /// units and that node's table lacks the next unit.
    proof fn lemma_absent_at(self, key: Seq<u8>, pos: int, n: int)
        requires
            self.wf(),
            1 <= pos < key.len(),
            self.live(n),
            self.path_of(n) == key.take(pos),
            !table_has(self.data@[n].keys@, key[pos]),
        ensures
            !self@.contains_key(key),
    {
        if self@.contains_key(key) {
            assert(self.model@.dom().contains(key));
            let j = choose|j: int|
                #[trigger] self.live(j) && self.path_of(j) == key && self.data@[j].value is Some;
            self.lemma_prefix_live(j, pos + 1);
            let m = choose|m: int|
                #[trigger] self.live(m) && self.path_of(m) == self.path_of(j).take(pos + 1);
            assert(self.parent_ok(m));
            assert(self.path_of(m).len() == pos + 1);
            let p = self.data@[m].parent.unwrap() as int;
            assert(self.path_of(p) == self.path_of(m).drop_last());
            assert(key.take(pos + 1).drop_last() =~= key.take(pos));
            assert(p == n);
            assert(self.path_of(m).last() == key[pos]);
            let i = choose|i: int|
                0 <= i < self.data@[n].keys@.len() && i < self.data@[n].links@.len()
                    && self.data@[n].keys@[i] == key[pos] && self.data@[n].links@[i] as int == m;
            assert(table_has(self.data@[n].keys@, key[pos]));
        }
    }

    /// Exact-match lookup.  Returns a shared handle to the value stored for
    /// `key`, and `None` when `key` is empty, when no path spells the full
    /// sequence, or when the node it reaches holds no value.
    pub fn get(&self, key: &[u8]) -> (r: Option<Rc<V>>)
        requires
            self.wf(),
        ensures
            match r {
                Some(v) => self@.contains_key(key@) && v == self@[key@],
                None => !self@.contains_key(key@),
            },
    {
        if key.len() == 0 {
            proof {
                self.law_empty_key_absent();
            }
            return None;
        }
        let mut n: usize;
        match find_slot(&self.keys, key[0]) {
            Ok(i) => {
                n = self.links[i];
                proof {
                    assert(self.entry_ok(self.keys@, self.links@, Seq::<u8>::empty(), i as int));
                    assert(self.path_of(n as int) =~= key@.take(1));
                    assert(self.node_ok(n as int));
                }
            },
            Err(_) => {
                proof {
                    self.lemma_absent_root(key@);
                }
                return None;
            },
        }
        let mut pos: usize = 1;
        while pos < key.len()
            invariant
                self.wf(),
                1 <= pos <= key@.len(),
                n < self.data@.len(),
                self.live(n as int),
                self.path_of(n as int) == key@.take(pos as int),
            decreases key@.len() - pos,
        {
            let k = key[pos];
            proof {
                assert(self.node_ok(n as int));
            }
            match find_slot(&self.data[n].keys, k) {
                Ok(i) => {
                    let nn = self.data[n].links[i];
                    proof {
                        assert(self.entry_ok(
                            self.data@[n as int].keys@,
                            self.data@[n as int].links@,
                            self.path_of(n as int),
                            i as int,
                        ));
                        assert(self.path_of(nn as int) =~= key@.take(pos + 1));
                        assert(self.node_ok(nn as int));
                    }
                    n = nn;
                },
                Err(_) => {
                    proof {
                        self.lemma_absent_at(key@, pos as int, n as int);
                    }
                    return None;
                },
            }
            pos += 1;
        }
        proof {
            assert(self.path_of(n as int) =~= key@);
        }
        match &self.data[n].value {
            Some(rc) => {
                proof {
                    assert(self.live(n as int));
                }
                Some(rc_clone(rc))
            },
            None => {
                proof {
                    if self@.contains_key(key@) {
                        assert(self.model@.dom().contains(key@));
                        let j = choose|j: int|
                            #[trigger] self.live(j) && self.path_of(j) == key@
                                && self.data@[j].value is Some;
                        assert(j == n as int);
                    }
                }
                None
            },
        }
    }

    /// The abstract map has fewer keys than the arena has slots whenever some
    /// live node holds no value: keys inject into the value-holding nodes.
    proof fn lemma_len_bound(self, n: int)
        requires
            self.wf(),
            self.live(n),
            self.data@[n].value is None,
        ensures
            self.model@.dom().len() < self.data@.len(),
    {
        let dom = self.model@.dom();
        let f = |q: Seq<u8>| choose|j: int|
            self.live(j) && self.path_of(j) == q && self.data@[j].value is Some;
        assert forall|q: Seq<u8>| #[trigger] dom.contains(q) implies self.live(f(q))
            && self.path_of(f(q)) == q && self.data@[f(q)].value is Some by {
            assert(self.model@.dom().contains(q));
            let j0 = choose|j: int|
                #[trigger] self.live(j) && self.path_of(j) == q && self.data@[j].value is Some;
            assert(self.live(j0) && self.path_of(j0) == q && self.data@[j0].value is Some);
            assert(exists|j: int|
                self.live(j) && self.path_of(j) == q && self.data@[j].value is Some);
        }
        assert(vstd::relations::injective_on(f, dom));
        let rng = dom.map(f);
        vstd::set_lib::lemma_map_size(dom, rng, f);
        let len = self.data@.len() as int;
        let bound = vstd::set_lib::set_int_range(0, len).remove(n);
        vstd::set_lib::lemma_int_range(0, len);
        assert forall|b: int| #[trigger] rng.contains(b) implies bound.contains(b) by {
            let a = choose|a: Seq<u8>| dom.contains(a) && b == f(a);
            assert(self.node_ok(f(a)));
            assert(b != n);
        }
        assert(rng.subset_of(bound));
        vstd::set_lib::lemma_len_subset(rng, bound);
        assert(vstd::set_lib::set_int_range(0, len).contains(n)) by {
            assert(self.node_ok(n));
        }
        assert(bound.len() == len - 1);
    }

    /// The state `s` extends `self` by one fresh node at index `m`: every
    /// node live in `self` is untouched, and `m` is a valueless, childless
    /// node whose path extends `base` by unit `k`.
    spec fn grown_by(self, s: Self, m: int, base: Seq<u8>, k: u8) -> bool {
        &&& m == self.data@.len()
        &&& s.data@.len() == self.data@.len() + 1
        &&& s.data@[m].keys@.len() == 0
        &&& s.data@[m].links@.len() == 0
        &&& s.data@[m].value is None
        &&& s.paths@ == self.paths@.insert(m, base.push(k))
        &&& s.model@ == self.model@
        &&& s.length == self.length
    }

    /// In a grown state, the old live nodes are still live with unchanged
    /// paths, and the fresh node is live at the new path.
    proof fn lemma_grown_frame(self, s: Self, m: int, base: Seq<u8>, k: u8)
        requires
            self.wf(),
            self.grown_by(s, m, base, k),
        ensures
            forall|j: int| #[trigger] self.live(j)
                ==> j < m && s.live(j) && s.path_of(j) == self.path_of(j),
            forall|j: int| #[trigger] s.live(j) ==> j == m || self.live(j),
            s.live(m),
            s.path_of(m) == base.push(k),
    {
        assert forall|j: int| #[trigger] self.live(j) implies j < m && s.live(j)
            && s.path_of(j) == self.path_of(j) by {
            assert(self.node_ok(j));
        }
    }

    /// A table untouched by a step stays well formed when the step keeps
    /// every old live node live at its old path.
    proof fn lemma_table_carried(self, s: Self, keys: Seq<u8>, links: Seq<usize>, base: Seq<u8>)
        requires
            self.table_ok(keys, links, base),
            forall|j: int| #[trigger] self.live(j) ==> s.live(j) && s.path_of(j) == self.path_of(j),
        ensures
            s.table_ok(keys, links, base),
    {
        assert forall|t: int| 0 <= t < keys.len() implies
            #[trigger] s.entry_ok(keys, links, base, t) by {
            assert(self.entry_ok(keys, links, base, t));
            assert(self.live(links[t] as int));
        }
    }

    /// A table into which the step inserted one slot for the fresh node is
    /// well formed in the new state.
    proof fn lemma_table_grown(
        self,
        s: Self,
        keys: Seq<u8>,
        links: Seq<usize>,
        base: Seq<u8>,
        i: int,
        k: u8,
        m: int,
    )
        requires
            self.table_ok(keys, links, base),
            0 <= i <= keys.len(),
            forall|t: int| 0 <= t < i ==> keys[t] < k,
            forall|t: int| i <= t < keys.len() ==> keys[t] > k,
            forall|j: int| #[trigger] self.live(j) ==> s.live(j) && s.path_of(j) == self.path_of(j),
            s.live(m),
            s.path_of(m) == base.push(k),
            0 <= m <= usize::MAX,
        ensures
            s.table_ok(keys.insert(i, k), links.insert(i, m as usize), base),
    {
        keys.insert_ensures(i, k);
        links.insert_ensures(i, m as usize);
        lemma_sorted_insert(keys, i, k);
        let keys2 = keys.insert(i, k);
        let links2 = links.insert(i, m as usize);
        assert forall|t: int| 0 <= t < keys2.len() implies
            #[trigger] s.entry_ok(keys2, links2, base, t) by {
            if t < i {
                assert(self.entry_ok(keys, links, base, t));
                assert(self.live(links[t] as int));
                assert(keys2[t] == keys[t] && links2[t] == links[t]);
            } else if t == i {
                assert(keys2[t] == k && links2[t] == m as usize);
            } else {
                assert(self.entry_ok(keys, links, base, t - 1));
                assert(self.live(links[t - 1] as int));
                assert(keys2[t] == keys[t - 1] && links2[t] == links[t - 1]);
            }
        }
    }

    /// No live node is reached by the path `base` extended with `k` when the
    /// table that would have to list such a node has no slot for unit `k`.
    proof fn lemma_fresh_path_new(self, base: Seq<u8>, k: u8, a: int)
        requires
            self.wf(),
            base.len() == 0 ==> !table_has(self.keys@, k),
            base.len() >= 1 ==> exists|n: int| #[trigger] self.live(n)
                && self.path_of(n) == base && !table_has(self.data@[n].keys@, k),
        ensures
            !(self.live(a) && self.path_of(a) == base.push(k)),
    {
        if self.live(a) && self.path_of(a) == base.push(k) {
            assert(self.parent_ok(a));
            assert(self.path_of(a).last() == k);
            if base.len() == 0 {
                assert(self.path_of(a).len() == 1);
                assert(self.path_of(a)[0] == k);
                let t = choose|t: int|
                    0 <= t < self.keys@.len() && t < self.links@.len()
                        && self.keys@[t] == self.path_of(a)[0] && self.links@[t] as int == a;
                assert(table_has(self.keys@, k));
            } else {
                let n = choose|n: int|
                    #[trigger] self.live(n) && self.path_of(n) == base
                        && !table_has(self.data@[n].keys@, k);
                assert(self.path_of(a).len() >= 2);
                assert(self.path_of(a).drop_last() =~= base);
                let p = self.data@[a].parent.unwrap() as int;
                assert(self.live(p) && self.path_of(p) == base);
                assert(p == n);
                let t = choose|t: int|
                    0 <= t < self.data@[p].keys@.len() && t < self.data@[p].links@.len()
                        && self.data@[p].keys@[t] == self.path_of(a).last()
                        && self.data@[p].links@[t] as int == a;
                assert(table_has(self.data@[n].keys@, k));
            }
        }
    }

    /// Paths stay injective across a growth step whose fresh path was absent.
    proof fn lemma_grown_injective(self, s: Self, m: int, base: Seq<u8>, k: u8)
        requires
            self.wf(),
            self.grown_by(s, m, base, k),
            base.len() == 0 ==> !table_has(self.keys@, k),
            base.len() >= 1 ==> exists|n: int| #[trigger] self.live(n)
                && self.path_of(n) == base && !table_has(self.data@[n].keys@, k),
        ensures
            forall|j1: int, j2: int|
                s.live(j1) && s.live(j2) && s.path_of(j1) == s.path_of(j2) ==> j1 == j2,
    {
        self.lemma_grown_frame(s, m, base, k);
        assert forall|j1: int, j2: int|
            s.live(j1) && s.live(j2) && s.path_of(j1) == s.path_of(j2) implies j1 == j2 by {
            if j1 != j2 {
                let a = if j1 == m { j2 } else { j1 };
                let b = if j1 == m { j1 } else { j2 };
                if b == m {
                    assert(self.live(a));
                    assert(self.path_of(a) == base.push(k));
                    self.lemma_fresh_path_new(base, k, a);
                }
            }
        }
    }

    /// The abstract map is untouched by a growth step: the fresh node holds
    /// no value, and every old key keeps its witness.
    proof fn lemma_grown_model(self, s: Self, m: int, base: Seq<u8>, k: u8)
        requires
            self.wf(),
            self.grown_by(s, m, base, k),
            forall|j: int| #[trigger] self.live(j) && j != m
                ==> s.data@[j].value == self.data@[j].value,
        ensures
            s.model_ok(),
    {
        self.lemma_grown_frame(s, m, base, k);
        assert forall|j: int| #[trigger] s.live(j) && s.data@[j].value is Some
            implies s.model@.dom().contains(s.path_of(j))
                && s.model@[s.path_of(j)] == s.data@[j].value.unwrap() by {
            assert(j != m);
            assert(self.live(j) && self.data@[j].value is Some);
        }
        assert forall|q: Seq<u8>| #[trigger] s.model@.dom().contains(q)
            implies exists|j: int| #[trigger] s.live(j) && s.path_of(j) == q
                && s.data@[j].value is Some by {
            assert(self.model@.dom().contains(q));
            let j0 = choose|j: int|
                #[trigger] self.live(j) && self.path_of(j) == q
                    && self.data@[j].value is Some;
            assert(s.live(j0) && s.path_of(j0) == q && s.data@[j0].value is Some);
        }
    }

    /// Creates a fresh valueless node as a new child of the root, wiring it
    /// into the root table at the given miss position.
    fn add_root_child(&mut self, i: usize, k: u8) -> (m: usize)
        requires
            old(self).wf(),
            i <= old(self).keys@.len(),
            forall|t: int| 0 <= t < i ==> old(self).keys@[t] < k,
            forall|t: int| i <= t < old(self).keys@.len() ==> old(self).keys@[t] > k,
        ensures
            final(self).wf(),
            final(self).model@ == old(self).model@,
            final(self).live(m as int),
            final(self).path_of(m as int) == seq![k],
    {
        let m = self.data.len();
        self.data.push(Node::new(None, None));
        self.keys.insert(i, k);
        self.links.insert(i, m);
        proof {
            let o = *old(self);
            let base = Seq::<u8>::empty();
            self.paths@ = o.paths@.insert(m as int, base.push(k));
            assert(seq![k] =~= base.push(k));
            assert(o.grown_by(*self, m as int, base, k));
            o.lemma_grown_frame(*self, m as int, base, k);
            assert forall|j: int| #[trigger] o.live(j) implies self.data@[j] == o.data@[j] by {
                assert(o.node_ok(j));
            }
            o.lemma_table_grown(*self, o.keys@, o.links@, base, i as int, k, m as int);
            assert(self.keys@ == o.keys@.insert(i as int, k));
            assert(self.links@ == o.links@.insert(i as int, m as usize));
            assert forall|j: int| #[trigger] self.live(j) implies self.node_ok(j) by {
                if j == m as int {
                    assert(self.data@[j].keys@.len() == 0);
                } else {
                    assert(o.node_ok(j));
                    o.lemma_table_carried(
                        *self, o.data@[j].keys@, o.data@[j].links@, o.path_of(j),
                    );
                }
            }
            assert forall|j: int| #[trigger] self.live(j) implies self.parent_ok(j) by {
                o.keys@.insert_ensures(i as int, k);
                o.links@.insert_ensures(i as int, m);
                if j == m as int {
                    assert(self.keys@[i as int] == k && self.links@[i as int] as int == j);
                    assert(has_entry(self.keys@, self.links@, k, j));
                } else {
                    assert(o.live(j) && o.parent_ok(j));
                    let pj = self.path_of(j);
                    if pj.len() <= 1 {
                        lemma_has_entry_insert(o.keys@, o.links@, i as int, k, m, pj[0], j);
                    } else {
                        let p = self.data@[j].parent.unwrap() as int;
                        assert(o.live(p));
                        assert(self.data@[p] == o.data@[p]);
                    }
                }
            }
            o.lemma_grown_injective(*self, m as int, base, k);
            o.lemma_grown_model(*self, m as int, base, k);
        }
        m
    }

    /// Creates a fresh valueless node as a new child of live node `n`,
    /// wiring it into `n`'s table at the given miss position.
    fn add_child(&mut self, n: usize, i: usize, k: u8) -> (m: usize)
        requires
            old(self).wf(),
            old(self).live(n as int),
            i <= old(self).data@[n as int].keys@.len(),
            forall|t: int| 0 <= t < i ==> old(self).data@[n as int].keys@[t] < k,
            forall|t: int|
                i <= t < old(self).data@[n as int].keys@.len()
                    ==> old(self).data@[n as int].keys@[t] > k,
        ensures
            final(self).wf(),
            final(self).model@ == old(self).model@,
            final(self).live(m as int),
            final(self).path_of(m as int) == old(self).path_of(n as int).push(k),
    {
        proof {
            assert(self.node_ok(n as int));
        }
        let m = self.data.len();
        self.data.push(Node::new(Some(n), None));
        self.data[n].keys.insert(i, k);
        self.data[n].links.insert(i, m);
        proof {
            let o = *old(self);
            let base = o.path_of(n as int);
            self.paths@ = o.paths@.insert(m as int, base.push(k));
            assert(o.node_ok(n as int));
            assert(o.grown_by(*self, m as int, base, k));
            o.lemma_grown_frame(*self, m as int, base, k);
            assert forall|j: int| #[trigger] o.live(j) && j != n as int
                implies self.data@[j] == o.data@[j] by {
                assert(o.node_ok(j));
            }
            assert(self.data@[n as int].keys@ == o.data@[n as int].keys@.insert(i as int, k));
            assert(self.data@[n as int].links@
                == o.data@[n as int].links@.insert(i as int, m as usize));
            assert(self.data@[n as int].parent == o.data@[n as int].parent);
            assert(self.data@[n as int].value == o.data@[n as int].value);
            assert(self.keys@ == o.keys@ && self.links@ == o.links@);
            o.lemma_table_carried(*self, o.keys@, o.links@, Seq::<u8>::empty());
            o.lemma_table_grown(
                *self, o.data@[n as int].keys@, o.data@[n as int].links@, base, i as int, k,
                m as int,
            );
            assert forall|j: int| #[trigger] self.live(j) implies self.node_ok(j) by {
                if j == m as int {
                    assert(self.data@[j].keys@.len() == 0);
                } else if j == n as int {
                    assert(o.node_ok(j));
                } else {
                    assert(o.live(j) && o.node_ok(j));
                    o.lemma_table_carried(
                        *self, o.data@[j].keys@, o.data@[j].links@, o.path_of(j),
                    );
                }
            }
            assert forall|j: int| #[trigger] self.live(j) implies self.parent_ok(j) by {
                o.data@[n as int].keys@.insert_ensures(i as int, k);
                o.data@[n as int].links@.insert_ensures(i as int, m);
                if j == m as int {
                    assert(self.path_of(j) == base.push(k));
                    assert(self.path_of(j).len() >= 2);
                    assert(self.path_of(j).drop_last() =~= base);
                    assert(self.path_of(j).last() == k);
                    assert(self.data@[n as int].keys@[i as int] == k
                        && self.data@[n as int].links@[i as int] as int == j);
                    assert(has_entry(
                        self.data@[n as int].keys@, self.data@[n as int].links@, k, j,
                    ));
                } else {
                    assert(o.live(j) && o.parent_ok(j));
                    let pj = self.path_of(j);
                    if pj.len() <= 1 {
                        assert(has_entry(self.keys@, self.links@, pj[0], j));
                    } else {
                        let p = self.data@[j].parent.unwrap() as int;
                        assert(o.live(p));
                        if p == n as int {
                            lemma_has_entry_insert(
                                o.data@[p].keys@, o.data@[p].links@, i as int, k, m, pj.last(),
                                j,
                            );
                        } else {
                            assert(self.data@[p] == o.data@[p]);
                        }
                    }
                }
            }
            assert(exists|w: int| #[trigger] o.live(w) && o.path_of(w) == base
                && !table_has(o.data@[w].keys@, k)) by {
                assert(o.live(n as int) && o.path_of(n as int) == base);
                assert(!table_has(o.data@[n as int].keys@, k));
            }
            o.lemma_grown_injective(*self, m as int, base, k);
            o.lemma_grown_model(*self, m as int, base, k);
        }
        m
    }

    /// Stores the shared handle `value` at the live node `n`, bumping the
    /// key count when the node held no value yet.
    fn set_value(&mut self, n: usize, value: Rc<V>)
        requires
            old(self).wf(),
            old(self).live(n as int),
        ensures
            final(self).wf(),
            final(self).model@
                == old(self).model@.insert(old(self).path_of(n as int), *value),
    {
        proof {
            assert(self.node_ok(n as int));
        }
        if self.data[n].value.is_none() {
            proof {
                self.lemma_len_bound(n as int);
                assert(self.data.len() == self.data@.len());
                assert(self.length < usize::MAX);
            }
            self.length = self.length + 1;
        }
        self.data[n].value = Some(value);
        proof {
            let o = *old(self);
            let q = o.path_of(n as int);
            self.model@ = o.model@.insert(q, rc_value(&value));
            assert(o.value_step(*self, n as int, rc_value(&value)));
            o.lemma_set_value_structure(*self, n as int);
            o.lemma_set_value_model(*self, n as int, rc_value(&value));
        }
    }

    /// The state `s` differs from `self` at most in node `n`'s value slot,
    /// the key count, and the abstract map: no node moved.
    spec fn same_but_value(self, s: Self, n: int) -> bool {
        &&& s.keys@ == self.keys@
        &&& s.links@ == self.links@
        &&& s.data@.len() == self.data@.len()
        &&& forall|j: int| 0 <= j < self.data@.len() && j != n
            ==> s.data@[j] == self.data@[j]
        &&& s.data@[n].keys@ == self.data@[n].keys@
        &&& s.data@[n].links@ == self.data@[n].links@
        &&& s.data@[n].parent == self.data@[n].parent
        &&& s.paths@ == self.paths@
    }

    /// On top of `same_but_value`: node `n` now holds `value`, and the
    /// abstract map gained the key at `n`.
    spec fn value_step(self, s: Self, n: int, value: V) -> bool {
        &&& self.same_but_value(s, n)
        &&& s.data@[n].value is Some
        &&& s.data@[n].value.unwrap() == value
        &&& s.model@ == self.model@.insert(self.path_of(n), value)
        &&& (self.data@[n].value is Some ==> s.length == self.length)
        &&& (self.data@[n].value is None ==> s.length == self.length + 1)
    }

    /// Touching only a value slot moves no node: the structural invariants
    /// carry over.
    proof fn lemma_set_value_structure(self, s: Self, n: int)
        requires
            self.wf(),
            self.live(n),
            self.same_but_value(s, n),
        ensures
            s.table_ok(s.keys@, s.links@, Seq::<u8>::empty()),
            forall|j: int| s.live(j) ==> #[trigger] s.node_ok(j),
            forall|j1: int, j2: int|
                s.live(j1) && s.live(j2) && s.path_of(j1) == s.path_of(j2) ==> j1 == j2,
            forall|j: int| s.live(j) ==> #[trigger] s.parent_ok(j),
    {
        assert forall|j: int| #[trigger] self.live(j)
            implies s.live(j) && s.path_of(j) == self.path_of(j) by {}
        self.lemma_table_carried(s, self.keys@, self.links@, Seq::<u8>::empty());
        assert forall|j: int| s.live(j) implies #[trigger] s.node_ok(j) by {
            assert(self.live(j) && self.node_ok(j));
            self.lemma_table_carried(s, self.data@[j].keys@, self.data@[j].links@, self.path_of(j));
            assert(s.data@[j].keys@ == self.data@[j].keys@);
            assert(s.data@[j].links@ == self.data@[j].links@);
        }
        assert forall|j: int| s.live(j) implies #[trigger] s.parent_ok(j) by {
            assert(self.live(j) && self.parent_ok(j) && self.node_ok(j));
            let pj = s.path_of(j);
            if pj.len() > 1 {
                let p = s.data@[j].parent.unwrap() as int;
                assert(s.data@[j].parent == self.data@[j].parent);
                assert(self.live(p) && self.node_ok(p));
                assert(s.data@[p].keys@ == self.data@[p].keys@
                    && s.data@[p].links@ == self.data@[p].links@);
            }
        }
        assert forall|j1: int, j2: int|
            s.live(j1) && s.live(j2) && s.path_of(j1) == s.path_of(j2) implies j1 == j2 by {
            assert(self.live(j1) && self.live(j2));
        }
    }

    /// Storing a value updates the abstract map at exactly the key at `n`,
    /// and the key count tracks its cardinality.
    proof fn lemma_set_value_model(self, s: Self, n: int, value: V)
        requires
            self.wf(),
            self.live(n),
            self.value_step(s, n, value),
        ensures
            s.model_ok(),
            s.model@.dom().finite(),
            s.length == s.model@.dom().len(),
    {
        let q = self.path_of(n);
        assert forall|j: int| #[trigger] s.live(j) && s.data@[j].value is Some
            implies s.model@.dom().contains(s.path_of(j))
                && s.model@[s.path_of(j)] == s.data@[j].value.unwrap() by {
            if j != n {
                assert(self.live(j) && self.node_ok(j));
                assert(s.data@[j].value == self.data@[j].value);
                assert(self.path_of(j) != q);
            }
        }
        assert forall|p: Seq<u8>| #[trigger] s.model@.dom().contains(p)
            implies exists|j: int| #[trigger] s.live(j) && s.path_of(j) == p
                && s.data@[j].value is Some by {
            if p == q {
                assert(s.live(n) && s.path_of(n) == p && s.data@[n].value is Some);
            } else {
                assert(self.model@.dom().contains(p));
                let j0 = choose|j: int|
                    #[trigger] self.live(j) && self.path_of(j) == p
                        && self.data@[j].value is Some;
                assert(j0 != n);
                assert(self.node_ok(j0));
                assert(s.live(j0) && s.path_of(j0) == p && s.data@[j0].value is Some);
            }
        }
        if self.data@[n].value is Some {
            assert(self.model@.dom().contains(q));
            assert(s.model@.dom() =~= self.model@.dom());
        } else {
            assert(!self.model@.dom().contains(q)) by {
                if self.model@.dom().contains(q) {
                    let j0 = choose|j: int|
                        #[trigger] self.live(j) && self.path_of(j) == q
                            && self.data@[j].value is Some;
                    assert(j0 == n);
                }
            }
            assert(s.model@.dom() =~= self.model@.dom().insert(q));
        }
    }

    /// Detaching a value updates the abstract map at exactly the key at `n`,
    /// and the key count tracks its cardinality.
    proof fn lemma_clear_value_model(self, s: Self, n: int)
        requires
            self.wf(),
            self.live(n),
            self.same_but_value(s, n),
            self.data@[n].value is Some,
            s.data@[n].value is None,
            s.model@ == self.model@.remove(self.path_of(n)),
            s.length == self.length - 1,
        ensures
            s.model_ok(),
            s.model@.dom().finite(),
            s.length == s.model@.dom().len(),
    {
        let q = self.path_of(n);
        assert(self.model@.dom().contains(q));
        assert forall|j: int| #[trigger] s.live(j) && s.data@[j].value is Some
            implies s.model@.dom().contains(s.path_of(j))
                && s.model@[s.path_of(j)] == s.data@[j].value.unwrap() by {
            assert(self.live(j) && self.node_ok(j));
            assert(j != n);
            assert(s.data@[j].value == self.data@[j].value);
            assert(self.path_of(j) != q);
        }
        assert forall|p: Seq<u8>| #[trigger] s.model@.dom().contains(p)
            implies exists|j: int| #[trigger] s.live(j) && s.path_of(j) == p
                && s.data@[j].value is Some by {
            assert(p != q);
            assert(self.model@.dom().contains(p));
            let j0 = choose|j: int|
                #[trigger] self.live(j) && self.path_of(j) == p
                    && self.data@[j].value is Some;
            assert(j0 != n);
            assert(self.node_ok(j0));
            assert(s.live(j0) && s.path_of(j0) == p && s.data@[j0].value is Some);
        }
        assert(s.model@.dom() =~= self.model@.dom().remove(q));
    }

    /// A table whose base prefix is not the pruned node's parent path cannot
    /// list the pruned node, so it stays well formed when only that node
    /// goes dead.
    proof fn lemma_table_carried_drop(
        self,
        s: Self,
        keys: Seq<u8>,
        links: Seq<usize>,
        base: Seq<u8>,
        c: int,
    )
        requires
            self.table_ok(keys, links, base),
            self.live(c),
            self.path_of(c).len() >= 1,
            base != self.path_of(c).drop_last(),
            forall|j: int| #[trigger] self.live(j) && j != c
                ==> s.live(j) && s.path_of(j) == self.path_of(j),
        ensures
            s.table_ok(keys, links, base),
    {
        assert forall|t: int| 0 <= t < keys.len() implies
            #[trigger] s.entry_ok(keys, links, base, t) by {
            assert(self.entry_ok(keys, links, base, t));
            if links[t] as int == c {
                assert(self.path_of(c) == base.push(keys[t]));
                assert(self.path_of(c).drop_last() =~= base);
            }
            assert(self.live(links[t] as int));
        }
    }

    /// The table from which the pruned node's one slot is removed is well
    /// formed again: no other slot lists the pruned node.
    proof fn lemma_table_shrunk(
        self,
        s: Self,
        keys: Seq<u8>,
        links: Seq<usize>,
        base: Seq<u8>,
        i: int,
        c: int,
    )
        requires
            self.table_ok(keys, links, base),
            0 <= i < keys.len(),
            links[i] as int == c,
            forall|j: int| #[trigger] self.live(j) && j != c
                ==> s.live(j) && s.path_of(j) == self.path_of(j),
        ensures
            s.table_ok(keys.remove(i), links.remove(i), base),
    {
        keys.remove_ensures(i);
        links.remove_ensures(i);
        lemma_sorted_remove(keys, i);
        let keys2 = keys.remove(i);
        let links2 = links.remove(i);
        assert forall|t: int| 0 <= t < keys2.len() implies
            #[trigger] s.entry_ok(keys2, links2, base, t) by {
            let t0 = if t < i { t } else { t + 1 };
            assert(self.entry_ok(keys, links, base, t0));
            assert(keys2[t] == keys[t0] && links2[t] == links[t0]);
            if links[t0] as int == c {
                assert(self.entry_ok(keys, links, base, i));
                assert(base.push(keys[t0]) == base.push(keys[i]));
                assert(base.push(keys[t0])[base.len() as int] == keys[t0]);
                assert(base.push(keys[i])[base.len() as int] == keys[i]);
                assert(keys[t0] == keys[i]);
            }
            assert(self.live(links[t0] as int));
        }
    }

    /// The state `s` prunes the live, valueless, childless node `c` out of
    /// `self`: its slot leaves its parent's table (here node `p`'s), its
    /// index goes dead, and nothing else changes.
    spec fn shrunk_node(self, s: Self, c: int, p: int, i: int) -> bool {
        &&& self.live(c)
        &&& self.data@[c].value is None
        &&& self.data@[c].keys@.len() == 0
        &&& self.path_of(c).len() >= 2
        &&& self.live(p)
        &&& self.path_of(p) == self.path_of(c).drop_last()
        &&& 0 <= i < self.data@[p].keys@.len()
        &&& self.data@[p].keys@.len() == self.data@[p].links@.len()
        &&& self.data@[p].links@[i] as int == c
        &&& s.keys@ == self.keys@
        &&& s.links@ == self.links@
        &&& s.data@.len() == self.data@.len()
        &&& forall|j: int| 0 <= j < self.data@.len() && j != p
            ==> s.data@[j] == self.data@[j]
        &&& s.data@[p].keys@ == self.data@[p].keys@.remove(i)
        &&& s.data@[p].links@ == self.data@[p].links@.remove(i)
        &&& s.data@[p].parent == self.data@[p].parent
        &&& s.data@[p].value == self.data@[p].value
        &&& s.paths@ == self.paths@.remove(c)
        &&& s.model@ == self.model@
        &&& s.length == self.length
    }

    /// Pruning a node out of its parent's table preserves every invariant.
    proof fn lemma_shrunk_node_wf(self, s: Self, c: int, p: int, i: int)
        requires
            self.wf(),
            self.shrunk_node(s, c, p, i),
        ensures
            s.wf(),
    {
        let pc = self.path_of(c);
        assert(self.node_ok(c) && self.node_ok(p));
        assert(p != c);
        assert forall|j: int| #[trigger] self.live(j) && j != c
            implies s.live(j) && s.path_of(j) == self.path_of(j) by {}
        assert forall|j: int| #[trigger] s.live(j) implies self.live(j) && j != c by {}
        self.lemma_table_carried_drop(s, self.keys@, self.links@, Seq::<u8>::empty(), c);
        assert forall|j: int| s.live(j) implies #[trigger] s.node_ok(j) by {
            assert(self.live(j) && self.node_ok(j));
            if j == p {
                self.lemma_table_shrunk(
                    s, self.data@[p].keys@, self.data@[p].links@, self.path_of(p), i, c,
                );
            } else {
                assert(self.live(p));
                assert(self.path_of(j) != self.path_of(p));
                self.lemma_table_carried_drop(
                    s, self.data@[j].keys@, self.data@[j].links@, self.path_of(j), c,
                );
                assert(s.data@[j] == self.data@[j]);
            }
        }
        assert forall|j: int| s.live(j) implies #[trigger] s.parent_ok(j) by {
            assert(self.live(j) && self.parent_ok(j) && self.node_ok(j));
            let pj = s.path_of(j);
            if pj.len() <= 1 {
                assert(has_entry(s.keys@, s.links@, pj[0], j));
            } else {
                let pp = self.data@[j].parent.unwrap() as int;
                assert(self.live(pp));
                if pp == c {
                    let t = choose|t: int|
                        0 <= t < self.data@[c].keys@.len() && t < self.data@[c].links@.len()
                            && self.data@[c].keys@[t] == pj.last()
                            && self.data@[c].links@[t] as int == j;
                    assert(false);
                }
                assert(s.data@[j].parent == self.data@[j].parent);
                if pp == p {
                    lemma_has_entry_remove(
                        self.data@[p].keys@, self.data@[p].links@, i, pj.last(), j,
                    );
                } else {
                    assert(self.node_ok(pp));
                    assert(s.data@[pp] == self.data@[pp]);
                }
            }
        }
        assert forall|j1: int, j2: int|
            s.live(j1) && s.live(j2) && s.path_of(j1) == s.path_of(j2) implies j1 == j2 by {
            assert(self.live(j1) && self.live(j2));
        }
        assert forall|j: int| 0 <= j < s.data@.len() && !s.live(j)
            implies (#[trigger] s.data@[j]).value is None by {
            if j == c {
                assert(s.data@[c] == self.data@[c]);
            } else if self.live(j) {
                assert(j == p);
            } else {
                assert(self.data@[j].value is None);
                if j != p {
                    assert(s.data@[j] == self.data@[j]);
                }
            }
        }
        assert forall|j: int| #[trigger] s.live(j) && s.data@[j].value is Some
            implies s.model@.dom().contains(s.path_of(j))
                && s.model@[s.path_of(j)] == s.data@[j].value.unwrap() by {
            assert(self.live(j) && self.node_ok(j));
            assert(s.data@[j].value == self.data@[j].value);
        }
        assert forall|q: Seq<u8>| #[trigger] s.model@.dom().contains(q)
            implies exists|j: int| #[trigger] s.live(j) && s.path_of(j) == q
                && s.data@[j].value is Some by {
            assert(self.model@.dom().contains(q));
            let j0 = choose|j: int|
                #[trigger] self.live(j) && self.path_of(j) == q
                    && self.data@[j].value is Some;
            assert(j0 != c);
            assert(self.node_ok(j0));
            assert(s.data@[j0].value == self.data@[j0].value);
            assert(s.live(j0) && s.path_of(j0) == q && s.data@[j0].value is Some);
        }
    }

    /// The state `s` prunes the live, valueless, childless, depth-one node
    /// `c` out of `self`: its slot leaves the root table, its index goes
    /// dead, and nothing else changes.
    spec fn shrunk_root(self, s: Self, c: int, i: int) -> bool {
        &&& self.live(c)
        &&& self.data@[c].value is None
        &&& self.data@[c].keys@.len() == 0
        &&& self.path_of(c).len() == 1
        &&& 0 <= i < self.keys@.len()
        &&& self.keys@.len() == self.links@.len()
        &&& self.links@[i] as int == c
        &&& s.keys@ == self.keys@.remove(i)
        &&& s.links@ == self.links@.remove(i)
        &&& s.data@.len() == self.data@.len()
        &&& forall|j: int| 0 <= j < self.data@.len() ==> s.data@[j] == self.data@[j]
        &&& s.paths@ == self.paths@.remove(c)
        &&& s.model@ == self.model@
        &&& s.length == self.length
    }

    /// Pruning a depth-one node out of the root table preserves every
    /// invariant.
    proof fn lemma_shrunk_root_wf(self, s: Self, c: int, i: int)
        requires
            self.wf(),
            self.shrunk_root(s, c, i),
        ensures
            s.wf(),
    {
        assert(self.node_ok(c));
        assert forall|j: int| #[trigger] self.live(j) && j != c
            implies s.live(j) && s.path_of(j) == self.path_of(j) by {}
        assert forall|j: int| #[trigger] s.live(j) implies self.live(j) && j != c by {}
        self.lemma_table_shrunk(s, self.keys@, self.links@, Seq::<u8>::empty(), i, c);
        assert forall|j: int| s.live(j) implies #[trigger] s.node_ok(j) by {
            assert(self.live(j) && self.node_ok(j));
            assert(self.path_of(c).drop_last().len() == 0);
            assert(self.path_of(j) != self.path_of(c).drop_last());
            self.lemma_table_carried_drop(
                s, self.data@[j].keys@, self.data@[j].links@, self.path_of(j), c,
            );
            assert(s.data@[j] == self.data@[j]);
        }
        assert forall|j: int| s.live(j) implies #[trigger] s.parent_ok(j) by {
            assert(self.live(j) && self.parent_ok(j) && self.node_ok(j));
            let pj = s.path_of(j);
            if pj.len() <= 1 {
                lemma_has_entry_remove(self.keys@, self.links@, i, pj[0], j);
            } else {
                let pp = self.data@[j].parent.unwrap() as int;
                assert(self.live(pp));
                if pp == c {
                    let t = choose|t: int|
                        0 <= t < self.data@[c].keys@.len() && t < self.data@[c].links@.len()
                            && self.data@[c].keys@[t] == pj.last()
                            && self.data@[c].links@[t] as int == j;
                    assert(false);
                }
                assert(s.data@[j].parent == self.data@[j].parent);
                assert(self.node_ok(pp));
                assert(s.data@[pp] == self.data@[pp]);
            }
        }
        assert forall|j1: int, j2: int|
            s.live(j1) && s.live(j2) && s.path_of(j1) == s.path_of(j2) implies j1 == j2 by {
            assert(self.live(j1) && self.live(j2));
        }
        assert forall|j: int| 0 <= j < s.data@.len() && !s.live(j)
            implies (#[trigger] s.data@[j]).value is None by {
            if j == c {
                assert(s.data@[c] == self.data@[c]);
            } else if !self.live(j) {
                assert(self.data@[j].value is None);
            }
        }
        assert forall|j: int| #[trigger] s.live(j) && s.data@[j].value is Some
            implies s.model@.dom().contains(s.path_of(j))
                && s.model@[s.path_of(j)] == s.data@[j].value.unwrap() by {
            assert(self.live(j) && self.node_ok(j));
        }
        assert forall|q: Seq<u8>| #[trigger] s.model@.dom().contains(q)
            implies exists|j: int| #[trigger] s.live(j) && s.path_of(j) == q
                && s.data@[j].value is Some by {
            assert(self.model@.dom().contains(q));
            let j0 = choose|j: int|
                #[trigger] self.live(j) && self.path_of(j) == q
                    && self.data@[j].value is Some;
            assert(j0 != c);
            assert(self.node_ok(j0));
            assert(s.live(j0) && s.path_of(j0) == q && s.data@[j0].value is Some);
        }
    }

    /// Detaches the live, valueless, childless node `c` from its parent `p`,
    /// removing `p`'s table slot for it and retiring its arena index.  The
    /// slot stays in the arena, so no other index is invalidated.
    fn unlink_node(&mut self, c: usize, p: usize)
        requires
            old(self).wf(),
            old(self).live(c as int),
            old(self).data@[c as int].value is None,
            old(self).data@[c as int].keys@.len() == 0,
            old(self).path_of(c as int).len() >= 2,
            old(self).live(p as int),
            old(self).path_of(p as int) == old(self).path_of(c as int).drop_last(),
        ensures
            final(self).wf(),
            final(self).model@ == old(self).model@,
            final(self).live(p as int),
            final(self).path_of(p as int) == old(self).path_of(p as int),
    {
        proof {
            assert(self.node_ok(p as int));
            assert(self.node_ok(c as int));
            assert(self.parent_ok(c as int));
            let pp = self.data@[c as int].parent.unwrap() as int;
            assert(self.live(pp) && self.path_of(pp) == self.path_of(c as int).drop_last());
            assert(pp == p as int);
        }
        let len = self.data[p].keys.len();
        let mut i: usize = 0;
        while i < len
            invariant
                self.wf(),
                self == old(self),
                self.live(c as int),
                self.live(p as int),
                self.path_of(c as int).len() >= 2,
                self.path_of(p as int) == self.path_of(c as int).drop_last(),
                c < self.data@.len(),
                self.data@[c as int].value is None,
                self.data@[c as int].keys@.len() == 0,
                p < self.data@.len(),
                len == self.data@[p as int].keys@.len(),
                len == self.data@[p as int].links@.len(),
                i <= len,
                forall|t: int| 0 <= t < i ==> self.data@[p as int].links@[t] as int != c as int,
            decreases len - i,
        {
            if self.data[p].links[i] == c {
                self.data[p].keys.remove(i);
                self.data[p].links.remove(i);
                proof {
                    let o = *old(self);
                    self.paths@ = o.paths@.remove(c as int);
                    assert(o.shrunk_node(*self, c as int, p as int, i as int));
                    o.lemma_shrunk_node_wf(*self, c as int, p as int, i as int);
                }
                return;
            }
            i += 1;
        }
        proof {
            assert(self.parent_ok(c as int));
            let pp = self.data@[c as int].parent.unwrap() as int;
            assert(self.live(pp) && self.path_of(pp) == self.path_of(c as int).drop_last());
            assert(pp == p as int);
            let t = choose|t: int|
                0 <= t < self.data@[p as int].keys@.len()
                    && t < self.data@[p as int].links@.len()
                    && self.data@[p as int].keys@[t] == self.path_of(c as int).last()
                    && self.data@[p as int].links@[t] as int == c as int;
            assert(false);
        }
    }

    /// Detaches the live, valueless, childless, depth-one node `c` from the
    /// root table and retires its arena index.
    fn unlink_root(&mut self, c: usize)
        requires
            old(self).wf(),
            old(self).live(c as int),
            old(self).data@[c as int].value is None,
            old(self).data@[c as int].keys@.len() == 0,
            old(self).path_of(c as int).len() == 1,
        ensures
            final(self).wf(),
            final(self).model@ == old(self).model@,
    {
        proof {
            assert(self.node_ok(c as int));
            assert(self.parent_ok(c as int));
        }
        let len = self.keys.len();
        let mut i: usize = 0;
        while i < len
            invariant
                self.wf(),
                self == old(self),
                self.live(c as int),
                self.path_of(c as int).len() == 1,
                c < self.data@.len(),
                self.data@[c as int].value is None,
                self.data@[c as int].keys@.len() == 0,
                len == self.keys@.len(),
                len == self.links@.len(),
                i <= len,
                forall|t: int| 0 <= t < i ==> self.links@[t] as int != c as int,
            decreases len - i,
        {
            if self.links[i] == c {
                self.keys.remove(i);
                self.links.remove(i);
                proof {
                    let o = *old(self);
                    self.paths@ = o.paths@.remove(c as int);
                    assert(o.shrunk_root(*self, c as int, i as int));
                    o.lemma_shrunk_root_wf(*self, c as int, i as int);
                }
                return;
            }
            i += 1;
        }
        proof {
            assert(self.parent_ok(c as int));
            let t = choose|t: int|
                0 <= t < self.keys@.len() && t < self.links@.len()
                    && self.keys@[t] == self.path_of(c as int)[0]
                    && self.links@[t] as int == c as int;
            assert(false);
        }
    }

    /// Detaches and returns the value stored for `key`, removing the key
    /// from the map, then prunes: walking upward from the terminal node, any
    /// node left with no value and no children loses its slot in its
    /// parent's table.  A pruned arena slot is retired, never reused or
    /// compacted away, so every other live index stays valid.  Returns
    /// `None`, and changes nothing, when `key` is empty or not present.
    pub fn remove(&mut self, key: &[u8]) -> (r: Option<Rc<V>>)
        requires
            old(self).wf(),
        ensures
            final(self).wf(),
            match r {
                Some(v) => {
                    &&& old(self)@.contains_key(key@)
                    &&& v == old(self)@[key@]
                    &&& final(self)@ == old(self)@.remove(key@)
                },
                None => {
                    &&& !old(self)@.contains_key(key@)
                    &&& final(self)@ == old(self)@
                },
            },
    {
        if key.len() == 0 {
            proof {
                self.law_empty_key_absent();
            }
            return None;
        }
        let mut n: usize;
        match find_slot(&self.keys, key[0]) {
            Ok(i) => {
                n = self.links[i];
                proof {
                    assert(self.entry_ok(self.keys@, self.links@, Seq::<u8>::empty(), i as int));
                    assert(self.path_of(n as int) =~= key@.take(1));
                    assert(self.node_ok(n as int));
                }
            },
            Err(_) => {
                proof {
                    self.lemma_absent_root(key@);
                }
                return None;
            },
        }
        let mut pos: usize = 1;
        while pos < key.len()
            invariant
                self.wf(),
                self == old(self),
                1 <= pos <= key@.len(),
                n < self.data@.len(),
                self.live(n as int),
                self.path_of(n as int) == key@.take(pos as int),
            decreases key@.len() - pos,
        {
            let k = key[pos];
            proof {
                assert(self.node_ok(n as int));
            }
            match find_slot(&self.data[n].keys, k) {
                Ok(i) => {
                    let nn = self.data[n].links[i];
                    proof {
                        assert(self.entry_ok(
                            self.data@[n as int].keys@,
                            self.data@[n as int].links@,
                            self.path_of(n as int),
                            i as int,
                        ));
                        assert(self.path_of(nn as int) =~= key@.take(pos + 1));
                        assert(self.node_ok(nn as int));
                    }
                    n = nn;
                },
                Err(_) => {
                    proof {
                        self.lemma_absent_at(key@, pos as int, n as int);
                    }
                    return None;
                },
            }
            pos += 1;
        }
        proof {
            assert(self.path_of(n as int) =~= key@);
        }
        if self.data[n].value.is_none() {
            proof {
                if self@.contains_key(key@) {
                    assert(self.model@.dom().contains(key@));
                    let j = choose|j: int|
                        #[trigger] self.live(j) && self.path_of(j) == key@
                            && self.data@[j].value is Some;
                    assert(j == n as int);
                }
            }
            return None;
        }
        let ghost o = *self;
        let taken = self.data[n].value.take();
        proof {
            assert(o.live(n as int));
            assert(o.model@.dom().contains(key@));
            assert(self.length >= 1);
        }
        self.length = self.length - 1;
        proof {
            self.model@ = o.model@.remove(key@);
            assert(o.same_but_value(*self, n as int));
            o.lemma_set_value_structure(*self, n as int);
            o.lemma_clear_value_model(*self, n as int);
        }
        // prune: walk upward detaching nodes left without value and children
        let ghost target = self.model@;
        let mut cur = n;
        let mut depth = key.len();
        loop
            invariant_except_break
                self.live(cur as int),
                self.path_of(cur as int).len() == depth as int,
                depth >= 1,
            invariant
                self.wf(),
                self.model@ == target,
            decreases depth,
        {
            proof {
                assert(self.node_ok(cur as int));
                assert(self.parent_ok(cur as int));
            }
            if !(self.data[cur].value.is_none() && self.data[cur].keys.len() == 0) {
                break;
            }
            match self.data[cur].parent {
                Some(p) => {
                    self.unlink_node(cur, p);
                    cur = p;
                    depth = depth - 1;
                },
                None => {
                    self.unlink_root(cur);
                    break;
                },
            }
        }
        taken
    }

    /// Associates `value` with `key`, replacing any prior value stored for
    /// the identical key.  The empty key is never stored: inserting it
    /// changes nothing.
    pub fn insert(&mut self, key: &[u8], value: V)
        requires
            old(self).wf(),
        ensures
            final(self).wf(),
            key@.len() == 0 ==> final(self)@ == old(self)@,
            key@.len() >= 1 ==> final(self)@ == old(self)@.insert(key@, value),
    {
        self.insert_handle(key, Rc::new(value));
    }

    /// The body of `insert`, taking the shared handle to store directly so
    /// that merging two maps can move handles instead of payloads.
    fn insert_handle(&mut self, key: &[u8], value: Rc<V>)
        requires
            old(self).wf(),
        ensures
            final(self).wf(),
            key@.len() == 0 ==> final(self)@ == old(self)@,
            key@.len() >= 1 ==> final(self)@ == old(self)@.insert(key@, *value),
    {
        if key.len() == 0 {
            return;
        }
        let ghost m0 = old(self).model@;
        let mut n: usize;
        match find_slot(&self.keys, key[0]) {
            Ok(i) => {
                n = self.links[i];
                proof {
                    assert(self.entry_ok(self.keys@, self.links@, Seq::<u8>::empty(), i as int));
                }
            },
            Err(i) => {
                n = self.add_root_child(i, key[0]);
            },
        }
        proof {
            assert(self.path_of(n as int) =~= key@.take(1));
        }
        let mut pos: usize = 1;
        while pos < key.len()
            invariant
                self.wf(),
                self.model@ == m0,
                1 <= pos <= key@.len(),
                self.live(n as int),
                self.path_of(n as int) == key@.take(pos as int),
            decreases key@.len() - pos,
        {
            let k = key[pos];
            proof {
                assert(self.node_ok(n as int));
            }
            let nn: usize;
            match find_slot(&self.data[n].keys, k) {
                Ok(i) => {
                    nn = self.data[n].links[i];
                    proof {
                        assert(self.entry_ok(
                            self.data@[n as int].keys@,
                            self.data@[n as int].links@,
                            self.path_of(n as int),
                            i as int,
                        ));
                    }
                },
                Err(i) => {
                    nn = self.add_child(n, i, k);
                },
            }
            proof {
                assert(self.path_of(nn as int) =~= key@.take(pos + 1));
            }
            n = nn;
            pos += 1;
        }
        proof {
            assert(self.path_of(n as int) =~= key@);
        }
        self.set_value(n, value);
    }

    /// Finds the key unit leading from live node `p` to its live child `c`
    /// by scanning `p`'s branching table for the link to `c`.
    fn unit_into(&self, p: usize, c: usize) -> (u: u8)
        requires
            self.wf(),
            self.live(p as int),
            self.live(c as int),
            self.path_of(c as int).len() >= 2,
            self.path_of(p as int) == self.path_of(c as int).drop_last(),
        ensures
            u == self.path_of(c as int).last(),
    {
        proof {
            assert(self.node_ok(p as int));
        }
        let len = self.data[p].keys.len();
        let mut i: usize = 0;
        while i < len
            invariant
                self.wf(),
                self.live(p as int),
                self.live(c as int),
                self.path_of(c as int).len() >= 2,
                self.path_of(p as int) == self.path_of(c as int).drop_last(),
                p < self.data@.len(),
                len == self.data@[p as int].keys@.len(),
                len == self.data@[p as int].links@.len(),
                i <= len,
                forall|t: int| 0 <= t < i ==> self.data@[p as int].links@[t] as int != c,
            decreases len - i,
        {
            if self.data[p].links[i] == c {
                proof {
                    assert(self.node_ok(p as int));
                    assert(self.entry_ok(
                        self.data@[p as int].keys@,
                        self.data@[p as int].links@,
                        self.path_of(p as int),
                        i as int,
                    ));
                    assert(self.path_of(c as int)
                        =~= self.path_of(c as int).drop_last().push(self.path_of(c as int).last()));
                }
                return self.data[p].keys[i];
            }
            i += 1;
        }
        proof {
            assert(self.parent_ok(c as int));
            let pp = self.data@[c as int].parent.unwrap() as int;
            assert(self.live(pp) && self.path_of(pp) == self.path_of(c as int).drop_last());
            assert(pp == p as int);
            let t = choose|t: int|
                0 <= t < self.data@[p as int].keys@.len()
                    && t < self.data@[p as int].links@.len()
                    && self.data@[p as int].keys@[t] == self.path_of(c as int).last()
                    && self.data@[p as int].links@[t] as int == c;
            assert(false);
        }
        0
    }

    /// Finds the key unit leading from the root to the depth-one live node
    /// `c` by scanning the root table for the link to `c`.
    fn unit_into_root(&self, c: usize) -> (u: u8)
        requires
            self.wf(),
            self.live(c as int),
            self.path_of(c as int).len() == 1,
        ensures
            u == self.path_of(c as int)[0],
    {
        let len = self.keys.len();
        let mut i: usize = 0;
        while i < len
            invariant
                self.wf(),
                self.live(c as int),
                self.path_of(c as int).len() == 1,
                len == self.keys@.len(),
                len == self.links@.len(),
                i <= len,
                forall|t: int| 0 <= t < i ==> self.links@[t] as int != c,
            decreases len - i,
        {
            if self.links[i] == c {
                proof {
                    assert(self.entry_ok(self.keys@, self.links@, Seq::<u8>::empty(), i as int));
                    assert(self.path_of(c as int)[0]
                        == Seq::<u8>::empty().push(self.keys@[i as int])[0]);
                }
                return self.keys[i];
            }
            i += 1;
        }
        proof {
            assert(self.parent_ok(c as int));
            let t = choose|t: int|
                0 <= t < self.keys@.len() && t < self.links@.len()
                    && self.keys@[t] == self.path_of(c as int)[0]
                    && self.links@[t] as int == c;
            assert(false);
        }
        0
    }

    /// Reconstructs the key that reaches live node `j` by walking parent
    /// references up to the root, collecting one unit per level.
    fn key_of_node(&self, j: usize) -> (key: Vec<u8>)
        requires
            self.wf(),
            self.live(j as int),
        ensures
            key@ == self.path_of(j as int),
    {
        let mut key: Vec<u8> = Vec::new();
        let mut cur = j;
        loop
            invariant
                self.wf(),
                self.live(cur as int),
                self.path_of(cur as int) + key@ == self.path_of(j as int),
            decreases self.path_of(cur as int).len(),
        {
            proof {
                assert(self.node_ok(cur as int));
                assert(self.parent_ok(cur as int));
            }
            match self.data[cur].parent {
                Some(p) => {
                    let u = self.unit_into(p, cur);
                    key.insert(0, u);
                    proof {
                        assert(self.path_of(p as int).push(u) =~= self.path_of(cur as int));
                        assert(self.path_of(p as int) + key@ =~= self.path_of(j as int));
                    }
                    cur = p;
                },
                None => {
                    let u = self.unit_into_root(cur);
                    key.insert(0, u);
                    proof {
                        assert(seq![u] =~= self.path_of(cur as int));
                        assert(key@ =~= self.path_of(j as int));
                    }
                    return key;
                },
            }
        }
    }

    /// The keys contributed by the live, value-holding arena nodes below
    /// index `upto`, each mapped to its value; at `upto == data.len()` this
    /// is the whole abstract map.
    spec fn partial_model(self, upto: int) -> Map<Seq<u8>, V> {
        Map::new(
            |q: Seq<u8>| exists|t: int| 0 <= t < upto && #[trigger] self.live(t)
                && self.path_of(t) == q && self.data@[t].value is Some,
            |q: Seq<u8>| self.model@[q],
        )
    }

    /// Nothing is contributed below index zero.
    proof fn lemma_partial_zero(self, m0: Map<Seq<u8>, V>)
        ensures
            m0.union_prefer_right(self.partial_model(0)) == m0,
    {
        assert(m0.union_prefer_right(self.partial_model(0)) =~= m0);
    }

    /// A valueless or dead slot contributes nothing.
    proof fn lemma_partial_skip(self, j: int)
        requires
            !(self.live(j) && self.data@[j].value is Some),
        ensures
            self.partial_model(j + 1) == self.partial_model(j),
    {
        assert forall|q: Seq<u8>| #[trigger] self.partial_model(j + 1).dom().contains(q)
            implies self.partial_model(j).dom().contains(q) by {
            let t = choose|t: int|
                0 <= t < j + 1 && #[trigger] self.live(t) && self.path_of(t) == q
                    && self.data@[t].value is Some;
            assert(t < j);
        }
        assert(self.partial_model(j + 1) =~= self.partial_model(j));
    }

    /// A live, value-holding slot contributes exactly its key.
    proof fn lemma_partial_step(self, j: int, m0: Map<Seq<u8>, V>)
        requires
            self.wf(),
            self.live(j),
            self.data@[j].value is Some,
        ensures
            m0.union_prefer_right(self.partial_model(j + 1))
                == m0.union_prefer_right(self.partial_model(j)).insert(
                self.path_of(j),
                self.model@[self.path_of(j)],
            ),
    {
        let q = self.path_of(j);
        assert(self.model@.dom().contains(q));
        let a = m0.union_prefer_right(self.partial_model(j + 1));
        let b = m0.union_prefer_right(self.partial_model(j)).insert(q, self.model@[q]);
        assert forall|p: Seq<u8>| #[trigger] self.partial_model(j + 1).dom().contains(p)
                && p != q implies self.partial_model(j).dom().contains(p) by {
            let t = choose|t: int|
                0 <= t < j + 1 && #[trigger] self.live(t) && self.path_of(t) == p
                    && self.data@[t].value is Some;
            assert(t != j);
        }
        assert forall|p: Seq<u8>| #[trigger] self.partial_model(j).dom().contains(p)
            implies self.partial_model(j + 1).dom().contains(p) by {
            let t = choose|t: int|
                0 <= t < j && #[trigger] self.live(t) && self.path_of(t) == p
                    && self.data@[t].value is Some;
            assert(0 <= t < j + 1 && self.live(t) && self.path_of(t) == p
                && self.data@[t].value is Some);
        }
        assert(self.node_ok(j));
        assert(0 <= j < j + 1 && self.live(j) && self.path_of(j) == q
            && self.data@[j].value is Some);
        assert(self.partial_model(j + 1).dom().contains(q));
        assert(a =~= b);
    }

    /// Every key is contributed once the whole arena has been scanned.
    proof fn lemma_partial_full(self)
        requires
            self.wf(),
        ensures
            self.partial_model(self.data@.len() as int) == self.model@,
    {
        let full = self.partial_model(self.data@.len() as int);
        assert forall|q: Seq<u8>| #[trigger] full.dom().contains(q)
            implies self.model@.dom().contains(q) by {
            let t = choose|t: int|
                0 <= t < self.data@.len() && #[trigger] self.live(t) && self.path_of(t) == q
                    && self.data@[t].value is Some;
        }
        assert forall|q: Seq<u8>| #[trigger] self.model@.dom().contains(q)
            implies full.dom().contains(q) by {
            let j0 = choose|j: int|
                #[trigger] self.live(j) && self.path_of(j) == q && self.data@[j].value is Some;
            assert(self.node_ok(j0));
            assert(0 <= j0 < self.data@.len() && self.live(j0) && self.path_of(j0) == q
                && self.data@[j0].value is Some);
        }
        assert(full =~= self.model@);
    }

    /// Merges every association of `other` into `self`; on a key collision
    /// `other`'s value wins, matching `insert`'s overwrite semantics.
    /// `other` is drained: it is left empty.
    pub fn append(&mut self, other: &mut TrieMap<V>)
        requires
            old(self).wf(),
            old(other).wf(),
        ensures
            final(self).wf(),
            final(other).wf(),
            final(self)@ == old(self)@.union_prefer_right(old(other)@),
            final(other)@ == Map::<Seq<u8>, V>::empty(),
    {
        let ghost m0 = self.model@;
        let dlen = other.data.len();
        proof {
            self.lemma_partial_zero(m0);
            other.lemma_partial_zero(m0);
        }
        let mut j: usize = 0;
        while j < dlen
            invariant
                self.wf(),
                other.wf(),
                other == old(other),
                m0 == old(self).model@,
                j <= dlen,
                dlen == other.data@.len(),
                self.model@ == m0.union_prefer_right(other.partial_model(j as int)),
            decreases dlen - j,
        {
            match &other.data[j].value {
                Some(rc) => {
                    proof {
                        if !other.live(j as int) {
                            assert(other.data@[j as int].value is None);
                        }
                        assert(other.live(j as int));
                    }
                    let handle = rc_clone(rc);
                    let key = other.key_of_node(j);
                    proof {
                        assert(other.node_ok(j as int));
                        assert(key@.len() >= 1);
                        assert(other.model@.dom().contains(key@));
                        assert(rc_value(&handle) == other.model@[key@]);
                    }
                    self.insert_handle(&key, handle);
                    proof {
                        other.lemma_partial_step(j as int, m0);
                    }
                },
                None => {
                    proof {
                        other.lemma_partial_skip(j as int);
                    }
                },
            }
            j += 1;
        }
        proof {
            other.lemma_partial_full();
        }
        *other = TrieMap::new_empty();
    }

    /// The number of keys currently mapped to a value.
    pub fn len(&self) -> (r: usize)
        requires
            self.wf(),
        ensures
            r == self@.dom().len(),
    {
        self.length
    }
}

/// Inserting a unit at its binary-search miss position keeps a table
/// strictly sorted.
proof fn lemma_sorted_insert(s: Seq<u8>, i: int, k: u8)
    requires
        sorted_strict(s),
        0 <= i <= s.len(),
        forall|t: int| 0 <= t < i ==> s[t] < k,
        forall|t: int| i <= t < s.len() ==> s[t] > k,
    ensures
        sorted_strict(s.insert(i, k)),
{
    s.insert_ensures(i, k);
    let s2 = s.insert(i, k);
    assert forall|a: int, b: int| 0 <= a < b < s2.len() implies s2[a] < s2[b] by {
        if a < i {
            assert(s2[a] == s[a]);
        } else if a == i {
            assert(s2[a] == k);
        } else {
            assert(s2[a] == s[a - 1]);
        }
        if b < i {
            assert(s2[b] == s[b]);
        } else if b == i {
            assert(s2[b] == k);
        } else {
            assert(s2[b] == s[b - 1]);
        }
    }
}

/// A table entry survives the insertion of a further slot.
proof fn lemma_has_entry_insert(
    keys: Seq<u8>,
    links: Seq<usize>,
    i: int,
    k: u8,
    m: usize,
    k0: u8,
    j: int,
)
    requires
        0 <= i <= keys.len(),
        keys.len() == links.len(),
        has_entry(keys, links, k0, j),
    ensures
        has_entry(keys.insert(i, k), links.insert(i, m), k0, j),
{
    keys.insert_ensures(i, k);
    links.insert_ensures(i, m);
    let t = choose|t: int|
        0 <= t < keys.len() && t < links.len() && keys[t] == k0 && links[t] as int == j;
    if t < i {
        assert(keys.insert(i, k)[t] == keys[t] && links.insert(i, m)[t] == links[t]);
    } else {
        assert(keys.insert(i, k)[t + 1] == keys[t] && links.insert(i, m)[t + 1] == links[t]);
    }
}

/// Removing a slot keeps a table strictly sorted.
proof fn lemma_sorted_remove(s: Seq<u8>, i: int)
    requires
        sorted_strict(s),
        0 <= i < s.len(),
    ensures
        sorted_strict(s.remove(i)),
{
    s.remove_ensures(i);
    let s2 = s.remove(i);
    assert forall|a: int, b: int| 0 <= a < b < s2.len() implies s2[a] < s2[b] by {
        if a < i {
            assert(s2[a] == s[a]);
        } else {
            assert(s2[a] == s[a + 1]);
        }
        if b < i {
            assert(s2[b] == s[b]);
        } else {
            assert(s2[b] == s[b + 1]);
        }
    }
}

/// A table entry not sitting in the removed slot survives the removal.
proof fn lemma_has_entry_remove(keys: Seq<u8>, links: Seq<usize>, i: int, k0: u8, j: int)
    requires
        keys.len() == links.len(),
        0 <= i < keys.len(),
        links[i] as int != j,
        has_entry(keys, links, k0, j),
    ensures
        has_entry(keys.remove(i), links.remove(i), k0, j),
{
    keys.remove_ensures(i);
    links.remove_ensures(i);
    let t = choose|t: int|
        0 <= t < keys.len() && t < links.len() && keys[t] == k0 && links[t] as int == j;
    if t < i {
        assert(keys.remove(i)[t] == keys[t] && links.remove(i)[t] == links[t]);
    } else {
        assert(keys.remove(i)[t - 1] == keys[t] && links.remove(i)[t - 1] == links[t]);
    }
}

/// Binary search over a strictly sorted table.  On a hit, the slot holding
/// `k`; on a miss, the slot where `k` would be inserted to keep the table
/// sorted.
fn find_slot(keys: &Vec<u8>, k: u8) -> (r: Result<usize, usize>)
    requires
        sorted_strict(keys@),
    ensures
        match r {
            Ok(i) => i < keys@.len() && keys@[i as int] == k,
            Err(i) => {
                &&& i <= keys@.len()
                &&& forall|t: int| 0 <= t < i ==> keys@[t] < k
                &&& forall|t: int| i <= t < keys@.len() ==> keys@[t] > k
            },
        },
{
    let mut lo: usize = 0;
    let mut hi: usize = keys.len();
    while lo < hi
        invariant
            lo <= hi <= keys@.len(),
            sorted_strict(keys@),
            forall|t: int| 0 <= t < lo ==> keys@[t] < k,
            forall|t: int| hi <= t < keys@.len() ==> keys@[t] > k,
        decreases hi - lo,
    {
        let mid = lo + (hi - lo) / 2;
        let cur = keys[mid];
        if cur == k {
            return Ok(mid);
        } else if cur < k {
            lo = mid + 1;
        } else {
            hi = mid;
        }
    }
    Err(lo)
}

} // verus!
