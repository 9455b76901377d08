//! The LRU cache proper: the entry arena, the hash index, and the
//! doubly-linked recency list, together with the sequence model that the
//! public contracts are stated over.

use crate::cache::Cache;
use std::collections::HashMap;
use std::hash::Hash;
use vstd::prelude::*;

verus! {

broadcast use vstd::std_specs::hash::group_hash_axioms;

/// One cache entry: a key-value pair plus its two order links.  `next` points
/// toward the more recently used neighbour, `prev` toward the less recently
/// used one; the links are slot handles into the cache's entry arena, never
/// owning references, so detaching and attaching is plain handle bookkeeping.
#[derive(Clone, Copy)]
pub struct Node<K, V> {
    pub next: Option<usize>,
    pub prev: Option<usize>,
    pub key: K,
    pub value: V,
}

impl<K, V> Node<K, V> {
    /// A fresh, unlinked entry holding `key` and `value`.
    pub fn new(key: K, value: V) -> (n: Node<K, V>)
        ensures
            n.next is None,
            n.prev is None,
            n.key == key,
            n.value == value,
    {
        Node { next: None, prev: None, key, value }
    }
}

/// There is an entry with key `k` somewhere in the recency sequence `s`.
pub open spec fn has_key<K, V>(s: Seq<(K, V)>, k: K) -> bool {
    exists|p: int| 0 <= p < s.len() && s[p].0 == k
}

/// The position of the entry with key `k` in `s` (meaningful when the keys of
/// `s` are distinct and `has_key(s, k)` holds, as they are in every cache
/// state).
pub open spec fn key_index<K, V>(s: Seq<(K, V)>, k: K) -> int {
    choose|p: int| 0 <= p < s.len() && s[p].0 == k
}

/// The recency sequence after removing the entry with key `k`, if any.
pub open spec fn detached<K, V>(s: Seq<(K, V)>, k: K) -> Seq<(K, V)> {
    if has_key(s, k) {
        s.remove(key_index(s, k))
    } else {
        s
    }
}

/// The recency sequence after `insert(k, v)` on a cache of capacity `cap`:
/// any old entry for `k` is dropped, `(k, v)` becomes the most recently used
/// entry, and if the bound is now exceeded the least recently used entry is
/// evicted.
pub open spec fn inserted<K, V>(s: Seq<(K, V)>, k: K, v: V, cap: usize) -> Seq<(K, V)> {
    let pushed = detached(s, k).push((k, v));
    if pushed.len() > cap {
        pushed.subrange(1, pushed.len() as int)
    } else {
        pushed
    }
}

/// The recency sequence after a successful `get(k)`: the entry keeps its
/// value but moves to the most recently used end.
pub open spec fn promoted<K, V>(s: Seq<(K, V)>, k: K) -> Seq<(K, V)> {
    if has_key(s, k) {
        s.remove(key_index(s, k)).push(s[key_index(s, k)])
    } else {
        s
    }
}

/// LRU cache implemented by a hash map and a doubly-linked list.  The more
/// recently accessed an element is, the closer it lies to the head of the
/// list; the least recently accessed element lies at the tail and is the one
/// evicted when an insertion exceeds the capacity.
///
/// The list is intrusive: `map` sends each live key to the slot in `nodes`
/// holding its entry, and that same slot carries the entry's position in the
/// recency order, so index and list always share one entry object per key.
pub struct SyncNaiveLru<K, V> {
    pub(crate) map: HashMap<K, usize>,
    pub(crate) nodes: Vec<Node<K, V>>,
    pub(crate) free: Vec<usize>,
    pub(crate) head: Option<usize>,
    pub(crate) tail: Option<usize>,
    pub(crate) capacity: usize,
    /// The slots of the live entries, least recently used first.
    pub(crate) order: Ghost<Seq<usize>>,
}

impl<K, V> View for SyncNaiveLru<K, V> {
    type V = Seq<(K, V)>;

    /// The cache's model: its live key-value pairs in recency order, least
    /// recently used first, most recently used last.
    closed spec fn view(&self) -> Seq<(K, V)> {
        self.order@.map_values(|i: usize| (self.nodes@[i as int].key, self.nodes@[i as int].value))
    }
}

impl<K, V> SyncNaiveLru<K, V> {
    /// The capacity fixed at construction.
    pub closed spec fn cap(self) -> usize {
        self.capacity
    }

    /// The set of keys held by the hash index.
    pub closed spec fn index_keys(self) -> Set<K> {
        self.map@.dom()
    }

    /// The links of the entry at position `p` of the recency order agree with
    /// its neighbours, and its slot handle is in bounds.
    pub(crate) closed spec fn link_ok(self, p: int) -> bool {
        let ord = self.order@;
        &&& (ord[p] as int) < self.nodes@.len()
        &&& self.nodes@[ord[p] as int].prev == (if p == 0 {
            None::<usize>
        } else {
            Some(ord[p - 1])
        })
        &&& self.nodes@[ord[p] as int].next == (if p == ord.len() - 1 {
            None::<usize>
        } else {
            Some(ord[p + 1])
        })
    }

    /// Well-formedness of the recency list alone: the order visits distinct,
    /// in-bounds slots, the links chain them both ways, `head` and `tail` are
    /// the two ends, and the free slots stay apart from the live ones.  The
    /// hash index plays no part here, so the list primitives can be specified
    /// even while an entry has been detached from the list but not yet
    /// dropped from the index.
    pub closed spec fn list_inv(self) -> bool {
        let ord = self.order@;
        &&& ord.no_duplicates()
        &&& forall|p: int| 0 <= p < ord.len() ==> self.link_ok(p)
        &&& self.tail == (if ord.len() == 0 {
            None::<usize>
        } else {
            Some(ord[0])
        })
        &&& self.head == (if ord.len() == 0 {
            None::<usize>
        } else {
            Some(ord[ord.len() - 1])
        })
        &&& self.free@.no_duplicates()
        &&& forall|q: int| 0 <= q < self.free@.len() ==> (self.free@[q] as int) < self.nodes@.len()
        &&& forall|p: int, q: int|
            0 <= p < ord.len() && 0 <= q < self.free@.len() ==> ord[p] != self.free@[q]
    }

    /// The index entry for the key at position `p` of the recency order
    /// points back at that very slot.
    spec fn map_at_ok(self, p: int) -> bool {
        let i = self.order@[p];
        &&& self.map@.contains_key(self.nodes@[i as int].key)
        &&& self.map@[self.nodes@[i as int].key] == i
    }

    /// Coherence of index and list: every listed key is indexed at its own
    /// slot, every indexed key is listed, and the index holds exactly as many
    /// keys as the list holds entries.
    spec fn map_inv(self) -> bool {
        &&& forall|p: int| 0 <= p < self.order@.len() ==> self.map_at_ok(p)
        &&& forall|k: K|
            #[trigger] self.map@.dom().contains(k) ==> exists|p: int|
                0 <= p < self.order@.len() && self.nodes@[self.order@[p] as int].key == k
        &&& self.map@.dom().len() == self.order@.len()
    }

    /// Map/list coherence: in every well-formed cache state the set of keys
    /// held by the hash index is exactly the set of keys on the recency
    /// list, the walk of the list never visits two entries with one key, and
    /// the index holds exactly as many keys as the list holds entries, so a
    /// full walk never needs more steps than the live count.
    pub proof fn lemma_map_list_coherence(self)
        requires
            self.wf(),
        ensures
            self.index_keys() == Set::new(|k: K| has_key(self@, k)),
            forall|p: int, q: int|
                0 <= p < self@.len() && 0 <= q < self@.len() && p != q ==> (#[trigger] self@[p]).0
                    != (#[trigger] self@[q]).0,
            self.index_keys().len() == self@.len(),
    {
        self.lemma_keys_distinct();
        assert forall|k: K| #![all_triggers]
            self.index_keys().contains(k) <==> has_key(self@, k) by {
            self.lemma_key_lookup(k);
        }
        assert(self.index_keys() =~= Set::new(|k: K| has_key(self@, k)));
    }

    /// Eviction order: inserting a fresh key into a full cache evicts
    /// exactly the least recently used entry.  The new model is the old one
    /// without its first entry and with the new pair at the most recent end,
    /// and the evicted key is absent from it.
    pub proof fn lemma_eviction_order(self, k: K, v: V)
        requires
            self.wf(),
            !has_key(self@, k),
            self@.len() == self.cap(),
            self.cap() >= 1,
        ensures
            inserted(self@, k, v, self.cap()) == self@.subrange(1, self@.len() as int).push(
                (k, v),
            ),
            !has_key(inserted(self@, k, v, self.cap()), self@[0].0),
    {
        self.lemma_keys_distinct();
        let out = inserted(self@, k, v, self.cap());
        assert(detached(self@, k) == self@);
        assert(out =~= self@.subrange(1, self@.len() as int).push((k, v)));
        assert(!has_key(out, self@[0].0)) by {
            if has_key(out, self@[0].0) {
                let p = choose|p: int| 0 <= p < out.len() && out[p].0 == self@[0].0;
                if p < out.len() - 1 {
                    assert(out[p] == self@[p + 1]);
                } else {
                    assert(out[p].0 == k);
                }
            }
        }
    }

    /// Single-entry edge case: insert one key into an empty cache, then take
    /// it out again — by explicit removal, or at capacity zero by the
    /// insertion's own immediate eviction — and the cache is empty once
    /// more.
    pub proof fn lemma_single_entry(self, k: K, v: V)
        requires
            self.wf(),
            self@.len() == 0,
        ensures
            detached(inserted(self@, k, v, self.cap()), k).len() == 0,
    {
        let mid = inserted(self@, k, v, self.cap());
        assert(detached(self@, k) == self@);
        if self.cap() == 0 {
            assert(mid =~= Seq::<(K, V)>::empty());
        } else {
            assert(mid =~= seq![(k, v)]);
            assert(mid[0].0 == k);
            assert(has_key(mid, k));
            assert(key_index(mid, k) == 0);
            assert(detached(mid, k) =~= Seq::<(K, V)>::empty());
        }
    }

    /// The cache's full invariant: list well-formedness, index/list
    /// coherence, the capacity bound, and a key type whose `Hash` and `Eq`
    /// behave as a hash table needs.
    pub closed spec fn wf(self) -> bool {
        &&& self.list_inv()
        &&& self.map_inv()
        &&& self.order@.len() <= self.capacity
        &&& vstd::std_specs::hash::obeys_key_model::<K>()
    }
}

impl<K, V> SyncNaiveLru<K, V> {
    /// The shape of a well-formed list, spelt out over the fields: the tail
    /// starts the order, the `next` links chain it, and the model pairs each
    /// position with its slot's key and value.
    pub(crate) proof fn lemma_order_links(self)
        requires
            self.list_inv(),
        ensures
            self.order@.no_duplicates(),
            forall|p: int|
                0 <= p < self.order@.len() ==> (#[trigger] self.order@[p] as int)
                    < self.nodes@.len(),
            forall|p: int|
                0 <= p < self.order@.len() ==> #[trigger] self.nodes@[self.order@[p] as int].next
                    == (if p == self.order@.len() - 1 {
                    None::<usize>
                } else {
                    Some(self.order@[p + 1])
                }),
            self.tail == (if self.order@.len() == 0 {
                None::<usize>
            } else {
                Some(self.order@[0])
            }),
            self@.len() == self.order@.len(),
            forall|p: int|
                0 <= p < self.order@.len() ==> #[trigger] self@[p] == (
                self.nodes@[self.order@[p] as int].key,
                self.nodes@[self.order@[p] as int].value,
            ),
    {
        assert forall|p: int|
            0 <= p < self.order@.len() implies (#[trigger] self.order@[p] as int)
            < self.nodes@.len() by {
            assert(self.link_ok(p));
        }
        assert forall|p: int|
            0 <= p < self.order@.len() implies #[trigger] self.nodes@[self.order@[p] as int].next
            == (if p == self.order@.len() - 1 {
            None::<usize>
        } else {
            Some(self.order@[p + 1])
        }) by {
            assert(self.link_ok(p));
        }
    }

    /// No key appears twice in the recency order: the index sends each
    /// listed key to a single slot, and the order visits each slot once.
    proof fn lemma_keys_distinct(self)
        requires
            self.list_inv(),
            self.map_inv(),
        ensures
            forall|p: int, q: int|
                0 <= p < self@.len() && 0 <= q < self@.len() && p != q ==> (#[trigger] self@[p]).0
                    != (#[trigger] self@[q]).0,
    {
        assert forall|p: int, q: int|
            0 <= p < self@.len() && 0 <= q < self@.len() && p != q implies (#[trigger] self@[p]).0
            != (#[trigger] self@[q]).0 by {
            assert(self.map_at_ok(p));
            assert(self.map_at_ok(q));
        }
    }

    /// Lookup through the index agrees with lookup through the model: a key
    /// is indexed exactly when it is live, and its index entry names the slot
    /// standing at its position in the recency order.
    proof fn lemma_key_lookup(self, k: K)
        requires
            self.list_inv(),
            self.map_inv(),
        ensures
            has_key(self@, k) <==> self.map@.contains_key(k),
            self.map@.contains_key(k) ==> {
                let p = key_index(self@, k);
                &&& 0 <= p < self@.len()
                &&& self@[p].0 == k
                &&& self.order@[p] == self.map@[k]
            },
    {
        if self.map@.contains_key(k) {
            let p0 = choose|p: int|
                0 <= p < self.order@.len() && self.nodes@[self.order@[p] as int].key == k;
            assert(self@[p0].0 == k);
            assert(has_key(self@, k));
            let p = key_index(self@, k);
            assert(0 <= p < self@.len() && self@[p].0 == k);
            assert(self.map_at_ok(p));
        }
        if has_key(self@, k) {
            let p = choose|p: int| 0 <= p < self@.len() && self@[p].0 == k;
            assert(self.map_at_ok(p));
        }
    }
}

impl<K, V> SyncNaiveLru<K, V> where K: Hash + Eq + Copy, V: Copy {
    /// An empty cache that will hold at most `capacity` entries.  With
    /// capacity zero every insertion evicts the entry it just added, so the
    /// cache stays empty.
    pub fn new(capacity: usize) -> (c: SyncNaiveLru<K, V>)
        requires
            vstd::std_specs::hash::obeys_key_model::<K>(),
        ensures
            c.wf(),
            c@ == Seq::<(K, V)>::empty(),
            c.cap() == capacity,
    {
        let c = SyncNaiveLru {
            map: HashMap::new(),
            nodes: Vec::new(),
            free: Vec::new(),
            head: None,
            tail: None,
            capacity,
            order: Ghost(Seq::empty()),
        };
        proof {
            assert(c@ =~= Seq::<(K, V)>::empty());
        }
        c
    }

    /// Insert a new key-value pair, making it the most recently used entry.
    /// If `key` is already present, its value is overwritten and the entry is
    /// promoted to the head without changing the live count.  Otherwise a
    /// fresh entry is added, and if the number of existing elements then
    /// exceeds `capacity`, the least recently used entry is evicted.
    #[verifier::rlimit(100)]
    pub fn insert(&mut self, key: K, value: V)
        requires
            old(self).wf(),
        ensures
            final(self).wf(),
            final(self).cap() == old(self).cap(),
            final(self)@ == inserted(old(self)@, key, value, old(self).cap()),
            final(self)@.len() <= final(self).cap(),
    {
        proof {
            self.lemma_key_lookup(key);
            self.lemma_keys_distinct();
        }
        let ghost ord = self.order@;
        let existing: Option<usize> = match self.map.get(&key) {
            Some(r) => Some(*r),
            None => None,
        };
        match existing {
            Some(idx) => {
                let ghost p = key_index(old(self)@, key);
                proof {
                    assert(self.map@.contains_key(key) && self.map@[key] == idx);
                    assert(ord[p] == idx);
                    assert(ord.contains(ord[p]));
                    assert(self.link_ok(p));
                }
                self.unlink(idx);
                proof {
                    assert(ord.index_of(idx) == p) by {
                        let p2 = ord.index_of(idx);
                        if p2 != p {
                            assert(ord[p2] == idx && ord[p] == idx);
                        }
                    }
                }
                let ghost su = *self;
                let mut n = self.nodes[idx];
                n.value = value;
                self.nodes.set(idx, n);
                proof {
                    let ord2 = self.order@;
                    assert(ord2 == ord.remove(p));
                    assert forall|q: int| 0 <= q < ord2.len() implies ord2[q] != idx by {
                        let r: int = if q < p { q } else { q + 1 };
                        assert(ord2[q] == ord[r] && r != p);
                    }
                    assert forall|q: int| 0 <= q < ord2.len() implies self.link_ok(q) by {
                        assert(su.link_ok(q));
                        assert(ord2[q] != idx);
                        if q > 0 {
                            assert(ord2[q - 1] != idx);
                        }
                    }
                    assert(self.list_inv());
                    assert(!ord2.contains(idx));
                    assert forall|q: int| 0 <= q < self.free@.len() implies self.free@[q]
                        != idx by {
                        assert(old(self).order@[p] != old(self).free@[q]);
                    }
                    assert(!self.free@.contains(idx));
                }
                let ghost sv = *self;
                self.attach(idx);
                proof {
                    let ord3 = self.order@;
                    assert(ord3 == ord.remove(p).push(idx));
                    // Entries other than the promoted one keep their key and
                    // value through the whole splice.
                    assert forall|q: int|
                        0 <= q < ord3.len() - 1 implies ord3[q] != idx && #[trigger] self.nodes@[ord3[q] as int].key
                            == old(self).nodes@[ord3[q] as int].key && self.nodes@[ord3[q] as int].value
                            == old(self).nodes@[ord3[q] as int].value by {
                        let r: int = if q < p { q } else { q + 1 };
                        assert(ord3[q] == ord[r] && r != p);
                        assert(old(self).link_ok(r));
                        assert(self.nodes@[ord3[q] as int].key == sv.nodes@[ord3[q] as int].key);
                        assert(sv.nodes@[ord3[q] as int].key == su.nodes@[ord3[q] as int].key);
                        assert(su.nodes@[ord3[q] as int].key == old(self).nodes@[ord3[q] as int].key);
                        assert(self.nodes@[ord3[q] as int].value == sv.nodes@[ord3[q] as int].value);
                        assert(sv.nodes@[ord3[q] as int].value == su.nodes@[ord3[q] as int].value);
                        assert(su.nodes@[ord3[q] as int].value == old(self).nodes@[ord3[q] as int].value);
                    }
                    // The promoted entry keeps its key and takes the new
                    // value.
                    assert(self.nodes@[idx as int].key == sv.nodes@[idx as int].key);
                    assert(sv.nodes@[idx as int] == n);
                    assert(n.key == su.nodes@[idx as int].key);
                    assert(su.nodes@[idx as int].key == old(self).nodes@[idx as int].key);
                    assert(self.nodes@[idx as int].key == key);
                    assert(self.nodes@[idx as int].value == value);
                    // Index and list cohere again: the map is unchanged, the
                    // promoted entry keeps its key, every other entry keeps
                    // its place in the index.
                    assert forall|q: int| 0 <= q < ord3.len() implies self.map_at_ok(q) by {
                        if q < ord3.len() - 1 {
                            let r: int = if q < p { q } else { q + 1 };
                            assert(ord3[q] == ord[r]);
                            assert(old(self).map_at_ok(r));
                        } else {
                            assert(ord3[q] == idx);
                            assert(old(self).map_at_ok(p));
                        }
                    }
                    assert forall|k: K| #[trigger]
                        self.map@.dom().contains(k) implies exists|q: int|
                        0 <= q < ord3.len() && self.nodes@[ord3[q] as int].key == k by {
                        let r = choose|r: int|
                            0 <= r < ord.len() && old(self).nodes@[ord[r] as int].key == k;
                        if r == p {
                            assert(k == key);
                            assert(self.nodes@[ord3[ord3.len() - 1] as int].key == k);
                        } else {
                            let q: int = if r < p { r } else { r - 1 };
                            assert(ord3[q] == ord[r]);
                            assert(self.nodes@[ord3[q] as int].key == k);
                        }
                    }
                    assert(self.map_inv());
                    assert(self.wf());
                    // The model moved the matched pair to the back with its
                    // new value and dropped nothing.
                    let target = inserted(old(self)@, key, value, old(self).cap());
                    assert(has_key(old(self)@, key));
                    assert(target == detached(old(self)@, key).push((key, value)));
                    assert forall|q: int| 0 <= q < self@.len() implies self@[q] == target[q] by {
                        if q < self@.len() - 1 {
                            let r: int = if q < p { q } else { q + 1 };
                            assert(ord3[q] == ord[r]);
                            assert(self@[q] == old(self)@[r]);
                            assert(target[q] == old(self)@.remove(p)[q]);
                            assert(old(self)@.remove(p)[q] == old(self)@[r]);
                        } else {
                            assert(self@[q] == (key, value));
                        }
                    }
                    assert(self@ =~= target);
                }
            },
            None => {
                proof {
                    assert(!self.map@.contains_key(key));
                    assert(!has_key(self@, key));
                }
                let nd = Node::new(key, value);
                let ghost free0 = self.free@;
                let idx: usize = match self.free.pop() {
                    Some(j) => {
                        proof {
                            assert(free0[free0.len() - 1] == j);
                            assert((j as int) < self.nodes@.len());
                        }
                        self.nodes.set(j, nd);
                        j
                    },
                    None => {
                        self.nodes.push(nd);
                        self.nodes.len() - 1
                    },
                };
                proof {
                    // The allocated slot is fresh: in bounds, outside the
                    // order, outside the remaining free list; and the list
                    // invariant survived writing into it.
                    assert forall|q: int| 0 <= q < ord.len() implies ord[q] != idx by {
                        assert(old(self).link_ok(q));
                        if free0.len() > 0 {
                            assert(idx == free0[free0.len() - 1]);
                            assert(ord[q] != free0[free0.len() - 1]);
                        }
                    }
                    assert(!ord.contains(idx));
                    assert forall|q: int| 0 <= q < self.free@.len() implies self.free@[q]
                        != idx by {
                        if free0.len() > 0 {
                            assert(self.free@[q] == free0[q]);
                            assert(free0[q] != free0[free0.len() - 1]);
                        }
                    }
                    assert(!self.free@.contains(idx));
                    assert(self.free@.no_duplicates());
                    assert forall|q: int| 0 <= q < ord.len() implies self.link_ok(q) by {
                        assert(old(self).link_ok(q));
                        assert(ord[q] != idx);
                        if q > 0 {
                            assert(ord[q - 1] != idx);
                        }
                    }
                    assert(self.list_inv());
                }
                self.map.insert(key, idx);
                proof {
                    assert(self.list_inv()) by {
                        assert forall|q: int| 0 <= q < ord.len() implies self.link_ok(q) by {
                            assert(old(self).link_ok(q));
                            assert(ord[q] != idx);
                            if q > 0 {
                                assert(ord[q - 1] != idx);
                            }
                        }
                    }
                }
                let ghost sv2 = *self;
                self.attach(idx);
                proof {
                    let ord3 = self.order@;
                    assert(ord3 == ord.push(idx));
                    assert(self.map@ == old(self).map@.insert(key, idx));
                    // Every pre-existing entry keeps its key and value in its
                    // old position; the fresh entry carries the new pair.
                    assert forall|q: int|
                        0 <= q < ord.len() implies ord[q] != idx && #[trigger] self.nodes@[ord[q] as int].key
                            == old(self).nodes@[ord[q] as int].key && self.nodes@[ord[q] as int].value
                            == old(self).nodes@[ord[q] as int].value by {
                        assert(old(self).link_ok(q));
                        assert(self.nodes@[ord[q] as int].key == sv2.nodes@[ord[q] as int].key);
                        assert(sv2.nodes@[ord[q] as int].key == old(self).nodes@[ord[q] as int].key);
                        assert(self.nodes@[ord[q] as int].value == sv2.nodes@[ord[q] as int].value);
                        assert(sv2.nodes@[ord[q] as int].value == old(self).nodes@[ord[q] as int].value);
                    }
                    assert(self.nodes@[idx as int].key == sv2.nodes@[idx as int].key);
                    assert(sv2.nodes@[idx as int] == nd);
                    assert(self.nodes@[idx as int].key == key);
                    assert(self.nodes@[idx as int].value == value);
                    assert forall|q: int| 0 <= q < ord3.len() implies self.map_at_ok(q) by {
                        if q < ord3.len() - 1 {
                            assert(ord3[q] == ord[q]);
                            assert(old(self).map_at_ok(q));
                        } else {
                            assert(ord3[q] == idx);
                        }
                    }
                    assert forall|k: K| #[trigger]
                        self.map@.dom().contains(k) implies exists|q: int|
                        0 <= q < ord3.len() && self.nodes@[ord3[q] as int].key == k by {
                        if k == key {
                            assert(self.nodes@[ord3[ord3.len() - 1] as int].key == k);
                        } else {
                            let r = choose|r: int|
                                0 <= r < ord.len() && old(self).nodes@[ord[r] as int].key == k;
                            assert(ord3[r] == ord[r]);
                            assert(self.nodes@[ord3[r] as int].key == k);
                        }
                    }
                    assert(self.map@.dom().len() == ord3.len());
                    assert(self.map_inv());
                    assert forall|q: int|
                        0 <= q < ord.len() implies self@[q] == old(self)@[q] by {
                        assert(ord3[q] == ord[q]);
                    }
                    assert(self@[ord.len() as int] == (key, value));
                    assert(self@ =~= old(self)@.push((key, value)));
                    self.lemma_keys_distinct();
                }
                let ghost mid = *self;
                if self.map.len() > self.capacity {
                    proof {
                        assert(self.order@.len() > self.capacity);
                        assert(self.order@.len() == ord.len() + 1);
                    }
                    let t = self.tail.unwrap();
                    proof {
                        assert(t == self.order@[0]);
                        assert(self.link_ok(0));
                        assert(self.order@.contains(self.order@[0]));
                        assert(self.map_at_ok(0));
                    }
                    let tk = self.nodes[t].key;
                    self.unlink(t);
                    proof {
                        assert(mid.order@.index_of(t) == 0) by {
                            let p2 = mid.order@.index_of(t);
                            if p2 != 0 {
                                assert(mid.order@[p2] == t && mid.order@[0] == t);
                            }
                        }
                    }
                    let ghost sw = *self;
                    self.map.remove(&tk);
                    self.free.push(t);
                    proof {
                        let ord4 = self.order@;
                        assert(ord4 == mid.order@.remove(0));
                        assert(self.map@ == mid.map@.remove(tk));
                        assert(self.nodes == sw.nodes && self.order == sw.order && self.head
                            == sw.head && self.tail == sw.tail);
                        assert forall|q: int| 0 <= q < ord4.len() implies self.link_ok(q) by {
                            assert(sw.link_ok(q));
                        }
                        // The evicted slot is no longer in the order, so the
                        // free list stays disjoint from it.
                        assert forall|q: int| 0 <= q < ord4.len() implies ord4[q] != t by {
                            assert(ord4[q] == mid.order@[q + 1]);
                        }
                        assert(self.free@ == mid.free@.push(t));
                        assert forall|pq: int, q: int|
                            0 <= pq < ord4.len() && 0 <= q < self.free@.len() implies ord4[pq]
                            != self.free@[q] by {
                            if q < self.free@.len() - 1 {
                                assert(mid.order@[pq + 1] != mid.free@[q]);
                            } else {
                                assert(ord4[pq] != t);
                            }
                        }
                        assert(!mid.free@.contains(t)) by {
                            if mid.free@.contains(t) {
                                let q = choose|q: int|
                                    0 <= q < mid.free@.len() && mid.free@[q] == t;
                                assert(mid.order@[0] != mid.free@[q]);
                            }
                        }
                        assert(self.free@.no_duplicates());
                        assert(self.list_inv());
                        // Every entry that survives keeps its key and value,
                        // one position closer to the tail.
                        assert forall|q: int|
                            0 <= q < ord4.len() implies ord4[q] == mid.order@[q + 1]
                                && #[trigger] self.nodes@[ord4[q] as int].key == mid.nodes@[
                            ord4[q] as int].key && self.nodes@[ord4[q] as int].value == mid.nodes@[
                            ord4[q] as int].value by {
                            assert(mid.link_ok(q + 1));
                            assert(sw.nodes@[ord4[q] as int].key == mid.nodes@[ord4[q] as int].key);
                            assert(sw.nodes@[ord4[q] as int].value == mid.nodes@[ord4[q] as int].value);
                        }
                        // Every surviving key is distinct from the evicted
                        // one, so the index survives the removal intact.
                        assert(mid.nodes@[mid.order@[0] as int].key == tk);
                        assert forall|q: int| 0 <= q < ord4.len() implies self.map_at_ok(q) by {
                            assert(ord4[q] == mid.order@[q + 1]);
                            assert(mid.map_at_ok(q + 1));
                            assert(mid@[q + 1].0 != mid@[0].0);
                            assert(self.nodes@[ord4[q] as int].key == mid.nodes@[mid.order@[q + 1] as int].key);
                        }
                        assert forall|k: K| #[trigger]
                            self.map@.dom().contains(k) implies exists|q: int|
                            0 <= q < ord4.len() && self.nodes@[ord4[q] as int].key == k by {
                            let r = choose|r: int|
                                0 <= r < mid.order@.len() && mid.nodes@[mid.order@[r] as int].key
                                    == k;
                            assert(k != tk);
                            assert(r != 0) by {
                                if r == 0 {
                                    assert(mid.nodes@[mid.order@[0] as int].key == tk);
                                }
                            }
                            assert(ord4[r - 1] == mid.order@[r]);
                            assert(self.nodes@[ord4[r - 1] as int].key == k);
                        }
                        assert(self.map@.dom().len() == ord4.len());
                        assert(self.map_inv());
                        assert forall|q: int|
                            0 <= q < ord4.len() implies self@[q] == mid@[q + 1] by {
                            assert(ord4[q] == mid.order@[q + 1]);
                        }
                        assert(self@ =~= mid@.subrange(1, mid@.len() as int));
                        assert(self@ =~= inserted(old(self)@, key, value, old(self).cap()));
                    }
                } else {
                    proof {
                        assert(self.order@.len() <= self.capacity);
                        assert(self@ =~= inserted(old(self)@, key, value, old(self).cap()));
                    }
                }
            },
        }
    }

    /// Get the value corresponding to `key`, or `None` when the key is
    /// absent.  A hit detaches the matched entry from its list position and
    /// reattaches it at the head, so a lookup mutates the recency order even
    /// though it is semantically a read; a miss changes nothing at all.
    #[verifier::rlimit(100)]
    pub fn get(&mut self, key: &K) -> (r: Option<V>)
        requires
            old(self).wf(),
        ensures
            final(self).wf(),
            final(self).cap() == old(self).cap(),
            r is Some <==> has_key(old(self)@, *key),
            r is None ==> final(self)@ == old(self)@,
            r matches Some(v) ==> v == old(self)@[key_index(old(self)@, *key)].1 && final(self)@
                == promoted(old(self)@, *key),
    {
        proof {
            self.lemma_key_lookup(*key);
            self.lemma_keys_distinct();
        }
        let ghost ord = self.order@;
        let existing: Option<usize> = match self.map.get(key) {
            Some(r) => Some(*r),
            None => None,
        };
        match existing {
            Some(idx) => {
                let ghost p = key_index(old(self)@, *key);
                proof {
                    assert(self.map@.contains_key(*key) && self.map@[*key] == idx);
                    assert(ord[p] == idx);
                    assert(ord.contains(ord[p]));
                    assert(self.link_ok(p));
                }
                self.unlink(idx);
                proof {
                    assert(ord.index_of(idx) == p) by {
                        let p2 = ord.index_of(idx);
                        if p2 != p {
                            assert(ord[p2] == idx && ord[p] == idx);
                        }
                    }
                    let ord2 = self.order@;
                    assert(ord2 == ord.remove(p));
                    assert forall|q: int| 0 <= q < ord2.len() implies ord2[q] != idx by {
                        let r2: int = if q < p { q } else { q + 1 };
                        assert(ord2[q] == ord[r2] && r2 != p);
                    }
                    assert(!ord2.contains(idx));
                    assert forall|q: int| 0 <= q < self.free@.len() implies self.free@[q]
                        != idx by {
                        assert(old(self).order@[p] != old(self).free@[q]);
                    }
                    assert(!self.free@.contains(idx));
                }
                let ghost su = *self;
                self.attach(idx);
                proof {
                    let ord3 = self.order@;
                    assert(ord3 == ord.remove(p).push(idx));
                    // Every entry keeps its key and value: only links moved.
                    assert forall|q: int|
                        0 <= q < ord3.len() - 1 implies ord3[q] != idx
                            && #[trigger] self.nodes@[ord3[q] as int].key == old(self).nodes@[
                        ord3[q] as int].key && self.nodes@[ord3[q] as int].value == old(self).nodes@[
                        ord3[q] as int].value by {
                        let r2: int = if q < p { q } else { q + 1 };
                        assert(ord3[q] == ord[r2] && r2 != p);
                        assert(old(self).link_ok(r2));
                        assert(self.nodes@[ord3[q] as int].key == su.nodes@[ord3[q] as int].key);
                        assert(su.nodes@[ord3[q] as int].key == old(self).nodes@[ord3[q] as int].key);
                        assert(self.nodes@[ord3[q] as int].value == su.nodes@[ord3[q] as int].value);
                        assert(su.nodes@[ord3[q] as int].value == old(self).nodes@[ord3[q] as int].value);
                    }
                    assert(self.nodes@[idx as int].key == su.nodes@[idx as int].key);
                    assert(su.nodes@[idx as int].key == old(self).nodes@[idx as int].key);
                    assert(self.nodes@[idx as int].value == su.nodes@[idx as int].value);
                    assert(su.nodes@[idx as int].value == old(self).nodes@[idx as int].value);
                    assert(self.nodes@[idx as int].key == *key);
                    assert(self.nodes@[idx as int].value == old(self)@[p].1);
                    assert forall|q: int| 0 <= q < ord3.len() implies self.map_at_ok(q) by {
                        if q < ord3.len() - 1 {
                            let r2: int = if q < p { q } else { q + 1 };
                            assert(ord3[q] == ord[r2]);
                            assert(old(self).map_at_ok(r2));
                        } else {
                            assert(ord3[q] == idx);
                            assert(old(self).map_at_ok(p));
                        }
                    }
                    assert forall|k: K| #[trigger]
                        self.map@.dom().contains(k) implies exists|q: int|
                        0 <= q < ord3.len() && self.nodes@[ord3[q] as int].key == k by {
                        let r2 = choose|r2: int|
                            0 <= r2 < ord.len() && old(self).nodes@[ord[r2] as int].key == k;
                        if r2 == p {
                            assert(self.nodes@[ord3[ord3.len() - 1] as int].key == k);
                        } else {
                            let q2: int = if r2 < p { r2 } else { r2 - 1 };
                            assert(ord3[q2] == ord[r2]);
                            assert(self.nodes@[ord3[q2] as int].key == k);
                        }
                    }
                    assert(self.map_inv());
                    assert(self.wf());
                    // The matched pair moved to the back unchanged.
                    let target = promoted(old(self)@, *key);
                    assert(has_key(old(self)@, *key));
                    assert(target == old(self)@.remove(p).push(old(self)@[p]));
                    assert forall|q: int| 0 <= q < self@.len() implies self@[q] == target[q] by {
                        if q < self@.len() - 1 {
                            let r2: int = if q < p { q } else { q + 1 };
                            assert(ord3[q] == ord[r2]);
                            assert(self@[q] == old(self)@[r2]);
                            assert(target[q] == old(self)@.remove(p)[q]);
                            assert(old(self)@.remove(p)[q] == old(self)@[r2]);
                        } else {
                            assert(self@[q] == old(self)@[p]);
                        }
                    }
                    assert(self@ =~= target);
                }
                Some(self.nodes[idx].value)
            },
            None => None,
        }
    }

    /// Remove the entry for `key` outright: unlink it from the recency list,
    /// drop it from the index, and recycle its slot.  An absent key changes
    /// nothing.  This explicit removal and eviction on overflow are the only
    /// ways an entry leaves the cache.
    #[verifier::rlimit(100)]
    pub fn detach(&mut self, key: &K)
        requires
            old(self).wf(),
        ensures
            final(self).wf(),
            final(self).cap() == old(self).cap(),
            final(self)@ == detached(old(self)@, *key),
    {
        proof {
            self.lemma_key_lookup(*key);
            self.lemma_keys_distinct();
        }
        let ghost ord = self.order@;
        let ghost mid = *self;
        let existing: Option<usize> = match self.map.get(key) {
            Some(r) => Some(*r),
            None => None,
        };
        match existing {
            Some(idx) => {
                let ghost p = key_index(old(self)@, *key);
                proof {
                    assert(self.map@.contains_key(*key) && self.map@[*key] == idx);
                    assert(ord[p] == idx);
                    assert(ord.contains(ord[p]));
                    assert(self.link_ok(p));
                    assert(old(self).nodes@[idx as int].key == *key);
                }
                self.unlink(idx);
                proof {
                    assert(ord.index_of(idx) == p) by {
                        let p2 = ord.index_of(idx);
                        if p2 != p {
                            assert(ord[p2] == idx && ord[p] == idx);
                        }
                    }
                }
                let ghost sw = *self;
                self.map.remove(key);
                self.free.push(idx);
                proof {
                    let ord4 = self.order@;
                    assert(ord4 == ord.remove(p));
                    assert(self.map@ == mid.map@.remove(*key));
                    assert(self.nodes == sw.nodes && self.order == sw.order && self.head
                        == sw.head && self.tail == sw.tail);
                    assert forall|q: int| 0 <= q < ord4.len() implies self.link_ok(q) by {
                        assert(sw.link_ok(q));
                    }
                    assert forall|q: int| 0 <= q < ord4.len() implies ord4[q] != idx by {
                        let r2: int = if q < p { q } else { q + 1 };
                        assert(ord4[q] == ord[r2] && r2 != p);
                    }
                    assert(self.free@ == sw.free@.push(idx));
                    assert forall|pq: int, q: int|
                        0 <= pq < ord4.len() && 0 <= q < self.free@.len() implies ord4[pq]
                        != self.free@[q] by {
                        if q < self.free@.len() - 1 {
                            assert(self.free@[q] == sw.free@[q]);
                        } else {
                            assert(ord4[pq] != idx);
                        }
                    }
                    assert(!sw.free@.contains(idx)) by {
                        if sw.free@.contains(idx) {
                            let q = choose|q: int| 0 <= q < sw.free@.len() && sw.free@[q] == idx;
                            assert(old(self).order@[p] != old(self).free@[q]);
                        }
                    }
                    assert(self.free@.no_duplicates());
                    assert(self.list_inv());
                    // Surviving entries keep key, value and index entry.
                    assert forall|q: int|
                        0 <= q < ord4.len() implies #[trigger] self.nodes@[ord4[q] as int].key
                            == old(self).nodes@[ord4[q] as int].key && self.nodes@[
                        ord4[q] as int].value == old(self).nodes@[ord4[q] as int].value by {
                        let r2: int = if q < p { q } else { q + 1 };
                        assert(ord4[q] == ord[r2]);
                        assert(old(self).link_ok(r2));
                        assert(sw.nodes@[ord4[q] as int].key == old(self).nodes@[ord4[q] as int].key);
                        assert(sw.nodes@[ord4[q] as int].value == old(self).nodes@[ord4[q] as int].value);
                    }
                    assert forall|q: int| 0 <= q < ord4.len() implies self.map_at_ok(q) by {
                        let r2: int = if q < p { q } else { q + 1 };
                        assert(ord4[q] == ord[r2]);
                        assert(old(self).map_at_ok(r2));
                        assert(old(self)@[r2].0 != old(self)@[p].0);
                    }
                    assert forall|k: K| #[trigger]
                        self.map@.dom().contains(k) implies exists|q: int|
                        0 <= q < ord4.len() && self.nodes@[ord4[q] as int].key == k by {
                        let r2 = choose|r2: int|
                            0 <= r2 < ord.len() && old(self).nodes@[ord[r2] as int].key == k;
                        assert(k != *key);
                        assert(r2 != p) by {
                            if r2 == p {
                                assert(old(self).nodes@[ord[p] as int].key == *key);
                            }
                        }
                        let q2: int = if r2 < p { r2 } else { r2 - 1 };
                        assert(ord4[q2] == ord[r2]);
                        assert(self.nodes@[ord4[q2] as int].key == k);
                    }
                    assert(self.map@.dom().len() == ord4.len());
                    assert(self.map_inv());
                    assert(self.wf());
                    assert(has_key(old(self)@, *key));
                    assert forall|q: int|
                        0 <= q < self@.len() implies self@[q] == old(self)@.remove(p)[q] by {
                        let r2: int = if q < p { q } else { q + 1 };
                        assert(ord4[q] == ord[r2]);
                        assert(self@[q] == old(self)@[r2]);
                        assert(old(self)@.remove(p)[q] == old(self)@[r2]);
                    }
                    assert(self@ =~= old(self)@.remove(p));
                }
            },
            None => {},
        }
    }

    /// Whether the cache holds no entries; exactly then are both list ends
    /// absent.
    pub fn is_empty(&self) -> (r: bool)
        requires
            self.wf(),
        ensures
            r == (self@.len() == 0),
    {
        self.head.is_none()
    }

    /// Attach the entry in slot `i` to the head of the linked list, making it
    /// the most recently used entry.  Touches only the list, never the index.
    fn attach(&mut self, i: usize)
        requires
            old(self).list_inv(),
            i < old(self).nodes@.len(),
            !old(self).order@.contains(i),
            !old(self).free@.contains(i),
        ensures
            final(self).list_inv(),
            final(self).order@ == old(self).order@.push(i),
            final(self).nodes@.len() == old(self).nodes@.len(),
            final(self).free == old(self).free,
            final(self).map == old(self).map,
            final(self).capacity == old(self).capacity,
            forall|j: int|
                0 <= j < old(self).nodes@.len() ==> (#[trigger] final(self).nodes@[j]).key
                    == old(self).nodes@[j].key && final(self).nodes@[j].value
                    == old(self).nodes@[j].value,
    {
        let ghost ord = self.order@;
        match self.head {
            Some(h) => {
                proof {
                    // The head is the last slot of the order, so it is in
                    // bounds and distinct from `i`.
                    assert(self.link_ok(ord.len() - 1));
                    assert(ord[ord.len() - 1] == h);
                    assert(ord.contains(ord[ord.len() - 1]));
                }
                let mut hn = self.nodes[h];
                hn.next = Some(i);
                self.nodes.set(h, hn);
                let mut n = self.nodes[i];
                n.prev = Some(h);
                n.next = None;
                self.nodes.set(i, n);
            },
            None => {
                let mut n = self.nodes[i];
                n.prev = None;
                n.next = None;
                self.nodes.set(i, n);
                self.tail = Some(i);
            },
        }
        self.head = Some(i);
        self.order = Ghost(ord.push(i));
        proof {
            assert forall|p: int| 0 <= p < self.order@.len() implies self.link_ok(p) by {
                if p < ord.len() - 1 {
                    assert(old(self).link_ok(p));
                    assert(ord.contains(ord[p]));
                    if p > 0 {
                        assert(ord.contains(ord[p - 1]));
                    }
                } else if p == ord.len() - 1 {
                    assert(old(self).link_ok(p));
                    if p > 0 {
                        assert(ord.contains(ord[p - 1]));
                    }
                }
            }
            assert(self.order@.no_duplicates());
        }
    }

    /// Unlink the entry in slot `i` from the list, leaving the index and the
    /// slot's contents untouched.  The four positional cases — sole entry,
    /// tail, head, interior — each splice the neighbours (or the list ends)
    /// together in constant time.
    fn unlink(&mut self, i: usize)
        requires
            old(self).list_inv(),
            old(self).order@.contains(i),
        ensures
            final(self).list_inv(),
            0 <= old(self).order@.index_of(i) < old(self).order@.len(),
            old(self).order@[old(self).order@.index_of(i)] == i,
            final(self).order@ == old(self).order@.remove(old(self).order@.index_of(i)),
            final(self).nodes@.len() == old(self).nodes@.len(),
            final(self).free == old(self).free,
            final(self).map == old(self).map,
            final(self).capacity == old(self).capacity,
            forall|j: int|
                0 <= j < old(self).nodes@.len() ==> (#[trigger] final(self).nodes@[j]).key
                    == old(self).nodes@[j].key && final(self).nodes@[j].value
                    == old(self).nodes@[j].value,
    {
        let ghost ord = self.order@;
        let ghost p = ord.index_of(i);
        proof {
            assert(0 <= p < ord.len() && ord[p] == i);
            assert(self.link_ok(p));
            if p > 0 {
                assert(self.link_ok(p - 1));
            }
            if p < ord.len() - 1 {
                assert(self.link_ok(p + 1));
            }
        }
        let n = self.nodes[i];
        match n.prev {
            Some(pr) => {
                let mut pn = self.nodes[pr];
                pn.next = n.next;
                self.nodes.set(pr, pn);
            },
            None => {
                // `i` is the tail: its successor, if any, becomes the tail.
                self.tail = n.next;
            },
        }
        match n.next {
            Some(nx) => {
                let mut xn = self.nodes[nx];
                xn.prev = n.prev;
                self.nodes.set(nx, xn);
            },
            None => {
                // `i` is the head: its predecessor, if any, becomes the head.
                self.head = n.prev;
            },
        }
        self.order = Ghost(ord.remove(p));
        proof {
            let ord2 = self.order@;
            assert forall|q1: int, q2: int|
                0 <= q1 < q2 < ord2.len() implies ord2[q1] != ord2[q2] by {
                let r1: int = if q1 < p { q1 } else { q1 + 1 };
                let r2: int = if q2 < p { q2 } else { q2 + 1 };
                assert(ord2[q1] == ord[r1] && ord2[q2] == ord[r2]);
            }
            assert(ord2.no_duplicates());
            assert forall|q: int| 0 <= q < ord2.len() implies self.link_ok(q) by {
                let r: int = if q < p { q } else { q + 1 };
                assert(old(self).link_ok(r));
                if q > 0 {
                    let rm: int = if q - 1 < p { q - 1 } else { q };
                    assert(old(self).link_ok(rm));
                }
                if q < ord2.len() - 1 {
                    let rn: int = if q + 1 < p { q + 1 } else { q + 2 };
                    assert(old(self).link_ok(rn));
                }
            }
        }
    }
}

impl<K, V> Cache<K, V> for SyncNaiveLru<K, V> where K: Hash + Eq + Copy, V: Copy {
    /// The cache's own well-formedness invariant.
    open spec fn inv(&self) -> bool {
        self.wf()
    }

    fn insert(&mut self, key: K, value: V) {
        self.insert(key, value)
    }

    fn get(&mut self, key: &K) -> Option<V> {
        self.get(key)
    }
}

} // verus!
