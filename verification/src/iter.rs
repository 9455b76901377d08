//! Iteration over a cache's entries in recency order, least recently used
//! first, most recently used last.

use crate::lru::Node;
use crate::lru::SyncNaiveLru;
use vstd::prelude::*;

verus! {

/// A consuming pass over a cache's entries.  It owns the entry arena and
/// walks the `next` links from the old tail, so it yields the pairs from
/// least recently used to most recently used; once drained it cannot be
/// restarted.
pub struct IntoIter<K, V> {
    pub(crate) nodes: Vec<Node<K, V>>,
    pub(crate) current: Option<usize>,
    /// The slots not yet visited, in yield order.
    pub(crate) rest: Ghost<Seq<usize>>,
}

impl<K, V> View for IntoIter<K, V> {
    type V = Seq<(K, V)>;

    /// The key-value pairs the pass has yet to yield.
    closed spec fn view(&self) -> Seq<(K, V)> {
        self.rest@.map_values(|i: usize| (self.nodes@[i as int].key, self.nodes@[i as int].value))
    }
}

impl<K, V> IntoIter<K, V> {
    /// The unvisited slots are in bounds, chained by their `next` links, and
    /// the cursor stands on the first of them.
    pub closed spec fn wf(self) -> bool {
        &&& forall|p: int|
            0 <= p < self.rest@.len() ==> (#[trigger] self.rest@[p] as int) < self.nodes@.len()
        &&& forall|p: int|
            0 <= p < self.rest@.len() ==> #[trigger] self.nodes@[self.rest@[p] as int].next == (
            if p == self.rest@.len() - 1 {
                None::<usize>
            } else {
                Some(self.rest@[p + 1])
            })
        &&& self.current == (if self.rest@.len() == 0 {
            None::<usize>
        } else {
            Some(self.rest@[0])
        })
    }
}

impl<K, V> IntoIter<K, V> where K: Copy, V: Copy {
    /// The next entry in recency order, or `None` once the pass is drained.
    pub fn next(&mut self) -> (r: Option<(K, V)>)
        requires
            old(self).wf(),
        ensures
            final(self).wf(),
            old(self)@.len() == 0 ==> r is None && final(self)@ == old(self)@,
            old(self)@.len() > 0 ==> r == Some(old(self)@[0]) && final(self)@ == old(self)@.subrange(
                1,
                old(self)@.len() as int,
            ),
    {
        match self.current {
            None => None,
            Some(c) => {
                let n = self.nodes[c];
                self.current = n.next;
                self.rest = Ghost(self.rest@.subrange(1, self.rest@.len() as int));
                proof {
                    assert forall|p: int|
                        0 <= p < self.rest@.len() implies #[trigger] self.nodes@[
                        self.rest@[p] as int].next == (if p == self.rest@.len() - 1 {
                        None::<usize>
                    } else {
                        Some(self.rest@[p + 1])
                    }) by {
                        assert(old(self).nodes@[old(self).rest@[p + 1] as int].next == (if p + 1
                            == old(self).rest@.len() - 1 {
                            None::<usize>
                        } else {
                            Some(old(self).rest@[p + 2])
                        }));
                    }
                    assert(final(self)@ =~= old(self)@.subrange(1, old(self)@.len() as int));
                }
                Some((n.key, n.value))
            },
        }
    }
}

impl<K, V> SyncNaiveLru<K, V> where K: Copy, V: Copy {
    /// Turn the cache into a one-shot pass over its entries, least recently
    /// used first.  The pass yields exactly the cache's model sequence.
    pub fn into_iter(self) -> (it: IntoIter<K, V>)
        requires
            self.list_inv(),
        ensures
            it.wf(),
            it@ == self@,
    {
        proof {
            self.lemma_order_links();
        }
        let it = IntoIter { nodes: self.nodes, current: self.tail, rest: Ghost(self.order@) };
        proof {
            assert(it@ =~= self@);
        }
        it
    }

    /// Collect the cache's entries into a vector in recency order, least
    /// recently used first, without consuming or changing the cache.
    pub fn to_vec(&self) -> (out: Vec<(K, V)>)
        requires
            self.list_inv(),
        ensures
            out@ == self@,
    {
        let ghost ord = self.order@;
        let mut out: Vec<(K, V)> = Vec::new();
        let mut cur: Option<usize> = self.tail;
        let ghost pos: int = 0;
        proof {
            self.lemma_order_links();
            assert(out@ =~= self@.take(0));
        }
        while cur.is_some()
            invariant
                self.list_inv(),
                ord == self.order@,
                0 <= pos <= ord.len(),
                cur == (if pos < ord.len() {
                    Some(ord[pos])
                } else {
                    None::<usize>
                }),
                out@ == self@.take(pos),
            decreases ord.len() - pos,
        {
            proof {
                self.lemma_order_links();
            }
            let c = cur.unwrap();
            let n = self.nodes[c];
            out.push((n.key, n.value));
            cur = n.next;
            proof {
                pos = pos + 1;
                assert(self@[pos - 1] == (n.key, n.value));
                assert(out@ =~= self@.take(pos));
            }
        }
        proof {
            self.lemma_order_links();
            assert(out@ =~= self@);
        }
        out
    }
}

} // verus!
