//! LRU eviction policy for the block store.
//!
//! Tracks access recency per prefix hash. When the block store is full,
//! the least recently used entries are evicted to make room.
//!
//! The recency list is an intrusive doubly-linked list kept in a slab
//! (`Vec`) of nodes, with a hash table from prefix hash to slab slot, so
//! that touch, evict and remove are all O(1).
use std::collections::HashMap;
use vstd::prelude::*;

use crate::prefix::{hash_key, lemma_hash_key_injective, prefix_key};

verus! {

broadcast use vstd::std_specs::hash::group_hash_axioms;

/// A node of the recency list.
#[derive(Clone, Copy)]
pub struct LruEntry {
    pub prefix_hash: [u8; 16],
    pub prev: Option<usize>,
    pub next: Option<usize>,
}

/// The list itself: slab of nodes, free slots, key → slot table, and the
/// two ends of the list. `order` is the sequence of slots from the head
/// (most recently used) to the tail (least recently used).
pub struct LruInner {
    pub entries: Vec<LruEntry>,
    pub free_indices: Vec<usize>,
    pub index: HashMap<u128, usize>,
    pub head: Option<usize>,
    pub tail: Option<usize>,
    pub order: Ghost<Seq<usize>>,
}

impl LruInner {
    /// The links of the slab spell out `order`: the head is its first slot,
    /// the tail its last, and each listed node points at its neighbours.
    pub open spec fn links_wf(&self) -> bool {
        let order = self.order@;
        let n = order.len();
        &&& order.no_duplicates()
        &&& forall|i: int| 0 <= i < n ==> #[trigger] order[i] < self.entries@.len()
        &&& self.head == (if n == 0 { None } else { Some(order[0]) })
        &&& self.tail == (if n == 0 { None } else { Some(order[n - 1]) })
        &&& forall|i: int|
            #![trigger order[i]]
            0 <= i < n ==> self.entries@[order[i] as int].prev == (if i == 0 {
                None
            } else {
                Some(order[i - 1])
            })
        &&& forall|i: int|
            #![trigger order[i]]
            0 <= i < n ==> self.entries@[order[i] as int].next == (if i == n - 1 {
                None
            } else {
                Some(order[i + 1])
            })
    }

    /// Free slots lie in the slab, occur once, and are not on the list.
    pub open spec fn free_wf(&self) -> bool {
        &&& self.free_indices@.no_duplicates()
        &&& forall|i: int|
            0 <= i < self.free_indices@.len() ==> #[trigger] self.free_indices@[i]
                < self.entries@.len()
        &&& forall|i: int|
            0 <= i < self.free_indices@.len() ==> !self.order@.contains(
                #[trigger] self.free_indices@[i],
            )
    }

    /// The prefix hash stored in the node at list position `i`.
    pub open spec fn hash_at(&self, i: int) -> [u8; 16] {
        self.entries@[self.order@[i] as int].prefix_hash
    }

    /// The key table maps the key of each listed hash to its slot, and
    /// holds nothing else.
    pub open spec fn index_wf(&self) -> bool {
        &&& forall|k: u128|
            #[trigger] self.index@.contains_key(k) ==> exists|i: int|
                0 <= i < self.order@.len() && hash_key(self.hash_at(i)) == k
        &&& forall|i: int|
            0 <= i < self.order@.len() ==> {
                &&& self.index@.contains_key(#[trigger] hash_key(self.hash_at(i)))
                &&& self.index@[hash_key(self.hash_at(i))] == self.order@[i]
            }
    }

    pub open spec fn wf(&self) -> bool {
        &&& self.links_wf()
        &&& self.free_wf()
        &&& self.index_wf()
    }

    /// The prefix hashes on the list, most recently used first.
    pub open spec fn view(&self) -> Seq<[u8; 16]> {
        self.order@.map_values(|j: usize| self.entries@[j as int].prefix_hash)
    }

    /// Take a slot for a new node holding `prefix_hash`, reusing a free slot
    /// if there is one, else growing the slab. The node is not linked.
    pub fn alloc_entry(&mut self, prefix_hash: [u8; 16]) -> (idx: usize)
        requires
            old(self).links_wf(),
            old(self).free_wf(),
        ensures
            final(self).order@ == old(self).order@,
            final(self).head == old(self).head,
            final(self).tail == old(self).tail,
            final(self).index@ == old(self).index@,
            old(self).free_indices@.len() > 0 ==> {
                &&& idx == old(self).free_indices@.last()
                &&& final(self).free_indices@ == old(self).free_indices@.drop_last()
                &&& final(self).entries@ == old(self).entries@.update(
                    idx as int,
                    LruEntry { prefix_hash, prev: None, next: None },
                )
            },
            old(self).free_indices@.len() == 0 ==> {
                &&& idx == old(self).entries@.len()
                &&& final(self).free_indices@ == old(self).free_indices@
                &&& final(self).entries@ == old(self).entries@.push(
                    LruEntry { prefix_hash, prev: None, next: None },
                )
            },
            idx < final(self).entries@.len(),
            !final(self).order@.contains(idx),
            !final(self).free_indices@.contains(idx),
            final(self).links_wf(),
            final(self).free_wf(),
    {
        let fresh = LruEntry { prefix_hash, prev: None, next: None };
        if let Some(idx) = self.free_indices.pop() {
            proof {
                let last = old(self).free_indices@.len() - 1;
                assert(old(self).free_indices@[last] == idx);
            }
            self.entries.set(idx, fresh);
            proof {
                let order = self.order@;
                assert forall|i: int| 0 <= i < order.len() implies #[trigger] order[i] != idx by {
                    let last = old(self).free_indices@.len() - 1;
                    assert(!old(self).order@.contains(old(self).free_indices@[last]));
                }
                assert forall|i: int| 0 <= i < self.free_indices@.len() implies #[trigger] self.free_indices@[i] != idx by {
                    let last = old(self).free_indices@.len() - 1;
                    assert(old(self).free_indices@[i] == self.free_indices@[i]);
                }
            }
            idx
        } else {
            let idx = self.entries.len();
            self.entries.push(fresh);
            proof {
                let order = self.order@;
                assert forall|i: int| 0 <= i < order.len() implies #[trigger] order[i] != idx by {
                    assert(old(self).order@[i] < old(self).entries@.len());
                }
                assert forall|i: int| 0 <= i < self.free_indices@.len() implies #[trigger] self.free_indices@[i] != idx by {}
            }
            idx
        }
    }

    /// Take the node in slot `idx` off the list, joining its neighbours.
    pub fn unlink(&mut self, idx: usize)
        requires
            old(self).links_wf(),
            old(self).order@.contains(idx),
        ensures
            final(self).order@ == old(self).order@.remove(old(self).order@.index_of(idx)),
            final(self).links_wf(),
            final(self).entries@.len() == old(self).entries@.len(),
            forall|j: int|
                0 <= j < old(self).entries@.len() ==> #[trigger] final(self).entries@[j].prefix_hash
                    == old(self).entries@[j].prefix_hash,
            final(self).entries@[idx as int].prev.is_none(),
            final(self).entries@[idx as int].next.is_none(),
            final(self).free_indices@ == old(self).free_indices@,
            final(self).index@ == old(self).index@,
    {
        let ghost order = self.order@;
        let ghost n = order.len();
        let ghost p = order.index_of(idx);
        assert(0 <= p < n && order[p] == idx);
        let ghost new_order = order.remove(p);
        assert forall|i: int| 0 <= i < n && order[i] == idx implies i == p by {}

        let prev = self.entries[idx].prev;
        let next = self.entries[idx].next;

        if let Some(pi) = prev {
            let mut e = self.entries[pi];
            e.next = next;
            self.entries.set(pi, e);
        } else {
            self.head = next;
        }

        if let Some(ni) = next {
            let mut e = self.entries[ni];
            e.prev = prev;
            self.entries.set(ni, e);
        } else {
            self.tail = prev;
        }

        let mut e = self.entries[idx];
        e.prev = None;
        e.next = None;
        self.entries.set(idx, e);

        proof {
            self.order@ = new_order;
            assert(new_order.len() == n - 1);
            assert forall|i: int| 0 <= i < new_order.len() implies #[trigger] new_order[i]
                == (if i < p { order[i] } else { order[i + 1] }) by {}
            assert forall|i: int| 0 <= i < n && i != p implies #[trigger] order[i] != idx by {
                assert(order.no_duplicates());
            }
            assert(new_order.no_duplicates()) by {
                assert forall|a: int, b: int|
                    0 <= a < new_order.len() && 0 <= b < new_order.len() && a != b implies new_order[a]
                    != new_order[b] by {
                    let oa = if a < p { a } else { a + 1 };
                    let ob = if b < p { b } else { b + 1 };
                    assert(new_order[a] == order[oa]);
                    assert(new_order[b] == order[ob]);
                }
            }
            assert forall|j: int| 0 <= j < old(self).entries@.len() implies #[trigger] self.entries@[j].prefix_hash
                == old(self).entries@[j].prefix_hash by {}
            assert forall|i: int| 0 <= i < new_order.len() implies {
                &&& #[trigger] new_order[i] < self.entries@.len()
                &&& self.entries@[new_order[i] as int].prev == (if i == 0 {
                    None
                } else {
                    Some(new_order[i - 1])
                })
                &&& self.entries@[new_order[i] as int].next == (if i == new_order.len() - 1 {
                    None
                } else {
                    Some(new_order[i + 1])
                })
            } by {
                let oi = if i < p { i } else { i + 1 };
                assert(new_order[i] == order[oi]);
                assert(order[oi] != idx);
                if p > 0 {
                    assert(order[p - 1] != idx);
                }
                if p < n - 1 {
                    assert(order[p + 1] != idx);
                }
                if p > 0 && p < n - 1 {
                    assert(order[p - 1] != order[p + 1]);
                }
            }
        }
    }

    /// Link the node in slot `idx` in at the head of the list.
    pub fn push_front(&mut self, idx: usize)
        requires
            old(self).links_wf(),
            idx < old(self).entries@.len(),
            !old(self).order@.contains(idx),
        ensures
            final(self).order@ == seq![idx] + old(self).order@,
            final(self).links_wf(),
            final(self).entries@.len() == old(self).entries@.len(),
            forall|j: int|
                0 <= j < old(self).entries@.len() ==> #[trigger] final(self).entries@[j].prefix_hash
                    == old(self).entries@[j].prefix_hash,
            final(self).free_indices@ == old(self).free_indices@,
            final(self).index@ == old(self).index@,
    {
        let ghost order = self.order@;
        let ghost n = order.len();
        let ghost new_order = seq![idx] + order;

        let mut e = self.entries[idx];
        e.prev = None;
        e.next = self.head;
        self.entries.set(idx, e);

        if let Some(old_head) = self.head {
            let mut h = self.entries[old_head];
            h.prev = Some(idx);
            self.entries.set(old_head, h);
        }

        self.head = Some(idx);

        if self.tail.is_none() {
            self.tail = Some(idx);
        }

        proof {
            self.order@ = new_order;
            assert forall|i: int| 0 <= i < n implies #[trigger] order[i] != idx by {}
            assert forall|i: int| 0 <= i < new_order.len() implies #[trigger] new_order[i]
                == (if i == 0 { idx } else { order[i - 1] }) by {}
            assert(new_order.no_duplicates()) by {
                assert forall|a: int, b: int|
                    0 <= a < new_order.len() && 0 <= b < new_order.len() && a != b implies new_order[a]
                    != new_order[b] by {
                    if a > 0 && b > 0 {
                        assert(new_order[a] == order[a - 1]);
                        assert(new_order[b] == order[b - 1]);
                    }
                }
            }
            assert forall|j: int| 0 <= j < old(self).entries@.len() implies #[trigger] self.entries@[j].prefix_hash
                == old(self).entries@[j].prefix_hash by {}
            assert forall|i: int| 0 <= i < new_order.len() implies {
                &&& #[trigger] new_order[i] < self.entries@.len()
                &&& self.entries@[new_order[i] as int].prev == (if i == 0 {
                    None
                } else {
                    Some(new_order[i - 1])
                })
                &&& self.entries@[new_order[i] as int].next == (if i == new_order.len() - 1 {
                    None
                } else {
                    Some(new_order[i + 1])
                })
            } by {
                if i > 0 {
                    assert(new_order[i] == order[i - 1]);
                }
            }
        }
    }
}


impl LruInner {
    /// The view lists the hash of each listed node, and no hash twice.
    pub proof fn lemma_view(&self)
        requires
            self.wf(),
        ensures
            self.view().len() == self.order@.len(),
            forall|i: int| 0 <= i < self.order@.len() ==> #[trigger] self.view()[i] == self.hash_at(i),
            self.view().no_duplicates(),
    {
        let n = self.order@.len();
        let v = self.view();
        assert forall|i: int| 0 <= i < n implies #[trigger] v[i] == self.hash_at(i) by {}
        assert forall|a: int, b: int| 0 <= a < n && 0 <= b < n && a != b implies v[a] != v[b] by {
            if v[a] == v[b] {
                assert(self.index@[hash_key(self.hash_at(a))] == self.order@[a]);
                assert(self.index@[hash_key(self.hash_at(b))] == self.order@[b]);
            }
        }
    }

    /// A hash is on the list exactly when its key is in the table, and the
    /// table then gives the slot of its node.
    pub proof fn lemma_lookup(&self, h: [u8; 16])
        requires
            self.wf(),
        ensures
            self.index@.contains_key(hash_key(h)) ==> {
                let p = self.order@.index_of(self.index@[hash_key(h)]);
                &&& 0 <= p < self.order@.len()
                &&& self.order@[p] == self.index@[hash_key(h)]
                &&& self.hash_at(p) == h
                &&& self.view().index_of_first(h) == Some(p)
            },
            !self.index@.contains_key(hash_key(h)) ==> !self.view().contains(h),
    {
        self.lemma_view();
        let n = self.order@.len();
        if self.index@.contains_key(hash_key(h)) {
            let i = choose|i: int| 0 <= i < n && hash_key(self.hash_at(i)) == hash_key(h);
            lemma_hash_key_injective(self.hash_at(i), h);
            assert(self.index@[hash_key(self.hash_at(i))] == self.order@[i]);
            let p = self.order@.index_of(self.index@[hash_key(h)]);
            assert(self.order@[i] == self.index@[hash_key(h)]);
            assert(0 <= p < n && self.order@[p] == self.order@[i]);
            assert(p == i);
            lemma_first_of_distinct(self.view(), p, h);
        } else {
            if self.view().contains(h) {
                let i = choose|i: int| 0 <= i < self.view().len() && self.view()[i] == h;
                assert(self.view()[i] == self.hash_at(i));
                assert(self.index@.contains_key(hash_key(self.hash_at(i))));
            }
        }
    }

    /// Well-formedness after the node at list position `p` was taken off the
    /// list, its key dropped from the table and its slot freed.
    pub proof fn lemma_after_removal(pre: LruInner, post: LruInner, p: int)
        requires
            pre.wf(),
            0 <= p < pre.order@.len(),
            post.links_wf(),
            post.order@ == pre.order@.remove(p),
            post.entries@.len() == pre.entries@.len(),
            forall|j: int|
                0 <= j < pre.entries@.len() ==> #[trigger] post.entries@[j].prefix_hash
                    == pre.entries@[j].prefix_hash,
            post.free_indices@ == pre.free_indices@.push(pre.order@[p]),
            post.index@ == pre.index@.remove(hash_key(pre.hash_at(p))),
        ensures
            post.wf(),
            post.view() == pre.view().remove(p),
    {
        pre.lemma_view();
        let n = pre.order@.len();
        let idx = pre.order@[p];
        let old_pos = |i: int| if i < p { i } else { i + 1 };
        assert forall|i: int| 0 <= i < n - 1 implies #[trigger] post.hash_at(i) == pre.hash_at(
            old_pos(i),
        ) && post.order@[i] == pre.order@[old_pos(i)] by {
            assert(post.order@[i] == pre.order@[old_pos(i)]);
        }
        // slots on the new list
        assert forall|i: int| 0 <= i < n - 1 implies #[trigger] post.order@[i] != idx by {
            assert(post.order@[i] == pre.order@[old_pos(i)]);
        }
        // free list
        assert forall|i: int| 0 <= i < pre.free_indices@.len() implies pre.free_indices@[i] != idx by {
            assert(!pre.order@.contains(pre.free_indices@[i]));
        }
        assert(post.free_indices@.no_duplicates()) by {
            assert forall|a: int, b: int|
                0 <= a < post.free_indices@.len() && 0 <= b < post.free_indices@.len() && a
                    != b implies post.free_indices@[a] != post.free_indices@[b] by {
                if a < pre.free_indices@.len() && b < pre.free_indices@.len() {
                } else if a < pre.free_indices@.len() {
                    assert(pre.free_indices@[a] != idx);
                } else if b < pre.free_indices@.len() {
                    assert(pre.free_indices@[b] != idx);
                }
            }
        }
        assert forall|i: int| 0 <= i < post.free_indices@.len() implies #[trigger] post.free_indices@[i]
            < post.entries@.len() && !post.order@.contains(post.free_indices@[i]) by {
            if post.order@.contains(post.free_indices@[i]) {
                let j = choose|j: int|
                    0 <= j < post.order@.len() && post.order@[j] == post.free_indices@[i];
                assert(post.order@[j] == pre.order@[old_pos(j)]);
                if i < pre.free_indices@.len() {
                    assert(post.free_indices@[i] == pre.free_indices@[i]);
                    assert(pre.order@.contains(pre.free_indices@[i]));
                }
            }
        }
        // key table
        let hk = hash_key(pre.hash_at(p));
        assert forall|k: u128| #[trigger] post.index@.contains_key(k) implies exists|i: int|
            0 <= i < post.order@.len() && hash_key(post.hash_at(i)) == k by {
            let j = choose|j: int| 0 <= j < n && hash_key(pre.hash_at(j)) == k;
            assert(j != p);
            let i = if j < p { j } else { j - 1 };
            assert(post.hash_at(i) == pre.hash_at(old_pos(i)));
        }
        assert forall|i: int| 0 <= i < post.order@.len() implies {
            &&& post.index@.contains_key(#[trigger] hash_key(post.hash_at(i)))
            &&& post.index@[hash_key(post.hash_at(i))] == post.order@[i]
        } by {
            let oi = old_pos(i);
            assert(post.hash_at(i) == pre.hash_at(oi));
            assert(pre.view()[oi] != pre.view()[p]);
            if hash_key(pre.hash_at(oi)) == hk {
                lemma_hash_key_injective(pre.hash_at(oi), pre.hash_at(p));
            }
        }
        assert(post.view() =~= pre.view().remove(p)) by {
            assert forall|i: int| 0 <= i < n - 1 implies post.view()[i] == pre.view().remove(p)[i] by {
                assert(post.view()[i] == post.hash_at(i));
            }
        }
    }
}

/// In a sequence without duplicates, an element's first occurrence is its
/// only one.
pub proof fn lemma_first_of_distinct<A>(s: Seq<A>, i: int, x: A)
    requires
        s.no_duplicates(),
        0 <= i < s.len(),
        s[i] == x,
    ensures
        s.index_of_first(x) == Some(i),
        s.remove_value(x) == s.remove(i),
{
    s.index_of_first_ensures(x);
    let j = s.index_of_first(x).unwrap();
    assert(s[j] == x);
    assert(j == i);
}

/// Removing an absent element leaves a sequence unchanged.
pub proof fn lemma_remove_absent<A>(s: Seq<A>, x: A)
    requires
        !s.contains(x),
    ensures
        s.remove_value(x) == s,
{
    s.index_of_first_ensures(x);
}

/// LRU eviction tracker using an intrusive doubly-linked list backed by a
/// slab: O(1) touch (move to front), O(1) evict (remove from back), O(1)
/// remove by key.
pub struct LruPolicy {
    inner: LruInner,
}

impl View for LruPolicy {
    /// Tracked prefix hashes, most recently used first.
    type V = Seq<[u8; 16]>;

    closed spec fn view(&self) -> Seq<[u8; 16]> {
        self.inner.view()
    }
}

impl LruPolicy {
    pub closed spec fn wf(&self) -> bool {
        self.inner.wf()
    }

    /// A well-formed tracker holds each hash at most once.
    pub proof fn lemma_distinct(&self)
        requires
            self.wf(),
        ensures
            self@.no_duplicates(),
    {
        self.inner.lemma_view();
    }

    pub fn new() -> (lru: Self)
        ensures
            lru.wf(),
            lru@ == Seq::<[u8; 16]>::empty(),
    {
        let lru = LruPolicy {
            inner: LruInner {
                entries: Vec::new(),
                free_indices: Vec::new(),
                index: HashMap::new(),
                head: None,
                tail: None,
                order: Ghost(Seq::empty()),
            },
        };
        assert(lru.inner.view() =~= Seq::<[u8; 16]>::empty());
        lru
    }

    /// Record an access (insert or touch): the hash moves to the front
    /// (most recent), wherever it was, and is added if it was absent.
    pub fn touch(&mut self, prefix_hash: &[u8; 16])
        requires
            old(self).wf(),
        ensures
            final(self).wf(),
            final(self)@ == seq![*prefix_hash] + old(self)@.remove_value(*prefix_hash),
    {
        let h = *prefix_hash;
        let key = prefix_key(prefix_hash);
        let found = match self.inner.index.get(&key) {
            Some(i) => Some(*i),
            None => None,
        };
        proof {
            self.inner.lemma_lookup(h);
            self.inner.lemma_view();
        }
        let ghost pre = self.inner;
        let ghost n = pre.order@.len();
        if let Some(idx) = found {
            // Already tracked: unlink and move to front.
            let ghost p = pre.order@.index_of(idx);
            self.inner.unlink(idx);
            self.inner.push_front(idx);
            proof {
                let post = self.inner;
                let old_pos = |i: int| if i == 0 { p } else if i - 1 < p { i - 1 } else { i };
                assert forall|i: int| 0 <= i < n implies #[trigger] post.order@[i] == pre.order@[old_pos(i)]
                    && post.hash_at(i) == pre.hash_at(old_pos(i)) by {
                    assert(post.order@[i] == pre.order@[old_pos(i)]);
                }
                assert forall|i: int| 0 <= i < pre.free_indices@.len() implies !post.order@.contains(
                    #[trigger] post.free_indices@[i],
                ) by {
                    if post.order@.contains(post.free_indices@[i]) {
                        let j = choose|j: int|
                            0 <= j < n && post.order@[j] == post.free_indices@[i];
                        assert(post.order@[j] == pre.order@[old_pos(j)]);
                        assert(pre.order@.contains(pre.free_indices@[i]));
                    }
                }
                assert forall|k: u128| #[trigger] post.index@.contains_key(k) implies exists|i: int|
                    0 <= i < post.order@.len() && hash_key(post.hash_at(i)) == k by {
                    let j = choose|j: int| 0 <= j < n && hash_key(pre.hash_at(j)) == k;
                    let i = if j == p { 0 } else if j < p { j + 1 } else { j };
                    assert(old_pos(i) == j);
                    assert(post.hash_at(i) == pre.hash_at(j));
                }
                assert forall|i: int| 0 <= i < post.order@.len() implies {
                    &&& post.index@.contains_key(#[trigger] hash_key(post.hash_at(i)))
                    &&& post.index@[hash_key(post.hash_at(i))] == post.order@[i]
                } by {
                    assert(post.hash_at(i) == pre.hash_at(old_pos(i)));
                }
                lemma_first_of_distinct(pre.view(), p, h);
                assert(post.view() =~= seq![h] + pre.view().remove(p)) by {
                    assert forall|i: int| 0 <= i < n implies post.view()[i] == (seq![h] + pre.view().remove(
                        p,
                    ))[i] by {
                        assert(post.view()[i] == post.hash_at(i));
                        assert(pre.view()[old_pos(i)] == pre.hash_at(old_pos(i)));
                    }
                }
            }
        } else {
            // New entry: allocate a slot and push to front.
            let idx = self.inner.alloc_entry(h);
            let ghost mid = self.inner;
            self.inner.push_front(idx);
            self.inner.index.insert(key, idx);
            proof {
                let post = self.inner;
                lemma_remove_absent(pre.view(), h);
                assert forall|i: int| 0 <= i < n implies #[trigger] pre.order@[i] != idx by {}
                assert forall|i: int| 0 <= i < n implies #[trigger] mid.entries@[pre.order@[i] as int]
                    == pre.entries@[pre.order@[i] as int] by {}
                assert forall|i: int| 0 <= i < n + 1 implies #[trigger] post.hash_at(i) == (if i == 0 {
                    h
                } else {
                    pre.hash_at(i - 1)
                }) by {
                    if i > 0 {
                        assert(post.order@[i] == pre.order@[i - 1]);
                    }
                }
                assert forall|i: int| 0 <= i < post.free_indices@.len() implies !post.order@.contains(
                    #[trigger] post.free_indices@[i],
                ) by {
                    if post.order@.contains(post.free_indices@[i]) {
                        let j = choose|j: int|
                            0 <= j < n + 1 && post.order@[j] == post.free_indices@[i];
                        if j > 0 {
                            assert(post.order@[j] == mid.order@[j - 1]);
                            assert(mid.order@.contains(mid.free_indices@[i]));
                        }
                    }
                }
                assert forall|k: u128| #[trigger] post.index@.contains_key(k) implies exists|i: int|
                    0 <= i < post.order@.len() && hash_key(post.hash_at(i)) == k by {
                    if k == key {
                        assert(hash_key(post.hash_at(0)) == k);
                    } else {
                        let j = choose|j: int| 0 <= j < n && hash_key(pre.hash_at(j)) == k;
                        assert(hash_key(post.hash_at(j + 1)) == k);
                    }
                }
                assert forall|i: int| 0 <= i < post.order@.len() implies {
                    &&& post.index@.contains_key(#[trigger] hash_key(post.hash_at(i)))
                    &&& post.index@[hash_key(post.hash_at(i))] == post.order@[i]
                } by {
                    if i > 0 {
                        assert(post.hash_at(i) == pre.hash_at(i - 1));
                        if hash_key(pre.hash_at(i - 1)) == key {
                            lemma_hash_key_injective(pre.hash_at(i - 1), h);
                            assert(pre.view()[i - 1] == h);
                        }
                        assert(post.order@[i] == pre.order@[i - 1]);
                    }
                }
                assert(post.view() =~= seq![h] + pre.view()) by {
                    assert forall|i: int| 0 <= i < n + 1 implies post.view()[i] == (seq![h]
                        + pre.view())[i] by {
                        assert(post.view()[i] == post.hash_at(i));
                    }
                }
            }
        }
    }

    /// Remove an entry from the tracker (e.g., on explicit delete).
    pub fn remove(&mut self, prefix_hash: &[u8; 16])
        requires
            old(self).wf(),
        ensures
            final(self).wf(),
            final(self)@ == old(self)@.remove_value(*prefix_hash),
    {
        let h = *prefix_hash;
        let key = prefix_key(prefix_hash);
        proof {
            self.inner.lemma_lookup(h);
            self.inner.lemma_view();
        }
        let ghost pre = self.inner;
        if let Some(idx) = self.inner.index.remove(&key) {
            let ghost p = pre.order@.index_of(idx);
            self.inner.unlink(idx);
            self.inner.free_indices.push(idx);
            proof {
                lemma_first_of_distinct(pre.view(), p, h);
                LruInner::lemma_after_removal(pre, self.inner, p);
                assert(self.inner.wf());
            }
        } else {
            proof {
                lemma_remove_absent(pre.view(), h);
                assert(pre.index_wf());
                assert(self.inner.index@ =~= pre.index@);
                assert(self.inner.order@ == pre.order@);
                assert(self.inner.entries@ == pre.entries@);
                assert forall|i: int| 0 <= i < pre.order@.len() implies #[trigger] self.inner.hash_at(i) == pre.hash_at(i) by {}
                assert forall|k: u128| #[trigger] self.inner.index@.contains_key(k) implies exists|i: int|
                    0 <= i < self.inner.order@.len() && hash_key(self.inner.hash_at(i)) == k by {
                    assert(pre.index@.contains_key(k));
                    let j = choose|j: int| 0 <= j < pre.order@.len() && hash_key(pre.hash_at(j)) == k;
                    assert(self.inner.hash_at(j) == pre.hash_at(j));
                }
                assert(self.inner.index_wf());
            }
        }
    }

    /// Evict the least recently used entry: the last hash of the view is
    /// dropped and returned, or `None` if nothing is tracked.
    pub fn evict_lru(&mut self) -> (victim: Option<[u8; 16]>)
        requires
            old(self).wf(),
        ensures
            final(self).wf(),
            old(self)@.len() == 0 ==> victim.is_none() && final(self)@ == old(self)@,
            old(self)@.len() > 0 ==> victim == Some(old(self)@.last()) && final(self)@ == old(
                self,
            )@.drop_last(),
    {
        proof {
            self.inner.lemma_view();
        }
        let ghost pre = self.inner;
        let tail_idx = match self.inner.tail {
            Some(t) => t,
            None => return None,
        };
        let ghost p = pre.order@.len() - 1;
        let hash = self.inner.entries[tail_idx].prefix_hash;
        let key = prefix_key(&hash);
        assert(hash == pre.hash_at(p));
        self.inner.index.remove(&key);
        self.inner.unlink(tail_idx);
        self.inner.free_indices.push(tail_idx);
        proof {
            assert(pre.order@.index_of(tail_idx) == p) by {
                let q = pre.order@.index_of(tail_idx);
                assert(pre.order@[q] == pre.order@[p]);
            }
            LruInner::lemma_after_removal(pre, self.inner, p);
            assert(pre.view().remove(p) =~= pre.view().drop_last());
        }
        Some(hash)
    }

    /// Number of entries tracked.
    pub fn len(&self) -> (n: usize)
        requires
            self.wf(),
        ensures
            n == self@.len(),
    {
        proof {
            self.inner.lemma_view();
            let inner = self.inner;
            let keys = inner.view().map_values(|h: [u8; 16]| hash_key(h));
            assert(keys.no_duplicates()) by {
                assert forall|a: int, b: int|
                    0 <= a < keys.len() && 0 <= b < keys.len() && a != b implies keys[a]
                    != keys[b] by {
                    if keys[a] == keys[b] {
                        lemma_hash_key_injective(inner.view()[a], inner.view()[b]);
                    }
                }
            }
            keys.unique_seq_to_set();
            assert(inner.index@.dom() =~= keys.to_set()) by {
                assert forall|k: u128| inner.index@.dom().contains(k) implies keys.to_set().contains(
                    k,
                ) by {
                    let i = choose|i: int|
                        0 <= i < inner.order@.len() && hash_key(inner.hash_at(i)) == k;
                    assert(keys[i] == k);
                }
                assert forall|k: u128| keys.to_set().contains(k) implies inner.index@.dom().contains(
                    k,
                ) by {
                    let i = choose|i: int| 0 <= i < keys.len() && keys[i] == k;
                    assert(keys[i] == hash_key(inner.hash_at(i)));
                }
            }
        }
        self.inner.index.len()
    }

    pub fn is_empty(&self) -> (b: bool)
        requires
            self.wf(),
        ensures
            b == (self@.len() == 0),
    {
        self.len() == 0
    }
}

impl Default for LruPolicy {
    fn default() -> (lru: Self)
        ensures
            lru.wf(),
            lru@ == Seq::<[u8; 16]>::empty(),
    {
        Self::new()
    }
}

} // verus!
