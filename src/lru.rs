//! A recency-ordered list with stable handles.
//!
//! Nodes live in one growable vector of slots and refer to their neighbours by
//! slot index; slot 0 is the sentinel, whose `next` is the front (most recently
//! used) and whose `prev` is the back (least recently used). Freed slots are
//! recycled through a free list, and each reuse bumps the slot's generation, so
//! a handle to a removed node is told apart from the handle of a later node
//! that took its slot.
use vstd::prelude::*;

verus! {

/// Identity of a node: its slot, and the generation the slot had when the
/// node was inserted.
#[derive(Clone, Copy, Debug, PartialEq, Eq, Structural)]
pub struct LRUHandle {
    pub slot: usize,
    pub generation: u64,
}

struct LRUNode<T> {
    prev: usize,
    next: usize,
    generation: u64,
    data: Option<T>,
}

pub struct LRUList<T> {
    nodes: Vec<LRUNode<T>>,
    free: Vec<usize>,
    count: usize,
    /// The slots of the live nodes, from front to back.
    order: Ghost<Seq<usize>>,
}

/// The links of `nodes` form the circular chain sentinel, `o[0]`, ..., `o[n-1]`.
spec fn chain<T>(nodes: Seq<LRUNode<T>>, o: Seq<usize>) -> bool {
    let n = o.len();
    &&& nodes.len() >= 1
    &&& o.no_duplicates()
    &&& nodes[0].next == (if n == 0 { 0usize } else { o[0] })
    &&& nodes[0].prev == (if n == 0 { 0usize } else { o[n - 1] })
    &&& forall|i: int|
        0 <= i < n ==> {
            &&& 0 < #[trigger] o[i] < nodes.len()
            &&& nodes[o[i] as int].prev == (if i == 0 { 0usize } else { o[i - 1] })
            &&& nodes[o[i] as int].next == (if i == n - 1 { 0usize } else { o[i + 1] })
        }
}

/// `a` and `b` differ at most in their links.
spec fn same_payloads<T>(a: Seq<LRUNode<T>>, b: Seq<LRUNode<T>>) -> bool {
    &&& a.len() == b.len()
    &&& forall|k: int|
        0 <= k < a.len() ==> (#[trigger] a[k]).data == b[k].data && a[k].generation
            == b[k].generation
}

impl<T> LRUList<T> {
    /// Well-formedness: the chain is intact, exactly the slots in the chain hold
    /// data, and every free slot is empty.
    #[verifier::opaque]
    pub closed spec fn wf(&self) -> bool {
        let o = self.order@;
        let nodes = self.nodes@;
        &&& chain(nodes, o)
        &&& self.count == o.len()
        &&& self.count + self.free@.len() + 1 == nodes.len()
        &&& self.free@.no_duplicates()
        &&& nodes[0].data.is_none()
        &&& forall|i: int| 0 <= i < o.len() ==> nodes[#[trigger] o[i] as int].data.is_some()
        &&& forall|s: usize|
            0 < s < nodes.len() && (#[trigger] nodes[s as int]).data.is_some() ==> o.contains(s)
        &&& forall|j: int|
            0 <= j < self.free@.len() ==> 0 < #[trigger] self.free@[j] < nodes.len()
                && nodes[self.free@[j] as int].data.is_none()
    }

    /// The payloads, from the most to the least recently used.
    pub closed spec fn values(&self) -> Seq<T> {
        Seq::new(self.order@.len(), |i: int| self.nodes@[self.order@[i] as int].data->0)
    }

    /// The handles of the live nodes, in the same order as `values`.
    pub closed spec fn handles(&self) -> Seq<LRUHandle> {
        Seq::new(
            self.order@.len(),
            |i: int|
                LRUHandle {
                    slot: self.order@[i],
                    generation: self.nodes@[self.order@[i] as int].generation,
                },
        )
    }

    /// The live slots are distinct, in range and hold data.
    proof fn lemma_live_slots(&self)
        requires
            self.wf(),
        ensures
            self.order@.no_duplicates(),
            forall|j: int|
                0 <= j < self.order@.len() ==> 0 < #[trigger] self.order@[j] < self.nodes@.len()
                    && self.nodes@[self.order@[j] as int].data.is_some(),
    {
        reveal(LRUList::wf);
    }

    /// No two live nodes share a handle.
    pub proof fn lemma_handles_unique(&self)
        requires
            self.wf(),
        ensures
            self.handles().no_duplicates(),
            self.handles().len() == self.values().len(),
    {
        reveal(LRUList::wf);
    }

    pub fn new() -> (r: Self)
        ensures
            r.wf(),
            r.values() == Seq::<T>::empty(),
            r.handles() == Seq::<LRUHandle>::empty(),
    {
        reveal(LRUList::wf);
        let mut nodes: Vec<LRUNode<T>> = Vec::new();
        nodes.push(LRUNode { prev: 0, next: 0, generation: 0, data: None });
        let r = LRUList { nodes, free: Vec::new(), count: 0, order: Ghost(Seq::empty()) };
        assert(r.values() =~= Seq::<T>::empty());
        assert(r.handles() =~= Seq::<LRUHandle>::empty());
        r
    }

    /// The number of live nodes.
    pub fn count(&self) -> (r: usize)
        requires
            self.wf(),
        ensures
            r == self.values().len(),
    {
        reveal(LRUList::wf);
        self.count
    }

    /// Splice the free slot `s` in right after the sentinel.
    fn link_front(&mut self, s: usize)
        requires
            chain(old(self).nodes@, old(self).order@),
            0 < s < old(self).nodes@.len(),
            !old(self).order@.contains(s),
        ensures
            chain(final(self).nodes@, final(self).order@),
            final(self).order@ == seq![s] + old(self).order@,
            same_payloads(final(self).nodes@, old(self).nodes@),
            final(self).free == old(self).free,
            final(self).count == old(self).count,
    {
        let ghost o = self.order@;
        let ghost n = o.len();
        let first = self.nodes[0].next;
        self.nodes[s].prev = 0;
        self.nodes[s].next = first;
        if first == 0 {
            self.nodes[0].prev = s;
        } else {
            self.nodes[first].prev = s;
        }
        self.nodes[0].next = s;
        self.order = Ghost(seq![s] + o);
        proof {
            let o2 = self.order@;
            assert forall|i: int| 0 <= i < o2.len() implies {
                &&& 0 < #[trigger] o2[i] < self.nodes@.len()
                &&& self.nodes@[o2[i] as int].prev == (if i == 0 { 0usize } else { o2[i - 1] })
                &&& self.nodes@[o2[i] as int].next == (if i == o2.len() - 1 { 0usize } else {
                    o2[i + 1]
                })
            } by {
                if i > 0 {
                    assert(o2[i] == o[i - 1]);
                    assert(o[i - 1] != s);
                }
            }
            assert forall|a: int, b: int| 0 <= a < b < o2.len() implies o2[a] != o2[b] by {
                if a == 0 {
                    assert(o2[b] == o[b - 1]);
                }
            }
        }
    }

    /// Take the node at position `i` out of the chain, leaving its payload in
    /// its slot.
    #[verifier::rlimit(100)]
    fn unlink(&mut self, Ghost(i): Ghost<int>, s: usize)
        requires
            chain(old(self).nodes@, old(self).order@),
            0 <= i < old(self).order@.len(),
            old(self).order@[i] == s,
        ensures
            chain(final(self).nodes@, final(self).order@),
            final(self).order@ == old(self).order@.remove(i),
            same_payloads(final(self).nodes@, old(self).nodes@),
            final(self).free == old(self).free,
            final(self).count == old(self).count,
    {
        let ghost o = self.order@;
        let ghost n = o.len();
        let ghost nodes0 = self.nodes@;
        let p = self.nodes[s].prev;
        let q = self.nodes[s].next;
        self.nodes[p].next = q;
        self.nodes[q].prev = p;
        self.order = Ghost(o.remove(i));
        proof {
            let o2 = self.order@;
            let nodes = self.nodes@;
            assert(p == (if i == 0 { 0usize } else { o[i - 1] }));
            assert(q == (if i == n - 1 { 0usize } else { o[i + 1] }));
            assert(p != s && q != s);
            assert(nodes[p as int].next == q);
            assert(nodes[q as int].prev == p);
            assert(p != q ==> nodes[p as int].prev == nodes0[p as int].prev);
            assert(p != q ==> nodes[q as int].next == nodes0[q as int].next);
            assert(forall|k: int| 0 <= k < nodes.len() && k != p && k != q ==> nodes[k] == nodes0[k]);
            assert(o2.len() == n - 1);
            assert(forall|j: int| 0 <= j < i ==> o2[j] == o[j]);
            assert(forall|j: int| i <= j < n - 1 ==> o2[j] == o[j + 1]);
            assert forall|j: int| 0 <= j < o2.len() implies {
                &&& 0 < #[trigger] o2[j] < nodes.len()
                &&& nodes[o2[j] as int].prev == (if j == 0 { 0usize } else { o2[j - 1] })
                &&& nodes[o2[j] as int].next == (if j == o2.len() - 1 { 0usize } else {
                    o2[j + 1]
                })
            } by {
                let j1 = if j < i { j } else { j + 1 };
                assert(o2[j] == o[j1]);
                let x = o[j1];
                assert(0 < x < nodes.len());
                if j1 == i - 1 {
                    assert(x == p);
                } else if j1 == i + 1 {
                    assert(x == q);
                } else {
                    assert(x != p) by {
                        if i > 0 {
                            assert(o[j1] != o[i - 1]);
                        }
                    }
                    assert(x != q) by {
                        if i + 1 < n {
                            assert(o[j1] != o[i + 1]);
                        }
                    }
                    assert(nodes[x as int] == nodes0[x as int]);
                }
            }
            assert forall|a: int, b: int| 0 <= a < b < o2.len() implies o2[a] != o2[b] by {
                let a1 = if a < i { a } else { a + 1 };
                let b1 = if b < i { b } else { b + 1 };
                assert(o2[a] == o[a1]);
                assert(o2[b] == o[b1]);
            }
        }
    }

    /// Put `elem` in an empty slot, recycled or new, and return the slot with
    /// the generation it now has. The chain is left as it was.
    fn fill_slot(&mut self, elem: T) -> (r: (usize, u64))
        requires
            old(self).wf(),
        ensures
            chain(final(self).nodes@, final(self).order@),
            final(self).order@ == old(self).order@,
            final(self).count == old(self).count,
            final(self).count + final(self).free@.len() + 2 == final(self).nodes@.len(),
            final(self).count < usize::MAX,
            final(self).free@.no_duplicates(),
            0 < r.0 < final(self).nodes@.len(),
            !old(self).order@.contains(r.0),
            final(self).nodes@.len() == (if r.0 < old(self).nodes@.len() {
                old(self).nodes@.len()
            } else {
                old(self).nodes@.len() + 1
            }),
            r.0 <= old(self).nodes@.len(),
            r.0 < old(self).nodes@.len() ==> old(self).nodes@[r.0 as int].data.is_none(),
            final(self).nodes@[r.0 as int].data == Some(elem),
            final(self).nodes@[r.0 as int].generation == r.1,
            forall|k: int|
                0 <= k < old(self).nodes@.len() && k != r.0 ==> final(self).nodes@[k]
                    == old(self).nodes@[k],
            forall|j: int|
                0 <= j < final(self).free@.len() ==> #[trigger] final(self).free@[j] != r.0
                    && final(self).free@[j] == old(self).free@[j],
    {
        reveal(LRUList::wf);
        let ghost o = self.order@;
        let n_slots = self.nodes.len();
        let s: usize;
        let generation: u64;
        if self.free.len() > 0 {
            s = self.free.pop().unwrap();
            generation = self.nodes[s].generation.wrapping_add(1);
            self.nodes[s].generation = generation;
            self.nodes[s].data = Some(elem);
            proof {
                assert forall|j: int| 0 <= j < self.free@.len() implies #[trigger] self.free@[j]
                    != s && self.free@[j] == old(self).free@[j] by {
                    assert(s == old(self).free@[old(self).free@.len() - 1]);
                }
            }
        } else {
            s = n_slots;
            generation = 0;
            self.nodes.push(LRUNode { prev: 0, next: 0, generation: 0, data: Some(elem) });
        }
        assert(!o.contains(s)) by {
            if o.contains(s) {
                let k = o.index_of(s);
                assert(o[k] == s);
            }
        }
        assert forall|i: int| 0 <= i < o.len() implies self.nodes@[#[trigger] o[i] as int]
            == old(self).nodes@[o[i] as int] by {}
        (s, generation)
    }

    /// Insert `elem` at the front (most recently used) and return its handle,
    /// which differs from the handle of every node live before the call.
    pub fn insert(&mut self, elem: T) -> (h: LRUHandle)
        requires
            old(self).wf(),
        ensures
            final(self).wf(),
            final(self).values() == seq![elem] + old(self).values(),
            final(self).handles() == seq![h] + old(self).handles(),
            !old(self).handles().contains(h),
    {
        reveal(LRUList::wf);
        let ghost o = self.order@;
        let ghost nodes0 = self.nodes@;
        let (s, generation) = self.fill_slot(elem);
        let ghost nodes1 = self.nodes@;
        self.link_front(s);
        self.count = self.count + 1;
        let h = LRUHandle { slot: s, generation };
        proof {
            let o2 = self.order@;
            let nodes = self.nodes@;
            assert forall|i: int| 0 <= i < o.len() implies nodes[#[trigger] o[i] as int].data
                == nodes0[o[i] as int].data && nodes[o[i] as int].generation == nodes0[o[
                i] as int].generation by {
                assert(nodes1[o[i] as int] == nodes0[o[i] as int]);
            }
            assert(self.values() =~= seq![elem] + old(self).values()) by {
                assert forall|i: int| 0 < i < o2.len() implies o2[i] == o[i - 1] by {}
            }
            assert(self.handles() =~= seq![h] + old(self).handles()) by {
                assert forall|i: int| 0 < i < o2.len() implies o2[i] == o[i - 1] by {}
            }
            assert forall|k: usize| 0 < k < nodes.len() && (#[trigger] nodes[k as int]).data.is_some()
                implies o2.contains(k) by {
                if k == s {
                    assert(o2[0] == s);
                } else {
                    assert(nodes1[k as int] == nodes0[k as int]);
                    assert(o.contains(k));
                    let x = o.index_of(k);
                    assert(o2[x + 1] == o[x]);
                }
            }
            assert forall|j: int| 0 <= j < self.free@.len() implies 0 < #[trigger] self.free@[j]
                < nodes.len() && nodes[self.free@[j] as int].data.is_none() by {
                assert(self.free@[j] == old(self).free@[j]);
                assert(nodes1[self.free@[j] as int] == nodes0[self.free@[j] as int]);
            }
            if old(self).handles().contains(h) {
                let k = old(self).handles().index_of(h);
                assert(o[k] == s);
            }
        }
        h
    }

    /// Unlink the node at position `i` (in slot `s`), free its slot and return
    /// its payload.
    #[verifier::rlimit(100)]
    fn take_out(&mut self, Ghost(i): Ghost<int>, s: usize) -> (d: Option<T>)
        requires
            old(self).wf(),
            0 <= i < old(self).order@.len(),
            old(self).order@[i] == s,
        ensures
            final(self).wf(),
            final(self).order@ == old(self).order@.remove(i),
            d == old(self).nodes@[s as int].data,
            forall|k: int|
                0 <= k < final(self).nodes@.len() && k != s ==> (#[trigger] final(self).nodes@[k]).data
                    == old(self).nodes@[k].data && final(self).nodes@[k].generation
                    == old(self).nodes@[k].generation,
            final(self).nodes@.len() == old(self).nodes@.len(),
    {
        reveal(LRUList::wf);
        let ghost o = self.order@;
        let ghost nodes0 = self.nodes@;
        self.unlink(Ghost(i), s);
        let ghost nodes1 = self.nodes@;
        let d = self.nodes[s].data.take();
        self.free.push(s);
        self.count = self.count - 1;
        proof {
            let o2 = self.order@;
            let nodes = self.nodes@;
            assert forall|k: int| 0 <= k < nodes.len() && k != s implies nodes[k] == nodes1[k] by {}
            assert forall|j: int| 0 <= j < o2.len() implies #[trigger] o2[j] != s by {
                if j < i {
                    assert(o2[j] == o[j]);
                } else {
                    assert(o2[j] == o[j + 1]);
                }
            }
            assert(chain(nodes, o2)) by {
                assert forall|j: int| 0 <= j < o2.len() implies nodes[#[trigger] o2[j] as int]
                    == nodes1[o2[j] as int] by {}
            }
            assert forall|j: int| 0 <= j < o2.len() implies nodes[#[trigger] o2[j] as int].data.is_some() by {
                let j1 = if j < i { j } else { j + 1 };
                assert(o2[j] == o[j1]);
            }
            assert forall|k: usize| 0 < k < nodes.len() && (#[trigger] nodes[k as int]).data.is_some()
                implies o2.contains(k) by {
                assert(k != s);
                assert(nodes1[k as int] == nodes[k as int]);
                assert(o.contains(k));
                let x = o.index_of(k);
                assert(o[x] == k);
                assert(x != i);
                if x < i {
                    assert(o2[x] == o[x]);
                } else {
                    assert(o2[x - 1] == o[x]);
                }
            }
            assert forall|j: int| 0 <= j < self.free@.len() implies 0 < #[trigger] self.free@[j]
                < nodes.len() && nodes[self.free@[j] as int].data.is_none() by {
                if j < old(self).free@.len() {
                    assert(self.free@[j] == old(self).free@[j]);
                    assert(nodes1[self.free@[j] as int].data == nodes0[self.free@[j] as int].data);
                    assert(self.free@[j] != s);
                    assert(nodes[self.free@[j] as int] == nodes1[self.free@[j] as int]);
                }
            }
            assert(self.free@.no_duplicates()) by {
                assert forall|j: int| 0 <= j < old(self).free@.len() implies old(self).free@[j] != s by {
                    assert(nodes0[old(self).free@[j] as int].data.is_none());
                }
                assert forall|a: int, b: int| 0 <= a < b < self.free@.len() implies self.free@[a] != self.free@[b] by {
                    if b == old(self).free@.len() {
                        assert(self.free@[a] == old(self).free@[a]);
                    } else {
                        assert(self.free@[a] == old(self).free@[a]);
                        assert(self.free@[b] == old(self).free@[b]);
                    }
                }
            }
        }
        d
    }

    /// Remove the live node `handle` from wherever it stands and return its
    /// payload.
    pub fn remove(&mut self, handle: LRUHandle) -> (r: T)
        requires
            old(self).wf(),
            old(self).handles().contains(handle),
        ensures
            final(self).wf(),
            forall|i: int|
                0 <= i < old(self).handles().len() && old(self).handles()[i] == handle ==> {
                    &&& r == old(self).values()[i]
                    &&& final(self).values() == old(self).values().remove(i)
                    &&& final(self).handles() == old(self).handles().remove(i)
                },
    {
        let ghost o = self.order@;
        let ghost nodes0 = self.nodes@;
        let ghost i = self.handles().index_of(handle);
        let s = handle.slot;
        assert(o[i] == s);
        proof {
            self.lemma_live_slots();
        }
        let d = self.take_out(Ghost(i), s);
        proof {
            let o2 = self.order@;
            let nodes = self.nodes@;
            assert forall|i2: int|
                0 <= i2 < old(self).handles().len() && old(self).handles()[i2] == handle implies {
                    &&& d->0 == old(self).values()[i2]
                    &&& self.values() == old(self).values().remove(i2)
                    &&& self.handles() == old(self).handles().remove(i2)
                } by {
                assert(o[i2] == o[i]);
                assert(i2 == i);
                assert forall|j: int| 0 <= j < o2.len() implies #[trigger] o2[j] != s by {
                    if j < i {
                        assert(o2[j] == o[j]);
                    } else {
                        assert(o2[j] == o[j + 1]);
                    }
                }
                assert forall|j: int| 0 <= j < o2.len() implies 0 < #[trigger] o2[j] < nodes.len() by {
                    if j < i {
                        assert(o2[j] == o[j]);
                    } else {
                        assert(o2[j] == o[j + 1]);
                    }
                }
                assert(self.values() =~= old(self).values().remove(i));
                assert(self.handles() =~= old(self).handles().remove(i));
            }
        }
        d.unwrap()
    }

    /// Remove the least recently used node and return its payload; `None`
    /// when the list is empty.
    pub fn remove_last(&mut self) -> (r: Option<T>)
        requires
            old(self).wf(),
        ensures
            final(self).wf(),
            old(self).values().len() == 0 ==> {
                &&& r == None::<T>
                &&& final(self).values() == old(self).values()
                &&& final(self).handles() == old(self).handles()
            },
            old(self).values().len() > 0 ==> {
                &&& r == Some(old(self).values().last())
                &&& final(self).values() == old(self).values().drop_last()
                &&& final(self).handles() == old(self).handles().drop_last()
            },
    {
        proof {
            reveal(LRUList::wf);
        }
        if self.count == 0 {
            return None;
        }
        let ghost o = self.order@;
        let ghost n = o.len();
        let s = self.nodes[0].prev;
        let h = LRUHandle { slot: s, generation: self.nodes[s].generation };
        assert(self.handles()[n - 1] == h);
        proof {
            self.lemma_live_slots();
        }
        let v = self.remove(h);
        assert(old(self).values().drop_last() =~= old(self).values().remove(n - 1));
        assert(old(self).handles().drop_last() =~= old(self).handles().remove(n - 1));
        Some(v)
    }

    /// Move the node at position `i` (in slot `s`) to the front.
    #[verifier::rlimit(100)]
    fn move_to_front(&mut self, Ghost(i): Ghost<int>, s: usize)
        requires
            old(self).wf(),
            0 <= i < old(self).order@.len(),
            old(self).order@[i] == s,
        ensures
            final(self).wf(),
            final(self).order@ == seq![s] + old(self).order@.remove(i),
            same_payloads(final(self).nodes@, old(self).nodes@),
    {
        reveal(LRUList::wf);
        let ghost o = self.order@;
        let ghost nodes0 = self.nodes@;
        self.unlink(Ghost(i), s);
        assert(!self.order@.contains(s)) by {
            if self.order@.contains(s) {
                let x = self.order@.index_of(s);
                if x < i {
                    assert(self.order@[x] == o[x]);
                } else {
                    assert(self.order@[x] == o[x + 1]);
                }
            }
        }
        self.link_front(s);
        proof {
            let o2 = self.order@;
            let nodes = self.nodes@;
            assert forall|j: int| 0 <= j < o2.len() implies #[trigger] o2[j] == (if j == 0 {
                o[i]
            } else if j <= i {
                o[j - 1]
            } else {
                o[j]
            }) by {}
            assert forall|j: int| 0 <= j < o2.len() implies nodes[#[trigger] o2[j] as int].data.is_some() by {
                assert(nodes[o2[j] as int].data == nodes0[o2[j] as int].data);
            }
            assert forall|k: usize| 0 < k < nodes.len() && (#[trigger] nodes[k as int]).data.is_some()
                implies o2.contains(k) by {
                assert(nodes0[k as int].data.is_some());
                let x = o.index_of(k);
                if x == i {
                    assert(o2[0] == k);
                } else if x < i {
                    assert(o2[x + 1] == k);
                } else {
                    assert(o2[x] == k);
                }
            }
            assert forall|j: int| 0 <= j < self.free@.len() implies 0 < #[trigger] self.free@[j]
                < nodes.len() && nodes[self.free@[j] as int].data.is_none() by {
                assert(nodes[self.free@[j] as int].data == nodes0[self.free@[j] as int].data);
            }
        }
    }

    /// Move the live node `handle` to the front, keeping its payload.
    pub fn reinsert_front(&mut self, handle: LRUHandle)
        requires
            old(self).wf(),
            old(self).handles().contains(handle),
        ensures
            final(self).wf(),
            forall|i: int|
                0 <= i < old(self).handles().len() && old(self).handles()[i] == handle ==> {
                    &&& final(self).values() == seq![old(self).values()[i]] + old(
                        self,
                    ).values().remove(i)
                    &&& final(self).handles() == seq![handle] + old(self).handles().remove(i)
                },
    {
        let ghost o = self.order@;
        let ghost nodes0 = self.nodes@;
        let ghost i = self.handles().index_of(handle);
        let s = handle.slot;
        assert(o[i] == s);
        proof {
            self.lemma_live_slots();
        }
        self.move_to_front(Ghost(i), s);
        proof {
            let o2 = self.order@;
            let nodes = self.nodes@;
            assert forall|j: int| 0 <= j < o2.len() implies #[trigger] o2[j] == (if j == 0 {
                o[i]
            } else if j <= i {
                o[j - 1]
            } else {
                o[j]
            }) by {}
            assert forall|i2: int|
                0 <= i2 < old(self).handles().len() && old(self).handles()[i2] == handle implies {
                    &&& self.values() == seq![old(self).values()[i2]] + old(self).values().remove(i2)
                    &&& self.handles() == seq![handle] + old(self).handles().remove(i2)
                } by {
                assert(o[i2] == o[i]);
                assert(i2 == i);
                assert forall|j: int| 0 <= j < o2.len() implies nodes[#[trigger] o2[j] as int].data
                    == nodes0[o2[j] as int].data && nodes[o2[j] as int].generation
                    == nodes0[o2[j] as int].generation by {
                    assert(0 < o2[j] < nodes0.len());
                }
                assert(self.values() =~= seq![old(self).values()[i]] + old(self).values().remove(i));
                assert(self.handles() =~= seq![handle] + old(self).handles().remove(i));
            }
        }
    }

    /// Whether `handle` denotes a live node of this list. A handle whose node
    /// was removed is never live again while its slot keeps the generation.
    pub fn is_live(&self, handle: LRUHandle) -> (r: bool)
        requires
            self.wf(),
        ensures
            r == self.handles().contains(handle),
    {
        reveal(LRUList::wf);
        let s = handle.slot;
        let r = 0 < s && s < self.nodes.len() && self.nodes[s].data.is_some()
            && self.nodes[s].generation == handle.generation;
        proof {
            let o = self.order@;
            if r {
                let x = o.index_of(s);
                assert(self.handles()[x] == handle);
            }
            if self.handles().contains(handle) {
                let x = self.handles().index_of(handle);
                assert(o[x] == s);
            }
        }
        r
    }

    /// The payload at the front (most recently used), if any.
    pub fn _testing_head_ref(&self) -> (r: Option<&T>)
        requires
            self.wf(),
        ensures
            self.values().len() == 0 ==> r.is_none(),
            self.values().len() > 0 ==> r == Some(&self.values()[0]),
    {
        reveal(LRUList::wf);
        let first = self.nodes[0].next;
        if first == 0 {
            None
        } else {
            self.nodes[first].data.as_ref()
        }
    }
}

} // verus!
