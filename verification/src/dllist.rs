//! Sentinel-headed circular doubly-linked lists over a shared node arena.
//!
//! A node is a row of the [`Arena`]; its `next` and `prev` links are arena
//! indices. A node whose links point to its own index is *isolated*: a member
//! of no list. A [`Dllist`] is identified by its permanently allocated head
//! (sentinel) node; the list is empty exactly when the head links to itself.
//! Residency is tracked by a ghost sequence of member indices, ordered from
//! front (`head.next`) to back (`head.prev`).

use vstd::prelude::*;

verus! {

/// Caller-owned storage for list nodes: parallel columns, one row per node.
///
/// Lists and queues built over an arena do not own their nodes; they only
/// relink them. A node is allocated once (see [`Dllink::new`]) and keeps its
/// index for as long as the arena lives.
pub struct Arena<T> {
    /// Successor index of each node.
    pub next: Vec<usize>,
    /// Predecessor index of each node.
    pub prev: Vec<usize>,
    /// Integer tag of each node; the bucket queue keeps the shifted key here.
    pub key: Vec<usize>,
    /// Lock mark: a resident node that is marked locked is left untouched by
    /// the queue's key-modifying operations.
    pub locked: Vec<bool>,
    /// Caller payload of each node.
    pub data: Vec<T>,
}

impl<T> Arena<T> {
    /// Every column has exactly one entry per node.
    pub open spec fn wf(self) -> bool {
        &&& self.prev@.len() == self.next@.len()
        &&& self.key@.len() == self.next@.len()
        &&& self.locked@.len() == self.next@.len()
        &&& self.data@.len() == self.next@.len()
    }

    /// Number of allocated nodes.
    pub open spec fn spec_len(self) -> nat {
        self.next@.len()
    }

    /// Node `i` links to itself: it is a member of no list.
    pub open spec fn isolated(self, i: usize) -> bool {
        &&& self.next@[i as int] == i
        &&& self.prev@[i as int] == i
    }

    /// Node `i` reads as locked: isolated, or carrying the lock mark.
    pub open spec fn spec_is_locked(self, i: usize) -> bool {
        self.next@[i as int] == i || self.locked@[i as int]
    }

    /// An empty arena.
    pub fn new() -> (a: Arena<T>)
        ensures
            a.wf(),
            a.spec_len() == 0,
    {
        Arena {
            next: Vec::new(),
            prev: Vec::new(),
            key: Vec::new(),
            locked: Vec::new(),
            data: Vec::new(),
        }
    }

    /// Number of allocated nodes.
    pub fn len(&self) -> (n: usize)
        ensures
            n == self.spec_len(),
    {
        self.next.len()
    }
}

/// Handle to one node of an arena: the node's index.
#[derive(Clone, Copy)]
pub struct Dllink {
    /// The node's own row in the arena.
    pub id: usize,
}

impl Dllink {
    /// Allocate a fresh isolated node carrying `key` and `data`.
    pub fn new<T>(arena: &mut Arena<T>, key: usize, data: T) -> (n: Dllink)
        requires
            old(arena).wf(),
        ensures
            final(arena).wf(),
            n.id == old(arena).spec_len(),
            final(arena).next@ == old(arena).next@.push(n.id),
            final(arena).prev@ == old(arena).prev@.push(n.id),
            final(arena).key@ == old(arena).key@.push(key),
            final(arena).locked@ == old(arena).locked@.push(false),
            final(arena).data@ == old(arena).data@.push(data),
            final(arena).isolated(n.id),
    {
        let id = arena.next.len();
        arena.next.push(id);
        arena.prev.push(id);
        arena.key.push(key);
        arena.locked.push(false);
        arena.data.push(data);
        Dllink { id }
    }

    /// Whether this node, read as a list head, has no member attached.
    pub fn is_empty<T>(&self, arena: &Arena<T>) -> (r: bool)
        requires
            arena.wf(),
            self.id < arena.spec_len(),
        ensures
            r <==> arena.next@[self.id as int] == self.id,
    {
        arena.next[self.id] == self.id
    }

    /// Force the node back to the isolated state and drop its lock mark.
    pub fn clear<T>(&self, arena: &mut Arena<T>)
        requires
            old(arena).wf(),
            self.id < old(arena).spec_len(),
        ensures
            final(arena).wf(),
            final(arena).spec_len() == old(arena).spec_len(),
            final(arena).next@ == old(arena).next@.update(self.id as int, self.id),
            final(arena).prev@ == old(arena).prev@.update(self.id as int, self.id),
            final(arena).key@ == old(arena).key@,
            final(arena).locked@ == old(arena).locked@.update(self.id as int, false),
            final(arena).data@ == old(arena).data@,
            final(arena).isolated(self.id),
    {
        arena.next.set(self.id, self.id);
        arena.prev.set(self.id, self.id);
        arena.locked.set(self.id, false);
    }

    /// Mark the node as locked: key-modifying operations must leave it alone.
    pub fn lock<T>(&self, arena: &mut Arena<T>)
        requires
            old(arena).wf(),
            self.id < old(arena).spec_len(),
        ensures
            final(arena).wf(),
            final(arena).spec_len() == old(arena).spec_len(),
            final(arena).next@ == old(arena).next@,
            final(arena).prev@ == old(arena).prev@,
            final(arena).key@ == old(arena).key@,
            final(arena).locked@ == old(arena).locked@.update(self.id as int, true),
            final(arena).data@ == old(arena).data@,
            final(arena).spec_is_locked(self.id),
    {
        arena.locked.set(self.id, true);
    }

    /// Whether the node reads as locked (isolated nodes do as well).
    pub fn is_locked<T>(&self, arena: &Arena<T>) -> (r: bool)
        requires
            arena.wf(),
            self.id < arena.spec_len(),
        ensures
            r == arena.spec_is_locked(self.id),
    {
        arena.next[self.id] == self.id || arena.locked[self.id]
    }
}

/// The ring condition: `c` lists the indices of a circular doubly-linked
/// chain in order, each node's `next` naming its successor and `prev` its
/// predecessor, wrapping around at the ends.
pub open spec fn ring_wf<T>(arena: Arena<T>, c: Seq<usize>) -> bool {
    &&& c.len() >= 1
    &&& forall|k: int| 0 <= k < c.len() ==> (#[trigger] c[k]) < arena.spec_len()
    &&& c.no_duplicates()
    &&& forall|k: int| 0 <= k < c.len() - 1 ==> (#[trigger] arena.next@[c[k] as int]) == c[k + 1]
    &&& arena.next@[c[c.len() - 1] as int] == c[0]
    &&& forall|k: int| 1 <= k < c.len() ==> (#[trigger] arena.prev@[c[k] as int]) == c[k - 1]
    &&& arena.prev@[c[0] as int] == c[c.len() - 1]
}

/// An isolated node stands in no well-formed list, except as the head of an
/// empty one: every chain position other than a lone head names a successor
/// different from the node itself.
pub proof fn lemma_isolated_not_in_chain<T>(arena: Arena<T>, l: Dllist, i: usize)
    requires
        l.wf(arena),
        arena.isolated(i),
        i != l.head.id,
    ensures
        !l.chain().contains(i),
        !l.members@.contains(i),
{
    let c = l.chain();
    let n = c.len() as int;
    if c.contains(i) {
        let p = choose|p: int| 0 <= p < n && c[p] == i;
        assert(c[0] == l.head.id);
        assert(p >= 1);
        if p < n - 1 {
            assert(arena.next@[c[p] as int] == c[p + 1]);
            assert(c[p] != c[p + 1]);
            assert(false);
        } else {
            assert(arena.next@[c[p] as int] == c[0]);
            assert(c[0] != c[p]);
            assert(false);
        }
    }
    if l.members@.contains(i) {
        let q = choose|q: int| 0 <= q < l.members@.len() && l.members@[q] == i;
        assert(c[q + 1] == i);
        assert(false);
    }
}

/// Relinking nodes that stand outside a ring leaves the ring intact.
pub proof fn lemma_wf_frame<T>(l: Dllist, a1: Arena<T>, a2: Arena<T>)
    requires
        l.wf(a1),
        a1.spec_len() <= a2.spec_len(),
        forall|k: int|
            0 <= k < l.chain().len()
                ==> a2.next@[(#[trigger] l.chain()[k]) as int] == a1.next@[l.chain()[k] as int]
                    && a2.prev@[l.chain()[k] as int] == a1.prev@[l.chain()[k] as int],
    ensures
        l.wf(a2),
{
    let c = l.chain();
    assert forall|k: int| 0 <= k < c.len() - 1 implies a2.next@[(#[trigger] c[k]) as int] == c[k
        + 1] by {
        assert(a1.next@[c[k] as int] == c[k + 1]);
    }
    assert forall|k: int| 1 <= k < c.len() implies a2.prev@[(#[trigger] c[k]) as int] == c[k
        - 1] by {
        assert(a1.prev@[c[k] as int] == c[k - 1]);
    }
    assert(a2.next@[c[c.len() - 1] as int] == c[0]);
    assert(a2.prev@[c[0] as int] == c[c.len() - 1]);
}

/// Unlinking one non-head position of a ring — bending its neighbours'
/// links around it and making the node self-linked — leaves a ring over the
/// remaining positions.
#[verifier::rlimit(60)]
proof fn lemma_ring_remove<T>(a1: Arena<T>, a2: Arena<T>, c0: Seq<usize>, pk: int)
    requires
        a1.wf(),
        ring_wf(a1, c0),
        1 <= pk < c0.len(),
        a2.next@ == a1.next@.update(c0[pk - 1] as int, a1.next@[c0[pk] as int]).update(
            c0[pk] as int,
            c0[pk],
        ),
        a2.prev@ == a1.prev@.update(a1.next@[c0[pk] as int] as int, c0[pk - 1]).update(
            c0[pk] as int,
            c0[pk],
        ),
    ensures
        ring_wf(a2, c0.remove(pk)),
{
    let n = c0.len() as int;
    let f = c0[pk];
    let p = c0[pk - 1];
    let nx = if pk == n - 1 {
        c0[0]
    } else {
        c0[pk + 1]
    };
    assert(a1.next@[f as int] == nx);
    assert(a2.next@ == a1.next@.update(p as int, nx).update(f as int, f));
    assert(a2.prev@ == a1.prev@.update(nx as int, p).update(f as int, f));
    c0.remove_ensures(pk);
    let c1 = c0.remove(pk);
    assert forall|k1: int, k2: int| 0 <= k1 < k2 < c1.len() implies c1[k1] != c1[k2] by {
        let j1 = if k1 < pk {
            k1
        } else {
            k1 + 1
        };
        let j2 = if k2 < pk {
            k2
        } else {
            k2 + 1
        };
        assert(c1[k1] == c0[j1] && c1[k2] == c0[j2]);
        assert(c0[j1] != c0[j2]);
    }
    assert(c1.no_duplicates());
    assert forall|k: int| 0 <= k < c1.len() - 1 implies a2.next@[(#[trigger] c1[k]) as int] == c1[k
        + 1] by {
        if k == pk - 1 {
            assert(c1[k] == p);
            if pk < n - 1 {
                assert(c1[k + 1] == c0[pk + 1]);
            }
        } else {
            let j = if k < pk {
                k
            } else {
                k + 1
            };
            assert(c1[k] == c0[j]);
            assert(c0[j] != p && c0[j] != f);
            assert(a2.next@[c0[j] as int] == a1.next@[c0[j] as int]);
            assert(a1.next@[c0[j] as int] == c0[j + 1]);
            assert(c1[k + 1] == c0[j + 1]);
        }
    }
    assert forall|k: int| 1 <= k < c1.len() implies a2.prev@[(#[trigger] c1[k]) as int] == c1[k
        - 1] by {
        if k == pk && pk < n - 1 {
            assert(c1[k] == c0[pk + 1]);
            assert(c0[pk + 1] == nx);
            assert(c1[k - 1] == c0[pk - 1]);
        } else {
            let j = if k < pk {
                k
            } else {
                k + 1
            };
            assert(c1[k] == c0[j]);
            assert(c0[j] != nx && c0[j] != f);
            assert(a2.prev@[c0[j] as int] == a1.prev@[c0[j] as int]);
            assert(a1.prev@[c0[j] as int] == c0[j - 1]);
            assert(c1[k - 1] == c0[j - 1]);
        }
    }
    if pk == n - 1 {
        assert(c1[c1.len() - 1] == p);
        assert(a2.next@[p as int] == nx);
        assert(nx == c1[0]);
    } else {
        assert(c1[c1.len() - 1] == c0[n - 1]);
        assert(c0[n - 1] != p && c0[n - 1] != f);
        assert(a2.next@[c0[n - 1] as int] == a1.next@[c0[n - 1] as int]);
    }
    assert(a2.next@[c1[c1.len() - 1] as int] == c1[0]);
    if pk == n - 1 {
        assert(nx == c0[0]);
        assert(a2.prev@[c0[0] as int] == p);
        assert(c1[c1.len() - 1] == p);
    } else {
        assert(c0[0] != nx && c0[0] != f);
        assert(a2.prev@[c0[0] as int] == a1.prev@[c0[0] as int]);
        assert(c1[c1.len() - 1] == c0[n - 1]);
    }
    assert(a2.prev@[c1[0] as int] == c1[c1.len() - 1]);
}

/// Every index of a list whose members are a suffix of `m0` stands in the
/// chain `[h] + m0`.
proof fn lemma_suffix_chain_contains(h: Dllink, m0: Seq<usize>, d: int, pre: Dllist, i: usize)
    requires
        0 <= d <= m0.len(),
        pre.head == h,
        pre.members@ == m0.skip(d),
        pre.chain().contains(i),
    ensures
        (seq![h.id] + m0).contains(i),
{
    let w = choose|w: int| 0 <= w < pre.chain().len() && pre.chain()[w] == i;
    let c_start = seq![h.id] + m0;
    if w == 0 {
        assert(c_start[0] == i);
    } else {
        assert(pre.chain()[w] == pre.members@[w - 1]);
        assert(pre.members@[w - 1] == m0[d + w - 1]);
        assert(c_start[d + w] == i);
    }
    assert(c_start.contains(i));
}

/// A member already removed from the front of `m0` does not reappear in the
/// remaining suffix chain, the chain being free of duplicates.
proof fn lemma_popped_not_in_suffix(
    h: Dllink,
    m0: Seq<usize>,
    c_start: Seq<usize>,
    d: int,
    pre: Dllist,
    j: int,
)
    requires
        c_start == seq![h.id] + m0,
        c_start.no_duplicates(),
        0 <= d <= m0.len(),
        0 <= j < d,
        pre.head == h,
        pre.members@ == m0.skip(d),
    ensures
        !pre.chain().contains(m0[j]),
{
    if pre.chain().contains(m0[j]) {
        let w = choose|w: int| 0 <= w < pre.chain().len() && pre.chain()[w] == m0[j];
        assert(c_start[j + 1] == m0[j]);
        if w == 0 {
            assert(c_start[0] == m0[j]);
            assert(c_start[0] != c_start[j + 1]);
        } else {
            assert(pre.chain()[w] == pre.members@[w - 1]);
            assert(pre.members@[w - 1] == m0[d + w - 1]);
            assert(c_start[d + w] == m0[j]);
            assert(c_start[j + 1] != c_start[d + w]);
        }
        assert(false);
    }
}

/// A sentinel-headed circular doubly-linked list. Non-owning: the head and
/// all members are rows of a caller-owned arena.
#[derive(Clone, Copy)]
pub struct Dllist {
    /// The permanently allocated sentinel node.
    pub head: Dllink,
    /// Member indices, front to back (ghost).
    pub members: Ghost<Seq<usize>>,
}

impl Dllist {
    /// The full chain of the list: the head followed by the members.
    pub open spec fn chain(self) -> Seq<usize> {
        seq![self.head.id] + self.members@
    }

    /// The list is a well-formed ring in `arena`.
    pub open spec fn wf<T>(self, arena: Arena<T>) -> bool {
        ring_wf(arena, self.chain())
    }

    /// Construct a new list: allocates its head node, initially empty.
    pub fn new<T>(arena: &mut Arena<T>, key: usize, data: T) -> (l: Dllist)
        requires
            old(arena).wf(),
        ensures
            final(arena).wf(),
            l.head.id == old(arena).spec_len(),
            l.members@ == Seq::<usize>::empty(),
            l.wf(*final(arena)),
            final(arena).next@ == old(arena).next@.push(l.head.id),
            final(arena).prev@ == old(arena).prev@.push(l.head.id),
            final(arena).key@ == old(arena).key@.push(key),
            final(arena).locked@ == old(arena).locked@.push(false),
            final(arena).data@ == old(arena).data@.push(data),
    {
        let head = Dllink::new(arena, key, data);
        let l = Dllist { head, members: Ghost(Seq::empty()) };
        proof {
            assert(l.chain() =~= seq![head.id]);
        }
        l
    }

    /// Attach `node` at the back of the list (FIFO position).
    pub fn append<T>(&mut self, arena: &mut Arena<T>, node: Dllink)
        requires
            old(arena).wf(),
            old(self).wf(*old(arena)),
            node.id < old(arena).spec_len(),
            old(arena).isolated(node.id),
            node.id != old(self).head.id,
        ensures
            final(arena).wf(),
            final(arena).spec_len() == old(arena).spec_len(),
            final(self).head == old(self).head,
            final(self).members@ == old(self).members@.push(node.id),
            final(self).wf(*final(arena)),
            final(arena).key@ == old(arena).key@,
            final(arena).data@ == old(arena).data@,
            final(arena).locked@ == old(arena).locked@.update(node.id as int, false),
            forall|i: usize|
                i < final(arena).spec_len() && !old(self).chain().contains(i) && i != node.id
                    ==> final(arena).next@[i as int] == old(arena).next@[i as int]
                        && final(arena).prev@[i as int] == old(arena).prev@[i as int],
    {
        proof {
            lemma_isolated_not_in_chain(*arena, *self, node.id);
        }
        let ghost c0 = self.chain();
        let ghost n = c0.len() as int;
        let h = self.head.id;
        let tail = arena.prev[h];
        proof {
            assert(c0[0] == h);
            assert(tail == c0[n - 1]);
            assert(c0.contains(tail));
            assert(c0.contains(c0[0]));
        }
        arena.next.set(tail, node.id);
        arena.next.set(node.id, h);
        arena.prev.set(h, node.id);
        arena.prev.set(node.id, tail);
        arena.locked.set(node.id, false);
        self.members = Ghost(self.members@.push(node.id));
        proof {
            let c1 = self.chain();
            assert(c1 =~= c0.push(node.id));
            assert forall|k1: int, k2: int| 0 <= k1 < k2 < c1.len() implies c1[k1] != c1[k2] by {
                if k2 < n {
                    assert(c0[k1] != c0[k2]);
                } else {
                    assert(c0.contains(c0[k1]));
                }
            }
            assert(c1.no_duplicates());
            assert forall|k: int| 0 <= k < c1.len() - 1 implies arena.next@[(#[trigger] c1[k]) as int]
                == c1[k + 1] by {
                if k < n - 1 {
                    assert(c0[k] != tail && c0[k] != node.id);
                } else {
                    assert(c1[k] == tail);
                }
            }
            assert forall|k: int| 1 <= k < c1.len() implies arena.prev@[(#[trigger] c1[k]) as int]
                == c1[k - 1] by {
                if k < n {
                    assert(c0[k] != h && c0[k] != node.id);
                }
            }
            assert(arena.next@[c1[c1.len() - 1] as int] == c1[0]);
            assert(arena.prev@[c1[0] as int] == c1[c1.len() - 1]);
        }
    }

    /// Attach `node` at the front of the list (LIFO position).
    pub fn appendleft<T>(&mut self, arena: &mut Arena<T>, node: Dllink)
        requires
            old(arena).wf(),
            old(self).wf(*old(arena)),
            node.id < old(arena).spec_len(),
            old(arena).isolated(node.id),
            node.id != old(self).head.id,
        ensures
            final(arena).wf(),
            final(arena).spec_len() == old(arena).spec_len(),
            final(self).head == old(self).head,
            final(self).members@ == seq![node.id] + old(self).members@,
            final(self).wf(*final(arena)),
            final(arena).key@ == old(arena).key@,
            final(arena).data@ == old(arena).data@,
            final(arena).locked@ == old(arena).locked@.update(node.id as int, false),
            forall|i: usize|
                i < final(arena).spec_len() && !old(self).chain().contains(i) && i != node.id
                    ==> final(arena).next@[i as int] == old(arena).next@[i as int]
                        && final(arena).prev@[i as int] == old(arena).prev@[i as int],
    {
        proof {
            lemma_isolated_not_in_chain(*arena, *self, node.id);
        }
        let ghost c0 = self.chain();
        let ghost n = c0.len() as int;
        let h = self.head.id;
        let s = arena.next[h];
        proof {
            assert(c0[0] == h);
            if n >= 2 {
                assert(s == c0[1]);
            } else {
                assert(s == c0[0]);
            }
            assert(c0.contains(c0[if n >= 2 { 1int } else { 0int }]));
        }
        arena.next.set(node.id, s);
        arena.prev.set(node.id, h);
        arena.next.set(h, node.id);
        arena.prev.set(s, node.id);
        arena.locked.set(node.id, false);
        self.members = Ghost(seq![node.id] + self.members@);
        proof {
            let c1 = self.chain();
            assert(c1 =~= c0.insert(1, node.id));
            assert forall|k1: int, k2: int| 0 <= k1 < k2 < c1.len() implies c1[k1] != c1[k2] by {
                if k1 == 1 {
                    assert(c1[k2] == c0[k2 - 1]);
                    assert(c0.contains(c0[k2 - 1]));
                } else if k2 == 1 {
                    assert(c1[k1] == c0[0]);
                    assert(c0.contains(c0[0]));
                } else {
                    let j1 = if k1 == 0 { 0int } else { k1 - 1 };
                    let j2 = k2 - 1;
                    assert(c1[k1] == c0[j1] && c1[k2] == c0[j2]);
                    assert(c0[j1] != c0[j2]);
                }
            }
            assert(c1.no_duplicates());
            assert forall|k: int| 0 <= k < c1.len() - 1 implies arena.next@[(#[trigger] c1[k]) as int]
                == c1[k + 1] by {
                if k == 0 {
                } else if k == 1 {
                    assert(c1[k] == node.id);
                    assert(c1[2] == c0[1]);
                } else {
                    assert(c1[k] == c0[k - 1]);
                    assert(c0[k - 1] != h && c0[k - 1] != node.id);
                    assert(arena.next@[c0[k - 1] as int] == c0[k]);
                }
            }
            assert forall|k: int| 1 <= k < c1.len() implies arena.prev@[(#[trigger] c1[k]) as int]
                == c1[k - 1] by {
                if k == 1 {
                } else if k == 2 {
                    assert(c1[k] == c0[1]);
                    assert(c0[1] == s);
                } else {
                    assert(c1[k] == c0[k - 1]);
                    assert(c0[k - 1] != node.id && c0[k - 1] != s && c0[k - 1] != h);
                    assert(arena.prev@[c0[k - 1] as int] == c0[k - 2]);
                    assert(c1[k - 1] == c0[k - 2]);
                }
            }
            assert(arena.next@[c1[c1.len() - 1] as int] == c1[0]);
            assert(arena.prev@[c1[0] as int] == c1[c1.len() - 1]);
        }
    }

    /// Detach and return the front member. Precondition: the list is not
    /// empty. The returned node is isolated afterwards.
    pub fn popleft<T>(&mut self, arena: &mut Arena<T>) -> (r: Dllink)
        requires
            old(arena).wf(),
            old(self).wf(*old(arena)),
            old(self).members@.len() > 0,
        ensures
            final(arena).wf(),
            final(arena).spec_len() == old(arena).spec_len(),
            final(self).head == old(self).head,
            r.id == old(self).members@[0],
            final(self).members@ == old(self).members@.drop_first(),
            final(self).wf(*final(arena)),
            final(arena).isolated(r.id),
            final(arena).key@ == old(arena).key@,
            final(arena).data@ == old(arena).data@,
            final(arena).locked@ == old(arena).locked@,
            forall|i: usize|
                i < final(arena).spec_len() && !old(self).chain().contains(i)
                    ==> final(arena).next@[i as int] == old(arena).next@[i as int]
                        && final(arena).prev@[i as int] == old(arena).prev@[i as int],
    {
        let ghost c0 = self.chain();
        let ghost n = c0.len() as int;
        let h = self.head.id;
        let f = arena.next[h];
        proof {
            assert(c0[0] == h);
            assert(f == c0[1]);
            assert(c0.contains(c0[1]));
        }
        let s = arena.next[f];
        proof {
            if n >= 3 {
                assert(s == c0[2]);
                assert(c0.contains(c0[2]));
            } else {
                assert(s == c0[0]);
            }
        }
        arena.next.set(h, s);
        arena.prev.set(s, h);
        arena.next.set(f, f);
        arena.prev.set(f, f);
        self.members = Ghost(self.members@.drop_first());
        proof {
            let c1 = self.chain();
            assert(c1 =~= c0.remove(1));
            assert forall|k1: int, k2: int| 0 <= k1 < k2 < c1.len() implies c1[k1] != c1[k2] by {
                let j1 = if k1 == 0 { 0int } else { k1 + 1 };
                let j2 = k2 + 1;
                assert(c1[k1] == c0[j1] && c1[k2] == c0[j2]);
                assert(c0[j1] != c0[j2]);
            }
            assert(c1.no_duplicates());
            assert forall|k: int| 0 <= k < c1.len() - 1 implies arena.next@[(#[trigger] c1[k]) as int]
                == c1[k + 1] by {
                if k == 0 {
                    assert(c1[1] == c0[2]);
                } else {
                    assert(c1[k] == c0[k + 1]);
                    assert(c0[k + 1] != h && c0[k + 1] != f);
                    assert(arena.next@[c0[k + 1] as int] == c0[k + 2]);
                }
            }
            assert forall|k: int| 1 <= k < c1.len() implies arena.prev@[(#[trigger] c1[k]) as int]
                == c1[k - 1] by {
                if k == 1 {
                    assert(c1[k] == c0[2]);
                    assert(c0[2] == s);
                } else {
                    assert(c1[k] == c0[k + 1]);
                    assert(c0[k + 1] != s && c0[k + 1] != f);
                    assert(arena.prev@[c0[k + 1] as int] == c0[k]);
                    assert(c1[k - 1] == c0[k]);
                }
            }
            if n == 2 {
                assert(c1 =~= seq![h]);
            }
            assert(arena.next@[c1[c1.len() - 1] as int] == c1[0]);
            assert(arena.prev@[c1[0] as int] == c1[c1.len() - 1]);
        }
        Dllink { id: f }
    }

    /// Detach and return the back member. Precondition: the list is not
    /// empty. The returned node is isolated afterwards.
    pub fn pop<T>(&mut self, arena: &mut Arena<T>) -> (r: Dllink)
        requires
            old(arena).wf(),
            old(self).wf(*old(arena)),
            old(self).members@.len() > 0,
        ensures
            final(arena).wf(),
            final(arena).spec_len() == old(arena).spec_len(),
            final(self).head == old(self).head,
            r.id == old(self).members@.last(),
            final(self).members@ == old(self).members@.drop_last(),
            final(self).wf(*final(arena)),
            final(arena).isolated(r.id),
            final(arena).key@ == old(arena).key@,
            final(arena).data@ == old(arena).data@,
            final(arena).locked@ == old(arena).locked@,
            forall|i: usize|
                i < final(arena).spec_len() && !old(self).chain().contains(i)
                    ==> final(arena).next@[i as int] == old(arena).next@[i as int]
                        && final(arena).prev@[i as int] == old(arena).prev@[i as int],
    {
        let ghost c0 = self.chain();
        let ghost n = c0.len() as int;
        let h = self.head.id;
        let f = arena.prev[h];
        proof {
            assert(c0[0] == h);
            assert(f == c0[n - 1]);
            assert(c0.contains(c0[n - 1]));
        }
        let t = arena.prev[f];
        proof {
            assert(t == c0[n - 2]);
            assert(c0.contains(c0[n - 2]));
        }
        arena.next.set(t, h);
        arena.prev.set(h, t);
        arena.next.set(f, f);
        arena.prev.set(f, f);
        self.members = Ghost(self.members@.drop_last());
        proof {
            let c1 = self.chain();
            assert(c1 =~= c0.drop_last());
            assert forall|k1: int, k2: int| 0 <= k1 < k2 < c1.len() implies c1[k1] != c1[k2] by {
                assert(c0[k1] != c0[k2]);
            }
            assert(c1.no_duplicates());
            assert forall|k: int| 0 <= k < c1.len() - 1 implies arena.next@[(#[trigger] c1[k]) as int]
                == c1[k + 1] by {
                assert(c1[k] == c0[k]);
                assert(c0[k] != f && c0[k] != t);
                assert(arena.next@[c0[k] as int] == c0[k + 1]);
            }
            assert forall|k: int| 1 <= k < c1.len() implies arena.prev@[(#[trigger] c1[k]) as int]
                == c1[k - 1] by {
                assert(c1[k] == c0[k]);
                assert(c0[k] != h && c0[k] != f);
                assert(arena.prev@[c0[k] as int] == c0[k - 1]);
            }
            assert(c1[c1.len() - 1] == t);
            assert(arena.next@[c1[c1.len() - 1] as int] == c1[0]);
            if n == 2 {
                assert(c1 =~= seq![h]);
            }
            assert(arena.prev@[c1[0] as int] == c1[c1.len() - 1]);
        }
        Dllink { id: f }
    }

    /// Unlink `node` from this list. Precondition: `node` is a resident
    /// member and is not marked locked. The node is isolated afterwards.
    pub fn detach<T>(&mut self, arena: &mut Arena<T>, node: Dllink)
        requires
            old(arena).wf(),
            old(self).wf(*old(arena)),
            old(self).members@.contains(node.id),
            !old(arena).locked@[node.id as int],
        ensures
            final(arena).wf(),
            final(arena).spec_len() == old(arena).spec_len(),
            final(self).head == old(self).head,
            final(self).members@ == old(self).members@.remove_value(node.id),
            final(self).members@.len() == old(self).members@.len() - 1,
            final(self).wf(*final(arena)),
            final(arena).isolated(node.id),
            final(arena).key@ == old(arena).key@,
            final(arena).data@ == old(arena).data@,
            final(arena).locked@ == old(arena).locked@,
            forall|i: usize|
                i < final(arena).spec_len() && !old(self).chain().contains(i)
                    ==> final(arena).next@[i as int] == old(arena).next@[i as int]
                        && final(arena).prev@[i as int] == old(arena).prev@[i as int],
    {
        let ghost c0 = self.chain();
        let ghost n = c0.len() as int;
        let ghost m = self.members@;
        proof {
            assert forall|i1: int, i2: int| 0 <= i1 < i2 < m.len() implies m[i1] != m[i2] by {
                assert(c0[i1 + 1] == m[i1] && c0[i2 + 1] == m[i2]);
                assert(c0[i1 + 1] != c0[i2 + 1]);
            }
            m.index_of_first_ensures(node.id);
        }
        let ghost q = choose|qq: int| 0 <= qq < m.len() && m[qq] == node.id;
        let ghost pk = q + 1;
        proof {
            let idx = m.index_of_first(node.id)->Some_0;
            assert(m[idx] == node.id && 0 <= idx < m.len());
            assert(idx == q);
            assert(m.remove_value(node.id) == m.remove(q));
            assert(c0[pk] == node.id);
            assert(c0.contains(c0[pk]));
        }
        let f = node.id;
        let p = arena.prev[f];
        let nx = arena.next[f];
        proof {
            assert(p == c0[pk - 1]);
            assert(c0.contains(c0[pk - 1]));
            if pk < n - 1 {
                assert(nx == c0[pk + 1]);
                assert(c0.contains(c0[pk + 1]));
            } else {
                assert(nx == c0[0]);
                assert(c0.contains(c0[0]));
            }
        }
        arena.next.set(p, nx);
        arena.prev.set(nx, p);
        arena.next.set(f, f);
        arena.prev.set(f, f);
        self.members = Ghost(m.remove(q));
        proof {
            lemma_ring_remove(*old(arena), *arena, c0, pk);
            m.remove_ensures(q);
            c0.remove_ensures(pk);
            assert(self.chain() =~= c0.remove(pk));
        }
    }

    /// Empty the list, returning every member to the isolated state.
    #[verifier::rlimit(100)]
    pub fn clear<T>(&mut self, arena: &mut Arena<T>)
        requires
            old(arena).wf(),
            old(self).wf(*old(arena)),
        ensures
            final(arena).wf(),
            final(arena).spec_len() == old(arena).spec_len(),
            final(self).head == old(self).head,
            final(self).members@ == Seq::<usize>::empty(),
            final(self).wf(*final(arena)),
            final(arena).key@ == old(arena).key@,
            final(arena).data@ == old(arena).data@,
            final(arena).locked@ == old(arena).locked@,
            forall|j: int|
                0 <= j < old(self).members@.len() ==> final(arena).isolated(
                    #[trigger] old(self).members@[j],
                ),
            forall|i: usize|
                i < final(arena).spec_len() && !old(self).chain().contains(i)
                    ==> final(arena).next@[i as int] == old(arena).next@[i as int]
                        && final(arena).prev@[i as int] == old(arena).prev@[i as int],
    {
        let ghost ar0 = *arena;
        let ghost c_start = self.chain();
        let ghost h0 = self.head;
        let ghost m0 = self.members@;
        let ghost mut d: int = 0;
        proof {
            assert(m0.skip(0) =~= m0);
            assert(c_start.len() == m0.len() + 1);
        }
        while !self.is_empty(arena)
            invariant
                arena.wf(),
                arena.spec_len() == ar0.spec_len(),
                self.wf(*arena),
                self.head == h0,
                c_start == seq![h0.id] + m0,
                ring_wf(ar0, c_start),
                0 <= d <= m0.len(),
                self.members@ == m0.skip(d),
                arena.key@ == ar0.key@,
                arena.data@ == ar0.data@,
                arena.locked@ == ar0.locked@,
                forall|j: int| 0 <= j < d ==> arena.isolated(#[trigger] m0[j]),
                forall|i: usize|
                    i < arena.spec_len() && !c_start.contains(i)
                        ==> arena.next@[i as int] == ar0.next@[i as int]
                            && arena.prev@[i as int] == ar0.prev@[i as int],
            decreases self.members@.len(),
        {
            let ghost pre = *self;
            let ghost a_pre = *arena;
            let _ = self.popleft(arena);
            proof {
                let popped = pre.members@[0];
                assert(popped == m0[d]);
                d = d + 1;
                assert(self.members@ =~= m0.skip(d));
                assert forall|j: int| 0 <= j < d implies arena.isolated(#[trigger] m0[j]) by {
                    if j < d - 1 {
                        lemma_popped_not_in_suffix(h0, m0, c_start, d - 1, pre, j);
                        assert(m0[j] == c_start[j + 1]);
                        assert(m0[j] < arena.spec_len());
                        assert(arena.next@[m0[j] as int] == a_pre.next@[m0[j] as int]);
                        assert(arena.prev@[m0[j] as int] == a_pre.prev@[m0[j] as int]);
                    } else {
                        assert(m0[j] == popped);
                    }
                }
                assert forall|i: usize|
                    i < arena.spec_len() && !c_start.contains(i) implies arena.next@[i as int]
                    == ar0.next@[i as int] && arena.prev@[i as int] == ar0.prev@[i as int] by {
                    if pre.chain().contains(i) {
                        lemma_suffix_chain_contains(h0, m0, d - 1, pre, i);
                        assert(false);
                    }
                    assert(arena.next@[i as int] == a_pre.next@[i as int]);
                    assert(arena.prev@[i as int] == a_pre.prev@[i as int]);
                }
            }
        }
        proof {
            assert(self.members@ =~= Seq::<usize>::empty());
        }
    }

    /// Allocate a fresh node carrying `key` and `data` and attach it at the
    /// front of this list.
    pub fn push<T>(&mut self, arena: &mut Arena<T>, key: usize, data: T) -> (n: Dllink)
        requires
            old(arena).wf(),
            old(self).wf(*old(arena)),
        ensures
            final(arena).wf(),
            final(arena).spec_len() == old(arena).spec_len() + 1,
            n.id == old(arena).spec_len(),
            final(self).head == old(self).head,
            final(self).members@ == seq![n.id] + old(self).members@,
            final(self).wf(*final(arena)),
            final(arena).key@ == old(arena).key@.push(key),
            final(arena).data@ == old(arena).data@.push(data),
            forall|i: usize|
                i < old(arena).spec_len() && !old(self).chain().contains(i)
                    ==> final(arena).next@[i as int] == old(arena).next@[i as int]
                        && final(arena).prev@[i as int] == old(arena).prev@[i as int],
    {
        let n = Dllink::new(arena, key, data);
        proof {
            lemma_wf_frame(*self, *old(arena), *arena);
            assert(self.chain().contains(self.chain()[0]));
        }
        self.appendleft(arena, n);
        n
    }

    /// Whether the list has no member.
    pub fn is_empty<T>(&self, arena: &Arena<T>) -> (r: bool)
        requires
            arena.wf(),
            self.wf(*arena),
        ensures
            r <==> self.members@.len() == 0,
    {
        proof {
            if self.members@.len() > 0 {
                assert(self.chain()[1] == self.members@[0]);
                assert(arena.next@[self.chain()[0] as int] == self.chain()[1]);
            }
        }
        self.head.is_empty(arena)
    }
}

/// Forward iterator over a list: starts at `head.next` and stops on reaching
/// the head again. The arena must not be relinked while it runs.
pub struct DllIterator {
    /// The list being walked.
    pub list: Dllist,
    /// Index of the node the next call will yield, or the head at the end.
    pub cur: usize,
    /// How many members have been yielded (ghost).
    pub pos: Ghost<int>,
}

impl DllIterator {
    /// The iterator stands at position `pos` of its list's member sequence.
    pub open spec fn inv<T>(self, arena: Arena<T>) -> bool {
        &&& self.list.wf(arena)
        &&& 0 <= self.pos@ <= self.list.members@.len()
        &&& self.cur == if self.pos@ < self.list.members@.len() {
            self.list.members@[self.pos@]
        } else {
            self.list.head.id
        }
    }

    /// Start an iteration at the front of `list`.
    pub fn new<T>(list: &Dllist, arena: &Arena<T>) -> (it: DllIterator)
        requires
            arena.wf(),
            list.wf(*arena),
        ensures
            it.inv(*arena),
            it.list == *list,
            it.pos@ == 0,
    {
        proof {
            assert(list.chain().contains(list.chain()[0]));
            if list.members@.len() > 0 {
                assert(arena.next@[list.chain()[0] as int] == list.chain()[1]);
            }
        }
        let cur = arena.next[list.head.id];
        DllIterator { list: *list, cur, pos: Ghost(0) }
    }

    /// Yield the next member, or `None` once the head is reached again.
    pub fn next<T>(&mut self, arena: &Arena<T>) -> (r: Option<Dllink>)
        requires
            arena.wf(),
            old(self).inv(*arena),
        ensures
            final(self).list == old(self).list,
            final(self).inv(*arena),
            old(self).pos@ < old(self).list.members@.len() ==> r == Some(
                Dllink { id: old(self).list.members@[old(self).pos@] },
            ) && final(self).pos@ == old(self).pos@ + 1,
            old(self).pos@ >= old(self).list.members@.len() ==> r == None::<Dllink>
                && final(self).pos@ == old(self).pos@,
    {
        let ghost c = self.list.chain();
        let ghost m = self.list.members@;
        proof {
            assert(c[0] == self.list.head.id);
            if self.pos@ < m.len() {
                assert(c[self.pos@ + 1] == m[self.pos@]);
                assert(c[self.pos@ + 1] != c[0]);
            }
        }
        if self.cur != self.list.head.id {
            let id = self.cur;
            proof {
                assert(id == c[self.pos@ + 1]);
                assert(c.contains(c[self.pos@ + 1]));
                if self.pos@ + 1 < c.len() - 1 {
                    assert(arena.next@[c[self.pos@ + 1] as int] == c[self.pos@ + 2]);
                    assert(c[self.pos@ + 2] == m[self.pos@ + 1]);
                } else {
                    assert(arena.next@[c[c.len() - 1] as int] == c[0]);
                }
            }
            self.cur = arena.next[id];
            proof {
                self.pos = Ghost(self.pos@ + 1);
            }
            Some(Dllink { id })
        } else {
            None
        }
    }
}

impl Dllist {
    /// Return an iterator over this list; members may then be read or their
    /// payloads rewritten through the arena by index.
    pub fn iter_mut<T>(&self, arena: &Arena<T>) -> (it: DllIterator)
        requires
            arena.wf(),
            self.wf(*arena),
        ensures
            it.inv(*arena),
            it.list == *self,
            it.pos@ == 0,
    {
        DllIterator::new(self, arena)
    }
}

/// Law: after every operation, every resident node `n` of a well-formed list
/// satisfies `n.next.prev == n` and `n.prev.next == n`.
pub proof fn lemma_resident_linkage<T>(arena: Arena<T>, l: Dllist, k: int)
    requires
        arena.wf(),
        l.wf(arena),
        0 <= k < l.members@.len(),
    ensures
        arena.prev@[arena.next@[l.members@[k] as int] as int] == l.members@[k],
        arena.next@[arena.prev@[l.members@[k] as int] as int] == l.members@[k],
{
    let c = l.chain();
    let n = c.len() as int;
    let p = k + 1;
    assert(c[p] == l.members@[k]);
    if p < n - 1 {
        assert(arena.next@[c[p] as int] == c[p + 1]);
        assert(arena.prev@[c[p + 1] as int] == c[p]);
    } else {
        assert(arena.next@[c[p] as int] == c[0]);
        assert(arena.prev@[c[0] as int] == c[n - 1]);
    }
    assert(arena.prev@[c[p] as int] == c[p - 1]);
    if p - 1 < n - 1 {
        assert(arena.next@[c[p - 1] as int] == c[p]);
    }
}

} // verus!
