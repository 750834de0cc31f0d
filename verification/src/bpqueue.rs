//! Bounded priority queue ("bucket queue") with integer keys in `[a, b]`,
//! built as an array of doubly-linked bucket lists over a shared arena.
//!
//! External key `k` maps to the internal index `k - offset` with
//! `offset == a - 1`; real items always live at indices `1..=high` with
//! `high == b - a + 1`. Index `0` is reserved for a permanently resident
//! sentinel node, which guarantees that bucket `0` is never empty and so
//! bounds the rewinding of `max`, the tracked highest occupied index.
//! The queue does not own its nodes: they may migrate between a bucket and
//! an external waiting list by detach and append, without being copied.

use crate::dllist::{Arena, Dllink, Dllist};
use crate::dllist::{lemma_isolated_not_in_chain, lemma_wf_frame};
use vstd::prelude::*;

verus! {

/// Bounded priority queue over caller-owned nodes.
pub struct BPQueue {
    /// Highest occupied bucket index; `0` means the queue is empty.
    pub max: usize,
    /// `low_key - 1`: subtracted from external keys to form bucket indices.
    pub offset: i32,
    /// Highest usable bucket index: `high_key - low_key + 1`.
    pub high: usize,
    /// The permanently resident sentinel node, member of bucket `0`.
    pub sentinel: Dllink,
    /// One list per internal index, `0..=high + 1`.
    pub bucket: Vec<Dllist>,
}

impl BPQueue {
    /// The queue's structural invariant over `arena`: every bucket is a
    /// well-formed ring, buckets are pairwise disjoint, the sentinel is the
    /// sole member of bucket `0`, every member's stored key names its bucket,
    /// all buckets above `max` are empty, and `max` points at a non-empty
    /// bucket whenever it is positive.
    pub open spec fn wf<T>(self, arena: Arena<T>) -> bool {
        &&& self.wf_loose(arena)
        &&& self.max > 0 ==> self.bucket@[self.max as int].members@.len() > 0
    }

    /// The invariant with one exception: in the middle of a key update,
    /// `max` may momentarily point at a bucket that has just been emptied;
    /// rewinding or re-attaching restores the full invariant.
    pub open spec fn wf_loose<T>(self, arena: Arena<T>) -> bool {
        &&& arena.wf()
        &&& 1 <= self.high
        &&& self.bucket@.len() == self.high + 2
        &&& self.offset + self.high <= i32::MAX
        &&& self.high + 1 <= i32::MAX
        &&& self.max <= self.high
        &&& forall|b: int| 0 <= b < self.bucket@.len() ==> (#[trigger] self.bucket@[b]).wf(arena)
        &&& forall|b1: int, b2: int, i: usize|
            0 <= b1 < self.bucket@.len() && 0 <= b2 < self.bucket@.len() && b1 != b2 && (
            #[trigger] self.bucket@[b1].chain().contains(i)) ==> !(#[trigger] self.bucket@[b2].chain().contains(
                i,
            ))
        &&& self.bucket@[0].members@ == seq![self.sentinel.id]
        &&& forall|b: int, k: int|
            0 <= b < self.bucket@.len() && 0 <= k < self.bucket@[b].members@.len()
                ==> arena.key@[(#[trigger] self.bucket@[b].members@[k]) as int] == b
        &&& forall|b: int|
            self.max < b < self.bucket@.len() ==> (#[trigger] self.bucket@[b]).members@.len() == 0
    }

    /// Node `i` is part of the queue's own frame: a bucket head or the
    /// sentinel. Such nodes must never be handed in as items.
    pub open spec fn is_structural(self, i: usize) -> bool {
        i == self.sentinel.id || exists|b: int|
            0 <= b < self.bucket@.len() && (#[trigger] self.bucket@[b]).head.id == i
    }

    /// Construct a queue for external keys in `[a, b]`. All buckets start
    /// empty; the sentinel is placed in bucket `0`. The queue's own nodes
    /// (one head per bucket, plus the sentinel) are allocated in `arena`,
    /// each carrying a copy of `fill` as payload.
    pub fn new<T: Clone>(arena: &mut Arena<T>, a: i32, b: i32, fill: T) -> (q: BPQueue)
        requires
            old(arena).wf(),
            a <= b,
            i32::MIN < a,
            b - a + 2 <= i32::MAX,
        ensures
            final(arena).wf(),
            q.wf(*final(arena)),
            q.offset == a - 1,
            q.high == b - a + 1,
            q.max == 0,
            forall|bk: int|
                1 <= bk < q.bucket@.len() ==> (#[trigger] q.bucket@[bk]).members@.len() == 0,
            final(arena).spec_len() == old(arena).spec_len() + q.high + 3,
            forall|i: usize|
                i < old(arena).spec_len()
                    ==> final(arena).next@[i as int] == old(arena).next@[i as int]
                        && final(arena).prev@[i as int] == old(arena).prev@[i as int]
                        && final(arena).key@[i as int] == old(arena).key@[i as int]
                        && final(arena).locked@[i as int] == old(arena).locked@[i as int],
            old(arena).data@.is_prefix_of(final(arena).data@),
            forall|i: usize|
                q.is_structural(i) ==> old(arena).spec_len() <= i < final(arena).spec_len(),
    {
        let ghost ar0 = *arena;
        let ghost a0 = arena.spec_len() as int;
        let high = ((b - a) + 1) as usize;
        let n = high + 2;
        let mut bucket: Vec<Dllist> = Vec::new();
        let mut i: usize = 0;
        while i < n
            invariant
                arena.wf(),
                i <= n,
                bucket@.len() == i,
                arena.spec_len() == a0 + i,
                a0 == ar0.spec_len(),
                ar0.wf(),
                forall|j: int|
                    0 <= j < i ==> (#[trigger] bucket@[j]).head.id == a0 + j && bucket@[j].members@
                        =~= Seq::<usize>::empty(),
                forall|j: usize|
                    a0 <= j < arena.spec_len() ==> #[trigger] arena.isolated(j) && arena.key@[j as int]
                        == 0,
                forall|j: usize|
                    j < a0 ==> #[trigger] arena.next@[j as int] == ar0.next@[j as int]
                        && arena.prev@[j as int] == ar0.prev@[j as int] && arena.key@[j as int]
                        == ar0.key@[j as int] && arena.locked@[j as int] == ar0.locked@[j as int],
                ar0.data@.is_prefix_of(arena.data@),
            decreases n - i,
        {
            let ghost a_pre = *arena;
            let l = Dllink::new(arena, 0, fill.clone());
            proof {
                assert forall|j: usize|
                    a0 <= j < arena.spec_len() implies #[trigger] arena.isolated(j)
                    && arena.key@[j as int] == 0 by {
                    if j < a_pre.spec_len() {
                        assert(arena.next@[j as int] == a_pre.next@[j as int]);
                        assert(arena.prev@[j as int] == a_pre.prev@[j as int]);
                        assert(arena.key@[j as int] == a_pre.key@[j as int]);
                        assert(a_pre.isolated(j));
                    } else {
                        assert(j == l.id);
                    }
                }
                assert forall|j: usize|
                    j < a0 implies #[trigger] arena.next@[j as int] == ar0.next@[j as int]
                    && arena.prev@[j as int] == ar0.prev@[j as int] && arena.key@[j as int]
                    == ar0.key@[j as int] && arena.locked@[j as int] == ar0.locked@[j as int] by {
                    assert(arena.next@[j as int] == a_pre.next@[j as int]);
                    assert(arena.prev@[j as int] == a_pre.prev@[j as int]);
                    assert(arena.key@[j as int] == a_pre.key@[j as int]);
                    assert(arena.locked@[j as int] == a_pre.locked@[j as int]);
                }
                assert(ar0.data@.is_prefix_of(arena.data@)) by {
                    assert forall|j: int| 0 <= j < a0 implies ar0.data@[j] == arena.data@[j] by {
                        assert(arena.data@[j] == a_pre.data@[j]);
                    }
                    assert(ar0.data@ =~= arena.data@.subrange(0, a0));
                }
            }
            bucket.push(Dllist { head: l, members: Ghost(Seq::empty()) });
            i = i + 1;
        }
        let ghost a_mid = *arena;
        let sentinel = Dllink::new(arena, 0, fill);
        proof {
            assert forall|j: usize|
                a0 <= j < a_mid.spec_len() implies #[trigger] arena.isolated(j) && arena.key@[j as int]
                == 0 by {
                assert(arena.next@[j as int] == a_mid.next@[j as int]);
                assert(arena.prev@[j as int] == a_mid.prev@[j as int]);
                assert(arena.key@[j as int] == a_mid.key@[j as int]);
                assert(a_mid.isolated(j));
            }
        }
        let ghost a_sent = *arena;
        let mut q = BPQueue { max: 0, offset: a - 1, high, sentinel, bucket };
        proof {
            assert(q.bucket@[0].head.id == a0);
            assert(q.bucket@[0].chain() =~= seq![q.bucket@[0].head.id]);
            assert(arena.isolated((a0) as usize));
            assert(q.bucket@[0].wf(*arena));
        }
        let mut l0 = q.bucket[0];
        let ghost c0_pre = l0.chain();
        l0.append(arena, sentinel);
        q.bucket.set(0, l0);
        proof {
            assert(q.bucket@[0].members@ == seq![sentinel.id]);
            assert(q.bucket@[0].chain() =~= seq![(a0) as usize, sentinel.id]);
            let touched = seq![(a0) as usize];
            assert forall|bk: int| 1 <= bk < q.bucket@.len() implies (
            #[trigger] q.bucket@[bk]).wf(*arena) by {
                let hid = (a0 + bk) as usize;
                assert(q.bucket@[bk].head.id == hid);
                assert(a_sent.isolated(hid));
                assert(!c0_pre.contains(hid)) by {
                    if c0_pre.contains(hid) {
                        let w = choose|w: int| 0 <= w < c0_pre.len() && c0_pre[w] == hid;
                        assert(hid == a0);
                    }
                }
                assert(arena.next@[hid as int] == a_sent.next@[hid as int]);
                assert(arena.prev@[hid as int] == a_sent.prev@[hid as int]);
                assert(q.bucket@[bk].chain() =~= seq![hid]);
            }
            assert forall|b1: int, b2: int, i2: usize|
                0 <= b1 < q.bucket@.len() && 0 <= b2 < q.bucket@.len() && b1 != b2 && (
                #[trigger] q.bucket@[b1].chain().contains(i2)) implies !(
            #[trigger] q.bucket@[b2].chain().contains(i2)) by {
                let c1 = q.bucket@[b1].chain();
                let w1 = choose|w: int| 0 <= w < c1.len() && c1[w] == i2;
                assert(b1 == 0 ==> i2 == a0 || i2 == sentinel.id);
                assert(b1 != 0 ==> i2 == a0 + b1);
                if q.bucket@[b2].chain().contains(i2) {
                    let c2 = q.bucket@[b2].chain();
                    let w2 = choose|w: int| 0 <= w < c2.len() && c2[w] == i2;
                    assert(b2 == 0 ==> i2 == a0 || i2 == sentinel.id);
                    assert(b2 != 0 ==> i2 == a0 + b2);
                    assert(sentinel.id == a0 + n);
                    assert(false);
                }
            }
            assert forall|bk: int, k: int|
                0 <= bk < q.bucket@.len() && 0 <= k < q.bucket@[bk].members@.len() implies arena.key@[(
            #[trigger] q.bucket@[bk].members@[k]) as int] == bk by {
                assert(bk == 0 && k == 0);
                assert(arena.key@[sentinel.id as int] == 0);
            }
            assert forall|i2: usize| q.is_structural(i2) implies a0 <= i2 < arena.spec_len() by {
                if i2 != q.sentinel.id {
                    let bk = choose|bk: int|
                        0 <= bk < q.bucket@.len() && #[trigger] q.bucket@[bk].head.id == i2;
                    assert(i2 == a0 + bk);
                }
            }
            assert forall|j: usize|
                j < a0 implies arena.next@[j as int] == ar0.next@[j as int] && arena.prev@[j as int]
                == ar0.prev@[j as int] && arena.key@[j as int] == ar0.key@[j as int]
                && arena.locked@[j as int] == ar0.locked@[j as int] by {
                assert(!c0_pre.contains(j)) by {
                    if c0_pre.contains(j) {
                        let w = choose|w: int| 0 <= w < c0_pre.len() && c0_pre[w] == j;
                        assert(j == a0);
                    }
                }
                assert(arena.next@[j as int] == a_sent.next@[j as int]);
                assert(a_sent.next@[j as int] == a_mid.next@[j as int]);
                assert(a_mid.next@[j as int] == ar0.next@[j as int]);
                assert(arena.prev@[j as int] == a_sent.prev@[j as int]);
                assert(a_sent.prev@[j as int] == a_mid.prev@[j as int]);
                assert(arena.key@[j as int] == a_sent.key@[j as int]);
                assert(a_sent.key@[j as int] == a_mid.key@[j as int]);
                assert(arena.locked@[j as int] == a_sent.locked@[j as int]);
                assert(a_sent.locked@[j as int] == a_mid.locked@[j as int]);
            }
            assert(ar0.data@.is_prefix_of(arena.data@)) by {
                assert(arena.data@ == a_sent.data@);
                assert forall|j: int| 0 <= j < a0 implies ar0.data@[j] == arena.data@[j] by {
                    assert(a_sent.data@[j] == a_mid.data@[j]);
                    assert(a_mid.data@[j] == ar0.data@[j]);
                }
                assert(ar0.data@ =~= arena.data@.subrange(0, a0));
            }
        }
        q
    }

    /// Whether the queue holds no item.
    pub fn is_empty(&self) -> (r: bool)
        ensures
            r == (self.max == 0),
    {
        self.max == 0
    }

    /// The highest key currently in the queue; `offset` when it is empty.
    pub fn get_max(&self) -> (r: i32)
        requires
            self.max <= i32::MAX,
            self.offset + self.max <= i32::MAX,
        ensures
            r == self.offset + self.max,
    {
        self.offset + self.max as i32
    }
}

/// A sequence extended at the back contains exactly its old elements and the
/// new one.
proof fn lemma_push_contains<A>(s: Seq<A>, x: A, i: A)
    ensures
        s.push(x).contains(i) <==> (s.contains(i) || i == x),
{
    if s.push(x).contains(i) {
        let w = choose|w: int| 0 <= w < s.push(x).len() && s.push(x)[w] == i;
        if w < s.len() {
            assert(s[w] == i);
        }
    }
    if s.contains(i) {
        let w = choose|w: int| 0 <= w < s.len() && s[w] == i;
        assert(s.push(x)[w] == i);
    }
    if i == x {
        assert(s.push(x)[s.len() as int] == i);
    }
}

/// A sequence extended at the front contains exactly its old elements and the
/// new one.
proof fn lemma_prepend_contains<A>(s: Seq<A>, x: A, i: A)
    ensures
        (seq![x] + s).contains(i) <==> (s.contains(i) || i == x),
{
    if (seq![x] + s).contains(i) {
        let w = choose|w: int| 0 <= w < (seq![x] + s).len() && (seq![x] + s)[w] == i;
        if w > 0 {
            assert(s[w - 1] == i);
        }
    }
    if s.contains(i) {
        let w = choose|w: int| 0 <= w < s.len() && s[w] == i;
        assert((seq![x] + s)[w + 1] == i);
    }
    if i == x {
        assert((seq![x] + s)[0] == i);
    }
}

/// A chain holds its head and its members, and nothing else.
proof fn lemma_chain_contains(l: Dllist, i: usize)
    ensures
        l.chain().contains(i) <==> (i == l.head.id || l.members@.contains(i)),
{
    lemma_prepend_contains(l.members@, l.head.id, i);
    assert(l.chain() == seq![l.head.id] + l.members@);
}

/// Rings read only links: a ring is preserved whenever both link columns are.
proof fn lemma_ring_same_links<T>(l: Dllist, a1: Arena<T>, a2: Arena<T>)
    requires
        l.wf(a1),
        a2.next@ == a1.next@,
        a2.prev@ == a1.prev@,
    ensures
        l.wf(a2),
{
    assert(a2.spec_len() == a1.spec_len());
}

/// A bucket whose chain is disjoint from every relinked node keeps its ring
/// across the operation.
proof fn lemma_untouched_bucket<T>(
    l: Dllist,
    lt_chain: Seq<usize>,
    x: usize,
    a1: Arena<T>,
    a2: Arena<T>,
)
    requires
        a1.wf(),
        l.wf(a1),
        a2.spec_len() == a1.spec_len(),
        forall|i: usize|
            i < a1.spec_len() && !lt_chain.contains(i) && i != x
                ==> a2.next@[i as int] == a1.next@[i as int] && a2.prev@[i as int] == a1.prev@[
                i as int],
        forall|i: usize| #[trigger] l.chain().contains(i) ==> !lt_chain.contains(i),
        !l.chain().contains(x),
    ensures
        l.wf(a2),
{
    assert forall|k: int|
        0 <= k < l.chain().len() implies a2.next@[(#[trigger] l.chain()[k]) as int] == a1.next@[l.chain()[k] as int]
        && a2.prev@[l.chain()[k] as int] == a1.prev@[l.chain()[k] as int] by {
        let i = l.chain()[k];
        assert(l.chain().contains(i));
        assert(!lt_chain.contains(i) && i != x);
    }
    lemma_wf_frame(l, a1, a2);
}

impl BPQueue {
    /// A resident item can be neither a bucket head nor the sentinel.
    proof fn lemma_resident_not_structural<T>(self, arena: Arena<T>, i: usize, b: int)
        requires
            self.wf_loose(arena),
            0 <= b < self.bucket@.len(),
            1 <= b,
            self.bucket@[b].members@.contains(i),
        ensures
            !self.is_structural(i),
            i != self.bucket@[b].head.id,
            i < arena.spec_len(),
    {
        let w = choose|w: int|
            0 <= w < self.bucket@[b].members@.len() && self.bucket@[b].members@[w] == i;
        let c = self.bucket@[b].chain();
        assert(c[w + 1] == i);
        assert(c.contains(i));
        assert(i != self.bucket@[b].head.id) by {
            assert(c[0] == self.bucket@[b].head.id);
            assert(c[0] != c[w + 1]);
        }
        if i == self.sentinel.id {
            assert(self.bucket@[0].members@[0] == i);
            assert(self.bucket@[0].chain()[1] == i);
            assert(self.bucket@[0].chain().contains(i));
            assert(false);
        }
        if exists|b2: int| 0 <= b2 < self.bucket@.len() && (#[trigger] self.bucket@[b2]).head.id
            == i {
            let b2 = choose|b2: int|
                0 <= b2 < self.bucket@.len() && (#[trigger] self.bucket@[b2]).head.id == i;
            assert(self.bucket@[b2].chain()[0] == i);
            assert(self.bucket@[b2].chain().contains(i));
            if b2 == b {
                assert(c[0] != c[w + 1]);
            }
            assert(false);
        }
    }

    /// Node `i` is a resident item: stored in the bucket its key names.
    pub open spec fn resident<T>(self, arena: Arena<T>, i: usize) -> bool {
        &&& i < arena.spec_len()
        &&& 1 <= arena.key@[i as int] <= self.high
        &&& (arena.key@[i as int] as int) < self.bucket@.len()
        &&& self.bucket@[arena.key@[i as int] as int].members@.contains(i)
    }

    /// The two queues agree on everything but `max` and bucket membership:
    /// same key range, same sentinel, same bucket heads.
    pub open spec fn same_frame(self, other: BPQueue) -> bool {
        &&& other.offset == self.offset
        &&& other.high == self.high
        &&& other.sentinel == self.sentinel
        &&& other.bucket@.len() == self.bucket@.len()
        &&& forall|b: int|
            0 <= b < self.bucket@.len() ==> (#[trigger] other.bucket@[b]).head == self.bucket@[b].head
    }

    /// Effect of an append on the queue model: the item joins bucket `idx`
    /// at the back (FIFO) or the front (LIFO), `max` rises to `idx` if it was
    /// below, and every other bucket is untouched.
    pub open spec fn append_effect(pre: BPQueue, post: BPQueue, idx: int, i: usize, lifo: bool) -> bool {
        &&& pre.same_frame(post)
        &&& 1 <= idx <= pre.high
        &&& post.bucket@[idx].members@ == if lifo {
            seq![i] + pre.bucket@[idx].members@
        } else {
            pre.bucket@[idx].members@.push(i)
        }
        &&& forall|b: int|
            0 <= b < pre.bucket@.len() && b != idx ==> #[trigger] post.bucket@[b] == pre.bucket@[b]
        &&& post.max == if pre.max >= idx {
            pre.max as int
        } else {
            idx
        }
    }

    /// Rewriting the key field of a node that is no resident item — or
    /// rewriting a resident's key to the very index it occupies — preserves
    /// the queue invariant.
    proof fn lemma_key_update_wf<T>(self, a1: Arena<T>, a2: Arena<T>, i: usize, v: usize)
        requires
            self.wf_loose(a1),
            i < a1.spec_len(),
            a2.next@ == a1.next@,
            a2.prev@ == a1.prev@,
            a2.locked@ == a1.locked@,
            a2.data@ == a1.data@,
            a2.key@ == a1.key@.update(i as int, v),
            (forall|b: int|
                0 <= b < self.bucket@.len() ==> !(#[trigger] self.bucket@[b]).members@.contains(i))
                || v == a1.key@[i as int],
        ensures
            self.wf_loose(a2),
            self.wf(a1) ==> self.wf(a2),
    {
        assert(a2.wf() && a2.spec_len() == a1.spec_len());
        assert forall|b: int| 0 <= b < self.bucket@.len() implies (
        #[trigger] self.bucket@[b]).wf(a2) by {
            lemma_ring_same_links(self.bucket@[b], a1, a2);
        }
        assert forall|b: int, k: int|
            0 <= b < self.bucket@.len() && 0 <= k < self.bucket@[b].members@.len() implies a2.key@[(
        #[trigger] self.bucket@[b].members@[k]) as int] == b by {
            let m = self.bucket@[b].members@[k];
            assert(self.bucket@[b].chain()[k + 1] == m);
            assert(m < a1.spec_len());
            assert(a1.key@[m as int] == b);
            if m == i {
                assert(self.bucket@[b].members@.contains(i));
                assert(v == a1.key@[i as int]);
            }
        }
    }

    /// Write the shifted key `gain - offset` into the node's key field. The
    /// node must either stand outside this queue's buckets, or already be
    /// resident at exactly that index.
    #[verifier::rlimit(60)]
    pub fn set_key<T>(&mut self, arena: &mut Arena<T>, it: Dllink, gain: i32)
        requires
            old(self).wf(*old(arena)),
            it.id < old(arena).spec_len(),
            old(self).offset < gain,
            gain - old(self).offset <= old(self).high,
            (forall|b: int|
                0 <= b < old(self).bucket@.len() ==> !(#[trigger] old(self).bucket@[b]).members@.contains(
                    it.id,
                )) || gain - old(self).offset == old(arena).key@[it.id as int],
        ensures
            *final(self) == *old(self),
            final(arena).key@ == old(arena).key@.update(
                it.id as int,
                (gain - old(self).offset) as usize,
            ),
            final(arena).next@ == old(arena).next@,
            final(arena).prev@ == old(arena).prev@,
            final(arena).locked@ == old(arena).locked@,
            final(arena).data@ == old(arena).data@,
            final(self).wf(*final(arena)),
    {
        let idx = (gain - self.offset) as usize;
        arena.key.set(it.id, idx);
        proof {
            old(self).lemma_key_update_wf(*old(arena), *arena, it.id, idx);
        }
    }
}

impl BPQueue {
    /// An isolated, non-structural node stands in no bucket of the queue.
    proof fn lemma_free_not_in_buckets<T>(self, arena: Arena<T>, i: usize)
        requires
            self.wf_loose(arena),
            arena.isolated(i),
            !self.is_structural(i),
            i < arena.spec_len(),
        ensures
            forall|b: int|
                0 <= b < self.bucket@.len() ==> !(#[trigger] self.bucket@[b]).chain().contains(i)
                    && !self.bucket@[b].members@.contains(i),
    {
        assert forall|b: int|
            0 <= b < self.bucket@.len() implies !(#[trigger] self.bucket@[b]).chain().contains(i)
            && !self.bucket@[b].members@.contains(i) by {
            assert(self.bucket@[b].head.id != i);
            lemma_isolated_not_in_chain(arena, self.bucket@[b], i);
        }
    }

    /// Effect of popping the front of the top bucket: the front member of
    /// bucket `max` leaves, every other bucket is untouched, and `max`
    /// rewinds to the highest occupied index (or `0`).
    pub open spec fn pop_effect(pre: BPQueue, post: BPQueue, r: usize) -> bool {
        &&& pre.same_frame(post)
        &&& 1 <= pre.max
        &&& r == pre.bucket@[pre.max as int].members@[0]
        &&& post.bucket@[pre.max as int].members@ == pre.bucket@[pre.max as int].members@.drop_first()
        &&& forall|b: int|
            0 <= b < pre.bucket@.len() && b != pre.max ==> #[trigger] post.bucket@[b]
                == pre.bucket@[b]
        &&& post.max <= pre.max
        &&& forall|b: int|
            post.max < b < post.bucket@.len() ==> (#[trigger] post.bucket@[b]).members@.len() == 0
        &&& (post.max > 0 ==> post.bucket@[post.max as int].members@.len() > 0)
    }

    /// Effect of detaching a resident item of bucket `b`: it leaves that
    /// bucket, every other bucket is untouched, and `max` rewinds.
    pub open spec fn detach_effect(pre: BPQueue, post: BPQueue, b: int, i: usize) -> bool {
        &&& pre.same_frame(post)
        &&& post.bucket@[b].members@ == pre.bucket@[b].members@.remove_value(i)
        &&& forall|b2: int|
            0 <= b2 < pre.bucket@.len() && b2 != b ==> #[trigger] post.bucket@[b2]
                == pre.bucket@[b2]
        &&& post.max <= pre.max
        &&& forall|b2: int|
            post.max < b2 < post.bucket@.len() ==> (#[trigger] post.bucket@[b2]).members@.len()
                == 0
        &&& (post.max > 0 ==> post.bucket@[post.max as int].members@.len() > 0)
    }

    /// Attach an already-keyed free node into bucket `idx`, at the back
    /// (FIFO) or the front (LIFO), raising `max` if needed.
    fn attach<T>(&mut self, arena: &mut Arena<T>, it: Dllink, idx: usize, lifo: bool)
        requires
            old(self).wf_loose(*old(arena)),
            it.id < old(arena).spec_len(),
            old(arena).isolated(it.id),
            !old(self).is_structural(it.id),
            1 <= idx <= old(self).high,
            old(arena).key@[it.id as int] == idx,
        ensures
            final(arena).wf(),
            final(self).wf_loose(*final(arena)),
            old(self).max <= idx ==> final(self).wf(*final(arena)),
            old(self).max > idx && old(self).bucket@[old(self).max as int].members@.len() > 0
                ==> final(self).wf(*final(arena)),
            BPQueue::append_effect(*old(self), *final(self), idx as int, it.id, lifo),
            final(arena).spec_len() == old(arena).spec_len(),
            final(arena).key@ == old(arena).key@,
            final(arena).data@ == old(arena).data@,
            final(arena).locked@ == old(arena).locked@.update(it.id as int, false),
            forall|i2: usize|
                i2 < final(arena).spec_len() && !old(self).bucket@[idx as int].chain().contains(i2)
                    && i2 != it.id ==> final(arena).next@[i2 as int] == old(arena).next@[i2 as int]
                    && final(arena).prev@[i2 as int] == old(arena).prev@[i2 as int],
    {
        proof {
            old(self).lemma_free_not_in_buckets(*old(arena), it.id);
        }
        if self.max < idx {
            self.max = idx;
        }
        let mut lst = self.bucket[idx];
        proof {
            assert(lst.wf(*arena));
            assert(it.id != lst.head.id);
        }
        if lifo {
            lst.appendleft(arena, it);
        } else {
            lst.append(arena, it);
        }
        self.bucket.set(idx, lst);
        proof {
            let pre = *old(self);
            let a1 = *old(arena);
            let a2 = *arena;
            let t = idx as int;
            let c_t = pre.bucket@[t].chain();
            assert forall|i2: usize| #[trigger] self.bucket@[t].chain().contains(i2) implies (
            c_t.contains(i2) || i2 == it.id) by {
                lemma_chain_contains(self.bucket@[t], i2);
                if lifo {
                    lemma_prepend_contains(pre.bucket@[t].members@, it.id, i2);
                } else {
                    lemma_push_contains(pre.bucket@[t].members@, it.id, i2);
                }
                lemma_chain_contains(pre.bucket@[t], i2);
            }
            assert forall|b: int| 0 <= b < self.bucket@.len() implies (
            #[trigger] self.bucket@[b]).wf(a2) by {
                if b != t {
                    assert(pre.bucket@[b].wf(a1));
                    lemma_untouched_bucket(pre.bucket@[b], c_t, it.id, a1, a2);
                }
            }
            assert forall|b1: int, b2: int, i2: usize|
                0 <= b1 < self.bucket@.len() && 0 <= b2 < self.bucket@.len() && b1 != b2 && (
                #[trigger] self.bucket@[b1].chain().contains(i2)) implies !(
            #[trigger] self.bucket@[b2].chain().contains(i2)) by {
                if b1 == t {
                    if self.bucket@[b2].chain().contains(i2) {
                        assert(pre.bucket@[b2].chain().contains(i2));
                        assert(!c_t.contains(i2) && i2 != it.id);
                        assert(false);
                    }
                } else if b2 == t {
                    assert(pre.bucket@[b1].chain().contains(i2));
                    if self.bucket@[b2].chain().contains(i2) {
                        assert(c_t.contains(i2) || i2 == it.id);
                        assert(false);
                    }
                } else {
                    assert(pre.bucket@[b1].chain().contains(i2));
                    assert(!pre.bucket@[b2].chain().contains(i2));
                }
            }
            assert(self.bucket@[0].members@ == pre.bucket@[0].members@);
            assert forall|b: int, k: int|
                0 <= b < self.bucket@.len() && 0 <= k < self.bucket@[b].members@.len() implies a2.key@[(
            #[trigger] self.bucket@[b].members@[k]) as int] == b by {
                if b == t {
                    if lifo {
                        if k == 0 {
                            assert(self.bucket@[b].members@[0] == it.id);
                        } else {
                            assert(self.bucket@[b].members@[k] == pre.bucket@[b].members@[k - 1]);
                            assert(a1.key@[pre.bucket@[b].members@[k - 1] as int] == b);
                        }
                    } else {
                        if k < pre.bucket@[b].members@.len() {
                            assert(self.bucket@[b].members@[k] == pre.bucket@[b].members@[k]);
                            assert(a1.key@[pre.bucket@[b].members@[k] as int] == b);
                        } else {
                            assert(self.bucket@[b].members@[k] == it.id);
                        }
                    }
                } else {
                    assert(self.bucket@[b].members@[k] == pre.bucket@[b].members@[k]);
                    assert(a1.key@[pre.bucket@[b].members@[k] as int] == b);
                }
            }
            assert forall|b: int|
                self.max < b < self.bucket@.len() implies (
            #[trigger] self.bucket@[b]).members@.len() == 0 by {
                assert(b != t);
                assert(self.bucket@[b] == pre.bucket@[b]);
            }
            if self.max > 0 && self.max != t {
                assert(self.bucket@[self.max as int] == pre.bucket@[self.max as int]);
            }
        }
    }

    /// Rewind `max` down to the highest occupied bucket, stopping at `0`;
    /// the sentinel keeps bucket `0` occupied, so the walk is bounded.
    fn rewind_max<T>(&mut self, arena: &Arena<T>)
        requires
            arena.wf(),
            old(self).high + 2 == old(self).bucket@.len(),
            old(self).max < old(self).bucket@.len(),
            forall|b: int|
                0 <= b < old(self).bucket@.len() ==> (#[trigger] old(self).bucket@[b]).wf(*arena),
            old(self).bucket@[0].members@ == seq![old(self).sentinel.id],
            forall|b: int|
                old(self).max < b < old(self).bucket@.len() ==> (
                #[trigger] old(self).bucket@[b]).members@.len() == 0,
        ensures
            final(self).max <= old(self).max,
            final(self).bucket == old(self).bucket,
            final(self).offset == old(self).offset,
            final(self).high == old(self).high,
            final(self).sentinel == old(self).sentinel,
            forall|b: int|
                final(self).max < b < final(self).bucket@.len() ==> (
                #[trigger] final(self).bucket@[b]).members@.len() == 0,
            final(self).max > 0 ==> final(self).bucket@[final(self).max as int].members@.len() > 0,
    {
        while self.bucket[self.max].is_empty(arena)
            invariant
                arena.wf(),
                *self == (BPQueue { max: self.max, ..*old(self) }),
                self.max <= old(self).max,
                self.max < self.bucket@.len(),
                forall|b: int|
                    0 <= b < self.bucket@.len() ==> (#[trigger] self.bucket@[b]).wf(*arena),
                self.bucket@[0].members@ == seq![self.sentinel.id],
                forall|b: int|
                    self.max < b < self.bucket@.len() ==> (
                    #[trigger] self.bucket@[b]).members@.len() == 0,
            decreases self.max,
        {
            proof {
                assert(self.bucket@[self.max as int].members@.len() == 0);
                if self.max == 0 {
                    assert(self.bucket@[0].members@.len() == 1);
                    assert(false);
                }
            }
            self.max = self.max - 1;
        }
    }

    /// Unlink a resident item from its bucket without rewinding `max`.
    fn unlink<T>(&mut self, arena: &mut Arena<T>, it: Dllink)
        requires
            old(self).wf(*old(arena)),
            old(self).resident(*old(arena), it.id),
            !old(arena).locked@[it.id as int],
        ensures
            final(arena).wf(),
            final(arena).spec_len() == old(arena).spec_len(),
            old(self).same_frame(*final(self)),
            final(self).max == old(self).max,
            final(self).offset == old(self).offset,
            final(self).high == old(self).high,
            final(self).sentinel == old(self).sentinel,
            final(self).bucket@.len() == old(self).bucket@.len(),
            final(self).bucket@[old(arena).key@[it.id as int] as int].members@ == old(self).bucket@[old(arena).key@[it.id as int] as int].members@.remove_value(
                it.id,
            ),
            forall|b: int|
                0 <= b < old(self).bucket@.len() && b != old(arena).key@[it.id as int] ==> (
                #[trigger] final(self).bucket@[b]) == old(self).bucket@[b],
            forall|b: int|
                0 <= b < final(self).bucket@.len() ==> (#[trigger] final(self).bucket@[b]).wf(
                    *final(arena),
                ),
            forall|b1: int, b2: int, i2: usize|
                0 <= b1 < final(self).bucket@.len() && 0 <= b2 < final(self).bucket@.len() && b1
                    != b2 && (#[trigger] final(self).bucket@[b1].chain().contains(i2)) ==> !(
                #[trigger] final(self).bucket@[b2].chain().contains(i2)),
            forall|b: int, k: int|
                0 <= b < final(self).bucket@.len() && 0 <= k
                    < final(self).bucket@[b].members@.len() ==> final(arena).key@[(
                #[trigger] final(self).bucket@[b].members@[k]) as int] == b,
            forall|b: int|
                final(self).max < b < final(self).bucket@.len() ==> (
                #[trigger] final(self).bucket@[b]).members@.len() == 0,
            final(self).bucket@[0].members@ == seq![final(self).sentinel.id],
            final(arena).isolated(it.id),
            final(arena).key@ == old(arena).key@,
            final(arena).data@ == old(arena).data@,
            final(arena).locked@ == old(arena).locked@,
            forall|i2: usize|
                i2 < final(arena).spec_len() && !old(self).bucket@[old(arena).key@[it.id as int] as int].chain().contains(
                    i2,
                ) ==> final(arena).next@[i2 as int] == old(arena).next@[i2 as int]
                    && final(arena).prev@[i2 as int] == old(arena).prev@[i2 as int],
    {
        let idx = arena.key[it.id];
        let ghost t = idx as int;
        let mut lst = self.bucket[idx];
        proof {
            assert(lst.wf(*arena));
        }
        lst.detach(arena, it);
        self.bucket.set(idx, lst);
        proof {
            let pre = *old(self);
            let a1 = *old(arena);
            let a2 = *arena;
            let c_t = pre.bucket@[t].chain();
            let m0 = pre.bucket@[t].members@;
            assert(m0.index_of_first(it.id) is Some) by {
                m0.index_of_first_ensures(it.id);
            }
            let q = m0.index_of_first(it.id)->Some_0;
            m0.index_of_first_ensures(it.id);
            m0.remove_ensures(q);
            assert(self.bucket@[t].members@ == m0.remove(q));
            assert forall|i2: usize| #[trigger] self.bucket@[t].chain().contains(i2) implies c_t.contains(
                i2,
            ) by {
                lemma_chain_contains(self.bucket@[t], i2);
                if self.bucket@[t].members@.contains(i2) {
                    let w = choose|w: int|
                        0 <= w < m0.remove(q).len() && m0.remove(q)[w] == i2;
                    if w < q {
                        assert(m0[w] == i2);
                    } else {
                        assert(m0[w + 1] == i2);
                    }
                    assert(m0.contains(i2));
                }
                lemma_chain_contains(pre.bucket@[t], i2);
            }
            lemma_chain_contains(pre.bucket@[t], it.id);
            assert(pre.bucket@[t].chain().contains(it.id));
            assert forall|b: int| 0 <= b < self.bucket@.len() implies (
            #[trigger] self.bucket@[b]).wf(a2) by {
                if b != t {
                    assert(pre.bucket@[b].wf(a1));
                    assert(!pre.bucket@[b].chain().contains(it.id));
                    lemma_untouched_bucket(pre.bucket@[b], c_t, it.id, a1, a2);
                }
            }
            assert forall|b1: int, b2: int, i2: usize|
                0 <= b1 < self.bucket@.len() && 0 <= b2 < self.bucket@.len() && b1 != b2 && (
                #[trigger] self.bucket@[b1].chain().contains(i2)) implies !(
            #[trigger] self.bucket@[b2].chain().contains(i2)) by {
                if b1 == t {
                    if self.bucket@[b2].chain().contains(i2) {
                        assert(pre.bucket@[b1].chain().contains(i2));
                        assert(pre.bucket@[b2].chain().contains(i2));
                        assert(false);
                    }
                } else if b2 == t {
                    if self.bucket@[b2].chain().contains(i2) {
                        assert(pre.bucket@[b2].chain().contains(i2));
                        assert(pre.bucket@[b1].chain().contains(i2));
                        assert(false);
                    }
                } else {
                    assert(pre.bucket@[b1].chain().contains(i2));
                    assert(!pre.bucket@[b2].chain().contains(i2));
                }
            }
            assert(t != 0);
            assert(self.bucket@[0].members@ == pre.bucket@[0].members@);
            assert forall|b: int, k: int|
                0 <= b < self.bucket@.len() && 0 <= k < self.bucket@[b].members@.len() implies a2.key@[(
            #[trigger] self.bucket@[b].members@[k]) as int] == b by {
                if b == t {
                    if k < q {
                        assert(self.bucket@[b].members@[k] == m0[k]);
                        assert(a1.key@[m0[k] as int] == b);
                    } else {
                        assert(self.bucket@[b].members@[k] == m0[k + 1]);
                        assert(a1.key@[m0[k + 1] as int] == b);
                    }
                } else {
                    assert(self.bucket@[b].members@[k] == pre.bucket@[b].members@[k]);
                    assert(a1.key@[pre.bucket@[b].members@[k] as int] == b);
                }
            }
            assert forall|b: int|
                self.max < b < self.bucket@.len() implies (
            #[trigger] self.bucket@[b]).members@.len() == 0 by {
                assert(t <= pre.max);
                assert(self.bucket@[b] == pre.bucket@[b]);
            }
            assert(self.bucket@[t].members@ =~= m0.remove_value(it.id));
            assert(self.bucket@[t].head == pre.bucket@[t].head);
        }
    }
}

impl BPQueue {
    /// Effect of a key move: item `i` leaves bucket `b1` and joins bucket
    /// `b2` (possibly the same one), at the front (LIFO) or the back (FIFO);
    /// every other bucket is untouched.
    pub open spec fn move_effect(
        pre: BPQueue,
        post: BPQueue,
        b1: int,
        b2: int,
        i: usize,
        lifo: bool,
    ) -> bool {
        &&& pre.same_frame(post)
        &&& if b2 == b1 {
            post.bucket@[b2].members@ == if lifo {
                seq![i] + pre.bucket@[b1].members@.remove_value(i)
            } else {
                pre.bucket@[b1].members@.remove_value(i).push(i)
            }
        } else {
            post.bucket@[b1].members@ == pre.bucket@[b1].members@.remove_value(i)
                && post.bucket@[b2].members@ == (if lifo {
                seq![i] + pre.bucket@[b2].members@
            } else {
                pre.bucket@[b2].members@.push(i)
            })
        }
        &&& forall|b: int|
            0 <= b < pre.bucket@.len() && b != b1 && b != b2 ==> #[trigger] post.bucket@[b]
                == pre.bucket@[b]
    }

    /// Append an item with external key `k`: it joins the back of bucket
    /// `k - offset` (FIFO among equal keys). The node must be free: isolated
    /// and not one of the queue's own nodes.
    pub fn append<T>(&mut self, arena: &mut Arena<T>, it: Dllink, k: i32)
        requires
            old(self).wf(*old(arena)),
            it.id < old(arena).spec_len(),
            old(arena).isolated(it.id),
            !old(self).is_structural(it.id),
            old(self).offset < k,
            k - old(self).offset <= old(self).high,
        ensures
            final(arena).wf(),
            final(self).wf(*final(arena)),
            BPQueue::append_effect(*old(self), *final(self), k - old(self).offset, it.id, false),
            final(arena).spec_len() == old(arena).spec_len(),
            final(arena).key@ == old(arena).key@.update(it.id as int, (k - old(self).offset) as usize),
            final(arena).data@ == old(arena).data@,
            final(arena).locked@ == old(arena).locked@.update(it.id as int, false),
            forall|i2: usize|
                i2 < final(arena).spec_len() && !old(self).bucket@[k - old(self).offset].chain().contains(
                    i2,
                ) && i2 != it.id ==> final(arena).next@[i2 as int] == old(arena).next@[i2 as int]
                    && final(arena).prev@[i2 as int] == old(arena).prev@[i2 as int],
    {
        let idx = (k - self.offset) as usize;
        proof {
            old(self).lemma_free_not_in_buckets(*old(arena), it.id);
        }
        arena.key.set(it.id, idx);
        proof {
            old(self).lemma_key_update_wf(*old(arena), *arena, it.id, idx);
        }
        self.attach(arena, it, idx, false);
    }

    /// Append an item with external key `k` at the front of its bucket
    /// (LIFO among equal keys). The node must be free.
    pub fn appendleft<T>(&mut self, arena: &mut Arena<T>, it: Dllink, k: i32)
        requires
            old(self).wf(*old(arena)),
            it.id < old(arena).spec_len(),
            old(arena).isolated(it.id),
            !old(self).is_structural(it.id),
            old(self).offset < k,
            k - old(self).offset <= old(self).high,
        ensures
            final(arena).wf(),
            final(self).wf(*final(arena)),
            BPQueue::append_effect(*old(self), *final(self), k - old(self).offset, it.id, true),
            final(arena).spec_len() == old(arena).spec_len(),
            final(arena).key@ == old(arena).key@.update(it.id as int, (k - old(self).offset) as usize),
            final(arena).data@ == old(arena).data@,
            final(arena).locked@ == old(arena).locked@.update(it.id as int, false),
            forall|i2: usize|
                i2 < final(arena).spec_len() && !old(self).bucket@[k - old(self).offset].chain().contains(
                    i2,
                ) && i2 != it.id ==> final(arena).next@[i2 as int] == old(arena).next@[i2 as int]
                    && final(arena).prev@[i2 as int] == old(arena).prev@[i2 as int],
    {
        let idx = (k - self.offset) as usize;
        proof {
            old(self).lemma_free_not_in_buckets(*old(arena), it.id);
        }
        arena.key.set(it.id, idx);
        proof {
            old(self).lemma_key_update_wf(*old(arena), *arena, it.id, idx);
        }
        self.attach(arena, it, idx, true);
    }

    /// Append a free item at the front of the bucket its stored key already
    /// names: the key field is read as the external key.
    pub fn appendleft_direct<T>(&mut self, arena: &mut Arena<T>, it: Dllink)
        requires
            old(self).wf(*old(arena)),
            it.id < old(arena).spec_len(),
            old(arena).isolated(it.id),
            !old(self).is_structural(it.id),
            old(self).offset < old(arena).key@[it.id as int],
            old(arena).key@[it.id as int] - old(self).offset <= old(self).high,
            old(arena).key@[it.id as int] <= i32::MAX,
        ensures
            final(arena).wf(),
            final(self).wf(*final(arena)),
            BPQueue::append_effect(
                *old(self),
                *final(self),
                old(arena).key@[it.id as int] - old(self).offset,
                it.id,
                true,
            ),
            final(arena).spec_len() == old(arena).spec_len(),
            final(arena).key@ == old(arena).key@.update(
                it.id as int,
                (old(arena).key@[it.id as int] - old(self).offset) as usize,
            ),
            final(arena).data@ == old(arena).data@,
            final(arena).locked@ == old(arena).locked@.update(it.id as int, false),
    {
        let k = arena.key[it.id] as i32;
        self.appendleft(arena, it, k);
    }

    /// Detach and return the front item of the highest occupied bucket, then
    /// rewind `max` past any buckets this left empty.
    pub fn popleft<T>(&mut self, arena: &mut Arena<T>) -> (r: Dllink)
        requires
            old(self).wf(*old(arena)),
            old(self).max >= 1,
        ensures
            final(arena).wf(),
            final(self).wf(*final(arena)),
            BPQueue::pop_effect(*old(self), *final(self), r.id),
            final(arena).isolated(r.id),
            final(arena).spec_len() == old(arena).spec_len(),
            final(arena).key@ == old(arena).key@,
            final(arena).key@[r.id as int] == old(self).max,
            final(arena).data@ == old(arena).data@,
            final(arena).locked@ == old(arena).locked@,
            forall|i2: usize|
                i2 < final(arena).spec_len() && !old(self).bucket@[old(self).max as int].chain().contains(
                    i2,
                ) ==> final(arena).next@[i2 as int] == old(arena).next@[i2 as int]
                    && final(arena).prev@[i2 as int] == old(arena).prev@[i2 as int],
    {
        let m = self.max;
        let ghost t = m as int;
        let mut lst = self.bucket[m];
        proof {
            assert(lst.wf(*arena));
        }
        let r = lst.popleft(arena);
        self.bucket.set(m, lst);
        proof {
            let pre = *old(self);
            let a1 = *old(arena);
            let a2 = *arena;
            let c_t = pre.bucket@[t].chain();
            let m0 = pre.bucket@[t].members@;
            assert(r.id == m0[0]);
            assert(a1.key@[m0[0] as int] == t);
            assert forall|i2: usize| #[trigger] self.bucket@[t].chain().contains(i2) implies c_t.contains(
                i2,
            ) by {
                lemma_chain_contains(self.bucket@[t], i2);
                if self.bucket@[t].members@.contains(i2) {
                    let w = choose|w: int|
                        0 <= w < m0.drop_first().len() && m0.drop_first()[w] == i2;
                    assert(m0[w + 1] == i2);
                    assert(m0.contains(i2));
                }
                lemma_chain_contains(pre.bucket@[t], i2);
            }
            assert(c_t.contains(c_t[0]));
            assert forall|b: int| 0 <= b < self.bucket@.len() implies (
            #[trigger] self.bucket@[b]).wf(a2) by {
                if b != t {
                    assert(pre.bucket@[b].wf(a1));
                    assert(!pre.bucket@[b].chain().contains(c_t[0]));
                    lemma_untouched_bucket(pre.bucket@[b], c_t, c_t[0], a1, a2);
                }
            }
            assert forall|b1: int, b2: int, i2: usize|
                0 <= b1 < self.bucket@.len() && 0 <= b2 < self.bucket@.len() && b1 != b2 && (
                #[trigger] self.bucket@[b1].chain().contains(i2)) implies !(
            #[trigger] self.bucket@[b2].chain().contains(i2)) by {
                if self.bucket@[b2].chain().contains(i2) {
                    if b1 == t {
                        assert(pre.bucket@[b1].chain().contains(i2));
                        assert(pre.bucket@[b2].chain().contains(i2));
                    } else if b2 == t {
                        assert(pre.bucket@[b2].chain().contains(i2));
                        assert(pre.bucket@[b1].chain().contains(i2));
                    } else {
                        assert(pre.bucket@[b1].chain().contains(i2));
                        assert(pre.bucket@[b2].chain().contains(i2));
                    }
                    assert(false);
                }
            }
            assert(t != 0);
            assert(self.bucket@[0].members@ == pre.bucket@[0].members@);
            assert forall|b: int, k: int|
                0 <= b < self.bucket@.len() && 0 <= k < self.bucket@[b].members@.len() implies a2.key@[(
            #[trigger] self.bucket@[b].members@[k]) as int] == b by {
                if b == t {
                    assert(self.bucket@[b].members@[k] == m0[k + 1]);
                    assert(a1.key@[m0[k + 1] as int] == b);
                } else {
                    assert(self.bucket@[b].members@[k] == pre.bucket@[b].members@[k]);
                    assert(a1.key@[pre.bucket@[b].members@[k] as int] == b);
                }
            }
            assert forall|b: int|
                self.max < b < self.bucket@.len() implies (
            #[trigger] self.bucket@[b]).members@.len() == 0 by {
                assert(b != t);
                assert(self.bucket@[b] == pre.bucket@[b]);
            }
        }
        self.rewind_max(arena);
        r
    }

    /// Detach a resident item from its bucket, then rewind `max`. The item
    /// must not be marked locked.
    pub fn detach<T>(&mut self, arena: &mut Arena<T>, it: Dllink)
        requires
            old(self).wf(*old(arena)),
            old(self).resident(*old(arena), it.id),
            !old(arena).locked@[it.id as int],
        ensures
            final(arena).wf(),
            final(self).wf(*final(arena)),
            BPQueue::detach_effect(
                *old(self),
                *final(self),
                old(arena).key@[it.id as int] as int,
                it.id,
            ),
            final(arena).isolated(it.id),
            final(arena).spec_len() == old(arena).spec_len(),
            final(arena).key@ == old(arena).key@,
            final(arena).data@ == old(arena).data@,
            final(arena).locked@ == old(arena).locked@,
            forall|i2: usize|
                i2 < final(arena).spec_len() && !old(self).bucket@[old(arena).key@[it.id as int] as int].chain().contains(
                    i2,
                ) ==> final(arena).next@[i2 as int] == old(arena).next@[i2 as int]
                    && final(arena).prev@[i2 as int] == old(arena).prev@[i2 as int],
    {
        self.unlink(arena, it);
        self.rewind_max(arena);
    }

    /// Raise a resident item's key by `delta`, re-attaching it at the front
    /// of its new bucket (LIFO): freshly promoted items are considered first.
    pub fn increase_key<T>(&mut self, arena: &mut Arena<T>, it: Dllink, delta: usize)
        requires
            old(self).wf(*old(arena)),
            old(self).resident(*old(arena), it.id),
            !old(arena).locked@[it.id as int],
            old(arena).key@[it.id as int] + delta <= old(self).high,
        ensures
            final(arena).wf(),
            final(self).wf(*final(arena)),
            BPQueue::move_effect(
                *old(self),
                *final(self),
                old(arena).key@[it.id as int] as int,
                old(arena).key@[it.id as int] + delta,
                it.id,
                true,
            ),
            final(self).max == if old(self).max >= old(arena).key@[it.id as int] + delta {
                old(self).max as int
            } else {
                old(arena).key@[it.id as int] + delta
            },
            final(arena).spec_len() == old(arena).spec_len(),
            final(arena).key@ == old(arena).key@.update(
                it.id as int,
                (old(arena).key@[it.id as int] + delta) as usize,
            ),
            final(arena).data@ == old(arena).data@,
            final(arena).locked@ == old(arena).locked@.update(it.id as int, false),
    {
        let ghost b1 = old(arena).key@[it.id as int] as int;
        let idx = arena.key[it.id];
        self.unlink(arena, it);
        let ghost q1 = *self;
        let ghost a_1 = *arena;
        let idx2 = idx + delta;
        arena.key.set(it.id, idx2);
        proof {
            old(self).lemma_resident_not_structural(*old(arena), it.id, b1);
            assert(!q1.is_structural(it.id)) by {
                if q1.is_structural(it.id) {
                    if it.id != q1.sentinel.id {
                        let b = choose|b: int|
                            0 <= b < q1.bucket@.len() && (#[trigger] q1.bucket@[b]).head.id
                                == it.id;
                        assert(old(self).bucket@[b].head == q1.bucket@[b].head);
                        assert(old(self).is_structural(it.id));
                    }
                    assert(false);
                }
            }
            assert(q1.wf_loose(a_1));
            q1.lemma_free_not_in_buckets(a_1, it.id);
            q1.lemma_key_update_wf(a_1, *arena, it.id, idx2 as usize);
            if q1.max > idx2 {
                assert(b1 != q1.max);
                assert(q1.bucket@[q1.max as int] == old(self).bucket@[q1.max as int]);
                assert(q1.bucket@[q1.max as int].members@.len() > 0);
            }
        }
        self.attach(arena, it, idx2, true);
        proof {
            assert(self.bucket@[b1].members@ == old(self).bucket@[b1].members@.remove_value(it.id)
                || b1 == idx2);
        }
    }

    /// Lower a resident item's key by `delta`, re-attaching it at the back
    /// of its new bucket (FIFO): demoted items queue behind their peers.
    /// Rewinds `max` if the old top bucket was left empty.
    #[verifier::rlimit(60)]
    pub fn decrease_key<T>(&mut self, arena: &mut Arena<T>, it: Dllink, delta: usize)
        requires
            old(self).wf(*old(arena)),
            old(self).resident(*old(arena), it.id),
            !old(arena).locked@[it.id as int],
            old(arena).key@[it.id as int] - delta >= 1,
        ensures
            final(arena).wf(),
            final(self).wf(*final(arena)),
            BPQueue::move_effect(
                *old(self),
                *final(self),
                old(arena).key@[it.id as int] as int,
                old(arena).key@[it.id as int] - delta,
                it.id,
                false,
            ),
            final(self).max <= old(self).max,
            forall|b: int|
                final(self).max < b < final(self).bucket@.len() ==> (
                #[trigger] final(self).bucket@[b]).members@.len() == 0,
            final(arena).spec_len() == old(arena).spec_len(),
            final(arena).key@ == old(arena).key@.update(
                it.id as int,
                (old(arena).key@[it.id as int] - delta) as usize,
            ),
            final(arena).data@ == old(arena).data@,
            final(arena).locked@ == old(arena).locked@.update(it.id as int, false),
    {
        let ghost b1 = old(arena).key@[it.id as int] as int;
        let idx = arena.key[it.id];
        self.unlink(arena, it);
        let ghost q1 = *self;
        let ghost a_1 = *arena;
        let idx2 = idx - delta;
        arena.key.set(it.id, idx2);
        proof {
            old(self).lemma_resident_not_structural(*old(arena), it.id, b1);
            assert(!q1.is_structural(it.id)) by {
                if q1.is_structural(it.id) {
                    if it.id != q1.sentinel.id {
                        let b = choose|b: int|
                            0 <= b < q1.bucket@.len() && (#[trigger] q1.bucket@[b]).head.id
                                == it.id;
                        assert(old(self).bucket@[b].head == q1.bucket@[b].head);
                        assert(old(self).is_structural(it.id));
                    }
                    assert(false);
                }
            }
            assert(q1.wf_loose(a_1));
            q1.lemma_free_not_in_buckets(a_1, it.id);
            q1.lemma_key_update_wf(a_1, *arena, it.id, idx2 as usize);
            assert(b1 <= old(self).max);
        }
        self.attach(arena, it, idx2, false);
        if self.max < idx2 {
            self.max = idx2;
            return ;
        }
        let ghost q2 = *self;
        proof {
            assert(q2.max == if q1.max >= idx2 {
                q1.max as int
            } else {
                idx2 as int
            });
            assert(q2.max <= old(self).max);
        }
        self.rewind_max(arena);
    }

    /// Shift a node's key by `delta`, LIFO on a raise and FIFO on a lowering.
    /// A locked node — or a shift of zero — leaves the queue untouched.
    pub fn modify_key<T>(&mut self, arena: &mut Arena<T>, it: Dllink, delta: i32)
        requires
            old(self).wf(*old(arena)),
            it.id < old(arena).spec_len(),
            i32::MIN < delta,
            !old(arena).spec_is_locked(it.id) && delta != 0 ==> old(self).resident(
                *old(arena),
                it.id,
            ),
            !old(arena).spec_is_locked(it.id) && delta > 0 ==> old(arena).key@[it.id as int] + delta
                <= old(self).high,
            !old(arena).spec_is_locked(it.id) && delta < 0 ==> old(arena).key@[it.id as int] + delta
                >= 1,
        ensures
            final(arena).wf(),
            final(self).wf(*final(arena)),
            old(arena).spec_is_locked(it.id) || delta == 0 ==> *final(self) == *old(self)
                && *final(arena) == *old(arena),
            !old(arena).spec_is_locked(it.id) && delta != 0 ==> BPQueue::move_effect(
                *old(self),
                *final(self),
                old(arena).key@[it.id as int] as int,
                old(arena).key@[it.id as int] + delta,
                it.id,
                delta > 0,
            ) && final(arena).key@ == old(arena).key@.update(
                it.id as int,
                (old(arena).key@[it.id as int] + delta) as usize,
            ) && final(arena).data@ == old(arena).data@,
            delta > 0 && !old(arena).spec_is_locked(it.id) ==> final(self).max == (
            if old(self).max >= old(arena).key@[it.id as int] + delta {
                old(self).max as int
            } else {
                old(arena).key@[it.id as int] + delta
            }),
            delta < 0 && !old(arena).spec_is_locked(it.id) ==> final(self).max <= old(self).max,
            final(self).offset == old(self).offset,
            final(self).high == old(self).high,
    {
        if it.is_locked(arena) {
            return ;
        }
        if delta > 0 {
            self.increase_key(arena, it, delta as usize);
        } else if delta < 0 {
            self.decrease_key(arena, it, (-delta) as usize);
        }
    }

    /// Empty every bucket above the sentinel, returning all items to the
    /// isolated state, and reset `max` to zero.
    pub fn clear<T>(&mut self, arena: &mut Arena<T>)
        requires
            old(self).wf(*old(arena)),
        ensures
            final(arena).wf(),
            final(self).wf(*final(arena)),
            old(self).same_frame(*final(self)),
            final(self).max == 0,
            forall|b: int|
                1 <= b < final(self).bucket@.len() ==> (
                #[trigger] final(self).bucket@[b]).members@.len() == 0,
            final(arena).spec_len() == old(arena).spec_len(),
            final(arena).key@ == old(arena).key@,
            final(arena).data@ == old(arena).data@,
            final(arena).locked@ == old(arena).locked@,
    {
        let ghost pre = *old(self);
        while self.max > 0
            invariant
                arena.wf(),
                self.wf_loose(*arena),
                pre.same_frame(*self),
                pre.bucket@.len() == self.bucket@.len(),
                self.high == pre.high,
                self.sentinel == pre.sentinel,
                forall|b: int|
                    self.max < b < self.bucket@.len() ==> (
                    #[trigger] self.bucket@[b]).members@.len() == 0,
                self.bucket@[0].members@ == seq![self.sentinel.id],
                arena.key@ == old(arena).key@,
                arena.data@ == old(arena).data@,
                arena.locked@ == old(arena).locked@,
                arena.spec_len() == old(arena).spec_len(),
            decreases self.max,
        {
            let m = self.max;
            let ghost t = m as int;
            let mut lst = self.bucket[m];
            let ghost a_pre = *arena;
            let ghost qpre = *self;
            proof {
                assert(lst.wf(*arena));
            }
            lst.clear(arena);
            self.bucket.set(m, lst);
            self.max = m - 1;
            proof {
                let c_t = qpre.bucket@[t].chain();
                assert(self.bucket@[t].chain() =~= seq![qpre.bucket@[t].head.id]);
                assert forall|i2: usize| #[trigger] self.bucket@[t].chain().contains(i2) implies c_t.contains(
                    i2,
                ) by {
                    let w = choose|w: int|
                        0 <= w < self.bucket@[t].chain().len() && self.bucket@[t].chain()[w] == i2;
                    assert(i2 == qpre.bucket@[t].head.id);
                    assert(c_t[0] == i2);
                }
                assert(c_t.contains(c_t[0]));
                assert forall|b: int| 0 <= b < self.bucket@.len() implies (
                #[trigger] self.bucket@[b]).wf(*arena) by {
                    if b != t {
                        assert(qpre.bucket@[b].wf(a_pre));
                        assert(!qpre.bucket@[b].chain().contains(c_t[0]));
                        lemma_untouched_bucket(qpre.bucket@[b], c_t, c_t[0], a_pre, *arena);
                    }
                }
                assert forall|b1: int, b2: int, i2: usize|
                    0 <= b1 < self.bucket@.len() && 0 <= b2 < self.bucket@.len() && b1 != b2 && (
                    #[trigger] self.bucket@[b1].chain().contains(i2)) implies !(
                #[trigger] self.bucket@[b2].chain().contains(i2)) by {
                    if self.bucket@[b2].chain().contains(i2) {
                        assert(qpre.bucket@[b1].chain().contains(i2));
                        assert(qpre.bucket@[b2].chain().contains(i2));
                        assert(false);
                    }
                }
                assert(t != 0);
                assert(self.bucket@[0].members@ == qpre.bucket@[0].members@);
                assert forall|b: int, k: int|
                    0 <= b < self.bucket@.len() && 0 <= k < self.bucket@[b].members@.len() implies arena.key@[(
                #[trigger] self.bucket@[b].members@[k]) as int] == b by {
                    assert(b != t);
                    assert(self.bucket@[b].members@[k] == qpre.bucket@[b].members@[k]);
                    assert(a_pre.key@[qpre.bucket@[b].members@[k] as int] == b);
                }
            }
        }
    }
}

/// Iterator handle over the queue: remembers the bucket index at which a
/// walk from the highest occupied bucket starts.
pub struct BPQueueIterator {
    /// Internal index of the bucket the walk stands at.
    pub curkey: usize,
}

impl BPQueueIterator {
    /// Start a walk at the highest occupied bucket.
    pub fn new(bpq: &BPQueue) -> (it: BPQueueIterator)
        ensures
            it.curkey == bpq.max,
    {
        BPQueueIterator { curkey: bpq.max }
    }
}

impl BPQueue {
    /// Return an iterator standing at the highest occupied bucket; each
    /// bucket's members can then be walked with the list iterator.
    pub fn iter_mut(&self) -> (it: BPQueueIterator)
        ensures
            it.curkey == self.max,
    {
        BPQueueIterator::new(self)
    }

    /// The queue model of one holding no item: `max` is zero and every
    /// bucket above the sentinel is empty.
    pub open spec fn empty_model(self) -> bool {
        &&& self.max == 0
        &&& self.bucket@.len() == self.high + 2
        &&& 1 <= self.high
        &&& forall|b: int|
            1 <= b < self.bucket@.len() ==> (#[trigger] self.bucket@[b]).members@.len() == 0
    }
}

/// Law: after every operation, every node resident in any bucket of a
/// well-formed queue is consistently linked: its successor's `prev` and its
/// predecessor's `next` both name it.
pub proof fn lemma_queue_resident_linkage<T>(q: BPQueue, arena: Arena<T>, b: int, k: int)
    requires
        q.wf(arena),
        0 <= b < q.bucket@.len(),
        0 <= k < q.bucket@[b].members@.len(),
    ensures
        arena.prev@[arena.next@[q.bucket@[b].members@[k] as int] as int] == q.bucket@[b].members@[k],
        arena.next@[arena.prev@[q.bucket@[b].members@[k] as int] as int] == q.bucket@[b].members@[k],
{
    crate::dllist::lemma_resident_linkage(arena, q.bucket@[b], k);
}

/// Law: `is_empty()` holds exactly when `max` is zero, exactly when no
/// bucket above the sentinel holds a node.
pub proof fn lemma_empty_iff_no_occupied<T>(q: BPQueue, arena: Arena<T>)
    requires
        q.wf(arena),
    ensures
        (q.max == 0) <==> (forall|b: int|
            1 <= b < q.bucket@.len() ==> (#[trigger] q.bucket@[b]).members@.len() == 0),
{
    if q.max != 0 {
        assert(q.bucket@[q.max as int].members@.len() > 0);
    }
}

/// Law: appending one node into an empty queue and then popping the highest
/// returns that very node and leaves the queue empty again. (That the node
/// comes back carrying its key is stated by `popleft` itself: the returned
/// node's key field equals the index `max` the queue was popped at.)
pub proof fn lemma_single_append_pop(
    pre: BPQueue,
    mid: BPQueue,
    post: BPQueue,
    idx: int,
    i: usize,
    r: usize,
)
    requires
        pre.empty_model(),
        1 <= idx <= pre.high,
        BPQueue::append_effect(pre, mid, idx, i, false),
        BPQueue::pop_effect(mid, post, r),
    ensures
        r == i,
        post.max == 0,
        forall|b: int|
            1 <= b < post.bucket@.len() ==> (#[trigger] post.bucket@[b]).members@.len() == 0,
{
    assert(mid.max == idx);
    assert(pre.bucket@[idx].members@.len() == 0);
    assert(mid.bucket@[idx].members@ =~= seq![i]);
    assert(r == mid.bucket@[mid.max as int].members@[0]);
    assert(post.bucket@[idx].members@.len() == 0);
    assert forall|b: int|
        1 <= b < post.bucket@.len() implies (#[trigger] post.bucket@[b]).members@.len() == 0 by {
        if b != idx {
            assert(post.bucket@[b] == mid.bucket@[b]);
            assert(mid.bucket@[b] == pre.bucket@[b]);
        }
    }
    if post.max > 0 {
        assert(post.bucket@[post.max as int].members@.len() > 0);
        assert(false);
    }
}

/// Law: two nodes appended with the same key pop in insertion order when
/// appended FIFO (`append`), and in reverse order when appended LIFO
/// (`appendleft`).
pub proof fn lemma_equal_key_order(
    pre: BPQueue,
    q1: BPQueue,
    q2: BPQueue,
    p1: BPQueue,
    p2: BPQueue,
    idx: int,
    i1: usize,
    i2: usize,
    r1: usize,
    r2: usize,
    lifo: bool,
)
    requires
        pre.empty_model(),
        1 <= idx <= pre.high,
        BPQueue::append_effect(pre, q1, idx, i1, lifo),
        BPQueue::append_effect(q1, q2, idx, i2, lifo),
        BPQueue::pop_effect(q2, p1, r1),
        BPQueue::pop_effect(p1, p2, r2),
    ensures
        !lifo ==> r1 == i1 && r2 == i2,
        lifo ==> r1 == i2 && r2 == i1,
{
    assert(q1.max == idx && q2.max == idx);
    assert(pre.bucket@[idx].members@.len() == 0);
    if lifo {
        assert(q1.bucket@[idx].members@ =~= seq![i1]);
        assert(q2.bucket@[idx].members@ =~= seq![i2, i1]);
    } else {
        assert(q1.bucket@[idx].members@ =~= seq![i1]);
        assert(q2.bucket@[idx].members@ =~= seq![i1, i2]);
    }
    assert(r1 == q2.bucket@[idx].members@[0]);
    assert(p1.bucket@[idx].members@.len() == 1);
    assert(p1.max == idx) by {
        if p1.max != idx {
            assert(p1.bucket@[idx].members@.len() == 0);
            assert(false);
        }
    }
    assert(r2 == p1.bucket@[idx].members@[0]);
    assert(p1.bucket@[idx].members@[0] == q2.bucket@[idx].members@[1]);
}

impl BPQueue {
    /// The queue shape reached by appending items with strictly increasing
    /// indices into an empty queue: the item appended for index `idxs[j]`
    /// sits alone in that bucket, every other bucket above the sentinel is
    /// empty, and `max` stands at the last (largest) index.
    pub open spec fn singleton_shape(q: BPQueue, ids: Seq<usize>, idxs: Seq<int>) -> bool {
        &&& q.bucket@.len() == q.high + 2
        &&& 1 <= q.high
        &&& ids.len() == idxs.len()
        &&& forall|j: int| 0 <= j < idxs.len() ==> 1 <= #[trigger] idxs[j] <= q.high
        &&& forall|j1: int, j2: int|
            0 <= j1 < j2 < idxs.len() ==> #[trigger] idxs[j1] < #[trigger] idxs[j2]
        &&& forall|j: int|
            0 <= j < idxs.len() ==> (#[trigger] q.bucket@[idxs[j]]).members@ == seq![ids[j]]
        &&& forall|b: int|
            1 <= b < q.bucket@.len() && !idxs.contains(b) ==> (
            #[trigger] q.bucket@[b]).members@.len() == 0
        &&& q.max == if idxs.len() == 0 {
            0int
        } else {
            idxs.last()
        }
    }
}

/// An empty queue is the singleton shape of no items at all.
proof fn lemma_empty_shape(q: BPQueue)
    requires
        q.empty_model(),
    ensures
        BPQueue::singleton_shape(q, Seq::<usize>::empty(), Seq::<int>::empty()),
{
}

/// Appending one more item above all indices used so far extends the
/// singleton shape by one bucket.
proof fn lemma_shape_append(
    q: BPQueue,
    q2: BPQueue,
    ids: Seq<usize>,
    idxs: Seq<int>,
    idx: int,
    i: usize,
)
    requires
        BPQueue::singleton_shape(q, ids, idxs),
        BPQueue::append_effect(q, q2, idx, i, false),
        idxs.len() > 0 ==> idx > idxs.last(),
    ensures
        BPQueue::singleton_shape(q2, ids.push(i), idxs.push(idx)),
{
    let n = idxs.len() as int;
    assert(!idxs.contains(idx)) by {
        if idxs.contains(idx) {
            let j = choose|j: int| 0 <= j < n && idxs[j] == idx;
            if j < n - 1 {
                assert(idxs[j] < idxs[n - 1]);
            }
            assert(false);
        }
    }
    assert(q.bucket@[idx].members@.len() == 0);
    assert(q2.bucket@[idx].members@ =~= seq![i]);
    assert forall|j: int|
        0 <= j < idxs.push(idx).len() implies (#[trigger] q2.bucket@[idxs.push(idx)[j]]).members@
        == seq![ids.push(i)[j]] by {
        if j < n {
            assert(idxs.push(idx)[j] == idxs[j]);
            assert(idxs[j] < idx) by {
                if j < n - 1 {
                    assert(idxs[j] < idxs[n - 1]);
                }
            }
            assert(q2.bucket@[idxs[j]] == q.bucket@[idxs[j]]);
        } else {
            assert(idxs.push(idx)[j] == idx);
        }
    }
    assert forall|b: int|
        1 <= b < q2.bucket@.len() && !idxs.push(idx).contains(b) implies (
    #[trigger] q2.bucket@[b]).members@.len() == 0 by {
        lemma_push_contains(idxs, idx, b);
        assert(!idxs.contains(b) && b != idx);
        assert(q2.bucket@[b] == q.bucket@[b]);
    }
    assert forall|j1: int, j2: int|
        0 <= j1 < j2 < idxs.push(idx).len() implies #[trigger] idxs.push(idx)[j1]
        < #[trigger] idxs.push(idx)[j2] by {
        if j2 < n {
        } else if j1 < n - 1 {
            assert(idxs[j1] < idxs[n - 1]);
        }
    }
    assert(q.max < idx) by {
        if n > 0 {
            assert(q.max == idxs[n - 1]);
        }
    }
    assert(q2.max == idx);
    assert(idxs.push(idx).last() == idx);
}

/// Popping from the singleton shape yields the item at the largest index
/// and leaves the shape of the remaining items.
proof fn lemma_shape_pop(q: BPQueue, q2: BPQueue, r: usize, ids: Seq<usize>, idxs: Seq<int>)
    requires
        BPQueue::singleton_shape(q, ids, idxs),
        ids.len() > 0,
        BPQueue::pop_effect(q, q2, r),
    ensures
        r == ids.last(),
        q.max == idxs.last(),
        BPQueue::singleton_shape(q2, ids.drop_last(), idxs.drop_last()),
{
    let n = idxs.len() as int;
    let top = idxs[n - 1];
    assert(q.max == top);
    assert(q.bucket@[top].members@ == seq![ids[n - 1]]);
    assert(r == ids[n - 1]);
    assert(q2.bucket@[top].members@ =~= Seq::<usize>::empty());
    assert forall|j: int|
        0 <= j < n - 1 implies (#[trigger] q2.bucket@[idxs.drop_last()[j]]).members@ == seq![
            ids.drop_last()[j],
        ] by {
        assert(idxs.drop_last()[j] == idxs[j]);
        assert(idxs[j] < top);
        assert(q2.bucket@[idxs[j]] == q.bucket@[idxs[j]]);
    }
    assert forall|b: int|
        1 <= b < q2.bucket@.len() && !idxs.drop_last().contains(b) implies (
    #[trigger] q2.bucket@[b]).members@.len() == 0 by {
        if b == top {
        } else {
            assert(!idxs.contains(b)) by {
                if idxs.contains(b) {
                    let j = choose|j: int| 0 <= j < n && idxs[j] == b;
                    assert(j < n - 1);
                    assert(idxs.drop_last()[j] == b);
                    assert(idxs.drop_last().contains(b));
                }
            }
            assert(q2.bucket@[b] == q.bucket@[b]);
        }
    }
    if n == 1 {
        assert(q2.max == 0) by {
            if q2.max > 0 {
                assert(q2.bucket@[q2.max as int].members@.len() > 0);
                assert(q2.max <= top);
                if q2.max == top {
                } else {
                    assert(q2.bucket@[q2.max as int] == q.bucket@[q2.max as int]);
                    assert(!idxs.contains(q2.max as int)) by {
                        if idxs.contains(q2.max as int) {
                            let j = choose|j: int| 0 <= j < n && idxs[j] == q2.max;
                            assert(j == 0);
                        }
                    }
                }
                assert(false);
            }
        }
    } else {
        let snd = idxs[n - 2];
        assert(q2.max >= snd) by {
            if q2.max < snd {
                assert(snd < top);
                assert(snd < q2.bucket@.len());
                assert(q2.bucket@[snd].members@.len() == 0);
                assert(q2.bucket@[snd] == q.bucket@[snd]);
                assert(q.bucket@[snd].members@ == seq![ids[n - 2]]);
                assert(false);
            }
        }
        assert(q2.max == snd) by {
            assert(snd >= 1);
            assert(q2.bucket@[q2.max as int].members@.len() > 0);
            assert(q2.max != top);
            assert(q2.bucket@[q2.max as int] == q.bucket@[q2.max as int]);
            assert(idxs.contains(q2.max as int)) by {
                if !idxs.contains(q2.max as int) {
                    assert(q.bucket@[q2.max as int].members@.len() == 0);
                }
            }
            let j = choose|j: int| 0 <= j < n && idxs[j] == q2.max;
            assert(j != n - 1);
            if j < n - 2 {
                assert(idxs[j] < idxs[n - 2]);
            }
        }
        assert(idxs.drop_last().last() == snd);
    }
}

/// Popping the singleton shape until it is empty returns the items in
/// reverse order of their indices.
proof fn lemma_pops_reverse(ps: Seq<BPQueue>, rs: Seq<usize>, ids: Seq<usize>, idxs: Seq<int>)
    requires
        ids.len() == idxs.len(),
        rs.len() == ids.len(),
        ps.len() == ids.len() + 1,
        BPQueue::singleton_shape(ps[0], ids, idxs),
        forall|j: int|
            0 <= j < rs.len() ==> BPQueue::pop_effect(#[trigger] ps[j], ps[j + 1], rs[j]),
    ensures
        forall|j: int| 0 <= j < rs.len() ==> #[trigger] rs[j] == ids[ids.len() - 1 - j],
        forall|j: int| 0 <= j < rs.len() ==> #[trigger] ps[j].max == idxs[idxs.len() - 1 - j],
        ps[ps.len() - 1].max == 0,
    decreases ids.len(),
{
    let n = ids.len() as int;
    if n == 0 {
        assert(ps[0].max == 0);
    } else {
        assert(BPQueue::pop_effect(ps[0], ps[1], rs[0]));
        lemma_shape_pop(ps[0], ps[1], rs[0], ids, idxs);
        let ps1 = ps.drop_first();
        let rs1 = rs.drop_first();
        assert forall|j: int|
            0 <= j < rs1.len() implies BPQueue::pop_effect(#[trigger] ps1[j], ps1[j + 1], rs1[j]) by {
            assert(ps1[j] == ps[j + 1] && ps1[j + 1] == ps[j + 2] && rs1[j] == rs[j + 1]);
            assert(BPQueue::pop_effect(ps[j + 1], ps[j + 2], rs[j + 1]));
        }
        lemma_pops_reverse(ps1, rs1, ids.drop_last(), idxs.drop_last());
        assert forall|j: int| 0 <= j < n implies #[trigger] rs[j] == ids[n - 1 - j] by {
            if j > 0 {
                assert(rs1[j - 1] == ids.drop_last()[ids.drop_last().len() - 1 - (j - 1)]);
                assert(rs1[j - 1] == rs[j]);
                assert(ids.drop_last()[n - 1 - j] == ids[n - 1 - j]);
            }
        }
        assert forall|j: int| 0 <= j < n implies #[trigger] ps[j].max == idxs[n - 1 - j] by {
            if j > 0 {
                assert(ps1[j - 1].max == idxs.drop_last()[idxs.drop_last().len() - 1 - (j - 1)]);
                assert(ps1[j - 1] == ps[j]);
                assert(idxs.drop_last()[n - 1 - j] == idxs[n - 1 - j]);
            }
        }
        assert(ps1[ps1.len() - 1] == ps[ps.len() - 1]);
    }
}

/// A run of appends with strictly increasing indices, starting from an
/// empty queue, builds the singleton shape.
proof fn lemma_appends_shape(qs: Seq<BPQueue>, ids: Seq<usize>, idxs: Seq<int>)
    requires
        ids.len() == idxs.len(),
        qs.len() == ids.len() + 1,
        qs[0].empty_model(),
        forall|j: int|
            0 <= j < ids.len() ==> BPQueue::append_effect(
                #[trigger] qs[j],
                qs[j + 1],
                idxs[j],
                ids[j],
                false,
            ),
        forall|j1: int, j2: int|
            0 <= j1 < j2 < idxs.len() ==> #[trigger] idxs[j1] < #[trigger] idxs[j2],
    ensures
        BPQueue::singleton_shape(qs[qs.len() - 1], ids, idxs),
    decreases ids.len(),
{
    let n = ids.len() as int;
    if n == 0 {
        lemma_empty_shape(qs[0]);
    } else {
        let qs0 = qs.drop_last();
        assert forall|j: int|
            0 <= j < n - 1 implies BPQueue::append_effect(
            #[trigger] qs0[j],
            qs0[j + 1],
            idxs.drop_last()[j],
            ids.drop_last()[j],
            false,
        ) by {
            assert(qs0[j] == qs[j] && qs0[j + 1] == qs[j + 1]);
            assert(idxs.drop_last()[j] == idxs[j] && ids.drop_last()[j] == ids[j]);
            assert(BPQueue::append_effect(qs[j], qs[j + 1], idxs[j], ids[j], false));
        }
        assert(qs0[0] == qs[0]);
        lemma_appends_shape(qs0, ids.drop_last(), idxs.drop_last());
        assert(qs0[qs0.len() - 1] == qs[n - 1]);
        assert(BPQueue::append_effect(qs[n - 1], qs[n], idxs[n - 1], ids[n - 1], false));
        if n >= 2 {
            assert(idxs.drop_last().last() == idxs[n - 2]);
            assert(idxs[n - 2] < idxs[n - 1]);
        }
        lemma_shape_append(
            qs[n - 1],
            qs[n],
            ids.drop_last(),
            idxs.drop_last(),
            idxs[n - 1],
            ids[n - 1],
        );
        assert(ids.drop_last().push(ids[n - 1]) =~= ids);
        assert(idxs.drop_last().push(idxs[n - 1]) =~= idxs);
    }
}

/// Law: appending `n` nodes with strictly increasing keys into an empty
/// queue and then popping `n` times yields the nodes in reverse order of
/// insertion, at strictly descending keys: each pop happens at bucket index
/// `idxs[n - 1 - j]`, and the popped node is `ids[n - 1 - j]`.
pub proof fn lemma_increasing_appends_pop_descending(
    qs: Seq<BPQueue>,
    ids: Seq<usize>,
    idxs: Seq<int>,
    ps: Seq<BPQueue>,
    rs: Seq<usize>,
)
    requires
        ids.len() == idxs.len(),
        qs.len() == ids.len() + 1,
        qs[0].empty_model(),
        forall|j: int|
            0 <= j < ids.len() ==> BPQueue::append_effect(
                #[trigger] qs[j],
                qs[j + 1],
                idxs[j],
                ids[j],
                false,
            ),
        forall|j1: int, j2: int|
            0 <= j1 < j2 < idxs.len() ==> #[trigger] idxs[j1] < #[trigger] idxs[j2],
        rs.len() == ids.len(),
        ps.len() == ids.len() + 1,
        ps[0] == qs[qs.len() - 1],
        forall|j: int|
            0 <= j < rs.len() ==> BPQueue::pop_effect(#[trigger] ps[j], ps[j + 1], rs[j]),
    ensures
        forall|j: int| 0 <= j < rs.len() ==> #[trigger] rs[j] == ids[ids.len() - 1 - j],
        forall|j: int| 0 <= j < rs.len() ==> #[trigger] ps[j].max == idxs[idxs.len() - 1 - j],
        ps[ps.len() - 1].max == 0,
{
    lemma_appends_shape(qs, ids, idxs);
    lemma_pops_reverse(ps, rs, ids, idxs);
}

} // verus!
