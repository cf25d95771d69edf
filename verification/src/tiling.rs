//! The heap as a tiling of the segment: every byte between the base and the
//! program break belongs to a free block or to a block that has been handed
//! out, and to one block only. A heap that is used as intended stays tiled,
//! and a tiled heap with nothing handed out holds at most one free block.

use vstd::prelude::*;
use crate::block::{BlockPtr, BLOCK_SPLIT_MIN_SIZE};
use crate::extent::{
    covered, first_fit, gap, joined, lemma_clear_after_split, lemma_clear_covers,
    lemma_covered_joined, lemma_covered_part, lemma_covered_remove, lemma_covers_clear,
    lemma_first_fit, lemma_is_remove, lemma_joined, lemma_joined_roomy, lemma_overlaps_inside,
    overlaps, sized, Extent,
};
use crate::chain::{
    lemma_chain_apart, lemma_chain_roomy, lemma_chain_sized, lemma_head_kept, node, same_head,
};
use crate::heap::{padded, surplus, trimmed, Heap};

verus! {

impl Heap {
    /// The extent of the block that the record holds at `a`.
    pub open spec fn live_extent(&self, a: int) -> Extent {
        Extent { addr: a, size: self.live@[a] }
    }

    /// The segment holds an intact block of the recorded size at `a`, and
    /// that block shares no byte with a free block.
    pub open spec fn keeps(&self, a: int) -> bool {
        let b = BlockPtr { addr: a as usize };
        &&& b.addr == a
        &&& b.is_block(&self.mem)
        &&& b.block(&self.mem).size == self.live@[a]
        &&& !overlaps(self.list@, self.live_extent(a))
    }

    /// A recorded block covers the address.
    pub open spec fn lent(&self, x: int) -> bool {
        exists|a: int| self.live@.contains_key(a) && #[trigger] self.live_extent(a).covers(x)
    }

    /// A free block or a recorded block covers the address.
    pub open spec fn claimed(&self, x: int) -> bool {
        covered(self.list@, x) || self.lent(x)
    }

    /// Every recorded block is kept, no two recorded blocks share a byte, and
    /// every byte of the segment is claimed.
    pub open spec fn tiled(&self) -> bool {
        &&& forall|a: int| self.live@.contains_key(a) ==> #[trigger] self.keeps(a)
        &&& forall|a: int, b: int|
            self.live@.contains_key(a) && self.live@.contains_key(b) && a != b ==> !(
            #[trigger] self.live_extent(a)).meets(#[trigger] self.live_extent(b))
        &&& forall|x: int|
            self.mem.spec_base() <= x < self.mem.spec_brk() ==> #[trigger] self.claimed(x)
    }
}

/// A block is clear of the heap: it is an intact block of the segment and
/// shares no byte with a free block.
pub open spec fn clear(h: &Heap, o: BlockPtr) -> bool {
    o.is_block(&h.mem) && !overlaps(h.list@, o.extent(&h.mem))
}

/// The block `o` stands in `post` as it stood in `pre`: with the same header,
/// links and bytes, and clear of the heap.
pub open spec fn kept(pre: &Heap, post: &Heap, o: BlockPtr) -> bool {
    &&& same_head(&pre.mem, &post.mem, o.addr as int)
    &&& clear(post, o)
    &&& forall|a: int|
        o.extent(&pre.mem).covers(a) ==> #[trigger] post.mem.byte(a) == pre.mem.byte(a)
}

/// Serving a request leaves every block alone that was clear of the heap,
/// and the block that is handed out shares no byte with it.
pub proof fn lemma_allocate_keeps(
    pre: &Heap,
    post: &Heap,
    size: usize,
    r: Option<usize>,
    o: BlockPtr,
)
    requires
        pre.wf(),
        post.wf(),
        Heap::allocated(pre, post, size, r),
        clear(pre, o),
    ensures
        kept(pre, post, o),
        r is Some ==> !BlockPtr::before(r->0).extent(&post.mem).meets(o.extent(&pre.mem)),
{
    let s = pre.list@;
    let req = padded(size as int);
    let k = first_fit(s, req);
    let oe = o.extent(&pre.mem);
    lemma_first_fit(s, req, 0);
    lemma_chain_sized(&pre.mem, s);
    lemma_chain_sized(&post.mem, post.list@);
    if k < s.len() {
        assert(node(&pre.mem, s, k));
        assert(!s[k].meets(oe));
        assert forall|a: int| oe.covers(a) implies #[trigger] post.mem.byte(a) == pre.mem.byte(
            a,
        ) by {
            lemma_clear_covers(s, oe, a);
        }
        lemma_head_kept(&pre.mem, &post.mem, o.addr as int);
        let rest = Extent { addr: s[k].addr + 16 + req, size: s[k].size - req - 16 };
        if rest.size >= BLOCK_SPLIT_MIN_SIZE {
            lemma_covered_part(s, k, rest);
        } else {
            lemma_is_remove(s, k);
            lemma_covered_remove(s, post.list@, k);
        }
        assert forall|a: int| oe.covers(a) implies !#[trigger] covered(post.list@, a) by {
            lemma_clear_covers(s, oe, a);
        }
        lemma_covers_clear(post.list@, oe);
    } else if pre.mem.spec_brk() - pre.mem.spec_base() + 16 + req <= pre.mem.spec_limit() {
        assert forall|a: int| oe.covers(a) implies #[trigger] post.mem.byte(a) == pre.mem.byte(
            a,
        ) by {}
        lemma_head_kept(&pre.mem, &post.mem, o.addr as int);
    } else {
        assert forall|a: int| oe.covers(a) implies #[trigger] post.mem.byte(a) == pre.mem.byte(
            a,
        ) by {}
        lemma_head_kept(&pre.mem, &post.mem, o.addr as int);
    }
}

/// The block that is handed out goes on record with the size in its header.
pub proof fn lemma_allocated_live(pre: &Heap, post: &Heap, size: usize, p: usize)
    requires
        pre.wf(),
        Heap::allocated(pre, post, size, Some(p)),
    ensures
        post.live@.contains_key(p - 16),
        post.live@[p - 16] == BlockPtr::before(p).block(&post.mem).size,
        forall|a: int| pre.live@.contains_key(a) ==> #[trigger] post.live@.contains_key(a),
{
    let s = pre.list@;
    let req = padded(size as int);
    let k = first_fit(s, req);
    lemma_first_fit(s, req, 0);
    if k < s.len() {
        assert(node(&pre.mem, s, k));
    }
}

/// Serving a request from a tiled heap leaves the heap tiled.
pub proof fn lemma_allocate_tiled(pre: &Heap, post: &Heap, size: usize, r: Option<usize>)
    requires
        pre.wf(),
        post.wf(),
        pre.tiled(),
        Heap::allocated(pre, post, size, r),
        r is Some ==> clear(post, BlockPtr::before(r->0)),
    ensures
        post.tiled(),
{
    let s = pre.list@;
    let req = padded(size as int);
    let k = first_fit(s, req);
    lemma_first_fit(s, req, 0);
    lemma_chain_sized(&pre.mem, s);
    if r is None {
        lemma_same_tiled(pre, post);
    } else {
        let nb = BlockPtr { addr: (r->0 - 16) as usize };
        let n = nb.addr as int;
        let ne = nb.extent(&post.mem);
        if k < s.len() {
            assert(node(&pre.mem, s, k));
        }
        // the block that is handed out was not on record
        if pre.live@.contains_key(n) {
            assert(pre.keeps(n));
            lemma_allocate_keeps(pre, post, size, r, nb);
            assert(ne.meets(pre.live_extent(n)));
        }
        assert forall|a: int| post.live@.contains_key(a) implies #[trigger] post.keeps(a) by {
            if a != n {
                assert(pre.keeps(a));
                lemma_allocate_keeps(pre, post, size, r, BlockPtr { addr: a as usize });
            }
        }
        assert forall|a: int, b: int|
            post.live@.contains_key(a) && post.live@.contains_key(b) && a != b implies !(
        #[trigger] post.live_extent(a)).meets(#[trigger] post.live_extent(b)) by {
            if a == n {
                assert(pre.keeps(b));
                lemma_allocate_keeps(pre, post, size, r, BlockPtr { addr: b as usize });
            } else if b == n {
                assert(pre.keeps(a));
                lemma_allocate_keeps(pre, post, size, r, BlockPtr { addr: a as usize });
            } else {
                assert(!pre.live_extent(a).meets(pre.live_extent(b)));
            }
        }
        assert forall|x: int|
            post.mem.spec_base() <= x < post.mem.spec_brk() implies #[trigger] post.claimed(x) by {
            if ne.covers(x) {
                assert(post.live_extent(n).covers(x));
            } else if x >= pre.mem.spec_brk() {
            } else {
                assert(pre.claimed(x));
                if covered(s, x) {
                    if k < s.len() {
                        let rest = Extent {
                            addr: s[k].addr + 16 + req,
                            size: s[k].size - req - 16,
                        };
                        if rest.size >= BLOCK_SPLIT_MIN_SIZE {
                            lemma_covered_part(s, k, rest);
                        } else {
                            lemma_is_remove(s, k);
                            lemma_covered_remove(s, post.list@, k);
                        }
                    }
                } else {
                    let a = choose|a: int|
                        pre.live@.contains_key(a) && #[trigger] pre.live_extent(a).covers(x);
                    assert(post.live_extent(a).covers(x));
                }
            }
        }
    }
}

/// The surplus of a block is all of the block, or it leaves the block a
/// payload with room for the links.
pub proof fn lemma_surplus(t: Extent, alone: bool)
    requires
        t.size >= 16,
    ensures
        0 <= surplus(t, alone),
        surplus(t, alone) == 16 + t.size || surplus(t, alone) <= t.size - 16,
{
}

/// A trimmed sequence covers what the sequence covered below the cut, and nothing else.
pub proof fn lemma_covered_trimmed(s: Seq<Extent>, give: int)
    requires
        s.len() > 0,
        0 <= give,
        s.last().size >= 0,
        give == 16 + s.last().size || give <= s.last().size,
    ensures
        forall|a: int| #[trigger] covered(trimmed(s, give), a) ==> covered(s, a),
        forall|a: int|
            #[trigger] covered(s, a) && a < s.last().end() - give ==> covered(trimmed(s, give), a),
{
    let u = trimmed(s, give);
    let last = s.len() - 1;
    let t = s[last];
    if give == 0 {
    } else if give == 16 + t.size {
        assert forall|a: int| #[trigger] covered(u, a) implies covered(s, a) by {
            let i = choose|i: int| 0 <= i < u.len() && #[trigger] u[i].covers(a);
            assert(s[i].covers(a));
        }
        assert forall|a: int| #[trigger] covered(s, a) && a < t.end() - give implies covered(
            u,
            a,
        ) by {
            let i = choose|i: int| 0 <= i < s.len() && #[trigger] s[i].covers(a);
            assert(u[i].covers(a));
        }
    } else {
        let part = Extent { addr: t.addr, size: t.size - give };
        lemma_covered_part(s, last, part);
        assert forall|a: int| #[trigger] covered(s, a) && a < t.end() - give implies covered(
            u,
            a,
        ) by {
            if t.covers(a) {
                assert(part.covers(a));
            }
        }
    }
}

/// Taking a block back leaves every other block alone that was clear of the
/// heap and of the block taken back.
pub proof fn lemma_release_keeps(pre: &Heap, post: &Heap, block: BlockPtr, o: BlockPtr)
    requires
        pre.wf(),
        post.wf(),
        block.is_block(&pre.mem),
        Heap::released(pre, post, block),
        clear(pre, o),
        !o.extent(&pre.mem).meets(block.extent(&pre.mem)),
    ensures
        kept(pre, post, o),
{
    let s = pre.list@;
    let e = block.extent(&pre.mem);
    let oe = o.extent(&pre.mem);
    lemma_chain_sized(&pre.mem, s);
    lemma_chain_roomy(&pre.mem, s);
    lemma_chain_sized(&post.mem, post.list@);
    if overlaps(s, e) {
        assert forall|a: int| oe.covers(a) implies #[trigger] post.mem.byte(a) == pre.mem.byte(
            a,
        ) by {}
        lemma_head_kept(&pre.mem, &post.mem, o.addr as int);
    } else {
        let s1 = joined(s, e);
        lemma_joined(s, e);
        lemma_covered_joined(s, e);
        lemma_joined_roomy(s, e);
        let last = s1.len() - 1;
        let t = s1[last];
        let brk = pre.mem.spec_brk();
        let give = if t.end() == brk {
            surplus(t, s1.len() == 1)
        } else {
            0
        };
        lemma_surplus(t, s1.len() == 1);
        lemma_covered_trimmed(s1, give);
        assert forall|a: int| oe.covers(a) implies !#[trigger] covered(s1, a) by {
            lemma_clear_covers(s, oe, a);
        }
        assert(sized(s1)) by {
            assert forall|i: int| 0 <= i < s1.len() implies (#[trigger] s1[i]).size >= 0 by {}
        }
        lemma_covers_clear(s1, oe);
        assert(!s1[last].meets(oe));
        assert(oe.end() <= brk - give);
        assert forall|a: int| oe.covers(a) implies #[trigger] post.mem.byte(a) == pre.mem.byte(
            a,
        ) by {
            lemma_clear_covers(s, oe, a);
        }
        lemma_head_kept(&pre.mem, &post.mem, o.addr as int);
        assert forall|a: int| oe.covers(a) implies !#[trigger] covered(post.list@, a) by {}
        lemma_covers_clear(post.list@, oe);
    }
}

/// Taking back a block that is on record leaves a tiled heap tiled.
pub proof fn lemma_release_tiled(pre: &Heap, post: &Heap, block: BlockPtr)
    requires
        pre.wf(),
        post.wf(),
        pre.tiled(),
        Heap::released(pre, post, block),
        pre.live@.contains_key(block.addr as int),
    ensures
        post.tiled(),
{
    let s = pre.list@;
    let n = block.addr as int;
    let e = block.extent(&pre.mem);
    assert(pre.keeps(n));
    assert(e == pre.live_extent(n));
    lemma_chain_sized(&pre.mem, s);
    lemma_chain_roomy(&pre.mem, s);
    let s1 = joined(s, e);
    lemma_joined(s, e);
    lemma_covered_joined(s, e);
    lemma_joined_roomy(s, e);
    let last = s1.len() - 1;
    let t = s1[last];
    let brk = pre.mem.spec_brk();
    let give = if t.end() == brk {
        surplus(t, s1.len() == 1)
    } else {
        0
    };
    lemma_surplus(t, s1.len() == 1);
    lemma_covered_trimmed(s1, give);
    assert forall|a: int| post.live@.contains_key(a) implies #[trigger] post.keeps(a) by {
        assert(pre.keeps(a));
        assert(!pre.live_extent(a).meets(pre.live_extent(n)));
        lemma_release_keeps(pre, post, block, BlockPtr { addr: a as usize });
    }
    assert forall|a: int, b: int|
        post.live@.contains_key(a) && post.live@.contains_key(b) && a != b implies !(
    #[trigger] post.live_extent(a)).meets(#[trigger] post.live_extent(b)) by {
        assert(!pre.live_extent(a).meets(pre.live_extent(b)));
    }
    assert forall|x: int|
        post.mem.spec_base() <= x < post.mem.spec_brk() implies #[trigger] post.claimed(x) by {
        assert(pre.claimed(x));
        if covered(s, x) || e.covers(x) {
            assert(covered(s1, x));
            assert(covered(post.list@, x));
        } else {
            let a = choose|a: int|
                pre.live@.contains_key(a) && #[trigger] pre.live_extent(a).covers(x);
            assert(post.live_extent(a).covers(x));
        }
    }
}

/// Splitting a block that is clear of the heap leaves every other block
/// alone that was clear of the heap and of the block that is split.
pub proof fn lemma_carve_keeps(pre: &Heap, post: &Heap, block: BlockPtr, req: int, o: BlockPtr)
    requires
        pre.wf(),
        post.wf(),
        req >= 16,
        clear(pre, block),
        Heap::carved(pre, post, block, req),
        clear(pre, o),
        !o.extent(&pre.mem).meets(block.extent(&pre.mem)),
    ensures
        kept(pre, post, o),
{
    let s = pre.list@;
    let e = block.extent(&pre.mem);
    let oe = o.extent(&pre.mem);
    let rest = Extent { addr: block.addr + 16 + req, size: e.size - req - 16 };
    lemma_chain_sized(&pre.mem, s);
    lemma_chain_sized(&post.mem, post.list@);
    if rest.size >= BLOCK_SPLIT_MIN_SIZE {
        lemma_overlaps_inside(s, e, rest);
        lemma_joined(s, rest);
        lemma_covered_joined(s, rest);
        assert forall|a: int| oe.covers(a) implies #[trigger] post.mem.byte(a) == pre.mem.byte(
            a,
        ) by {
            lemma_clear_covers(s, oe, a);
        }
        lemma_head_kept(&pre.mem, &post.mem, o.addr as int);
        assert forall|a: int| oe.covers(a) implies !#[trigger] covered(post.list@, a) by {
            lemma_clear_covers(s, oe, a);
        }
        lemma_covers_clear(post.list@, oe);
    } else {
        assert forall|a: int| oe.covers(a) implies #[trigger] post.mem.byte(a) == pre.mem.byte(
            a,
        ) by {}
        lemma_head_kept(&pre.mem, &post.mem, o.addr as int);
    }
}

/// Shrinking a block that is on record leaves a tiled heap tiled.
pub proof fn lemma_split_tiled(pre: &Heap, post: &Heap, block: BlockPtr, size: usize)
    requires
        pre.wf(),
        post.wf(),
        pre.tiled(),
        pre.live@.contains_key(block.addr as int),
        Heap::carved(pre, post, block, padded(size as int)),
        post.live@ == if block.extent(&pre.mem).size - padded(size as int) - 16
            >= BLOCK_SPLIT_MIN_SIZE {
            pre.live@.insert(block.addr as int, padded(size as int))
        } else {
            pre.live@
        },
    ensures
        post.tiled(),
{
    let s = pre.list@;
    let n = block.addr as int;
    let req = padded(size as int);
    let e = block.extent(&pre.mem);
    let rest = Extent { addr: n + 16 + req, size: e.size - req - 16 };
    let low = Extent { addr: n, size: req };
    assert(pre.keeps(n));
    assert(e == pre.live_extent(n));
    lemma_chain_sized(&pre.mem, s);
    if rest.size < BLOCK_SPLIT_MIN_SIZE {
        lemma_same_tiled(pre, post);
    } else {
        lemma_clear_after_split(s, e, low, rest);
        lemma_covered_joined(s, rest);
        assert(post.live_extent(n) == low);
        assert forall|a: int| post.live@.contains_key(a) implies #[trigger] post.keeps(a) by {
            if a != n {
                assert(pre.keeps(a));
                assert(!pre.live_extent(a).meets(pre.live_extent(n)));
                lemma_carve_keeps(pre, post, block, req, BlockPtr { addr: a as usize });
            }
        }
        assert forall|a: int, b: int|
            post.live@.contains_key(a) && post.live@.contains_key(b) && a != b implies !(
        #[trigger] post.live_extent(a)).meets(#[trigger] post.live_extent(b)) by {
            assert(!pre.live_extent(a).meets(pre.live_extent(b)));
        }
        assert forall|x: int|
            post.mem.spec_base() <= x < post.mem.spec_brk() implies #[trigger] post.claimed(x) by {
            assert(pre.claimed(x));
            if covered(s, x) || rest.covers(x) {
                assert(covered(post.list@, x));
            } else {
                let a = choose|a: int|
                    pre.live@.contains_key(a) && #[trigger] pre.live_extent(a).covers(x);
                assert(post.live_extent(a).covers(x));
            }
        }
    }
}

/// `post` is `pre` after a write to the bytes `[lo, hi)` of the segment.
pub open spec fn written(pre: &Heap, post: &Heap, lo: int, hi: int) -> bool {
    &&& post.list == pre.list
    &&& post.live@ == pre.live@
    &&& post.mem.wf()
    &&& post.mem.same_except(&pre.mem, lo, hi)
}

/// A write into the payload of a block that is clear of the heap leaves the
/// heap well formed and the block clear of it.
pub proof fn lemma_payload_write(pre: &Heap, post: &Heap, b: BlockPtr, lo: int, hi: int)
    requires
        pre.wf(),
        clear(pre, b),
        b.payload() <= lo,
        hi <= b.end(&pre.mem),
        written(pre, post, lo, hi),
    ensures
        post.wf(),
        clear(post, b),
        b.block(&post.mem).size == b.block(&pre.mem).size,
{
    let s = pre.list@;
    let be = b.extent(&pre.mem);
    assert forall|i: int| 0 <= i < s.len() implies (#[trigger] s[i]).end() <= lo || hi
        <= s[i].addr by {
        assert(!s[i].meets(be));
        assert(node(&pre.mem, s, i));
    }
    lemma_chain_apart(&pre.mem, &post.mem, s, lo, hi);
    let x = b.addr as int;
    assert(post.mem.word(x) == pre.mem.word(x));
    assert(post.mem.word(x + 8) == pre.mem.word(x + 8));
}

/// A write into the payload of a block leaves every block alone that shares no byte with it.
pub proof fn lemma_payload_write_keeps(
    pre: &Heap,
    post: &Heap,
    b: BlockPtr,
    lo: int,
    hi: int,
    o: BlockPtr,
)
    requires
        pre.wf(),
        clear(pre, b),
        b.payload() <= lo,
        hi <= b.end(&pre.mem),
        written(pre, post, lo, hi),
        clear(pre, o),
        !o.extent(&pre.mem).meets(b.extent(&pre.mem)),
    ensures
        kept(pre, post, o),
{
    let oe = o.extent(&pre.mem);
    assert forall|a: int| oe.covers(a) implies #[trigger] post.mem.byte(a) == pre.mem.byte(a) by {}
    lemma_head_kept(&pre.mem, &post.mem, o.addr as int);
}

/// A write into the payload of a block that is on record leaves a tiled heap tiled.
pub proof fn lemma_payload_write_tiled(pre: &Heap, post: &Heap, b: BlockPtr, lo: int, hi: int)
    requires
        pre.wf(),
        pre.tiled(),
        pre.live@.contains_key(b.addr as int),
        b.payload() <= lo,
        hi <= b.end(&pre.mem),
        written(pre, post, lo, hi),
    ensures
        post.tiled(),
{
    let n = b.addr as int;
    assert(pre.keeps(n));
    lemma_payload_write(pre, post, b, lo, hi);
    assert forall|a: int| post.live@.contains_key(a) implies #[trigger] post.keeps(a) by {
        assert(pre.keeps(a));
        if a != n {
            assert(!pre.live_extent(a).meets(pre.live_extent(n)));
            lemma_payload_write_keeps(pre, post, b, lo, hi, BlockPtr { addr: a as usize });
        }
    }
    assert forall|a: int, c: int|
        post.live@.contains_key(a) && post.live@.contains_key(c) && a != c implies !(
    #[trigger] post.live_extent(a)).meets(#[trigger] post.live_extent(c)) by {
        assert(!pre.live_extent(a).meets(pre.live_extent(c)));
    }
    assert forall|x: int|
        post.mem.spec_base() <= x < post.mem.spec_brk() implies #[trigger] post.claimed(x) by {
        assert(pre.claimed(x));
        if !covered(pre.list@, x) {
            let a = choose|a: int|
                pre.live@.contains_key(a) && #[trigger] pre.live_extent(a).covers(x);
            assert(post.live_extent(a).covers(x));
        }
    }
}

/// A heap that differs in nothing from a tiled heap is tiled.
pub proof fn lemma_same_tiled(pre: &Heap, post: &Heap)
    requires
        pre.wf(),
        pre.tiled(),
        Heap::unchanged(pre, post),
    ensures
        post.tiled(),
{
    assert forall|a: int| post.live@.contains_key(a) implies #[trigger] post.keeps(a) by {
        assert(pre.keeps(a));
        let x = a;
        assert(post.mem.word(x) == pre.mem.word(x));
        assert(post.mem.word(x + 8) == pre.mem.word(x + 8));
    }
    assert forall|a: int, b: int|
        post.live@.contains_key(a) && post.live@.contains_key(b) && a != b implies !(
    #[trigger] post.live_extent(a)).meets(#[trigger] post.live_extent(b)) by {
        assert(!pre.live_extent(a).meets(pre.live_extent(b)));
    }
    assert forall|x: int|
        post.mem.spec_base() <= x < post.mem.spec_brk() implies #[trigger] post.claimed(x) by {
        assert(pre.claimed(x));
        if !covered(pre.list@, x) {
            let a = choose|a: int|
                pre.live@.contains_key(a) && #[trigger] pre.live_extent(a).covers(x);
            assert(post.live_extent(a).covers(x));
        }
    }
}

/// When everything that was handed out has been taken back, the free list
/// holds one block that spans the segment from the base to the program
/// break, or the segment is empty and so is the list.
pub proof fn lemma_quiescent(h: &Heap)
    requires
        h.wf(),
        h.tiled(),
        forall|a: int| !h.live@.contains_key(a),
    ensures
        h.list@.len() <= 1,
        h.list@.len() == 1 ==> h.list@[0].addr == h.mem.spec_base() && h.list@[0].end()
            == h.mem.spec_brk(),
        h.list@.len() == 0 ==> h.mem.spec_brk() == h.mem.spec_base(),
{
    let s = h.list@;
    let base = h.mem.spec_base() as int;
    let brk = h.mem.spec_brk();
    assert forall|x: int| base <= x < brk implies covered(s, x) by {
        assert(h.claimed(x));
    }
    if s.len() >= 2 {
        assert(node(&h.mem, s, 0));
        assert(node(&h.mem, s, 1));
        assert(gap(s, 0, 1) > 0);
        let x = s[0].end();
        assert(covered(s, x));
        let i = choose|i: int| 0 <= i < s.len() && #[trigger] s[i].covers(x);
        if i > 0 {
            assert(gap(s, 0, i) > 0);
        }
    }
    if s.len() == 1 {
        assert(node(&h.mem, s, 0));
        assert(covered(s, base));
        let i = choose|i: int| 0 <= i < s.len() && #[trigger] s[i].covers(base);
        assert(covered(s, brk - 1));
        let j = choose|j: int| 0 <= j < s.len() && #[trigger] s[j].covers(brk - 1);
    }
    if s.len() == 0 {
        if base < brk {
            assert(covered(s, base));
        }
    }
}

} // verus!
