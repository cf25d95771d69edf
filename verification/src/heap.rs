//! The heap manager: it serves requests from the free list or by raising the
//! program break, takes freed blocks back, and lowers the break again when
//! the topmost block of the segment is free.

use vstd::prelude::*;
use crate::segment::Segment;
use crate::block::{
    Block, BlockPtr, ALIGNMENT, BLOCK_META_SIZE, BLOCK_MIN_REGION_SIZE, BLOCK_SPLIT_MIN_SIZE,
};
use crate::extent::{
    covered, first_fit, fuses_below, gap, joined, lemma_clear_after_split, lemma_clear_covers,
    lemma_clear_of_rest, lemma_covered_joined, lemma_covered_remove, lemma_first_fit,
    lemma_fused_start, lemma_is_remove, lemma_joined, lemma_joined_in_place,
    lemma_rank_of_member, overlaps, rank, Extent,
};
use crate::chain::{
    lemma_chain_apart, lemma_chain_frame, lemma_chain_roomy, lemma_chain_same,
    lemma_chain_sized, lemma_head_kept, node, same_head, same_outside, unlinked,
};
use crate::list::{among, near, IntrusiveList};
use crate::tiling::{
    lemma_allocate_tiled, lemma_release_tiled, lemma_same_tiled, lemma_split_tiled,
};

verus! {

/// Bytes in a page: the unit in which memory is given back.
pub const PAGE_SIZE: usize = 4096;

/// The payload size that serves a request for `size` bytes: `size` rounded up
/// to the alignment, and the smallest payload at least.
pub open spec fn padded(size: int) -> int {
    if size <= BLOCK_MIN_REGION_SIZE {
        BLOCK_MIN_REGION_SIZE as int
    } else {
        (size + ALIGNMENT - 1) / (ALIGNMENT as int) * ALIGNMENT
    }
}

/// Bytes given back when the block of extent `t` is the topmost of the
/// segment and free: all of it if it is the only free block and spans a page
/// or more; else the whole pages at its end that leave it a smallest payload.
pub open spec fn surplus(t: Extent, alone: bool) -> int {
    if alone && BLOCK_META_SIZE + t.size >= PAGE_SIZE {
        BLOCK_META_SIZE + t.size
    } else {
        (t.size - BLOCK_MIN_REGION_SIZE) / (PAGE_SIZE as int) * PAGE_SIZE
    }
}

/// The sequence after `give` bytes have been taken off its last extent.
pub open spec fn trimmed(s: Seq<Extent>, give: int) -> Seq<Extent> {
    let t = s.last();
    if give == 0 {
        s
    } else if give == BLOCK_META_SIZE + t.size {
        s.drop_last()
    } else {
        s.update(s.len() - 1, Extent { addr: t.addr, size: t.size - give })
    }
}

/// The payload size that serves a request for `size` bytes, if it fits a machine word.
pub fn pad(size: usize) -> (r: Option<usize>)
    ensures
        r is Some <==> padded(size as int) <= usize::MAX,
        r is Some ==> r->0 == padded(size as int),
{
    if size <= BLOCK_MIN_REGION_SIZE {
        Some(BLOCK_MIN_REGION_SIZE)
    } else if size > usize::MAX - (ALIGNMENT - 1) {
        None
    } else {
        Some((size + (ALIGNMENT - 1)) / ALIGNMENT * ALIGNMENT)
    }
}

/// A segment, the list of its free blocks, and a record of the blocks that
/// have been handed out.
pub struct Heap {
    /// The image of the data segment.
    pub mem: Segment,
    /// The free blocks of the segment.
    pub list: IntrusiveList,
    /// The blocks handed out and not taken back: header address and payload size.
    pub live: Ghost<Map<int, int>>,
}

impl Heap {
    /// The free list is a well-formed list of blocks of the segment.
    pub open spec fn wf(&self) -> bool {
        self.list.wf(&self.mem)
    }

    /// The block that `p` is the payload address of, if there is an intact
    /// block with a sound size at that place in the segment.
    pub open spec fn target(&self, p: usize) -> Option<BlockPtr> {
        match BlockPtr::spec_from_mem_region(p) {
            Some(b) => if b.readable(&self.mem) && b.is_block(&self.mem) {
                Some(b)
            } else {
                None
            },
            None => None,
        }
    }

    /// The address `p` is the payload of an intact block of at least `size`
    /// bytes, aligned, that shares no byte with a free block.
    pub open spec fn serves(&self, p: usize, size: usize) -> bool {
        let b = BlockPtr::before(p);
        &&& p % ALIGNMENT == 0
        &&& p == b.payload()
        &&& b.is_block(&self.mem)
        &&& b.block(&self.mem).size >= size
        &&& !overlaps(self.list@, b.extent(&self.mem))
    }

    /// If there is a block in front of the payload address `p`, it is on
    /// record as handed out.
    pub open spec fn owns(&self, p: usize) -> bool {
        self.target(p) is Some ==> self.live@.contains_key(self.target(p)->0.addr as int)
    }

    /// Neither the segment, nor the list, nor the record differs.
    pub open spec fn unchanged(pre: &Heap, post: &Heap) -> bool {
        &&& post.mem.same(&pre.mem)
        &&& post.list@ == pre.list@
        &&& post.live@ == pre.live@
    }

    /// What `split_insert` makes of the heap `pre`: where the block is large
    /// enough, it is cut down to the padded size and what is left of it is
    /// joined to the free list.
    pub open spec fn carved(pre: &Heap, post: &Heap, block: BlockPtr, req: int) -> bool {
        let e = block.extent(&pre.mem);
        let rest = Extent { addr: block.addr + 16 + req, size: e.size - req - 16 };
        if rest.size >= BLOCK_SPLIT_MIN_SIZE {
            &&& post.list@ == joined(pre.list@, rest)
            &&& block.block(&post.mem) == (Block { size: req as usize, ..block.block(&pre.mem) })
            &&& post.mem.spec_base() == pre.mem.spec_base()
            &&& post.mem.spec_limit() == pre.mem.spec_limit()
            &&& post.mem.spec_brk() == pre.mem.spec_brk()
            &&& forall|a: int|
                #![trigger post.mem.byte(a)]
                pre.mem.holds(a, 1) && !covered(pre.list@, a) && !rest.covers(a) && !(block.addr
                    <= a < block.addr + 8) ==> post.mem.byte(a) == pre.mem.byte(a)
            &&& forall|a: int|
                #![trigger post.mem.byte(a)]
                pre.mem.holds(a, 1) && !near(pre.list@, rank(pre.list@, rest.addr), rest, a) && !(
                block.addr <= a < block.addr + 8) ==> post.mem.byte(a) == pre.mem.byte(a)
        } else {
            &&& post.list@ == pre.list@
            &&& post.mem.same(&pre.mem)
        }
    }

    /// What `take` makes of the heap `pre` and returns.
    spec fn taken(pre: &Heap, post: &Heap, req: int, r: Option<BlockPtr>) -> bool {
        let s = pre.list@;
        let k = first_fit(s, req);
        let brk = pre.mem.spec_brk();
        if k < s.len() {
            &&& r == Some(s[k].ptr())
            &&& post.list@ == s.remove(k)
            &&& s[k].ptr().block(&post.mem) == Block::spec_new(s[k].size as usize)
            &&& same_outside(&pre.mem, &post.mem, s)
            &&& unlinked(&pre.mem, &post.mem, s, k)
        } else if brk - pre.mem.spec_base() + 16 + req <= pre.mem.spec_limit() {
            &&& r == Some(BlockPtr { addr: brk as usize })
            &&& post.list@ == s
            &&& post.mem.spec_base() == pre.mem.spec_base()
            &&& post.mem.spec_limit() == pre.mem.spec_limit()
            &&& post.mem.spec_brk() == brk + 16 + req
            &&& r->0.block(&post.mem) == Block::spec_new(req as usize)
            &&& forall|a: int|
                #![trigger post.mem.byte(a)]
                pre.mem.holds(a, 1) ==> post.mem.byte(a) == pre.mem.byte(a)
        } else {
            &&& r is None
            &&& post.list@ == s
            &&& post.mem.same(&pre.mem)
        }
    }

    /// What `allocate` makes of the heap `pre` and returns.
    pub open spec fn allocated(pre: &Heap, post: &Heap, size: usize, r: Option<usize>) -> bool {
        let req = padded(size as int);
        let s = pre.list@;
        let k = first_fit(s, req);
        let brk = pre.mem.spec_brk();
        if k < s.len() {
            let b = s[k].ptr();
            let rest = Extent { addr: s[k].addr + 16 + req, size: s[k].size - req - 16 };
            &&& r == Some((s[k].addr + 16) as usize)
            &&& same_outside(&pre.mem, &post.mem, s)
            &&& forall|a: int|
                #![trigger post.mem.byte(a)]
                pre.mem.holds(a, 1) && !among(s, k - 1, k + 2, a) && !(rest.size
                    >= BLOCK_SPLIT_MIN_SIZE && rest.heads(a)) ==> post.mem.byte(a)
                    == pre.mem.byte(a)
            &&& b.block(&post.mem).spec_verify()
            &&& if rest.size >= BLOCK_SPLIT_MIN_SIZE {
                &&& post.list@ == s.update(k, rest)
                &&& b.block(&post.mem).size == req
            } else {
                &&& post.list@ == s.remove(k)
                &&& b.block(&post.mem).size == s[k].size
            }
            &&& post.live@ == pre.live@.insert(s[k].addr, b.block(&post.mem).size as int)
        } else if brk - pre.mem.spec_base() + 16 + req <= pre.mem.spec_limit() {
            let b = BlockPtr { addr: brk as usize };
            &&& r == Some((brk + 16) as usize)
            &&& post.mem.spec_base() == pre.mem.spec_base()
            &&& post.mem.spec_limit() == pre.mem.spec_limit()
            &&& post.mem.spec_brk() == brk + 16 + req
            &&& post.list@ == s
            &&& forall|a: int|
                #![trigger post.mem.byte(a)]
                pre.mem.holds(a, 1) ==> post.mem.byte(a) == pre.mem.byte(a)
            &&& b.block(&post.mem).spec_verify()
            &&& b.block(&post.mem).size == req
            &&& post.live@ == pre.live@.insert(brk, req)
        } else {
            r is None && Heap::unchanged(pre, post)
        }
    }

    /// What `insert` makes of the heap `pre`: the block is joined to the free
    /// list, and if the last free block then ends at the program break, its
    /// surplus is given back. Nothing happens if the block shares a byte with
    /// a free block.
    pub open spec fn released(pre: &Heap, post: &Heap, block: BlockPtr) -> bool {
        let s = pre.list@;
        let e = block.extent(&pre.mem);
        let s1 = joined(s, e);
        let t = s1.last();
        let brk = pre.mem.spec_brk();
        let give = if t.end() == brk {
            surplus(t, s1.len() == 1)
        } else {
            0
        };
        if overlaps(s, e) {
            Heap::unchanged(pre, post)
        } else {
            &&& post.list@ == trimmed(s1, give)
            &&& post.mem.spec_base() == pre.mem.spec_base()
            &&& post.mem.spec_limit() == pre.mem.spec_limit()
            &&& post.mem.spec_brk() == brk - give
            &&& forall|a: int|
                #![trigger post.mem.byte(a)]
                post.mem.holds(a, 1) && !covered(s, a) && !e.covers(a) ==> post.mem.byte(a)
                    == pre.mem.byte(a)
            &&& forall|a: int|
                #![trigger post.mem.byte(a)]
                post.mem.holds(a, 1) && !near(s, rank(s, e.addr), e, a) && !t.heads(a)
                    ==> post.mem.byte(a) == pre.mem.byte(a)
            &&& post.live@ == pre.live@.remove(block.addr as int)
            &&& fuses_below(s, e) && block.addr + 16 <= post.mem.spec_brk() ==> block.erased(
                &post.mem,
            )
        }
    }

    /// What `free_block` makes of the heap `pre`.
    pub open spec fn freed(pre: &Heap, post: &Heap, p: usize) -> bool {
        match pre.target(p) {
            Some(b) => Heap::released(pre, post, b),
            None => Heap::unchanged(pre, post),
        }
    }

    /// An empty heap over a segment at `base` that may grow to `limit` bytes.
    pub fn new(base: usize, limit: usize) -> (r: Option<Heap>)
        ensures
            r is Some <==> base >= ALIGNMENT && base % ALIGNMENT == 0 && base + limit
                <= usize::MAX,
            r is Some ==> {
                &&& r->0.wf()
                &&& r->0.list@.len() == 0
                &&& r->0.live@ == Map::<int, int>::empty()
                &&& r->0.mem.spec_base() == base
                &&& r->0.mem.spec_limit() == limit
                &&& r->0.mem.spec_brk() == base
                &&& r->0.tiled()
            },
    {
        match Segment::new(base, limit) {
            Some(mem) => {
                let list = IntrusiveList::new();
                assert(list.wf(&mem));
                Some(Heap { mem, list, live: Ghost(Map::empty()) })
            },
            None => None,
        }
    }

    /// Raises the program break by a header and `size` payload bytes and
    /// writes the header of an intact, unlinked block there. The block is the
    /// caller's: it goes on no list and on no record. Fails, and changes
    /// nothing, where the segment has no room left.
    pub fn request(&mut self, size: usize) -> (r: Option<BlockPtr>)
        requires
            old(self).wf(),
            size >= BLOCK_MIN_REGION_SIZE,
            size % ALIGNMENT == 0,
        ensures
            final(self).wf(),
            final(self).list@ == old(self).list@,
            final(self).live@ == old(self).live@,
            r is Some <==> old(self).mem.spec_brk() - old(self).mem.spec_base() + 16 + size <= old(
                self,
            ).mem.spec_limit(),
            r is None ==> final(self).mem.same(&old(self).mem),
            r is Some ==> {
                &&& r->0.addr == old(self).mem.spec_brk()
                &&& final(self).mem.spec_base() == old(self).mem.spec_base()
                &&& final(self).mem.spec_limit() == old(self).mem.spec_limit()
                &&& final(self).mem.spec_brk() == old(self).mem.spec_brk() + 16 + size
                &&& r->0.block(&final(self).mem) == Block::spec_new(size)
                &&& forall|a: int|
                    #![trigger final(self).mem.byte(a)]
                    old(self).mem.holds(a, 1) ==> final(self).mem.byte(a) == old(self).mem.byte(a)
            },
    {
        if size > usize::MAX - BLOCK_META_SIZE {
            return None;
        }
        let ghost s = self.list@;
        let at = match self.mem.grow(BLOCK_META_SIZE + size) {
            Some(a) => a,
            None => {
                proof {
                    lemma_chain_same(&old(self).mem, &self.mem, s);
                }
                return None;
            },
        };
        let ghost m1 = self.mem;
        let block = BlockPtr::new(&mut self.mem, at, size);
        proof {
            assert forall|i: int| 0 <= i < s.len() implies same_head(
                &old(self).mem,
                &self.mem,
                (#[trigger] s[i]).addr,
            ) && s[i].end() <= self.mem.spec_brk() by {
                assert(node(&old(self).mem, s, i));
                let x = s[i].addr;
                assert(self.mem.word(x) == m1.word(x));
                assert(self.mem.word(x + 8) == m1.word(x + 8));
                assert(self.mem.word(x + 16) == m1.word(x + 16));
                assert(self.mem.word(x + 24) == m1.word(x + 24));
            }
            lemma_chain_frame(&old(self).mem, &self.mem, s);
            assert forall|a: int|
                #![trigger self.mem.byte(a)]
                old(self).mem.holds(a, 1) implies self.mem.byte(a) == old(self).mem.byte(a) by {
                assert(self.mem.byte(a) == m1.byte(a));
            }
        }
        Some(block)
    }

    /// Cuts `block` down to `req` payload bytes, where it is large enough for
    /// that, and joins what is left of it to the free list.
    fn carve(&mut self, block: BlockPtr, req: usize)
        requires
            old(self).wf(),
            block.is_block(&old(self).mem),
            !overlaps(old(self).list@, block.extent(&old(self).mem)),
            req >= 16,
            req % 16 == 0,
        ensures
            final(self).wf(),
            final(self).live@ == old(self).live@,
            Heap::carved(old(self), final(self), block, req as int),
            block.is_block(&final(self).mem),
            !overlaps(final(self).list@, block.extent(&final(self).mem)),
    {
        let ghost s = self.list@;
        let ghost e = block.extent(&self.mem);
        let ghost rest = Extent { addr: block.addr + 16 + req, size: e.size - req - 16 };
        match block.shrink(&mut self.mem, req) {
            Some(rem) => {
                let ghost m1 = self.mem;
                proof {
                    assert forall|i: int| 0 <= i < s.len() implies (#[trigger] s[i]).end()
                        <= e.addr || e.end() <= s[i].addr by {
                        assert(!s[i].meets(e));
                        assert(node(&old(self).mem, s, i));
                    }
                    assert(m1.same_except(&old(self).mem, e.addr, e.end()));
                    lemma_chain_apart(&old(self).mem, &m1, s, e.addr, e.end());
                    lemma_chain_sized(&m1, s);
                    lemma_clear_after_split(
                        s,
                        e,
                        Extent { addr: block.addr as int, size: req as int },
                        rest,
                    );
                    assert(rem.extent(&m1) == rest);
                }
                let done = self.list.insert(&mut self.mem, rem);
                proof {
                    assert(done is Ok);
                    assert forall|a: int|
                        block.addr <= a < block.addr + 32 implies #[trigger] self.mem.byte(a)
                        == m1.byte(a) by {
                        lemma_clear_covers(s, e, a);
                    }
                    lemma_head_kept(&m1, &self.mem, block.addr as int);
                    assert forall|a: int|
                        #![trigger self.mem.byte(a)]
                        old(self).mem.holds(a, 1) && !covered(s, a) && !rest.covers(a) && !(
                        block.addr <= a < block.addr + 8) implies self.mem.byte(a) == old(
                        self,
                    ).mem.byte(a) by {
                        assert(self.mem.byte(a) == m1.byte(a));
                    }
                    assert forall|a: int|
                        #![trigger self.mem.byte(a)]
                        old(self).mem.holds(a, 1) && !near(s, rank(s, rest.addr), rest, a) && !(
                        block.addr <= a < block.addr + 8) implies self.mem.byte(a) == old(
                        self,
                    ).mem.byte(a) by {
                        assert(self.mem.byte(a) == m1.byte(a));
                    }
                }
            },
            None => {
                proof {
                    lemma_chain_same(&old(self).mem, &self.mem, s);
                }
            },
        }
    }

    /// Shrinks a block that has been handed out to the padded `size`, where
    /// it is large enough to be split, and puts what is left of it on the
    /// free list.
    pub fn split_insert(&mut self, block: BlockPtr, size: usize)
        requires
            old(self).wf(),
            block.is_block(&old(self).mem),
            !overlaps(old(self).list@, block.extent(&old(self).mem)),
        ensures
            final(self).wf(),
            Heap::carved(old(self), final(self), block, padded(size as int)),
            final(self).live@ == if block.extent(&old(self).mem).size - padded(size as int) - 16
                >= BLOCK_SPLIT_MIN_SIZE {
                old(self).live@.insert(block.addr as int, padded(size as int))
            } else {
                old(self).live@
            },
            old(self).tiled() && old(self).live@.contains_key(block.addr as int) ==> final(self)
                .tiled(),
    {
        match pad(size) {
            Some(req) => {
                let ghost split = block.extent(&self.mem).size - req - 16 >= BLOCK_SPLIT_MIN_SIZE;
                self.carve(block, req);
                proof {
                    if split {
                        self.live = Ghost(self.live@.insert(block.addr as int, req as int));
                    }
                }
            },
            None => {
                proof {
                    lemma_chain_same(&old(self).mem, &self.mem, self.list@);
                }
            },
        }
        proof {
            if old(self).tiled() && old(self).live@.contains_key(block.addr as int) {
                lemma_split_tiled(old(self), self, block, size);
            }
        }
    }

    /// Takes a block for `req` payload bytes: the first free block that
    /// serves the request, taken off the list, or else a fresh block at the
    /// program break.
    fn take(&mut self, req: usize) -> (r: Option<BlockPtr>)
        requires
            old(self).wf(),
            req >= 16,
            req % 16 == 0,
        ensures
            final(self).wf(),
            final(self).live@ == old(self).live@,
            Heap::taken(old(self), final(self), req as int, r),
            r is Some ==> {
                &&& r->0.is_block(&final(self).mem)
                &&& !overlaps(final(self).list@, r->0.extent(&final(self).mem))
            },
    {
        let ghost s = self.list@;
        let ghost k = first_fit(s, req as int);
        proof {
            lemma_first_fit(s, req as int, 0);
            lemma_chain_sized(&self.mem, s);
            if k < s.len() {
                assert(node(&self.mem, s, k));
                lemma_is_remove(s, k);
                lemma_clear_of_rest(s, s.remove(k), k);
            }
        }
        match self.list.pop(&mut self.mem, req) {
            Some(b) => Some(b),
            None => match self.request(req) {
                Some(b) => {
                    proof {
                        if overlaps(s, b.extent(&self.mem)) {
                            let i = choose|i: int|
                                0 <= i < s.len() && #[trigger] s[i].meets(b.extent(&self.mem));
                            assert(node(&old(self).mem, s, i));
                        }
                    }
                    Some(b)
                },
                None => None,
            },
        }
    }

    /// Taking a block and carving it amounts to what `allocate` promises.
    proof fn lemma_allocated(pre: &Heap, mid: &Heap, post: &Heap, size: usize, block: BlockPtr)
        requires
            pre.wf(),
            padded(size as int) <= usize::MAX,
            Heap::taken(pre, mid, padded(size as int), Some(block)),
            block.is_block(&mid.mem),
            Heap::carved(mid, post, block, padded(size as int)),
            post.live@ == pre.live@.insert(block.addr as int, block.block(&post.mem).size as int),
        ensures
            Heap::allocated(pre, post, size, Some((block.addr + 16) as usize)),
            block.block(&post.mem).size >= size,
    {
        let req = padded(size as int);
        let s = pre.list@;
        let s1 = mid.list@;
        let k = first_fit(s, req);
        let x = block.addr as int;
        lemma_first_fit(s, req, 0);
        lemma_chain_sized(&pre.mem, s);
        let rest = Extent { addr: x + 16 + req, size: block.extent(&mid.mem).size - req - 16 };
        if rest.size < BLOCK_SPLIT_MIN_SIZE {
            assert(post.mem.word(x) == mid.mem.word(x));
            assert(post.mem.word(x + 8) == mid.mem.word(x + 8));
            assert(post.mem.word(x + 16) == mid.mem.word(x + 16));
            assert(post.mem.word(x + 24) == mid.mem.word(x + 24));
        }
        if k < s.len() {
            assert(node(&pre.mem, s, k));
            lemma_is_remove(s, k);
            lemma_covered_remove(s, s1, k);
            if rest.size >= BLOCK_SPLIT_MIN_SIZE {
                lemma_joined_in_place(s, k, rest);
            }
            assert forall|a: int|
                #![trigger post.mem.byte(a)]
                pre.mem.holds(a, 1) && !covered(s, a) implies post.mem.byte(a) == pre.mem.byte(
                a,
            ) by {
                assert(!s[k].covers(a));
                assert(!covered(s1, a));
                assert(post.mem.byte(a) == mid.mem.byte(a));
            }
            if k > 0 {
                assert(node(&pre.mem, s, k - 1));
                assert(s1[k - 1] == s[k - 1]);
            }
            if k + 1 < s.len() {
                assert(node(&pre.mem, s, k + 1));
                assert(s1[k] == s[k + 1]);
            }
            if k + 2 < s.len() {
                assert(s1[k + 1] == s[k + 2]);
            }
            assert forall|a: int|
                #![trigger post.mem.byte(a)]
                pre.mem.holds(a, 1) && !among(s, k - 1, k + 2, a) && !(rest.size
                    >= BLOCK_SPLIT_MIN_SIZE && rest.heads(a)) implies post.mem.byte(a)
                == pre.mem.byte(a) by {
                assert(!s[k].heads(a));
                if k > 0 {
                    assert(!s[k - 1].heads(a));
                }
                if k + 1 < s.len() {
                    assert(!s[k + 1].heads(a));
                }
                if k + 2 < s.len() {
                    assert(!s[k + 2].heads(a));
                }
                assert(post.mem.byte(a) == mid.mem.byte(a));
            }
        } else {
            assert forall|a: int|
                #![trigger post.mem.byte(a)]
                pre.mem.holds(a, 1) implies post.mem.byte(a) == pre.mem.byte(a) by {
                assert(post.mem.byte(a) == mid.mem.byte(a));
            }
        }
    }

    /// Serves a request for `size` bytes: from the first free block that
    /// fits, split where that pays, or else from fresh memory at the program
    /// break. Returns the payload address.
    pub fn allocate(&mut self, size: usize) -> (r: Option<usize>)
        requires
            old(self).wf(),
        ensures
            final(self).wf(),
            Heap::allocated(old(self), final(self), size, r),
            r is Some ==> final(self).serves(r->0, size),
            old(self).tiled() ==> final(self).tiled(),
    {
        let req = match pad(size) {
            Some(x) => x,
            None => {
                proof {
                    Heap::lemma_no_room(old(self), size);
                    lemma_chain_same(&old(self).mem, &self.mem, self.list@);
                    if old(self).tiled() {
                        lemma_same_tiled(old(self), self);
                    }
                }
                return None;
            },
        };
        let block = match self.take(req) {
            Some(b) => b,
            None => {
                proof {
                    if old(self).tiled() {
                        lemma_same_tiled(old(self), self);
                    }
                }
                return None;
            },
        };
        let ghost mid = *self;
        self.carve(block, req);
        let p = block.mem_region();
        proof {
            let now = block.block(&self.mem).size as int;
            self.live = Ghost(self.live@.insert(block.addr as int, now));
            Heap::lemma_allocated(old(self), &mid, self, size, block);
            if old(self).tiled() {
                lemma_allocate_tiled(old(self), self, size, Some(p));
            }
        }
        Some(p)
    }

    /// A request too large to be padded cannot be served.
    proof fn lemma_no_room(pre: &Heap, size: usize)
        requires
            pre.wf(),
            padded(size as int) > usize::MAX,
        ensures
            first_fit(pre.list@, padded(size as int)) == pre.list@.len(),
            pre.mem.spec_brk() - pre.mem.spec_base() + 16 + padded(size as int)
                > pre.mem.spec_limit(),
    {
        let s = pre.list@;
        let req = padded(size as int);
        lemma_first_fit(s, req, 0);
        let k = first_fit(s, req);
        if k < s.len() {
            assert(node(&pre.mem, s, k));
        }
    }

    /// Gives back the surplus of the last free block, if that block ends at
    /// the program break.
    fn trim(&mut self)
        requires
            old(self).wf(),
        ensures
            final(self).wf(),
            final(self).live@ == old(self).live@,
            ({
                let s = old(self).list@;
                let t = s.last();
                let brk = old(self).mem.spec_brk();
                let give = if s.len() > 0 && t.end() == brk {
                    surplus(t, s.len() == 1)
                } else {
                    0
                };
                &&& final(self).list@ == trimmed(s, give)
                &&& final(self).mem.spec_base() == old(self).mem.spec_base()
                &&& final(self).mem.spec_limit() == old(self).mem.spec_limit()
                &&& final(self).mem.spec_brk() == brk - give
                &&& forall|a: int|
                    #![trigger final(self).mem.byte(a)]
                    final(self).mem.holds(a, 1) && !(s.len() > 0 && t.addr <= a < t.addr + 8)
                        ==> final(self).mem.byte(a) == old(self).mem.byte(a)
            }),
    {
        let ghost s = self.list@;
        proof {
            lemma_chain_sized(&self.mem, s);
            lemma_chain_same(&old(self).mem, &self.mem, s);
            if s.len() > 0 {
                assert(node(&self.mem, s, s.len() - 1));
                assert(node(&self.mem, s, 0));
            }
        }
        let tail = match self.list.tail {
            Some(t) => t,
            None => {
                return ;
            },
        };
        let size = tail.size(&self.mem);
        if tail.addr + BLOCK_META_SIZE + size != self.mem.brk() {
            return ;
        }
        let alone = tail.as_ref(&self.mem).prev.is_none();
        if alone && BLOCK_META_SIZE + size >= PAGE_SIZE {
            proof {
                lemma_rank_of_member(s, s.len() - 1);
                lemma_is_remove(s, s.len() - 1);
                assert(s.remove(s.len() - 1) =~= s.drop_last());
            }
            self.list.remove(&mut self.mem, tail);
            let ghost m2 = self.mem;
            let ghost s2 = self.list@;
            self.mem.shrink(BLOCK_META_SIZE + size);
            proof {
                assert forall|i: int| 0 <= i < s2.len() implies same_head(
                    &m2,
                    &self.mem,
                    (#[trigger] s2[i]).addr,
                ) && s2[i].end() <= self.mem.spec_brk() by {
                    assert(node(&m2, s2, i));
                    assert(s2[i] == s[i]);
                    assert(gap(s, i, s.len() - 1) > 0);
                }
                lemma_chain_frame(&m2, &self.mem, s2);
                assert forall|a: int|
                    #![trigger self.mem.byte(a)]
                    self.mem.holds(a, 1) implies self.mem.byte(a) == old(self).mem.byte(a) by {
                    if covered(s, a) {
                        let i = choose|i: int| 0 <= i < s.len() && #[trigger] s[i].covers(a);
                    }
                    assert(self.mem.byte(a) == m2.byte(a));
                }
            }
        } else {
            let n = (size - BLOCK_MIN_REGION_SIZE) / PAGE_SIZE * PAGE_SIZE;
            if n > 0 {
                self.list.shorten_tail(&mut self.mem, n);
                let ghost m2 = self.mem;
                let ghost s2 = self.list@;
                self.mem.shrink(n);
                proof {
                    assert forall|i: int| 0 <= i < s2.len() implies same_head(
                        &m2,
                        &self.mem,
                        (#[trigger] s2[i]).addr,
                    ) && s2[i].end() <= self.mem.spec_brk() by {
                        assert(node(&m2, s2, i));
                        if i < s2.len() - 1 {
                            assert(s2[i] == s[i]);
                            assert(gap(s, i, s.len() - 1) > 0);
                        }
                    }
                    lemma_chain_frame(&m2, &self.mem, s2);
                    assert forall|a: int|
                        #![trigger self.mem.byte(a)]
                        self.mem.holds(a, 1) && !(s.last().addr <= a < s.last().addr + 8)
                        implies self.mem.byte(a) == old(self).mem.byte(a) by {
                        assert(self.mem.byte(a) == m2.byte(a));
                    }
                }
            }
        }
    }

    /// Takes a block back: joins it to the free list and, if the last free
    /// block then ends at the program break, gives its surplus back by
    /// lowering the break. Nothing happens if the block is free already.
    pub fn insert(&mut self, block: BlockPtr)
        requires
            old(self).wf(),
            block.is_block(&old(self).mem),
        ensures
            final(self).wf(),
            Heap::released(old(self), final(self), block),
            old(self).tiled() && old(self).live@.contains_key(block.addr as int) ==> final(self)
                .tiled(),
    {
        let ghost s = self.list@;
        let ghost e = block.extent(&self.mem);
        proof {
            lemma_chain_sized(&self.mem, s);
        }
        if self.list.insert(&mut self.mem, block).is_err() {
            proof {
                if old(self).tiled() {
                    lemma_same_tiled(old(self), self);
                }
            }
            return ;
        }
        let ghost m1 = self.mem;
        proof {
            self.live = Ghost(self.live@.remove(block.addr as int));
            lemma_joined(s, e);
            lemma_covered_joined(s, e);
            assert(node(&m1, joined(s, e), joined(s, e).len() - 1));
        }
        self.trim();
        proof {
            let s1 = joined(s, e);
            let t = s1.last();
            assert forall|a: int|
                #![trigger self.mem.byte(a)]
                self.mem.holds(a, 1) && !covered(s, a) && !e.covers(a) implies self.mem.byte(a)
                    == old(self).mem.byte(a) by {
                assert(!covered(s1, a));
                assert(!s1[s1.len() - 1].covers(a));
                assert(self.mem.byte(a) == m1.byte(a));
            }
            assert forall|a: int|
                #![trigger self.mem.byte(a)]
                self.mem.holds(a, 1) && !near(s, rank(s, e.addr), e, a) && !t.heads(a)
                implies self.mem.byte(a) == old(self).mem.byte(a) by {
                assert(self.mem.byte(a) == m1.byte(a));
            }
            if fuses_below(s, e) && block.addr + 16 <= self.mem.spec_brk() {
                lemma_chain_roomy(&old(self).mem, s);
                lemma_fused_start(s, e);
                let x = block.addr as int;
                assert forall|a: int| x <= a < x + 16 implies #[trigger] self.mem.byte(a)
                    == 0 by {
                    assert(m1.byte(a) == 0);
                }
                self.mem.lemma_zero_word(x + 8);
            }
            if old(self).tiled() && old(self).live@.contains_key(block.addr as int) {
                lemma_release_tiled(old(self), self, block);
            }
        }
    }

    /// The block that `p` is the payload address of, if there is an intact
    /// block with a sound size at that place in the segment.
    pub fn lookup(&self, p: usize) -> (r: Option<BlockPtr>)
        requires
            self.wf(),
        ensures
            r == self.target(p),
    {
        let block = match BlockPtr::from_mem_region(p) {
            Some(b) => b,
            None => {
                return None;
            },
        };
        let base = self.mem.base();
        let brk = self.mem.brk();
        if block.addr < base || brk < 32 || block.addr > brk - 32 {
            return None;
        }
        let header = block.as_ref(&self.mem);
        if !header.verify() {
            return None;
        }
        if header.size < BLOCK_MIN_REGION_SIZE || header.size % 16 != 0 || header.size > brk
            - block.addr - BLOCK_META_SIZE {
            return None;
        }
        Some(block)
    }

    /// Takes back the block whose payload starts at `p`. Nothing happens if
    /// there is no intact block with a sound size at that place, or if the
    /// block is free already.
    pub fn free_block(&mut self, p: usize)
        requires
            old(self).wf(),
        ensures
            final(self).wf(),
            Heap::freed(old(self), final(self), p),
            old(self).tiled() && old(self).owns(p) ==> final(self).tiled(),
    {
        match self.lookup(p) {
            Some(block) => self.insert(block),
            None => {
                proof {
                    lemma_chain_same(&old(self).mem, &self.mem, self.list@);
                    if old(self).tiled() {
                        lemma_same_tiled(old(self), self);
                    }
                }
            },
        }
    }
}

} // verus!
