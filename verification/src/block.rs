//! Blocks: a header in front of each managed region, and the operations that
//! split one block in two or fuse it with the block that follows it.
//!
//! A header is two words, the payload size and the magic tag. While a block is
//! free, the first two words of its payload hold the links to its neighbours
//! on the free list.

use vstd::prelude::*;
use crate::segment::Segment;

verus! {

/// Alignment of every header and of every payload.
pub const ALIGNMENT: usize = 16;

/// Bytes taken by the header in front of a payload.
pub const BLOCK_META_SIZE: usize = 16;

/// Smallest payload: room for the two links of a free block.
pub const BLOCK_MIN_REGION_SIZE: usize = 16;

/// Smallest payload worth splitting off as a block of its own.
pub const BLOCK_SPLIT_MIN_SIZE: usize = BLOCK_META_SIZE + BLOCK_MIN_REGION_SIZE + ALIGNMENT;

/// Tag of an intact header.
pub const BLOCK_MAGIC_FREE: u16 = 0xDEAD;

/// The address of a block's header.
#[derive(Clone, Copy, Debug, PartialEq, Eq, Structural)]
pub struct BlockPtr {
    /// Address of the first byte of the header.
    pub addr: usize,
}

/// What is read at a block's address: the header, then the two links.
#[derive(Clone, Copy, Debug)]
pub struct Block {
    /// Bytes of payload behind the header.
    pub size: usize,
    /// The tag; `BLOCK_MAGIC_FREE` in an intact header.
    pub magic: u16,
    /// The next free block by address, while this block is free.
    pub next: Option<BlockPtr>,
    /// The previous free block by address, while this block is free.
    pub prev: Option<BlockPtr>,
}

/// The link that a word spells: zero is no link.
pub open spec fn link_of(w: usize) -> Option<BlockPtr> {
    if w == 0 {
        None
    } else {
        Some(BlockPtr { addr: w })
    }
}

/// The tag that a word spells: its low sixteen bits.
pub open spec fn magic_of(w: usize) -> u16 {
    (w % 0x1_0000) as u16
}

/// The ranges `[a, a + n)` and `[lo, hi)` do not meet.
pub open spec fn apart(a: int, n: int, lo: int, hi: int) -> bool {
    a + n <= lo || hi <= a
}

impl Block {
    /// An intact, unlinked block of the given payload size.
    pub open spec fn spec_new(size: usize) -> Block {
        Block { size, magic: BLOCK_MAGIC_FREE, next: None, prev: None }
    }

    /// The tag is the tag of an intact header.
    pub open spec fn spec_verify(&self) -> bool {
        self.magic == BLOCK_MAGIC_FREE
    }

    /// An intact, unlinked block of the given payload size.
    pub fn new(size: usize) -> (r: Block)
        ensures
            r == Block::spec_new(size),
    {
        Block { size, next: None, prev: None, magic: BLOCK_MAGIC_FREE }
    }

    /// Clears both links.
    pub fn unlink(&mut self)
        ensures
            *final(self) == (Block { next: None, prev: None, ..*old(self) }),
    {
        self.next = None;
        self.prev = None;
    }

    /// Tells whether the header is intact.
    #[verifier::when_used_as_spec(spec_verify)]
    pub fn verify(&self) -> (r: bool)
        ensures
            r == self.spec_verify(),
    {
        self.magic == BLOCK_MAGIC_FREE
    }
}

impl BlockPtr {
    /// What the segment holds at this address.
    pub open spec fn block(self, mem: &Segment) -> Block {
        Block {
            size: mem.word(self.addr as int),
            magic: magic_of(mem.word(self.addr + 8)),
            next: link_of(mem.word(self.addr + 16)),
            prev: link_of(mem.word(self.addr + 24)),
        }
    }

    /// The header and both links lie inside the segment.
    pub open spec fn readable(self, mem: &Segment) -> bool {
        mem.holds(self.addr as int, 32)
    }

    /// Address of the payload.
    pub open spec fn payload(self) -> int {
        self.addr + BLOCK_META_SIZE
    }

    /// Address just past the payload, where a block that touches this one would start.
    pub open spec fn end(self, mem: &Segment) -> int {
        self.addr + BLOCK_META_SIZE + self.block(mem).size
    }

    /// An intact block that lies inside the segment, aligned, with room for its links.
    pub open spec fn is_block(self, mem: &Segment) -> bool {
        &&& self.addr % ALIGNMENT == 0
        &&& self.block(mem).size >= BLOCK_MIN_REGION_SIZE
        &&& self.block(mem).size % ALIGNMENT == 0
        &&& mem.holds(self.addr as int, BLOCK_META_SIZE + self.block(mem).size)
        &&& self.block(mem).spec_verify()
    }

    /// The block that a payload address belongs to, if the address can be one.
    pub open spec fn spec_from_mem_region(p: usize) -> Option<BlockPtr> {
        if p > BLOCK_META_SIZE && p % ALIGNMENT == 0 {
            Some(BlockPtr { addr: (p - BLOCK_META_SIZE) as usize })
        } else {
            None
        }
    }

    /// The block in front of the payload at `p`.
    pub open spec fn before(p: usize) -> BlockPtr {
        BlockPtr { addr: (p - BLOCK_META_SIZE) as usize }
    }

    /// The sixteen bytes of the header are zero, so that no intact header is read there.
    pub open spec fn erased(self, mem: &Segment) -> bool {
        &&& forall|a: int| self.addr <= a < self.addr + 16 ==> #[trigger] mem.byte(a) == 0
        &&& !self.block(mem).spec_verify()
    }

    /// The block's forward link names the block that starts where this one ends.
    pub open spec fn touches_next(self, mem: &Segment) -> bool {
        &&& self.block(mem).next is Some
        &&& self.block(mem).next->0.addr == self.end(mem)
    }

    /// What `maybe_merge_next` makes of the segment `pre`.
    pub open spec fn merged(self, pre: &Segment, post: &Segment, r: Option<BlockPtr>) -> bool {
        let n = self.block(pre).next->0;
        let after = n.block(pre).next;
        let m = after->0.addr as int;
        if self.touches_next(pre) {
            &&& r == Some(self)
            &&& post.spec_base() == pre.spec_base()
            &&& post.spec_limit() == pre.spec_limit()
            &&& post.spec_brk() == pre.spec_brk()
            &&& self.block(post) == (Block {
                size: (self.block(pre).size + 16 + n.block(pre).size) as usize,
                next: after,
                ..self.block(pre)
            })
            &&& after is Some ==> after->0.block(post) == (Block {
                prev: Some(self),
                ..after->0.block(pre)
            })
            &&& n.erased(post)
            &&& post.word(n.addr as int) == 0
            &&& post.word(n.addr + 8) == 0
            &&& forall|a: int|
                #![trigger post.byte(a)]
                pre.holds(a, 1) && apart(a, 1, self.addr as int, self.addr + 8) && apart(
                    a,
                    1,
                    self.addr + 16,
                    self.addr + 24,
                ) && apart(a, 1, n.addr as int, n.addr + 16) && (after is Some ==> apart(
                    a,
                    1,
                    m + 24,
                    m + 32,
                )) ==> post.byte(a) == pre.byte(a)
            &&& forall|a: int|
                #![trigger post.word(a)]
                pre.holds(a, 8) && apart(a, 8, self.addr as int, self.addr + 8) && apart(
                    a,
                    8,
                    self.addr + 16,
                    self.addr + 24,
                ) && apart(a, 8, n.addr as int, n.addr + 16) && (after is Some ==> apart(
                    a,
                    8,
                    m + 24,
                    m + 32,
                )) ==> post.word(a) == pre.word(a)
        } else {
            r is None && post.same(pre)
        }
    }

    /// The block is large enough to give up everything past `req` bytes as a block of its own.
    pub open spec fn splittable(self, mem: &Segment, req: int) -> bool {
        self.block(mem).size - req - BLOCK_META_SIZE >= BLOCK_SPLIT_MIN_SIZE
    }

    /// What `shrink` makes of the segment `pre`.
    pub open spec fn split(
        self,
        pre: &Segment,
        post: &Segment,
        req: usize,
        r: Option<BlockPtr>,
    ) -> bool {
        if self.splittable(pre, req as int) {
            &&& r is Some
            &&& r->0.addr == self.addr + 16 + req
            &&& post.word(self.addr as int) == req
            &&& r->0.block(post) == Block::spec_new((self.block(pre).size - req - 16) as usize)
            &&& post.spec_base() == pre.spec_base()
            &&& post.spec_limit() == pre.spec_limit()
            &&& post.spec_brk() == pre.spec_brk()
            &&& forall|a: int|
                #![trigger post.byte(a)]
                pre.holds(a, 1) && apart(a, 1, self.addr as int, self.addr + 8) && apart(
                    a,
                    1,
                    r->0.addr as int,
                    r->0.addr + 32,
                ) ==> post.byte(a) == pre.byte(a)
            &&& forall|a: int|
                #![trigger post.word(a)]
                pre.holds(a, 8) && apart(a, 8, self.addr as int, self.addr + 8) && apart(
                    a,
                    8,
                    r->0.addr as int,
                    r->0.addr + 32,
                ) ==> post.word(a) == pre.word(a)
        } else {
            r is None && post.same(pre)
        }
    }

    /// Writes the header of an intact, unlinked block of `size` payload bytes at `addr`.
    pub fn new(mem: &mut Segment, addr: usize, size: usize) -> (r: BlockPtr)
        requires
            old(mem).wf(),
            old(mem).holds(addr as int, 32),
        ensures
            r.addr == addr,
            final(mem).wf(),
            final(mem).same_except(old(mem), addr as int, addr + 32),
            r.block(final(mem)) == Block::spec_new(size),
    {
        let b = BlockPtr { addr };
        b.store(mem, &Block::new(size));
        b
    }

    /// The block whose payload starts at `p`: the header sixteen bytes below.
    /// There is none where `p` is unaligned, or too low for a header to precede it.
    pub fn from_mem_region(p: usize) -> (r: Option<BlockPtr>)
        ensures
            r == BlockPtr::spec_from_mem_region(p),
    {
        if p > BLOCK_META_SIZE && p % ALIGNMENT == 0 {
            Some(BlockPtr { addr: p - BLOCK_META_SIZE })
        } else {
            None
        }
    }

    /// Address of the payload, sixteen bytes above the header.
    pub fn mem_region(self) -> (r: usize)
        requires
            self.addr + 16 <= usize::MAX,
        ensures
            r == self.payload(),
    {
        self.addr + BLOCK_META_SIZE
    }

    /// Address of the header.
    pub fn as_ptr(self) -> (r: usize)
        ensures
            r == self.addr,
    {
        self.addr
    }

    /// Reads the header and the links.
    pub fn as_ref(&self, mem: &Segment) -> (r: Block)
        requires
            mem.wf(),
            self.readable(mem),
        ensures
            r == self.block(mem),
    {
        let size = mem.read_word(self.addr);
        let tag = mem.read_word(self.addr + 8);
        let next = mem.read_word(self.addr + 16);
        let prev = mem.read_word(self.addr + 24);
        Block {
            size,
            magic: (tag % 0x1_0000) as u16,
            next: if next == 0 {
                None
            } else {
                Some(BlockPtr { addr: next })
            },
            prev: if prev == 0 {
                None
            } else {
                Some(BlockPtr { addr: prev })
            },
        }
    }

    /// Writes the header and the links. A link to the null address cannot be kept.
    pub fn store(&self, mem: &mut Segment, block: &Block)
        requires
            old(mem).wf(),
            self.readable(old(mem)),
            block.next is Some ==> block.next->0.addr != 0,
            block.prev is Some ==> block.prev->0.addr != 0,
        ensures
            final(mem).wf(),
            final(mem).same_except(old(mem), self.addr as int, self.addr + 32),
            self.block(final(mem)) == *block,
    {
        mem.write_word(self.addr, block.size);
        mem.write_word(self.addr + 8, block.magic as usize);
        self.set_next(mem, block.next);
        self.set_prev(mem, block.prev);
    }

    /// Payload size of the block.
    pub fn size(&self, mem: &Segment) -> (r: usize)
        requires
            mem.wf(),
            mem.holds(self.addr as int, 8),
        ensures
            r == self.block(mem).size,
    {
        mem.read_word(self.addr)
    }

    /// Bytes the block takes in the segment: header and payload.
    pub fn block_size(&self, mem: &Segment) -> (r: usize)
        requires
            mem.wf(),
            mem.holds(self.addr as int, 8),
            16 + self.block(mem).size <= usize::MAX,
        ensures
            r == 16 + self.block(mem).size,
    {
        BLOCK_META_SIZE + self.size(mem)
    }

    /// Address at which a block that touches this one from above would start.
    pub fn next_potential_block(self, mem: &Segment) -> (r: usize)
        requires
            mem.wf(),
            mem.holds(self.addr as int, 8),
            self.end(mem) <= usize::MAX,
        ensures
            r == self.end(mem),
    {
        self.addr + BLOCK_META_SIZE + self.size(mem)
    }

    /// Sets the payload size in the header.
    pub fn set_size(&self, mem: &mut Segment, size: usize)
        requires
            old(mem).wf(),
            old(mem).holds(self.addr as int, 8),
        ensures
            final(mem).wf(),
            final(mem).same_except(old(mem), self.addr as int, self.addr + 8),
            final(mem).word(self.addr as int) == size,
    {
        mem.write_word(self.addr, size);
    }

    /// Sets the forward link.
    pub fn set_next(&self, mem: &mut Segment, next: Option<BlockPtr>)
        requires
            old(mem).wf(),
            old(mem).holds(self.addr + 16, 8),
            next is Some ==> next->0.addr != 0,
        ensures
            final(mem).wf(),
            final(mem).same_except(old(mem), self.addr + 16, self.addr + 24),
            link_of(final(mem).word(self.addr + 16)) == next,
    {
        match next {
            Some(n) => mem.write_word(self.addr + 16, n.addr),
            None => mem.write_word(self.addr + 16, 0),
        }
    }

    /// Sets the backward link.
    pub fn set_prev(&self, mem: &mut Segment, prev: Option<BlockPtr>)
        requires
            old(mem).wf(),
            old(mem).holds(self.addr + 24, 8),
            prev is Some ==> prev->0.addr != 0,
        ensures
            final(mem).wf(),
            final(mem).same_except(old(mem), self.addr + 24, self.addr + 32),
            link_of(final(mem).word(self.addr + 24)) == prev,
    {
        match prev {
            Some(p) => mem.write_word(self.addr + 24, p.addr),
            None => mem.write_word(self.addr + 24, 0),
        }
    }

    /// Fuses the block with the one behind its forward link, if that block starts
    /// exactly where this one ends. The fused block takes over the other's
    /// forward link, the block behind that link is pointed back at the fused
    /// block, and the header that was swallowed is overwritten with zero.
    ///
    /// Where the two touch, they and the block after them lie in the segment in
    /// ascending order, each with room for its links.
    pub fn maybe_merge_next(self, mem: &mut Segment) -> (r: Option<BlockPtr>)
        requires
            old(mem).wf(),
            self.readable(old(mem)),
            self.addr != 0,
            self.touches_next(old(mem)) ==> {
                let n = self.block(old(mem)).next->0;
                &&& self.block(old(mem)).size >= 16
                &&& n.block(old(mem)).size >= 16
                &&& old(mem).holds(n.addr as int, 16 + n.block(old(mem)).size)
                &&& n.block(old(mem)).next is Some ==> {
                    &&& n.block(old(mem)).next->0.addr >= n.end(old(mem))
                    &&& n.block(old(mem)).next->0.readable(old(mem))
                }
            },
        ensures
            final(mem).wf(),
            self.merged(old(mem), final(mem), r),
    {
        let me = self.as_ref(mem);
        let next = match me.next {
            Some(n) => n,
            None => {
                return None;
            },
        };
        if me.size > usize::MAX - BLOCK_META_SIZE - self.addr || self.addr + BLOCK_META_SIZE
            + me.size != next.addr {
            return None;
        }
        let other = next.as_ref(mem);
        self.set_next(mem, other.next);
        if let Some(n) = other.next {
            n.set_prev(mem, Some(self));
        }
        self.set_size(mem, me.size + BLOCK_META_SIZE + other.size);
        mem.fill_zero(next.addr, BLOCK_META_SIZE);
        Some(self)
    }

    /// Cuts the block down to `size` payload bytes and makes an intact, unlinked
    /// block of what is left behind them. Nothing happens unless what is left,
    /// less its header, is a payload worth a block of its own.
    pub fn shrink(self, mem: &mut Segment, size: usize) -> (r: Option<BlockPtr>)
        requires
            old(mem).wf(),
            old(mem).holds(self.addr as int, 16 + self.block(old(mem)).size),
        ensures
            final(mem).wf(),
            self.split(old(mem), final(mem), size, r),
    {
        let current = self.size(mem);
        if current < BLOCK_META_SIZE || current - BLOCK_META_SIZE < size {
            return None;
        }
        let rest = current - BLOCK_META_SIZE - size;
        if rest < BLOCK_SPLIT_MIN_SIZE {
            return None;
        }
        self.set_size(mem, size);
        let r = BlockPtr::new(mem, self.addr + BLOCK_META_SIZE + size, rest);
        Some(r)
    }
}

/// A payload address leads back to the header it was taken from.
pub proof fn lemma_payload_round_trip(b: BlockPtr)
    requires
        b.addr > 0,
        b.addr % 16 == 0,
        b.payload() <= usize::MAX,
    ensures
        BlockPtr::spec_from_mem_region(b.payload() as usize) == Some(b),
{
}

/// A block is never split at its own size.
pub proof fn lemma_no_split_at_full_size(
    b: BlockPtr,
    pre: &Segment,
    post: &Segment,
    r: Option<BlockPtr>,
)
    requires
        b.split(pre, post, b.block(pre).size, r),
    ensures
        r is None,
        post.same(pre),
{
}

/// Splitting a block, linking what was split off behind it and merging the
/// two again gives back the block's size and the end of its payload.
pub proof fn lemma_split_then_merge(
    b: BlockPtr,
    m0: &Segment,
    m1: &Segment,
    m2: &Segment,
    m3: &Segment,
    req: usize,
    rest: Option<BlockPtr>,
    r: Option<BlockPtr>,
)
    requires
        m0.wf(),
        m0.holds(b.addr as int, 16 + b.block(m0).size),
        req >= 16,
        b.split(m0, m1, req, rest),
        rest is Some,
        m2.same_except(m1, b.addr + 16, b.addr + 24),
        b.block(m2).next == rest,
        b.merged(m2, m3, r),
    ensures
        r == Some(b),
        b.block(m3).size == b.block(m0).size,
        b.end(m3) == b.end(m0),
        b.block(m3).next is None,
        !rest->0.block(m3).spec_verify(),
{
}

} // verus!
