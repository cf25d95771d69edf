//! A first-fit allocator over an image of the data segment: block headers,
//! an address-ordered free list that coalesces on insert, and the heap
//! manager that moves the program break. The entry points below are the
//! four calls of the C library, on a heap that the caller holds.

use vstd::prelude::*;

pub mod segment;
pub mod block;
pub mod extent;
pub mod chain;
pub mod list;
pub mod heap;
pub mod tiling;
pub mod double_free;

use crate::block::{BlockPtr, BLOCK_SPLIT_MIN_SIZE};
use crate::chain::{lemma_chain_same, lemma_chain_sized};
use crate::extent::{lemma_clear_after_split, lemma_clear_covers, overlaps, Extent};
use crate::heap::{padded, Heap};
use crate::tiling::{
    clear, lemma_allocate_keeps, lemma_allocated_live,
    lemma_payload_write, lemma_payload_write_keeps, lemma_payload_write_tiled,
    lemma_release_keeps, lemma_same_tiled, written,
};

verus! {

/// What an entry point's result stands for: the null address is no payload.
pub open spec fn as_option(p: usize) -> Option<usize> {
    if p == 0 {
        None
    } else {
        Some(p)
    }
}

/// What `calloc` makes of the heap `pre` when it hands out the payload at
/// `r`: `mid` is the heap after the block has been handed out, and `post`
/// after the bytes asked for have been overwritten with zero.
pub open spec fn cleared(pre: &Heap, mid: &Heap, post: &Heap, total: usize, r: usize) -> bool {
    &&& Heap::allocated(pre, mid, total, Some(r))
    &&& written(mid, post, r as int, r + total)
    &&& forall|a: int| r <= a < r + total ==> #[trigger] post.mem.byte(a) == 0
}

/// What `realloc` makes of the heap `pre` when the block `b` has to move:
/// `mid` is the heap after the new block has been handed out, `copy` after
/// the payload has been copied, and `post` after the old block was taken back.
pub open spec fn moved(
    pre: &Heap,
    mid: &Heap,
    copy: &Heap,
    post: &Heap,
    b: BlockPtr,
    size: usize,
    r: usize,
) -> bool {
    let n = b.block(&pre.mem).size as int;
    &&& Heap::allocated(pre, mid, size, Some(r))
    &&& written(mid, copy, r as int, r + n)
    &&& forall|a: int|
        r <= a < r + n ==> #[trigger] copy.mem.byte(a) == pre.mem.byte(a - r + b.payload())
    &&& Heap::released(copy, post, b)
}

/// What `realloc` makes of the heap `pre` and returns.
pub open spec fn reallocated(pre: &Heap, post: &Heap, p: usize, size: usize, r: usize) -> bool {
    if p == 0 {
        Heap::allocated(pre, post, size, as_option(r))
    } else if size == 0 {
        r == 0 && Heap::freed(pre, post, p)
    } else {
        match pre.target(p) {
            None => r == 0 && Heap::unchanged(pre, post),
            Some(b) => if overlaps(pre.list@, b.extent(&pre.mem)) {
                r == 0 && Heap::unchanged(pre, post)
            } else if size <= b.block(&pre.mem).size {
                &&& r == p
                &&& Heap::carved(pre, post, b, padded(size as int))
                &&& post.live@ == if b.extent(&pre.mem).size - padded(size as int) - 16
                    >= BLOCK_SPLIT_MIN_SIZE {
                    pre.live@.insert(b.addr as int, padded(size as int))
                } else {
                    pre.live@
                }
            } else if r == 0 {
                Heap::allocated(pre, post, size, None)
            } else {
                exists|mid: Heap, copy: Heap| #[trigger] moved(pre, &mid, &copy, post, b, size, r)
            },
        }
    }
}

/// Hands out `size` bytes. Returns the payload address, or the null address
/// if the request cannot be served.
pub fn malloc(heap: &mut Heap, size: usize) -> (r: usize)
    requires
        old(heap).wf(),
    ensures
        final(heap).wf(),
        Heap::allocated(old(heap), final(heap), size, as_option(r)),
        r != 0 ==> final(heap).serves(r, size),
        old(heap).tiled() ==> final(heap).tiled(),
{
    match heap.allocate(size) {
        Some(p) => p,
        None => 0,
    }
}

/// Hands out room for `nobj` objects of `size` bytes, all bytes zero.
/// Returns the payload address, or the null address if the request cannot
/// be served.
pub fn calloc(heap: &mut Heap, nobj: usize, size: usize) -> (r: usize)
    requires
        old(heap).wf(),
        nobj * size <= usize::MAX,
    ensures
        final(heap).wf(),
        r == 0 ==> Heap::allocated(old(heap), final(heap), (nobj * size) as usize, None),
        r != 0 ==> exists|mid: Heap|
            #[trigger] cleared(old(heap), &mid, final(heap), (nobj * size) as usize, r),
        r != 0 ==> final(heap).serves(r, (nobj * size) as usize),
        r != 0 ==> forall|a: int|
            r <= a < r + nobj * size ==> #[trigger] final(heap).mem.byte(a) == 0,
        old(heap).tiled() ==> final(heap).tiled(),
{
    let total = nobj * size;
    let p = match heap.allocate(total) {
        Some(p) => p,
        None => {
            return 0;
        },
    };
    let ghost mid = *heap;
    heap.mem.fill_zero(p, total);
    proof {
        let b = BlockPtr::before(p);
        lemma_payload_write(&mid, heap, b, p as int, p + total);
        assert(cleared(old(heap), &mid, heap, total, p));
        if old(heap).tiled() {
            lemma_allocated_live(old(heap), &mid, total, p);
            lemma_payload_write_tiled(&mid, heap, b, p as int, p + total);
        }
    }
    p
}

/// Takes back the block whose payload starts at `p`. Nothing happens if `p`
/// is null, if there is no intact block at that place, or if the block is
/// free already.
pub fn free(heap: &mut Heap, p: usize)
    requires
        old(heap).wf(),
    ensures
        final(heap).wf(),
        Heap::freed(old(heap), final(heap), p),
        old(heap).tiled() && old(heap).owns(p) ==> final(heap).tiled(),
{
    heap.free_block(p);
}

/// Moves the payload of `block` to a new block of at least `size` bytes and
/// takes `block` back. Returns the new payload address, or the null address,
/// with nothing changed, if the request cannot be served.
fn relocate(heap: &mut Heap, block: BlockPtr, size: usize) -> (r: usize)
    requires
        old(heap).wf(),
        clear(old(heap), block),
        size > block.block(&old(heap).mem).size,
    ensures
        final(heap).wf(),
        r == 0 ==> Heap::allocated(old(heap), final(heap), size, None),
        r != 0 ==> exists|mid: Heap, copy: Heap|
            #[trigger] moved(old(heap), &mid, &copy, final(heap), block, size, r),
        r != 0 ==> final(heap).serves(r, size),
        r != 0 ==> forall|a: int|
            r <= a < r + block.block(&old(heap).mem).size ==> #[trigger] final(heap).mem.byte(a)
                == old(heap).mem.byte(a - r + block.payload()),
        old(heap).tiled() && old(heap).live@.contains_key(block.addr as int) ==> final(heap)
            .tiled(),
{
    let n = block.size(&heap.mem);
    let p = block.mem_region();
    let q = match heap.allocate(size) {
        Some(q) => q,
        None => {
            return 0;
        },
    };
    let ghost mid = *heap;
    let ghost nb = BlockPtr::before(q);
    proof {
        lemma_allocate_keeps(old(heap), &mid, size, Some(q), block);
    }
    heap.mem.copy(q, p, n);
    let ghost copy = *heap;
    proof {
        lemma_payload_write(&mid, &copy, nb, q as int, q + n);
        lemma_payload_write_keeps(&mid, &copy, nb, q as int, q + n, block);
        lemma_allocated_live(old(heap), &mid, size, q);
        if old(heap).tiled() && old(heap).live@.contains_key(block.addr as int) {
            lemma_payload_write_tiled(&mid, &copy, nb, q as int, q + n);
        }
    }
    heap.insert(block);
    proof {
        lemma_release_keeps(&copy, heap, block, nb);
        assert(moved(old(heap), &mid, &copy, heap, block, size, q));
        assert forall|a: int| q <= a < q + n implies #[trigger] heap.mem.byte(a) == old(
            heap,
        ).mem.byte(a - q + block.payload()) by {
            assert(nb.extent(&copy.mem).covers(a));
            assert(copy.mem.byte(a) == mid.mem.byte(a - q + p));
            assert(block.extent(&old(heap).mem).covers(a - q + p));
        }
    }
    q
}

/// Changes the size of the block whose payload starts at `p` to at least
/// `size` bytes, in place where the block is large enough, else by moving
/// the payload to a new block. With a null `p` this is `malloc`; with a
/// `size` of zero it is `free`. Returns the payload address, or the null
/// address if nothing was handed out; the heap is then as it was, but for a
/// block that was freed.
pub fn realloc(heap: &mut Heap, p: usize, size: usize) -> (r: usize)
    requires
        old(heap).wf(),
    ensures
        final(heap).wf(),
        reallocated(old(heap), final(heap), p, size, r),
        r != 0 ==> final(heap).serves(r, size),
        r != 0 && p != 0 ==> forall|a: int|
            r <= a < r + size && a < r + BlockPtr::before(p).block(&old(heap).mem).size
                ==> #[trigger] final(heap).mem.byte(a) == old(heap).mem.byte(a - r + p),
        old(heap).tiled() && old(heap).owns(p) ==> final(heap).tiled(),
{
    if p == 0 {
        return malloc(heap, size);
    }
    if size == 0 {
        free(heap, p);
        return 0;
    }
    proof {
        lemma_chain_same(&old(heap).mem, &heap.mem, heap.list@);
        if old(heap).tiled() {
            lemma_same_tiled(old(heap), heap);
        }
    }
    let block = match heap.lookup(p) {
        Some(b) => b,
        None => {
            return 0;
        },
    };
    if heap.list.locate(&heap.mem, block).is_err() {
        return 0;
    }
    let have = block.size(&heap.mem);
    if size <= have {
        heap.split_insert(block, size);
        proof {
            lemma_carve_keeps_self(old(heap), heap, block, size);
        }
        return p;
    }
    let q = relocate(heap, block, size);
    q
}

/// A block that is shrunk in place keeps its payload up to the new size, and
/// stays an intact block that is clear of the heap.
proof fn lemma_carve_keeps_self(pre: &Heap, post: &Heap, block: BlockPtr, size: usize)
    requires
        pre.wf(),
        post.wf(),
        clear(pre, block),
        size <= block.block(&pre.mem).size,
        Heap::carved(pre, post, block, padded(size as int)),
    ensures
        post.serves(block.payload() as usize, size),
        forall|a: int|
            block.payload() <= a < block.payload() + size ==> #[trigger] post.mem.byte(a)
                == pre.mem.byte(a),
{
    let s = pre.list@;
    let req = padded(size as int);
    let e = block.extent(&pre.mem);
    let rest = Extent { addr: block.addr + 16 + req, size: e.size - req - 16 };
    let low = Extent { addr: block.addr as int, size: req };
    lemma_chain_sized(&pre.mem, s);
    if rest.size >= BLOCK_SPLIT_MIN_SIZE {
        lemma_clear_after_split(s, e, low, rest);
        assert forall|a: int|
            block.payload() <= a < block.payload() + size implies #[trigger] post.mem.byte(a)
            == pre.mem.byte(a) by {
            lemma_clear_covers(s, e, a);
        }
    } else {
        let x = block.addr as int;
        assert(post.mem.word(x) == pre.mem.word(x));
        assert(post.mem.word(x + 8) == pre.mem.word(x + 8));
        assert forall|a: int|
            block.payload() <= a < block.payload() + size implies #[trigger] post.mem.byte(a)
            == pre.mem.byte(a) by {}
    }
}

} // verus!
