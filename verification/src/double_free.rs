//! A block cannot be freed twice: once it has been taken back, a second call
//! for the same address finds no intact block there, or finds the block on
//! the free list, and changes nothing.

use vstd::prelude::*;
use crate::block::BlockPtr;
use crate::extent::{
    fuses_above, fuses_below, joined, lemma_is_insert, lemma_joined, lemma_rank, overlaps, rank,
};
use crate::chain::{lemma_chain_roomy, lemma_chain_sized, node};
use crate::heap::Heap;
use crate::tiling::lemma_surplus;

verus! {

/// After a block has been taken back, the segment holds no intact block at
/// its address any more, or the block is on the free list.
pub proof fn lemma_freed_is_gone(pre: &Heap, post: &Heap, b: BlockPtr)
    requires
        pre.wf(),
        post.wf(),
        b.is_block(&pre.mem),
        Heap::released(pre, post, b),
    ensures
        !(b.readable(&post.mem) && b.is_block(&post.mem)) || overlaps(
            post.list@,
            b.extent(&post.mem),
        ),
{
    let s = pre.list@;
    let e = b.extent(&pre.mem);
    lemma_chain_sized(&pre.mem, s);
    lemma_chain_roomy(&pre.mem, s);
    lemma_chain_sized(&post.mem, post.list@);
    if overlaps(s, e) {
        let x = b.addr as int;
        assert(post.mem.word(x) == pre.mem.word(x));
        assert(post.mem.word(x + 8) == pre.mem.word(x + 8));
    } else if fuses_below(s, e) {
        // the header was erased, if it is still inside the segment
    } else if b.readable(&post.mem) && b.is_block(&post.mem) {
        let k = rank(s, e.addr);
        lemma_rank(s, e.addr, 0);
        lemma_joined(s, e);
        let s1 = joined(s, e);
        let last = s1.len() - 1;
        let t = s1[last];
        if !fuses_above(s, e) {
            lemma_is_insert(s, k, e);
        }
        assert(s1[k].addr == e.addr);
        lemma_surplus(t, s1.len() == 1);
        let u = post.list@;
        assert(u.len() > k);
        assert(u[k].addr == e.addr);
        assert(node(&post.mem, u, k));
        assert(u[k].meets(b.extent(&post.mem)));
    }
}

/// Freeing the same address twice in a row: the second call changes nothing.
pub proof fn lemma_double_free(pre: &Heap, mid: &Heap, post: &Heap, p: usize)
    requires
        pre.wf(),
        mid.wf(),
        Heap::freed(pre, mid, p),
        Heap::freed(mid, post, p),
    ensures
        Heap::unchanged(mid, post),
{
    match pre.target(p) {
        None => {
            let b = BlockPtr::before(p);
            let x = b.addr as int;
            if BlockPtr::spec_from_mem_region(p) is Some && b.readable(&pre.mem) {
                assert(mid.mem.word(x) == pre.mem.word(x));
                assert(mid.mem.word(x + 8) == pre.mem.word(x + 8));
            }
        },
        Some(b) => {
            lemma_freed_is_gone(pre, mid, b);
        },
    }
}

} // verus!
