//! Chains: what it means for the segment to hold a sequence of extents as a
//! doubly linked list of blocks, and why linking a block in, taking one out
//! and fusing two neighbours each lead from one chain to another.

use vstd::prelude::*;
use crate::segment::Segment;
use crate::block::{
    apart, link_of, Block, BlockPtr, ALIGNMENT, BLOCK_MAGIC_FREE, BLOCK_META_SIZE,
    BLOCK_MIN_REGION_SIZE,
};
use crate::extent::{
    covered, gap, is_fused, is_insert, is_remove, ordered, roomy, sized, touching, Extent,
};

verus! {

/// The link to the extent at index `j`, if there is one.
pub open spec fn link_to(s: Seq<Extent>, j: int) -> Option<BlockPtr> {
    if 0 <= j < s.len() {
        Some(s[j].ptr())
    } else {
        None
    }
}

/// The extent is aligned, has room for the links, and lies inside the segment.
pub open spec fn shaped(mem: &Segment, e: Extent) -> bool {
    &&& e.addr % (ALIGNMENT as int) == 0
    &&& e.size >= BLOCK_MIN_REGION_SIZE
    &&& e.size % (ALIGNMENT as int) == 0
    &&& mem.holds(e.addr, BLOCK_META_SIZE + e.size)
}

/// The segment holds, at the extent at index `i`, an intact header of that
/// size and the links to the neighbours in the sequence.
pub open spec fn node(mem: &Segment, s: Seq<Extent>, i: int) -> bool {
    &&& shaped(mem, s[i])
    &&& s[i].ptr().block(mem) == (Block {
        size: s[i].size as usize,
        magic: BLOCK_MAGIC_FREE,
        next: link_to(s, i + 1),
        prev: link_to(s, i - 1),
    })
}

/// The segment holds the sequence as a doubly linked chain of blocks, in
/// ascending order of address and without overlap.
pub open spec fn chain(mem: &Segment, s: Seq<Extent>) -> bool {
    &&& mem.wf()
    &&& ordered(s)
    &&& forall|i: int| 0 <= i < s.len() ==> #[trigger] node(mem, s, i)
}

/// Nothing outside the extents of `s` differs between the two images.
pub open spec fn same_outside(pre: &Segment, post: &Segment, s: Seq<Extent>) -> bool {
    &&& post.spec_base() == pre.spec_base()
    &&& post.spec_limit() == pre.spec_limit()
    &&& post.spec_brk() == pre.spec_brk()
    &&& forall|a: int|
        #![trigger post.byte(a)]
        pre.holds(a, 1) && !covered(s, a) ==> post.byte(a) == pre.byte(a)
}

/// The image `post` is `pre` with the block at index `k` taken out of the
/// chain: its neighbours are linked to each other and its own links are cleared.
pub open spec fn unlinked(pre: &Segment, post: &Segment, s: Seq<Extent>, k: int) -> bool {
    let b = s[k].addr;
    &&& post.spec_base() == pre.spec_base()
    &&& post.spec_limit() == pre.spec_limit()
    &&& post.spec_brk() == pre.spec_brk()
    &&& link_of(post.word(b + 16)) is None
    &&& link_of(post.word(b + 24)) is None
    &&& k > 0 ==> link_of(post.word(s[k - 1].addr + 16)) == link_to(s, k + 1)
    &&& k + 1 < s.len() ==> link_of(post.word(s[k + 1].addr + 24)) == link_to(s, k - 1)
    &&& forall|a: int|
        #![trigger post.word(a)]
        pre.holds(a, 8) && apart(a, 8, b + 16, b + 32) && (k > 0 ==> apart(
            a,
            8,
            s[k - 1].addr + 16,
            s[k - 1].addr + 24,
        )) && (k + 1 < s.len() ==> apart(a, 8, s[k + 1].addr + 24, s[k + 1].addr + 32))
            ==> post.word(a) == pre.word(a)
    &&& forall|a: int|
        #![trigger post.byte(a)]
        pre.holds(a, 1) && apart(a, 1, b + 16, b + 32) && (k > 0 ==> apart(
            a,
            1,
            s[k - 1].addr + 16,
            s[k - 1].addr + 24,
        )) && (k + 1 < s.len() ==> apart(a, 1, s[k + 1].addr + 24, s[k + 1].addr + 32))
            ==> post.byte(a) == pre.byte(a)
}

/// The image `post` is `pre` with the block of extent `e` linked into the
/// chain in front of the extent at index `k`.
pub open spec fn linked_in(
    pre: &Segment,
    post: &Segment,
    s: Seq<Extent>,
    k: int,
    e: Extent,
) -> bool {
    let b = e.addr;
    &&& post.spec_base() == pre.spec_base()
    &&& post.spec_limit() == pre.spec_limit()
    &&& post.spec_brk() == pre.spec_brk()
    &&& link_of(post.word(b + 16)) == link_to(s, k)
    &&& link_of(post.word(b + 24)) == link_to(s, k - 1)
    &&& k > 0 ==> link_of(post.word(s[k - 1].addr + 16)) == Some(e.ptr())
    &&& k < s.len() ==> link_of(post.word(s[k].addr + 24)) == Some(e.ptr())
    &&& forall|a: int|
        #![trigger post.word(a)]
        pre.holds(a, 8) && apart(a, 8, b + 16, b + 32) && (k > 0 ==> apart(
            a,
            8,
            s[k - 1].addr + 16,
            s[k - 1].addr + 24,
        )) && (k < s.len() ==> apart(a, 8, s[k].addr + 24, s[k].addr + 32)) ==> post.word(a)
            == pre.word(a)
    &&& forall|a: int|
        #![trigger post.byte(a)]
        pre.holds(a, 1) && apart(a, 1, b + 16, b + 32) && (k > 0 ==> apart(
            a,
            1,
            s[k - 1].addr + 16,
            s[k - 1].addr + 24,
        )) && (k < s.len() ==> apart(a, 1, s[k].addr + 24, s[k].addr + 32)) ==> post.byte(a)
            == pre.byte(a)
}

/// The extents of a chain have sizes that are not negative.
pub proof fn lemma_chain_sized(mem: &Segment, s: Seq<Extent>)
    requires
        chain(mem, s),
    ensures
        sized(s),
{
    assert forall|i: int| 0 <= i < s.len() implies (#[trigger] s[i]).size >= 0 by {
        assert(node(mem, s, i));
    }
}

/// The extents of a chain have room for the two links.
pub proof fn lemma_chain_roomy(mem: &Segment, s: Seq<Extent>)
    requires
        chain(mem, s),
    ensures
        roomy(s),
{
    assert forall|i: int| 0 <= i < s.len() implies (#[trigger] s[i]).size >= 16 by {
        assert(node(mem, s, i));
    }
}

/// A chain stays one in an image that differs nowhere.
pub proof fn lemma_chain_same(pre: &Segment, post: &Segment, s: Seq<Extent>)
    requires
        chain(pre, s),
        post.wf(),
        post.same(pre),
    ensures
        chain(post, s),
        same_outside(pre, post, s),
{
    assert forall|i: int| 0 <= i < s.len() implies #[trigger] node(post, s, i) by {
        assert(node(pre, s, i));
        let x = s[i].addr;
        assert(post.word(x) == pre.word(x));
        assert(post.word(x + 8) == pre.word(x + 8));
        assert(post.word(x + 16) == pre.word(x + 16));
        assert(post.word(x + 24) == pre.word(x + 24));
    }
}

/// Both images hold the same header and the same links at `x`.
pub open spec fn same_head(pre: &Segment, post: &Segment, x: int) -> bool {
    &&& post.word(x) == pre.word(x)
    &&& post.word(x + 8) == pre.word(x + 8)
    &&& post.word(x + 16) == pre.word(x + 16)
    &&& post.word(x + 24) == pre.word(x + 24)
}

/// A chain stays one in an image that still reaches to the end of each of
/// its blocks and holds the same header and links at each of them.
pub proof fn lemma_chain_frame(pre: &Segment, post: &Segment, s: Seq<Extent>)
    requires
        chain(pre, s),
        post.wf(),
        post.spec_base() == pre.spec_base(),
        forall|i: int| 0 <= i < s.len() ==> (#[trigger] s[i]).end() <= post.spec_brk(),
        forall|i: int| 0 <= i < s.len() ==> same_head(pre, post, (#[trigger] s[i]).addr),
    ensures
        chain(post, s),
{
    assert forall|i: int| 0 <= i < s.len() implies #[trigger] node(post, s, i) by {
        assert(node(pre, s, i));
        assert(same_head(pre, post, s[i].addr));
        assert(s[i].end() <= post.spec_brk());
    }
}

/// A chain stays one when the image changes only inside a range that meets none of its blocks.
pub proof fn lemma_chain_apart(pre: &Segment, post: &Segment, s: Seq<Extent>, lo: int, hi: int)
    requires
        chain(pre, s),
        post.wf(),
        post.same_except(pre, lo, hi),
        forall|i: int| 0 <= i < s.len() ==> (#[trigger] s[i]).end() <= lo || hi <= s[i].addr,
    ensures
        chain(post, s),
{
    assert forall|i: int| 0 <= i < s.len() implies #[trigger] node(post, s, i) by {
        assert(node(pre, s, i));
        assert(s[i].end() <= lo || hi <= s[i].addr);
        let x = s[i].addr;
        assert(post.word(x) == pre.word(x));
        assert(post.word(x + 8) == pre.word(x + 8));
        assert(post.word(x + 16) == pre.word(x + 16));
        assert(post.word(x + 24) == pre.word(x + 24));
    }
}

/// Both images hold the same header and links at `x` if they hold the same bytes there.
pub proof fn lemma_head_kept(pre: &Segment, post: &Segment, x: int)
    requires
        post.spec_base() == pre.spec_base(),
        pre.holds(x, 32),
        post.holds(x, 32),
        forall|a: int| x <= a < x + 32 ==> #[trigger] post.byte(a) == pre.byte(a),
    ensures
        same_head(pre, post, x),
{
    post.lemma_word_from_bytes(pre, x);
    post.lemma_word_from_bytes(pre, x + 8);
    post.lemma_word_from_bytes(pre, x + 16);
    post.lemma_word_from_bytes(pre, x + 24);
}

/// A chain stays one when the size in the header of one of its blocks is
/// changed to a size that leaves the block clear of the next.
pub proof fn lemma_resize(pre: &Segment, post: &Segment, s: Seq<Extent>, j: int, size: int)
    requires
        chain(pre, s),
        post.wf(),
        0 <= j < s.len(),
        16 <= size <= s[j].size,
        size % 16 == 0,
        post.same_except(pre, s[j].addr, s[j].addr + 8),
        post.word(s[j].addr) == size,
    ensures
        chain(post, s.update(j, Extent { addr: s[j].addr, size })),
{
    let u = s.update(j, Extent { addr: s[j].addr, size });
    assert(node(pre, s, j));
    assert forall|i: int, l: int| 0 <= i < l < u.len() implies #[trigger] gap(u, i, l) >= 0 by {
        assert(gap(s, i, l) >= 0);
    }
    assert forall|i: int| 0 <= i < u.len() implies #[trigger] node(post, u, i) by {
        assert(node(pre, s, i));
        let x = s[i].addr;
        if i < j {
            assert(gap(s, i, j) >= 0);
        } else if i > j {
            assert(gap(s, j, i) >= 0);
        }
        assert(post.word(x + 8) == pre.word(x + 8));
        assert(post.word(x + 16) == pre.word(x + 16));
        assert(post.word(x + 24) == pre.word(x + 24));
        if i != j {
            assert(post.word(x) == pre.word(x));
        }
        assert(link_to(u, i + 1) == link_to(s, i + 1));
        assert(link_to(u, i - 1) == link_to(s, i - 1));
    }
}

/// After a block has been taken out, the block at index `i` of what is left is a node of the chain.
proof fn lemma_unlink_node(
    pre: &Segment,
    post: &Segment,
    s: Seq<Extent>,
    t: Seq<Extent>,
    k: int,
    i: int,
)
    requires
        chain(pre, s),
        post.wf(),
        is_remove(s, t, k),
        unlinked(pre, post, s, k),
        0 <= i < t.len(),
    ensures
        node(post, t, i),
{
    let i0 = if i < k { i } else { i + 1 };
    assert(node(pre, s, k));
    assert(node(pre, s, i0));
    assert(t[i] == s[i0]);
    let x = s[i0].addr;
    if k > 0 {
        assert(node(pre, s, k - 1));
    }
    if k + 1 < s.len() {
        assert(node(pre, s, k + 1));
    }
    if i0 < k {
        assert(gap(s, i0, k) >= 0);
        if i0 < k - 1 {
            assert(gap(s, i0, k - 1) >= 0);
        }
        if k + 1 < s.len() {
            assert(gap(s, i0, k + 1) >= 0);
        }
    } else {
        assert(gap(s, k, i0) >= 0);
        if i0 > k + 1 {
            assert(gap(s, k + 1, i0) >= 0);
        }
        if k > 0 {
            assert(gap(s, k - 1, i0) >= 0);
        }
    }
    assert(post.word(x) == pre.word(x));
    assert(post.word(x + 8) == pre.word(x + 8));
    if i0 == k - 1 {
        if k < t.len() {
            assert(t[k] == s[k + 1]);
        }
        assert(link_to(t, i + 1) == link_to(s, k + 1));
    } else {
        assert(post.word(x + 16) == pre.word(x + 16));
        if i + 1 < t.len() {
            assert(t[i + 1] == s[i0 + 1]);
        }
        assert(link_to(t, i + 1) == link_to(s, i0 + 1));
    }
    if i0 == k + 1 {
        if k > 0 {
            assert(t[k - 1] == s[k - 1]);
        }
        assert(link_to(t, i - 1) == link_to(s, k - 1));
    } else {
        assert(post.word(x + 24) == pre.word(x + 24));
        if i > 0 {
            assert(t[i - 1] == s[i0 - 1]);
        }
        assert(link_to(t, i - 1) == link_to(s, i0 - 1));
    }
}

/// Taking a block out of a chain leaves a chain of the other blocks, and the
/// block itself intact and unlinked.
pub proof fn lemma_unlink(pre: &Segment, post: &Segment, s: Seq<Extent>, t: Seq<Extent>, k: int)
    requires
        chain(pre, s),
        post.wf(),
        is_remove(s, t, k),
        unlinked(pre, post, s, k),
    ensures
        forall|i: int| 0 <= i < t.len() ==> #[trigger] node(post, t, i),
        s[k].ptr().block(post) == Block::spec_new(s[k].ptr().block(pre).size),
        same_outside(pre, post, s),
{
    assert forall|i: int| 0 <= i < t.len() implies #[trigger] node(post, t, i) by {
        lemma_unlink_node(pre, post, s, t, k, i);
    }
    assert(node(pre, s, k));
    if k > 0 {
        assert(node(pre, s, k - 1));
        assert(gap(s, k - 1, k) >= 0);
    }
    if k + 1 < s.len() {
        assert(node(pre, s, k + 1));
        assert(gap(s, k, k + 1) >= 0);
    }
    assert forall|a: int|
        #![trigger post.byte(a)]
        pre.holds(a, 1) && !covered(s, a) implies post.byte(a) == pre.byte(a) by {
        assert(!s[k].covers(a));
        if k > 0 {
            assert(!s[k - 1].covers(a));
        }
        if k + 1 < s.len() {
            assert(!s[k + 1].covers(a));
        }
    }
    let b = s[k].addr;
    assert(post.word(b) == pre.word(b));
    assert(post.word(b + 8) == pre.word(b + 8));
}

/// After a block has been linked in, the block at index `i` is a node of the chain.
proof fn lemma_link_in_node(
    pre: &Segment,
    post: &Segment,
    s: Seq<Extent>,
    t: Seq<Extent>,
    k: int,
    e: Extent,
    i: int,
)
    requires
        chain(pre, s),
        post.wf(),
        is_insert(s, t, k, e),
        e.ptr().is_block(pre),
        e == e.ptr().extent(pre),
        k > 0 ==> s[k - 1].end() <= e.addr,
        k < s.len() ==> e.end() <= s[k].addr,
        linked_in(pre, post, s, k, e),
        0 <= i < t.len(),
    ensures
        node(post, t, i),
{
    if k > 0 {
        assert(node(pre, s, k - 1));
    }
    if k < s.len() {
        assert(node(pre, s, k));
    }
    if i == k {
        let x = e.addr;
        assert(post.word(x) == pre.word(x));
        assert(post.word(x + 8) == pre.word(x + 8));
        if k < s.len() {
            assert(t[k + 1] == s[k]);
        }
        if k > 0 {
            assert(t[k - 1] == s[k - 1]);
        }
        assert(link_to(t, k + 1) == link_to(s, k));
        assert(link_to(t, k - 1) == link_to(s, k - 1));
    } else {
        let i0 = if i < k { i } else { i - 1 };
        assert(node(pre, s, i0));
        assert(t[i] == s[i0]);
        let x = s[i0].addr;
        if i0 < k {
            if i0 < k - 1 {
                assert(gap(s, i0, k - 1) >= 0);
            }
            if k < s.len() {
                assert(gap(s, i0, k) >= 0);
            }
        } else {
            if i0 > k {
                assert(gap(s, k, i0) >= 0);
            }
            if k > 0 {
                assert(gap(s, k - 1, i0) >= 0);
            }
        }
        assert(post.word(x) == pre.word(x));
        assert(post.word(x + 8) == pre.word(x + 8));
        if i0 == k - 1 {
            assert(link_to(t, i + 1) == Some(e.ptr()));
        } else {
            assert(post.word(x + 16) == pre.word(x + 16));
            if 0 <= i + 1 < t.len() {
                assert(t[i + 1] == s[i0 + 1]);
            }
            assert(link_to(t, i + 1) == link_to(s, i0 + 1));
        }
        if i0 == k {
            assert(link_to(t, i - 1) == Some(e.ptr()));
        } else {
            assert(post.word(x + 24) == pre.word(x + 24));
            if 0 <= i - 1 {
                assert(t[i - 1] == s[i0 - 1]);
            }
            assert(link_to(t, i - 1) == link_to(s, i0 - 1));
        }
    }
}

/// Linking a block into a chain, between the blocks it lies between, gives a chain.
pub proof fn lemma_link_in(
    pre: &Segment,
    post: &Segment,
    s: Seq<Extent>,
    t: Seq<Extent>,
    k: int,
    e: Extent,
)
    requires
        chain(pre, s),
        post.wf(),
        is_insert(s, t, k, e),
        e.ptr().is_block(pre),
        e == e.ptr().extent(pre),
        k > 0 ==> s[k - 1].end() <= e.addr,
        k < s.len() ==> e.end() <= s[k].addr,
        linked_in(pre, post, s, k, e),
    ensures
        chain(post, t),
        same_outside(pre, post, t),
{
    lemma_chain_sized(pre, s);
    crate::extent::lemma_ordered_insert(s, t, k, e);
    assert forall|i: int| 0 <= i < t.len() implies #[trigger] node(post, t, i) by {
        lemma_link_in_node(pre, post, s, t, k, e, i);
    }
    if k > 0 {
        assert(node(pre, s, k - 1));
        assert(t[k - 1] == s[k - 1]);
    }
    if k < s.len() {
        assert(node(pre, s, k));
        assert(t[k + 1] == s[k]);
    }
    assert forall|a: int|
        #![trigger post.byte(a)]
        pre.holds(a, 1) && !covered(t, a) implies post.byte(a) == pre.byte(a) by {
        assert(!t[k].covers(a));
        if k > 0 {
            assert(!t[k - 1].covers(a));
        }
        if k < s.len() {
            assert(!t[k + 1].covers(a));
        }
    }
}

/// After two blocks have been fused, the block at index `i` is a node of the chain.
proof fn lemma_fuse_node(
    pre: &Segment,
    post: &Segment,
    t: Seq<Extent>,
    u: Seq<Extent>,
    j: int,
    i: int,
)
    requires
        chain(pre, t),
        post.wf(),
        is_fused(t, u, j),
        touching(t, j),
        t[j].ptr().merged(pre, post, Some(t[j].ptr())),
        0 <= i < u.len(),
    ensures
        node(post, u, i),
{
    assert(node(pre, t, j));
    assert(node(pre, t, j + 1));
    assert(t[j].ptr().touches_next(pre));
    if j + 2 < t.len() {
        assert(node(pre, t, j + 2));
        assert(gap(t, j + 1, j + 2) >= 0);
        assert(u[j + 1] == t[j + 2]);
    }
    if j > 0 {
        assert(u[j - 1] == t[j - 1]);
    }
    if i == j {
        assert(link_to(u, j + 1) == link_to(t, j + 2));
        assert(link_to(u, j - 1) == link_to(t, j - 1));
    } else {
        let i0 = if i < j { i } else { i + 1 };
        assert(node(pre, t, i0));
        assert(u[i] == t[i0]);
        let y = t[i0].addr;
        if i0 < j {
            assert(gap(t, i0, j) >= 0);
            assert(gap(t, i0, j + 1) >= 0);
            if j + 2 < t.len() {
                assert(gap(t, i0, j + 2) >= 0);
            }
        } else {
            assert(gap(t, j, i0) >= 0);
            assert(gap(t, j + 1, i0) >= 0);
            if i0 > j + 2 {
                assert(gap(t, j + 2, i0) >= 0);
            }
        }
        if i0 == j + 2 {
            assert(link_to(u, i - 1) == Some(t[j].ptr()));
            if i + 1 < u.len() {
                assert(u[i + 1] == t[i0 + 1]);
            }
            assert(link_to(u, i + 1) == link_to(t, i0 + 1));
        } else {
            assert(post.word(y) == pre.word(y));
            assert(post.word(y + 8) == pre.word(y + 8));
            assert(post.word(y + 16) == pre.word(y + 16));
            assert(post.word(y + 24) == pre.word(y + 24));
            if i0 == j - 1 {
                assert(link_to(u, i + 1) == Some(t[j].ptr()));
            } else {
                if i + 1 < u.len() {
                    assert(u[i + 1] == t[i0 + 1]);
                }
                assert(link_to(u, i + 1) == link_to(t, i0 + 1));
            }
            if i > 0 {
                if i - 1 != j {
                    assert(u[i - 1] == t[i0 - 1]);
                }
            }
            assert(link_to(u, i - 1) == link_to(t, i0 - 1));
        }
    }
}

/// Fusing two blocks of a chain that touch gives a chain with one block in their place.
pub proof fn lemma_fuse(pre: &Segment, post: &Segment, t: Seq<Extent>, u: Seq<Extent>, j: int)
    requires
        chain(pre, t),
        post.wf(),
        is_fused(t, u, j),
        touching(t, j),
        t[j].ptr().merged(pre, post, Some(t[j].ptr())),
    ensures
        chain(post, u),
        same_outside(pre, post, t),
{
    lemma_chain_sized(pre, t);
    crate::extent::lemma_ordered_fused(t, u, j);
    assert forall|i: int| 0 <= i < u.len() implies #[trigger] node(post, u, i) by {
        lemma_fuse_node(pre, post, t, u, j, i);
    }
    assert(node(pre, t, j));
    assert(node(pre, t, j + 1));
    assert(t[j].ptr().touches_next(pre));
    if j + 2 < t.len() {
        assert(node(pre, t, j + 2));
    }
    assert forall|a: int|
        #![trigger post.byte(a)]
        pre.holds(a, 1) && !covered(t, a) implies post.byte(a) == pre.byte(a) by {
        assert(!t[j].covers(a));
        assert(!t[j + 1].covers(a));
        if j + 2 < t.len() {
            assert(!t[j + 2].covers(a));
        }
    }
}

} // verus!
