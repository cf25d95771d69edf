//! The free list: the free blocks of a segment, doubly linked through their
//! payloads in ascending order of address. Blocks that touch are fused when
//! one of them is inserted, so no two listed blocks are neighbours in memory.

use vstd::prelude::*;
use crate::segment::Segment;
use crate::block::{Block, BlockPtr, BLOCK_SPLIT_MIN_SIZE};
use crate::extent::{
    ascending, covered, first_fit, first_fit_from, fuse_if, fused, fuses_above, fuses_below,
    gap, joined, lemma_covered_fused, lemma_covered_insert, lemma_first_fit, lemma_fusing,
    lemma_is_fused, lemma_is_insert, lemma_is_remove, lemma_joined, lemma_overlaps, lemma_rank,
    lemma_rank_of_member, lemma_separated_ascending, lemma_separated_remove,
    overlaps, rank, rank_from, separated, settled, touching, Extent,
};
use crate::chain::{
    chain, lemma_chain_same, lemma_chain_sized, lemma_fuse, lemma_link_in, lemma_resize,
    lemma_unlink, link_to, linked_in, node, same_outside, unlinked,
};

verus! {

/// Nothing outside the extents of `s` and outside `e` differs between the two images.
pub open spec fn same_beside(pre: &Segment, post: &Segment, s: Seq<Extent>, e: Extent) -> bool {
    &&& post.spec_base() == pre.spec_base()
    &&& post.spec_limit() == pre.spec_limit()
    &&& post.spec_brk() == pre.spec_brk()
    &&& forall|a: int|
        #![trigger post.byte(a)]
        pre.holds(a, 1) && !covered(s, a) && !e.covers(a) ==> post.byte(a) == pre.byte(a)
}

/// The address lies in the header or the links of `e`, or of one of the
/// extents of `s` at the indices `k - 1`, `k` and `k + 1`: the blocks that
/// putting `e` in front of index `k` can touch.
pub open spec fn near(s: Seq<Extent>, k: int, e: Extent, a: int) -> bool {
    ||| e.heads(a)
    ||| 0 < k <= s.len() && s[k - 1].heads(a)
    ||| 0 <= k < s.len() && s[k].heads(a)
    ||| 0 <= k + 1 < s.len() && s[k + 1].heads(a)
}

/// The address lies in the header or the links of one of the extents of `t`
/// at the indices from `lo` to `hi`.
pub open spec fn among(t: Seq<Extent>, lo: int, hi: int, a: int) -> bool {
    exists|i: int| lo <= i <= hi && 0 <= i < t.len() && #[trigger] t[i].heads(a)
}

/// Nothing differs between the two images but the headers and links of `e`
/// and of the extents of `s` next to its place.
pub open spec fn same_but_near(pre: &Segment, post: &Segment, s: Seq<Extent>, e: Extent) -> bool {
    forall|a: int|
        #![trigger post.byte(a)]
        pre.holds(a, 1) && !near(s, rank(s, e.addr), e, a) ==> post.byte(a) == pre.byte(a)
}

/// Where joining `e` to `s` fuses it with the extent below, the header at `e`
/// is erased in the image; where it fuses it with the extent above, the
/// header of that extent is.
pub open spec fn swallowed(s: Seq<Extent>, e: Extent, post: &Segment) -> bool {
    &&& fuses_below(s, e) ==> e.ptr().erased(post)
    &&& fuses_above(s, e) ==> s[rank(s, e.addr)].ptr().erased(post)
}

/// The free list of a segment. The links themselves live in the segment; the
/// list keeps its two ends.
pub struct IntrusiveList {
    /// The listed block at the lowest address, if any block is listed.
    pub head: Option<BlockPtr>,
    /// The listed block at the highest address, if any block is listed.
    pub tail: Option<BlockPtr>,
    /// The extents of the listed blocks, in the order of the links.
    pub extents: Ghost<Seq<Extent>>,
}

impl View for IntrusiveList {
    type V = Seq<Extent>;

    /// The extents of the listed blocks, from the head to the tail.
    open spec fn view(&self) -> Seq<Extent> {
        self.extents@
    }
}

impl IntrusiveList {
    /// The segment holds the listed blocks as a chain from `head` to `tail`,
    /// ascending by address, and no two of them touch.
    pub open spec fn wf(&self, mem: &Segment) -> bool {
        &&& chain(mem, self@)
        &&& separated(self@)
        &&& self.head == link_to(self@, 0)
        &&& self.tail == link_to(self@, self@.len() - 1)
    }

    /// The empty list.
    pub fn new() -> (r: IntrusiveList)
        ensures
            r@.len() == 0,
            r.head is None,
            r.tail is None,
            forall|mem: &Segment| mem.wf() ==> #[trigger] r.wf(mem),
    {
        IntrusiveList { head: None, tail: None, extents: Ghost(Seq::empty()) }
    }

    /// The first listed block above `to_insert`, if there is one. It is an error
    /// if `to_insert` is itself on the list.
    pub fn find_higher_block(&self, mem: &Segment, to_insert: BlockPtr) -> (r: Result<
        Option<BlockPtr>,
        (),
    >)
        requires
            self.wf(mem),
        ensures
            ({
                let k = rank(self@, to_insert.addr as int);
                let found = k < self@.len() && self@[k].addr == to_insert.addr;
                &&& r is Err <==> found
                &&& r is Ok ==> r->Ok_0 == link_to(self@, k)
            }),
    {
        let ghost s = self@;
        let ghost a = to_insert.addr as int;
        let ghost mut i: int = 0;
        let mut ptr = self.head;
        proof {
            lemma_rank(s, a, 0);
        }
        loop
            invariant
                self.wf(mem),
                s == self@,
                a == to_insert.addr,
                0 <= i <= s.len(),
                ptr == link_to(s, i),
                rank(s, a) == rank_from(s, a, i),
            ensures
                0 <= i <= s.len(),
                i == rank(s, a),
                ptr == link_to(s, i),
            decreases s.len() - i,
        {
            match ptr {
                None => {
                    break ;
                },
                Some(block) => {
                    assert(node(mem, s, i));
                    if block.addr >= to_insert.addr {
                        break ;
                    }
                    ptr = block.as_ref(mem).next;
                    proof {
                        i = i + 1;
                    }
                },
            }
        }
        match ptr {
            Some(block) => {
                assert(node(mem, s, i));
                if block.addr == to_insert.addr {
                    Err(())
                } else {
                    Ok(Some(block))
                }
            },
            None => Ok(None),
        }
    }

    /// Links `to_insert` into the chain in front of `anchor`.
    fn insert_before(
        mem: &mut Segment,
        anchor: BlockPtr,
        to_insert: BlockPtr,
        Ghost(s): Ghost<Seq<Extent>>,
        Ghost(k): Ghost<int>,
    )
        requires
            chain(old(mem), s),
            0 <= k < s.len(),
            anchor == s[k].ptr(),
            to_insert.is_block(old(mem)),
            k > 0 ==> s[k - 1].end() <= to_insert.addr,
            to_insert.end(old(mem)) <= s[k].addr,
        ensures
            chain(final(mem), s.insert(k, to_insert.extent(old(mem)))),
            same_outside(old(mem), final(mem), s.insert(k, to_insert.extent(old(mem)))),
            forall|a: int|
                old(mem).holds(a, 1) && !near(s, k, to_insert.extent(old(mem)), a)
                    ==> #[trigger] final(mem).byte(a) == old(mem).byte(a),
    {
        let ghost e = to_insert.extent(mem);
        proof {
            assert(node(mem, s, k));
            if k > 0 {
                assert(node(mem, s, k - 1));
                assert(gap(s, k - 1, k) >= 0);
            }
        }
        let prev = anchor.as_ref(mem).prev;
        to_insert.set_prev(mem, prev);
        to_insert.set_next(mem, Some(anchor));
        anchor.set_prev(mem, Some(to_insert));
        if let Some(p) = prev {
            p.set_next(mem, Some(to_insert));
        }
        proof {
            assert(linked_in(old(mem), mem, s, k, e));
            lemma_is_insert(s, k, e);
            lemma_link_in(old(mem), mem, s, s.insert(k, e), k, e);
        }
    }

    /// Links `to_insert` into the chain behind `anchor`.
    fn insert_after(
        mem: &mut Segment,
        anchor: BlockPtr,
        to_insert: BlockPtr,
        Ghost(s): Ghost<Seq<Extent>>,
        Ghost(k): Ghost<int>,
    )
        requires
            chain(old(mem), s),
            0 < k <= s.len(),
            anchor == s[k - 1].ptr(),
            to_insert.is_block(old(mem)),
            s[k - 1].end() <= to_insert.addr,
            k < s.len() ==> to_insert.end(old(mem)) <= s[k].addr,
        ensures
            chain(final(mem), s.insert(k, to_insert.extent(old(mem)))),
            same_outside(old(mem), final(mem), s.insert(k, to_insert.extent(old(mem)))),
            forall|a: int|
                old(mem).holds(a, 1) && !near(s, k, to_insert.extent(old(mem)), a)
                    ==> #[trigger] final(mem).byte(a) == old(mem).byte(a),
    {
        let ghost e = to_insert.extent(mem);
        proof {
            assert(node(mem, s, k - 1));
            if k < s.len() {
                assert(node(mem, s, k));
                assert(gap(s, k - 1, k) >= 0);
            }
        }
        let next = anchor.as_ref(mem).next;
        to_insert.set_next(mem, next);
        to_insert.set_prev(mem, Some(anchor));
        anchor.set_next(mem, Some(to_insert));
        if let Some(n) = next {
            n.set_prev(mem, Some(to_insert));
        }
        proof {
            assert(linked_in(old(mem), mem, s, k, e));
            lemma_is_insert(s, k, e);
            lemma_link_in(old(mem), mem, s, s.insert(k, e), k, e);
        }
    }

    /// Makes `block` the head if nothing precedes it, and the tail if nothing follows it.
    fn update_ends(
        &mut self,
        mem: &Segment,
        block: BlockPtr,
        Ghost(t): Ghost<Seq<Extent>>,
        Ghost(j): Ghost<int>,
    )
        requires
            chain(mem, t),
            0 <= j < t.len(),
            block == t[j].ptr(),
            j > 0 ==> old(self).head == link_to(t, 0),
            j < t.len() - 1 ==> old(self).tail == link_to(t, t.len() - 1),
        ensures
            final(self).head == link_to(t, 0),
            final(self).tail == link_to(t, t.len() - 1),
            final(self).extents == old(self).extents,
    {
        proof {
            assert(node(mem, t, j));
        }
        let b = block.as_ref(mem);
        if b.prev.is_none() {
            self.head = Some(block);
        }
        if b.next.is_none() {
            self.tail = Some(block);
        }
    }

    /// Fuses `block` with the block that follows it on the list, if the two touch.
    fn maybe_merge_next(
        mem: &mut Segment,
        block: BlockPtr,
        Ghost(t): Ghost<Seq<Extent>>,
        Ghost(j): Ghost<int>,
    ) -> (r: Option<BlockPtr>)
        requires
            chain(old(mem), t),
            0 <= j < t.len(),
            block == t[j].ptr(),
        ensures
            chain(final(mem), fuse_if(t, j)),
            same_outside(old(mem), final(mem), t),
            r == if touching(t, j) { Some(block) } else { None::<BlockPtr> },
            touching(t, j) ==> t[j + 1].ptr().erased(final(mem)),
            forall|a: int|
                old(mem).holds(a, 1) && !among(t, j, j + 2, a) ==> #[trigger] final(mem).byte(a)
                    == old(mem).byte(a),
            forall|a: int|
                t[j].addr + 32 <= a < t[j].end() ==> #[trigger] final(mem).byte(a) == old(
                    mem,
                ).byte(a),
            forall|a: int|
                t[j].addr + 32 <= a && a + 8 <= t[j].end() ==> #[trigger] final(mem).word(a)
                    == old(mem).word(a),
    {
        proof {
            assert(node(mem, t, j));
            if j + 1 < t.len() {
                assert(node(mem, t, j + 1));
                assert(gap(t, j, j + 1) >= 0);
            }
            if j + 2 < t.len() {
                assert(node(mem, t, j + 2));
                assert(gap(t, j + 1, j + 2) >= 0);
            }
        }
        let r = block.maybe_merge_next(mem);
        proof {
            if touching(t, j) {
                lemma_is_fused(t, j);
                lemma_fuse(old(mem), mem, t, fused(t, j), j);
            } else {
                lemma_chain_same(old(mem), mem, t);
            }
            assert forall|a: int|
                old(mem).holds(a, 1) && !among(t, j, j + 2, a) implies #[trigger] mem.byte(a)
                == old(mem).byte(a) by {
                assert(!t[j].heads(a));
                if j + 1 < t.len() {
                    assert(!t[j + 1].heads(a));
                }
                if j + 2 < t.len() {
                    assert(!t[j + 2].heads(a));
                }
            }
        }
        r
    }

    /// Fuses the block that precedes `block` on the list with it, if the two touch.
    fn maybe_merge_prev(
        mem: &mut Segment,
        block: BlockPtr,
        Ghost(t): Ghost<Seq<Extent>>,
        Ghost(j): Ghost<int>,
    ) -> (r: Option<BlockPtr>)
        requires
            chain(old(mem), t),
            0 <= j < t.len(),
            block == t[j].ptr(),
        ensures
            chain(final(mem), fuse_if(t, j - 1)),
            same_outside(old(mem), final(mem), t),
            r == if touching(t, j - 1) { Some(t[j - 1].ptr()) } else { None::<BlockPtr> },
            touching(t, j - 1) ==> block.erased(final(mem)),
            forall|a: int|
                old(mem).holds(a, 1) && !among(t, j - 1, j + 1, a) ==> #[trigger] final(mem).byte(
                    a,
                ) == old(mem).byte(a),
    {
        proof {
            assert(node(mem, t, j));
        }
        match block.as_ref(mem).prev {
            Some(p) => IntrusiveList::maybe_merge_next(mem, p, Ghost(t), Ghost(j - 1)),
            None => {
                proof {
                    lemma_chain_same(old(mem), mem, t);
                }
                None
            },
        }
    }

    /// Fuses `block` with the listed blocks that touch it, below and above,
    /// and returns the block that it has become part of.
    fn maybe_merge_adjacent(
        mem: &mut Segment,
        block: BlockPtr,
        Ghost(t): Ghost<Seq<Extent>>,
        Ghost(k): Ghost<int>,
    ) -> (r: BlockPtr)
        requires
            chain(old(mem), t),
            0 <= k < t.len(),
            block == t[k].ptr(),
        ensures
            chain(final(mem), fuse_if(fuse_if(t, k - 1), settled(t, k))),
            same_outside(old(mem), final(mem), t),
            r == t[settled(t, k)].ptr(),
            touching(t, k - 1) ==> t[k].ptr().erased(final(mem)),
            touching(fuse_if(t, k - 1), settled(t, k)) ==> fuse_if(t, k - 1)[settled(t, k)
                + 1].ptr().erased(final(mem)),
            forall|a: int|
                old(mem).holds(a, 1) && !among(t, k - 1, k + 2, a) ==> #[trigger] final(mem).byte(
                    a,
                ) == old(mem).byte(a),
    {
        let ghost t1 = fuse_if(t, k - 1);
        let ghost j = settled(t, k);
        let ghost given = block;
        let block = match IntrusiveList::maybe_merge_prev(mem, block, Ghost(t), Ghost(k)) {
            Some(b) => b,
            None => block,
        };
        let ghost m1 = *mem;
        proof {
            assert(node(old(mem), t, k));
            if touching(t, k - 1) {
                assert(node(old(mem), t, k - 1));
                lemma_is_fused(t, k - 1);
                lemma_covered_fused(t, t1, k - 1);
            }
        }
        let r = match IntrusiveList::maybe_merge_next(mem, block, Ghost(t1), Ghost(j)) {
            Some(b) => b,
            None => block,
        };
        proof {
            if touching(t, k - 1) {
                // the header that was swallowed first lies in the payload of
                // the fused block, past its links
                let x = given.addr as int;
                assert forall|a: int| x <= a < x + 16 implies #[trigger] mem.byte(a) == 0 by {
                    assert(m1.byte(a) == 0);
                }
                assert(mem.word(x + 8) == m1.word(x + 8));
            }
            assert forall|a: int|
                old(mem).holds(a, 1) && !among(t, k - 1, k + 2, a) implies #[trigger] mem.byte(a)
                == old(mem).byte(a) by {
                if among(t, k - 1, k + 1, a) {
                    let i = choose|i: int|
                        k - 1 <= i <= k + 1 && 0 <= i < t.len() && #[trigger] t[i].heads(a);
                    assert(t[i].heads(a));
                }
                if among(t1, j, j + 2, a) {
                    let i = choose|i: int|
                        j <= i <= j + 2 && 0 <= i < t1.len() && #[trigger] t1[i].heads(a);
                    if touching(t, k - 1) {
                        if i == j {
                            assert(t[k - 1].heads(a));
                        } else {
                            assert(t1[i] == t[i + 1]);
                            assert(t[i + 1].heads(a));
                        }
                    } else {
                        assert(t[i].heads(a));
                    }
                }
                assert(mem.byte(a) == m1.byte(a));
            }
            assert forall|a: int| #![trigger mem.byte(a)] old(mem).holds(a, 1) && !covered(
                t,
                a,
            ) implies mem.byte(a) == old(mem).byte(a) by {
                assert(!covered(t1, a));
                assert(mem.byte(a) == m1.byte(a));
            }
        }
        r
    }

    /// The place of a block that shares no byte with a listed block: the
    /// first listed block above it, if there is one. It is an error if the
    /// block is on the list already or shares a byte with a block that is.
    pub fn locate(&self, mem: &Segment, block: BlockPtr) -> (r: Result<Option<BlockPtr>, ()>)
        requires
            self.wf(mem),
            block.is_block(mem),
        ensures
            r is Err <==> overlaps(self@, block.extent(mem)),
            r is Ok ==> r->Ok_0 == link_to(self@, rank(self@, block.addr as int)),
    {
        let ghost s = self@;
        let ghost e = block.extent(mem);
        let ghost k = rank(s, e.addr);
        proof {
            lemma_rank(s, e.addr, 0);
            lemma_chain_sized(mem, s);
            lemma_overlaps(s, e);
            if k > 0 {
                assert(node(mem, s, k - 1));
            }
            if k < s.len() {
                assert(node(mem, s, k));
            }
            if s.len() > 0 {
                assert(node(mem, s, s.len() - 1));
            }
        }
        let end = block.next_potential_block(mem);
        match self.find_higher_block(mem, block) {
            Err(_) => {
                proof {
                    assert(s[k].meets(e));
                }
                Err(())
            },
            Ok(Some(higher)) => {
                if end > higher.addr {
                    return Err(());
                }
                if let Some(lower) = higher.as_ref(mem).prev {
                    if lower.next_potential_block(mem) > block.addr {
                        return Err(());
                    }
                }
                Ok(Some(higher))
            },
            Ok(None) => {
                if let Some(tail) = self.tail {
                    if tail.next_potential_block(mem) > block.addr {
                        return Err(());
                    }
                }
                Ok(None)
            },
        }
    }

    /// On a well-formed list every block links to the next listed block, the
    /// addresses ascend strictly, and no block ends where the next one
    /// starts.
    pub proof fn lemma_order(&self, mem: &Segment)
        requires
            self.wf(mem),
        ensures
            separated(self@),
            ascending(self@),
            forall|i: int|
                0 <= i < self@.len() ==> self@[i].ptr().block(mem).next == #[trigger] link_to(
                    self@,
                    i + 1,
                ),
            forall|i: int|
                0 <= i && i + 1 < self@.len() ==> #[trigger] self@[i].ptr().end(mem) < self@[i
                    + 1].addr,
    {
        let s = self@;
        lemma_chain_sized(mem, s);
        lemma_separated_ascending(s);
        assert forall|i: int| 0 <= i < s.len() implies s[i].ptr().block(mem).next
            == #[trigger] link_to(s, i + 1) by {
            assert(node(mem, s, i));
        }
        assert forall|i: int| 0 <= i && i + 1 < s.len() implies #[trigger] s[i].ptr().end(mem)
            < s[i + 1].addr by {
            assert(node(mem, s, i));
            assert(gap(s, i, i + 1) > 0);
        }
    }

    /// Puts a block on the list, at its place by address, and fuses it with
    /// the listed blocks that touch it. Fails, and changes nothing, if the
    /// block is on the list already or shares a byte with a block that is.
    /// Afterwards the list ascends by address and no two listed blocks touch.
    pub fn insert(&mut self, mem: &mut Segment, to_insert: BlockPtr) -> (r: Result<(), ()>)
        requires
            old(self).wf(old(mem)),
            to_insert.is_block(old(mem)),
        ensures
            final(self).wf(final(mem)),
            separated(final(self)@),
            ascending(final(self)@),
            r is Err <==> overlaps(old(self)@, to_insert.extent(old(mem))),
            r is Err ==> {
                &&& final(self)@ == old(self)@
                &&& final(mem).same(old(mem))
            },
            r is Ok ==> {
                &&& final(self)@ == joined(old(self)@, to_insert.extent(old(mem)))
                &&& same_beside(old(mem), final(mem), old(self)@, to_insert.extent(old(mem)))
                &&& same_but_near(old(mem), final(mem), old(self)@, to_insert.extent(old(mem)))
                &&& swallowed(old(self)@, to_insert.extent(old(mem)), final(mem))
            },
    {
        let r = self.join(mem, to_insert);
        proof {
            self.lemma_order(mem);
        }
        r
    }

    /// Links the block in at its place and fuses it with its neighbours.
    fn join(&mut self, mem: &mut Segment, to_insert: BlockPtr) -> (r: Result<(), ()>)
        requires
            old(self).wf(old(mem)),
            to_insert.is_block(old(mem)),
        ensures
            final(self).wf(final(mem)),
            r is Err <==> overlaps(old(self)@, to_insert.extent(old(mem))),
            r is Err ==> {
                &&& final(self)@ == old(self)@
                &&& final(mem).same(old(mem))
            },
            r is Ok ==> {
                &&& final(self)@ == joined(old(self)@, to_insert.extent(old(mem)))
                &&& same_beside(old(mem), final(mem), old(self)@, to_insert.extent(old(mem)))
                &&& same_but_near(old(mem), final(mem), old(self)@, to_insert.extent(old(mem)))
                &&& swallowed(old(self)@, to_insert.extent(old(mem)), final(mem))
            },
    {
        let ghost s = self@;
        let ghost e = to_insert.extent(mem);
        let ghost k = rank(s, e.addr);
        proof {
            lemma_rank(s, e.addr, 0);
            lemma_chain_sized(mem, s);
            lemma_overlaps(s, e);
            lemma_fusing(s, e);
            if k > 0 {
                assert(node(mem, s, k - 1));
            }
            if k < s.len() {
                assert(node(mem, s, k));
            }
        }
        let higher = match self.locate(mem, to_insert) {
            Ok(h) => h,
            Err(_) => {
                return Err(());
            },
        };
        match higher {
            Some(h) => {
                IntrusiveList::insert_before(mem, h, to_insert, Ghost(s), Ghost(k));
            },
            None => match self.tail {
                Some(tail) => {
                    IntrusiveList::insert_after(mem, tail, to_insert, Ghost(s), Ghost(k));
                },
                None => {
                    to_insert.set_next(mem, None);
                    to_insert.set_prev(mem, None);
                    self.head = Some(to_insert);
                    self.tail = Some(to_insert);
                    self.extents = Ghost(s.insert(0, e));
                    proof {
                        let t = s.insert(0, e);
                        assert(linked_in(old(mem), mem, s, 0, e));
                        lemma_is_insert(s, 0, e);
                        lemma_link_in(old(mem), mem, s, t, 0, e);
                        lemma_joined(s, e);
                        lemma_covered_insert(s, t, 0, e);
                    }
                    return Ok(());
                },
            },
        }
        let ghost t = s.insert(k, e);
        let ghost m1 = *mem;
        proof {
            lemma_is_insert(s, k, e);
            lemma_joined(s, e);
            lemma_covered_insert(s, t, k, e);
        }
        let inserted = IntrusiveList::maybe_merge_adjacent(mem, to_insert, Ghost(t), Ghost(k));
        let ghost j = settled(t, k);
        let ghost t2 = fuse_if(fuse_if(t, k - 1), j);
        proof {
            if touching(t, k - 1) {
                lemma_is_fused(t, k - 1);
            }
            if touching(fuse_if(t, k - 1), j) {
                lemma_is_fused(fuse_if(t, k - 1), j);
            }
            assert(t2[j].addr == t[j].addr);
        }
        self.update_ends(mem, inserted, Ghost(t2), Ghost(j));
        self.extents = Ghost(t2);
        proof {
            assert forall|a: int|
                #![trigger mem.byte(a)]
                old(mem).holds(a, 1) && !near(s, k, e, a) implies mem.byte(a) == old(mem).byte(
                a,
            ) by {
                if among(t, k - 1, k + 2, a) {
                    let i = choose|i: int|
                        k - 1 <= i <= k + 2 && 0 <= i < t.len() && #[trigger] t[i].heads(a);
                    if i < k {
                        assert(t[i] == s[i]);
                    } else if i > k {
                        assert(t[i] == s[i - 1]);
                    }
                }
                assert(mem.byte(a) == m1.byte(a));
            }
            assert forall|a: int| #![trigger mem.byte(a)] old(mem).holds(a, 1) && !covered(s, a)
                && !e.covers(a) implies mem.byte(a) == old(mem).byte(a) by {
                assert(!covered(t, a));
                assert(mem.byte(a) == m1.byte(a));
            }
        }
        Ok(())
    }

    /// Takes `elem`, a listed block, off the list and clears its links.
    pub fn remove(&mut self, mem: &mut Segment, elem: BlockPtr) -> (r: BlockPtr)
        requires
            old(self).wf(old(mem)),
            rank(old(self)@, elem.addr as int) < old(self)@.len(),
            old(self)@[rank(old(self)@, elem.addr as int)].addr == elem.addr,
        ensures
            r == elem,
            final(self).wf(final(mem)),
            final(self)@ == old(self)@.remove(rank(old(self)@, elem.addr as int)),
            elem.block(final(mem)) == Block::spec_new(elem.block(old(mem)).size),
            unlinked(old(mem), final(mem), old(self)@, rank(old(self)@, elem.addr as int)),
            same_outside(old(mem), final(mem), old(self)@),
    {
        let ghost s = self@;
        let ghost k = rank(s, elem.addr as int);
        let ghost t = s.remove(k);
        proof {
            lemma_rank(s, elem.addr as int, 0);
            lemma_is_remove(s, k);
            lemma_chain_sized(mem, s);
            lemma_separated_remove(s, t, k);
            assert(node(mem, s, k));
            assert(node(mem, s, 0));
            assert(node(mem, s, s.len() - 1));
            if k > 0 {
                assert(gap(s, 0, k) > 0);
            }
            if k + 1 < s.len() {
                assert(gap(s, k, s.len() - 1) > 0);
            }
            if k > 0 {
                assert(node(mem, s, k - 1));
                assert(gap(s, k - 1, k) >= 0);
                assert(t[0] == s[0]);
            }
            if k + 1 < s.len() {
                assert(node(mem, s, k + 1));
                assert(gap(s, k, k + 1) >= 0);
                assert(t[t.len() - 1] == s[s.len() - 1]);
                assert(t[k] == s[k + 1]);
            }
            if k > 0 && k + 1 == s.len() {
                assert(t[k - 1] == s[k - 1]);
            }
        }
        let e = elem.as_ref(mem);
        if let Some(head) = self.head {
            if elem.addr == head.addr {
                self.head = e.next;
            }
        }
        if let Some(tail) = self.tail {
            if elem.addr == tail.addr {
                self.tail = e.prev;
            }
        }
        if let Some(prev) = e.prev {
            prev.set_next(mem, e.next);
        }
        if let Some(next) = e.next {
            next.set_prev(mem, e.prev);
        }
        elem.set_next(mem, None);
        elem.set_prev(mem, None);
        self.extents = Ghost(t);
        proof {
            assert(unlinked(old(mem), mem, s, k));
            lemma_unlink(old(mem), mem, s, t, k);
        }
        elem
    }

    /// Takes the first listed block that serves a request for `size` payload
    /// bytes off the list: the first whose payload has that size or is large
    /// enough to be split afterwards.
    pub fn pop(&mut self, mem: &mut Segment, size: usize) -> (r: Option<BlockPtr>)
        requires
            old(self).wf(old(mem)),
        ensures
            final(self).wf(final(mem)),
            ({
                let k = first_fit(old(self)@, size as int);
                if k < old(self)@.len() {
                    &&& r == Some(old(self)@[k].ptr())
                    &&& final(self)@ == old(self)@.remove(k)
                    &&& r->0.block(final(mem)) == Block::spec_new(old(self)@[k].size as usize)
                    &&& unlinked(old(mem), final(mem), old(self)@, k)
                    &&& same_outside(old(mem), final(mem), old(self)@)
                } else {
                    &&& r is None
                    &&& final(self)@ == old(self)@
                    &&& final(mem).same(old(mem))
                }
            }),
    {
        let ghost s = self@;
        let ghost mut i: int = 0;
        let mut ptr = self.head;
        proof {
            lemma_first_fit(s, size as int, 0);
        }
        loop
            invariant
                self.wf(mem),
                s == self@,
                0 <= i <= s.len(),
                ptr == link_to(s, i),
                first_fit(s, size as int) == first_fit_from(s, size as int, i),
            ensures
                i == first_fit(s, size as int),
                0 <= i <= s.len(),
                ptr == link_to(s, i),
                self.wf(mem),
                s == self@,
            decreases s.len() - i,
        {
            match ptr {
                None => {
                    break ;
                },
                Some(block) => {
                    assert(node(mem, s, i));
                    let have = block.size(mem);
                    if have == size {
                        break ;
                    }
                    if have >= BLOCK_SPLIT_MIN_SIZE && have - BLOCK_SPLIT_MIN_SIZE >= size {
                        break ;
                    }
                    ptr = block.as_ref(mem).next;
                    proof {
                        i = i + 1;
                    }
                },
            }
        }
        match ptr {
            None => None,
            Some(block) => {
                proof {
                    assert(node(mem, s, i));
                    lemma_chain_sized(mem, s);
                    lemma_rank_of_member(s, i);
                }
                Some(self.remove(mem, block))
            },
        }
    }

    /// Cuts `n` bytes off the end of the payload of the last listed block.
    pub fn shorten_tail(&mut self, mem: &mut Segment, n: usize)
        requires
            old(self).wf(old(mem)),
            old(self)@.len() > 0,
            n % 16 == 0,
            n + 16 <= old(self)@.last().size,
        ensures
            final(self).wf(final(mem)),
            final(self)@ == old(self)@.update(
                old(self)@.len() - 1,
                Extent { addr: old(self)@.last().addr, size: old(self)@.last().size - n },
            ),
            final(mem).same_except(old(mem), old(self)@.last().addr, old(self)@.last().addr + 8),
    {
        let ghost s = self@;
        let ghost j = s.len() - 1;
        proof {
            assert(node(mem, s, j));
        }
        match self.tail {
            Some(t) => {
                let size = t.size(mem);
                t.set_size(mem, size - n);
                self.extents = Ghost(s.update(j, Extent { addr: s[j].addr, size: s[j].size - n }));
                proof {
                    lemma_resize(old(mem), mem, s, j, s[j].size - n);
                    let u = self@;
                    assert forall|i: int, l: int| 0 <= i < l < u.len() implies #[trigger] gap(
                        u,
                        i,
                        l,
                    ) > 0 by {
                        assert(gap(s, i, l) > 0);
                    }
                }
            },
            None => {},
        }
    }

    /// The listed blocks from the head to the tail, each with what the segment holds at it.
    pub fn debug(&self, mem: &Segment) -> (out: Vec<(BlockPtr, Block)>)
        requires
            self.wf(mem),
        ensures
            out@.len() == self@.len(),
            forall|i: int|
                0 <= i < out@.len() ==> (#[trigger] out@[i]).0 == self@[i].ptr() && out@[i].1
                    == self@[i].ptr().block(mem),
    {
        let ghost s = self@;
        let ghost mut i: int = 0;
        let mut out: Vec<(BlockPtr, Block)> = Vec::new();
        let mut ptr = self.head;
        loop
            invariant
                self.wf(mem),
                s == self@,
                0 <= i <= s.len(),
                ptr == link_to(s, i),
                out@.len() == i,
                forall|j: int|
                    0 <= j < i ==> (#[trigger] out@[j]).0 == s[j].ptr() && out@[j].1
                        == s[j].ptr().block(mem),
            ensures
                i == s.len(),
                out@.len() == i,
                forall|j: int|
                    0 <= j < i ==> (#[trigger] out@[j]).0 == s[j].ptr() && out@[j].1
                        == s[j].ptr().block(mem),
            decreases s.len() - i,
        {
            match ptr {
                None => {
                    break ;
                },
                Some(block) => {
                    assert(node(mem, s, i));
                    let b = block.as_ref(mem);
                    out.push((block, b));
                    ptr = b.next;
                    proof {
                        i = i + 1;
                    }
                },
            }
        }
        out
    }
}

} // verus!
