//! Extents: where blocks lie in the segment, and the sequences of extents by
//! which the free list is described. Everything here is mathematics; nothing
//! in this file runs.

use vstd::prelude::*;
use crate::segment::Segment;
use crate::block::{BlockPtr, BLOCK_META_SIZE, BLOCK_MIN_REGION_SIZE, BLOCK_SPLIT_MIN_SIZE};

verus! {

/// The place of a block in the segment: where its header starts and how many
/// payload bytes follow the header.
pub ghost struct Extent {
    /// Address of the header.
    pub addr: int,
    /// Bytes of payload behind the header.
    pub size: int,
}

impl Extent {
    /// Address just past the payload.
    pub open spec fn end(self) -> int {
        self.addr + BLOCK_META_SIZE + self.size
    }

    /// The address lies in the header or the payload.
    pub open spec fn covers(self, a: int) -> bool {
        self.addr <= a < self.end()
    }

    /// The address lies in the header or in the two links behind it.
    pub open spec fn heads(self, a: int) -> bool {
        self.addr <= a < self.addr + 32
    }

    /// The two extents share a byte.
    pub open spec fn meets(self, other: Extent) -> bool {
        self.addr < other.end() && other.addr < self.end()
    }

    /// The block at the start of the extent.
    pub open spec fn ptr(self) -> BlockPtr {
        BlockPtr { addr: self.addr as usize }
    }

    /// The extent that reaches from the start of this one to the end of
    /// `other`, which starts where this one ends.
    pub open spec fn with(self, other: Extent) -> Extent {
        Extent { addr: self.addr, size: self.size + BLOCK_META_SIZE + other.size }
    }
}

impl BlockPtr {
    /// The extent that the header at this address claims.
    pub open spec fn extent(self, mem: &Segment) -> Extent {
        Extent { addr: self.addr as int, size: self.block(mem).size as int }
    }
}

/// Bytes between the end of the extent at `i` and the start of the one at `j`.
pub open spec fn gap(s: Seq<Extent>, i: int, j: int) -> int {
    s[j].addr - s[i].end()
}

/// Every extent ends at or before the start of each later one.
pub open spec fn ordered(s: Seq<Extent>) -> bool {
    forall|i: int, j: int| 0 <= i < j < s.len() ==> #[trigger] gap(s, i, j) >= 0
}

/// Every extent ends strictly before the start of each later one: the
/// sequence ascends by address and no two of its extents touch.
pub open spec fn separated(s: Seq<Extent>) -> bool {
    forall|i: int, j: int| 0 <= i < j < s.len() ==> #[trigger] gap(s, i, j) > 0
}

/// Every extent starts strictly below each later one.
pub open spec fn ascending(s: Seq<Extent>) -> bool {
    forall|i: int, j: int| 0 <= i < j < s.len() ==> (#[trigger] s[i]).addr < (#[trigger] s[j]).addr
}

/// No extent has a negative size.
pub open spec fn sized(s: Seq<Extent>) -> bool {
    forall|i: int| 0 <= i < s.len() ==> (#[trigger] s[i]).size >= 0
}

/// Some extent of the sequence covers the address.
pub open spec fn covered(s: Seq<Extent>, a: int) -> bool {
    exists|i: int| 0 <= i < s.len() && #[trigger] s[i].covers(a)
}

/// Some extent of the sequence shares a byte with `e`.
pub open spec fn overlaps(s: Seq<Extent>, e: Extent) -> bool {
    exists|i: int| 0 <= i < s.len() && #[trigger] s[i].meets(e)
}

/// First index from `i` on whose extent starts at or above `a`; the length if there is none.
pub open spec fn rank_from(s: Seq<Extent>, a: int, i: int) -> int
    decreases s.len() - i,
{
    if i < 0 || i >= s.len() || s[i].addr >= a {
        i
    } else {
        rank_from(s, a, i + 1)
    }
}

/// How many extents of an ascending sequence start below `a`.
pub open spec fn rank(s: Seq<Extent>, a: int) -> int {
    rank_from(s, a, 0)
}

/// A block of `size` payload bytes serves a request for `req`: it has that
/// very size, or it is large enough that splitting it pays.
pub open spec fn serves(size: int, req: int) -> bool {
    size == req || size >= req + BLOCK_SPLIT_MIN_SIZE
}

/// First index from `i` on whose extent serves `req`; the length if there is none.
pub open spec fn first_fit_from(s: Seq<Extent>, req: int, i: int) -> int
    decreases s.len() - i,
{
    if i < 0 || i >= s.len() || serves(s[i].size, req) {
        i
    } else {
        first_fit_from(s, req, i + 1)
    }
}

/// Index of the first extent that serves `req`; the length if there is none.
pub open spec fn first_fit(s: Seq<Extent>, req: int) -> int {
    first_fit_from(s, req, 0)
}

/// The extent that precedes `e` by address ends where `e` starts.
pub open spec fn fuses_below(s: Seq<Extent>, e: Extent) -> bool {
    let k = rank(s, e.addr);
    k > 0 && s[k - 1].end() == e.addr
}

/// The extent that follows `e` by address starts where `e` ends.
pub open spec fn fuses_above(s: Seq<Extent>, e: Extent) -> bool {
    let k = rank(s, e.addr);
    k < s.len() && e.end() == s[k].addr
}

/// The sequence after `e` has taken its place by address and has been fused
/// with the extent that ends where it starts and with the one that starts
/// where it ends.
pub open spec fn joined(s: Seq<Extent>, e: Extent) -> Seq<Extent> {
    let k = rank(s, e.addr);
    let low = fuses_below(s, e);
    let high = fuses_above(s, e);
    if low && high {
        s.remove(k).update(k - 1, s[k - 1].with(e).with(s[k]))
    } else if low {
        s.update(k - 1, s[k - 1].with(e))
    } else if high {
        s.update(k, e.with(s[k]))
    } else {
        s.insert(k, e)
    }
}

/// The extents at `j` and `j + 1` touch.
pub open spec fn touching(t: Seq<Extent>, j: int) -> bool {
    0 <= j && j + 1 < t.len() && t[j].end() == t[j + 1].addr
}

/// The sequence with the extents at `j` and `j + 1` made one.
pub open spec fn fused(t: Seq<Extent>, j: int) -> Seq<Extent> {
    t.remove(j + 1).update(j, t[j].with(t[j + 1]))
}

/// The sequence with the extents at `j` and `j + 1` made one if they touch.
pub open spec fn fuse_if(t: Seq<Extent>, j: int) -> Seq<Extent> {
    if touching(t, j) {
        fused(t, j)
    } else {
        t
    }
}

/// Index at which the extent at `k` stands once it has been fused with the
/// extent below it, where the two touch.
pub open spec fn settled(t: Seq<Extent>, k: int) -> int {
    if touching(t, k - 1) {
        k - 1
    } else {
        k
    }
}

/// `t` is `s` with `e` put in at index `k`.
pub open spec fn is_insert(s: Seq<Extent>, t: Seq<Extent>, k: int, e: Extent) -> bool {
    &&& 0 <= k <= s.len()
    &&& t.len() == s.len() + 1
    &&& t[k] == e
    &&& forall|i: int| 0 <= i < k ==> #[trigger] t[i] == s[i]
    &&& forall|i: int| k < i < t.len() ==> #[trigger] t[i] == s[i - 1]
}

/// `t` is `s` without the extent at index `k`.
pub open spec fn is_remove(s: Seq<Extent>, t: Seq<Extent>, k: int) -> bool {
    &&& 0 <= k < s.len()
    &&& t.len() == s.len() - 1
    &&& forall|i: int| 0 <= i < k ==> #[trigger] t[i] == s[i]
    &&& forall|i: int| k <= i < t.len() ==> #[trigger] t[i] == s[i + 1]
}

/// `u` is `t` with the extents at `j` and `j + 1` made one.
pub open spec fn is_fused(t: Seq<Extent>, u: Seq<Extent>, j: int) -> bool {
    &&& 0 <= j
    &&& j + 1 < t.len()
    &&& u.len() == t.len() - 1
    &&& u[j] == t[j].with(t[j + 1])
    &&& forall|i: int| 0 <= i < j ==> #[trigger] u[i] == t[i]
    &&& forall|i: int| j < i < u.len() ==> #[trigger] u[i] == t[i + 1]
}

/// `Seq::insert` puts the new extent at `k` and shifts the later ones up.
pub proof fn lemma_is_insert(s: Seq<Extent>, k: int, e: Extent)
    requires
        0 <= k <= s.len(),
    ensures
        is_insert(s, s.insert(k, e), k, e),
{
    let t = s.insert(k, e);
    s.insert_ensures(k, e);
    assert forall|i: int| k < i < t.len() implies #[trigger] t[i] == s[i - 1] by {
        assert(t[(i - 1) + 1] == s[i - 1]);
    }
}

/// `Seq::remove` drops the extent at `k` and shifts the later ones down.
pub proof fn lemma_is_remove(s: Seq<Extent>, k: int)
    requires
        0 <= k < s.len(),
    ensures
        is_remove(s, s.remove(k), k),
{
    s.remove_ensures(k);
}

/// `fused` puts one extent in the place of two and shifts the later ones down.
pub proof fn lemma_is_fused(t: Seq<Extent>, j: int)
    requires
        0 <= j,
        j + 1 < t.len(),
    ensures
        is_fused(t, fused(t, j), j),
{
    t.remove_ensures(j + 1);
}

/// Below the rank every extent starts below `a`; at the rank, none does.
pub proof fn lemma_rank(s: Seq<Extent>, a: int, i: int)
    requires
        0 <= i <= s.len(),
    ensures
        i <= rank_from(s, a, i) <= s.len(),
        forall|j: int| i <= j < rank_from(s, a, i) ==> (#[trigger] s[j]).addr < a,
        rank_from(s, a, i) < s.len() ==> s[rank_from(s, a, i)].addr >= a,
    decreases s.len() - i,
{
    if i < s.len() && s[i].addr < a {
        lemma_rank(s, a, i + 1);
    }
}

/// Below the first fit no extent serves the request; at the first fit, one does.
pub proof fn lemma_first_fit(s: Seq<Extent>, req: int, i: int)
    requires
        0 <= i <= s.len(),
    ensures
        i <= first_fit_from(s, req, i) <= s.len(),
        forall|j: int| i <= j < first_fit_from(s, req, i) ==> !serves((#[trigger] s[j]).size, req),
        first_fit_from(s, req, i) < s.len() ==> serves(s[first_fit_from(s, req, i)].size, req),
    decreases s.len() - i,
{
    if i < s.len() && !serves(s[i].size, req) {
        lemma_first_fit(s, req, i + 1);
    }
}

/// A separated sequence ascends strictly by address.
pub proof fn lemma_separated_ascending(s: Seq<Extent>)
    requires
        separated(s),
        sized(s),
    ensures
        ascending(s),
{
    assert forall|i: int, j: int| 0 <= i < j < s.len() implies (#[trigger] s[i]).addr < (
    #[trigger] s[j]).addr by {
        assert(gap(s, i, j) > 0);
    }
}

/// In an ascending sequence an extent stands at the rank of its own address.
pub proof fn lemma_rank_of_member(s: Seq<Extent>, k: int)
    requires
        ordered(s),
        sized(s),
        0 <= k < s.len(),
    ensures
        rank(s, s[k].addr) == k,
{
    lemma_rank(s, s[k].addr, 0);
    let r = rank(s, s[k].addr);
    if r < k {
        assert(gap(s, r, k) >= 0);
    }
}

/// In an ascending sequence only the two neighbours by address can share a byte with an extent.
pub proof fn lemma_overlaps(s: Seq<Extent>, e: Extent)
    requires
        ordered(s),
        sized(s),
        e.size >= 0,
    ensures
        ({
            let k = rank(s, e.addr);
            overlaps(s, e) <==> (k > 0 && s[k - 1].end() > e.addr) || (k < s.len() && e.end()
                > s[k].addr)
        }),
{
    lemma_rank(s, e.addr, 0);
    let k = rank(s, e.addr);
    if overlaps(s, e) {
        let i = choose|i: int| 0 <= i < s.len() && #[trigger] s[i].meets(e);
        if i < k - 1 {
            assert(gap(s, i, k - 1) >= 0);
        }
        if i > k {
            assert(gap(s, k, i) >= 0);
        }
    }
    if k > 0 && s[k - 1].end() > e.addr {
        assert(s[k - 1].meets(e));
    }
    if k < s.len() && e.end() > s[k].addr {
        assert(s[k].meets(e));
    }
}

/// An extent put into a sequence covers what it covers itself, and nothing else is added.
pub proof fn lemma_covered_insert(s: Seq<Extent>, t: Seq<Extent>, k: int, e: Extent)
    requires
        is_insert(s, t, k, e),
    ensures
        forall|a: int| #[trigger] covered(t, a) <==> covered(s, a) || e.covers(a),
{
    assert forall|a: int| #[trigger] covered(t, a) <==> covered(s, a) || e.covers(a) by {
        if covered(t, a) {
            let i = choose|i: int| 0 <= i < t.len() && #[trigger] t[i].covers(a);
            if i < k {
                assert(t[i] == s[i]);
                assert(s[i].covers(a));
            } else if i > k {
                assert(t[i] == s[i - 1]);
                assert(s[i - 1].covers(a));
            }
        }
        if covered(s, a) {
            let i = choose|i: int| 0 <= i < s.len() && #[trigger] s[i].covers(a);
            if i < k {
                assert(t[i] == s[i]);
                assert(t[i].covers(a));
            } else {
                assert(t[i + 1] == s[i]);
                assert(t[i + 1].covers(a));
            }
        }
        if e.covers(a) {
            assert(t[k].covers(a));
        }
    }
}

/// Two extents that touch cover, made one, what they covered apart.
pub proof fn lemma_covered_fused(t: Seq<Extent>, u: Seq<Extent>, j: int)
    requires
        is_fused(t, u, j),
        touching(t, j),
        t[j].size >= 0,
        t[j + 1].size >= 0,
    ensures
        forall|a: int| #[trigger] covered(u, a) <==> covered(t, a),
{
    assert forall|a: int| #[trigger] covered(u, a) <==> covered(t, a) by {
        if covered(u, a) {
            let i = choose|i: int| 0 <= i < u.len() && #[trigger] u[i].covers(a);
            if i < j {
                assert(u[i] == t[i]);
                assert(t[i].covers(a));
            } else if i > j {
                assert(u[i] == t[i + 1]);
                assert(t[i + 1].covers(a));
            } else {
                if a < t[j + 1].addr {
                    assert(t[j].covers(a));
                } else {
                    assert(t[j + 1].covers(a));
                }
            }
        }
        if covered(t, a) {
            let i = choose|i: int| 0 <= i < t.len() && #[trigger] t[i].covers(a);
            if i < j {
                assert(u[i] == t[i]);
                assert(u[i].covers(a));
            } else if i > j + 1 {
                assert(u[i - 1] == t[i]);
                assert(u[i - 1].covers(a));
            } else {
                assert(u[j].covers(a));
            }
        }
    }
}

/// A sequence stays ascending when an extent is put in between the two it lies between.
pub proof fn lemma_ordered_insert(s: Seq<Extent>, t: Seq<Extent>, k: int, e: Extent)
    requires
        ordered(s),
        sized(s),
        is_insert(s, t, k, e),
        e.size >= 0,
        k > 0 ==> s[k - 1].end() <= e.addr,
        k < s.len() ==> e.end() <= s[k].addr,
    ensures
        ordered(t),
        sized(t),
{
    assert forall|i: int, j: int| 0 <= i < j < t.len() implies #[trigger] gap(t, i, j) >= 0 by {
        if i < k && j > k {
            assert(t[i] == s[i] && t[j] == s[j - 1]);
            assert(gap(s, i, j - 1) >= 0);
        } else if i == k {
            assert(t[j] == s[j - 1]);
            if j - 1 > k {
                assert(gap(s, k, j - 1) >= 0);
            }
        } else if j == k {
            assert(t[i] == s[i]);
            if i < k - 1 {
                assert(gap(s, i, k - 1) >= 0);
            }
        } else if j < k {
            assert(t[i] == s[i] && t[j] == s[j]);
            assert(gap(s, i, j) >= 0);
        } else {
            assert(t[i] == s[i - 1] && t[j] == s[j - 1]);
            assert(gap(s, i - 1, j - 1) >= 0);
        }
    }
    assert forall|i: int| 0 <= i < t.len() implies (#[trigger] t[i]).size >= 0 by {
        if i < k {
            assert(t[i] == s[i]);
        } else if i > k {
            assert(t[i] == s[i - 1]);
        }
    }
}

/// A sequence stays ascending when two of its extents that touch are made one.
pub proof fn lemma_ordered_fused(t: Seq<Extent>, u: Seq<Extent>, j: int)
    requires
        ordered(t),
        sized(t),
        is_fused(t, u, j),
        touching(t, j),
    ensures
        ordered(u),
        sized(u),
{
    assert forall|i: int, l: int| 0 <= i < l < u.len() implies #[trigger] gap(u, i, l) >= 0 by {
        let i0 = if i <= j { i } else { i + 1 };
        let l0 = if l <= j { l } else { l + 1 };
        if i != j {
            assert(u[i] == t[i0]);
        }
        if l != j {
            assert(u[l] == t[l0]);
        }
        assert(gap(t, i0, l0) >= 0);
        if i == j {
            assert(gap(t, j + 1, l0) >= 0);
        }
    }
    assert forall|i: int| 0 <= i < u.len() implies (#[trigger] u[i]).size >= 0 by {
        if i < j {
            assert(u[i] == t[i]);
        } else if i > j {
            assert(u[i] == t[i + 1]);
        } else {
            assert(t[j].size >= 0 && t[j + 1].size >= 0);
        }
    }
}

/// A separated sequence stays separated when an extent is taken out.
pub proof fn lemma_separated_remove(s: Seq<Extent>, t: Seq<Extent>, k: int)
    requires
        separated(s),
        ordered(s),
        sized(s),
        is_remove(s, t, k),
    ensures
        separated(t),
        ordered(t),
        sized(t),
{
    assert forall|i: int, j: int| 0 <= i < j < t.len() implies #[trigger] gap(t, i, j) > 0 by {
        let i0 = if i < k { i } else { i + 1 };
        let j0 = if j < k { j } else { j + 1 };
        assert(t[i] == s[i0] && t[j] == s[j0]);
        assert(gap(s, i0, j0) > 0);
    }
    assert forall|i: int, j: int| 0 <= i < j < t.len() implies #[trigger] gap(t, i, j) >= 0 by {
        assert(gap(t, i, j) > 0);
    }
    assert forall|i: int| 0 <= i < t.len() implies (#[trigger] t[i]).size >= 0 by {
        let i0 = if i < k { i } else { i + 1 };
        assert(t[i] == s[i0]);
    }
}

/// A separated sequence stays separated when an extent is put in clear of its neighbours.
pub proof fn lemma_separated_insert(s: Seq<Extent>, t: Seq<Extent>, k: int, e: Extent)
    requires
        separated(s),
        sized(s),
        is_insert(s, t, k, e),
        e.size >= 0,
        k > 0 ==> s[k - 1].end() < e.addr,
        k < s.len() ==> e.end() < s[k].addr,
    ensures
        separated(t),
{
    assert forall|i: int, j: int| 0 <= i < j < t.len() implies #[trigger] gap(t, i, j) > 0 by {
        if i < k && j > k {
            assert(t[i] == s[i] && t[j] == s[j - 1]);
            assert(gap(s, i, j - 1) > 0);
        } else if i == k {
            assert(t[j] == s[j - 1]);
            if j - 1 > k {
                assert(gap(s, k, j - 1) > 0);
            }
        } else if j == k {
            assert(t[i] == s[i]);
            if i < k - 1 {
                assert(gap(s, i, k - 1) > 0);
            }
        } else if j < k {
            assert(t[i] == s[i] && t[j] == s[j]);
            assert(gap(s, i, j) > 0);
        } else {
            assert(t[i] == s[i - 1] && t[j] == s[j - 1]);
            assert(gap(s, i - 1, j - 1) > 0);
        }
    }
}

/// An extent of a separated sequence may grow, or start lower, as long as it
/// stays clear of its neighbours.
pub proof fn lemma_separated_update(s: Seq<Extent>, i0: int, big: Extent)
    requires
        separated(s),
        sized(s),
        big.size >= 0,
        0 <= i0 < s.len(),
        i0 > 0 ==> s[i0 - 1].end() < big.addr,
        i0 + 1 < s.len() ==> big.end() < s[i0 + 1].addr,
    ensures
        separated(s.update(i0, big)),
{
    let t = s.update(i0, big);
    assert forall|i: int, j: int| 0 <= i < j < t.len() implies #[trigger] gap(t, i, j) > 0 by {
        if i == i0 {
            if j > i0 + 1 {
                assert(gap(s, i0 + 1, j) > 0);
            }
        } else if j == i0 {
            if i < i0 - 1 {
                assert(gap(s, i, i0 - 1) > 0);
            }
        } else {
            assert(gap(s, i, j) > 0);
        }
    }
}

/// Putting an extent in and fusing it with the one below grows the one below.
proof fn lemma_fused_low(s: Seq<Extent>, k: int, e: Extent)
    requires
        0 < k <= s.len(),
    ensures
        fused(s.insert(k, e), k - 1) == s.update(k - 1, s[k - 1].with(e)),
{
    let t = s.insert(k, e);
    lemma_is_insert(s, k, e);
    lemma_is_fused(t, k - 1);
    let u = fused(t, k - 1);
    let v = s.update(k - 1, s[k - 1].with(e));
    assert(t[k - 1] == s[k - 1]);
    assert forall|i: int| 0 <= i < s.len() implies u[i] == v[i] by {
        if i < k - 1 {
            assert(u[i] == t[i]);
            assert(t[i] == s[i]);
        } else if i > k - 1 {
            assert(u[i] == t[i + 1]);
            assert(t[i + 1] == s[i]);
        }
    }
    assert(u =~= v);
}

/// Putting an extent in and fusing it with the one above makes the one above start lower.
proof fn lemma_fused_high(s: Seq<Extent>, k: int, e: Extent)
    requires
        0 <= k < s.len(),
    ensures
        fused(s.insert(k, e), k) == s.update(k, e.with(s[k])),
{
    let t = s.insert(k, e);
    lemma_is_insert(s, k, e);
    lemma_is_fused(t, k);
    let u = fused(t, k);
    let v = s.update(k, e.with(s[k]));
    assert(t[k + 1] == s[k]);
    assert forall|i: int| 0 <= i < s.len() implies u[i] == v[i] by {
        if i < k {
            assert(u[i] == t[i]);
            assert(t[i] == s[i]);
        } else if i > k {
            assert(u[i] == t[i + 1]);
            assert(t[i + 1] == s[i]);
        }
    }
    assert(u =~= v);
}

/// Fusing an extent that has grown with the one above it takes that one out.
proof fn lemma_fused_both(s: Seq<Extent>, k: int, e: Extent)
    requires
        0 < k < s.len(),
    ensures
        fused(s.update(k - 1, s[k - 1].with(e)), k - 1) == s.remove(k).update(
            k - 1,
            s[k - 1].with(e).with(s[k]),
        ),
{
    let w = s.update(k - 1, s[k - 1].with(e));
    lemma_is_fused(w, k - 1);
    lemma_is_remove(s, k);
    let u = fused(w, k - 1);
    let r = s.remove(k);
    let v = r.update(k - 1, s[k - 1].with(e).with(s[k]));
    assert forall|i: int| 0 <= i < u.len() implies u[i] == v[i] by {
        if i < k - 1 {
            assert(u[i] == w[i]);
            assert(r[i] == s[i]);
        } else if i > k - 1 {
            assert(u[i] == w[i + 1]);
            assert(r[i] == s[i + 1]);
        }
    }
    assert(u =~= v);
}

/// Once an extent has been put in at its rank, it touches the extent below
/// it, and then the extent above it, exactly where joining fuses them.
pub proof fn lemma_fusing(s: Seq<Extent>, e: Extent)
    ensures
        ({
            let k = rank(s, e.addr);
            let t = s.insert(k, e);
            let t1 = fuse_if(t, k - 1);
            let j = settled(t, k);
            &&& 0 <= k <= s.len()
            &&& t[k] == e
            &&& touching(t, k - 1) == fuses_below(s, e)
            &&& touching(t1, j) == fuses_above(s, e)
            &&& fuses_above(s, e) ==> t1[j + 1] == s[k]
        }),
{
    let k = rank(s, e.addr);
    lemma_rank(s, e.addr, 0);
    let t = s.insert(k, e);
    lemma_is_insert(s, k, e);
    if k > 0 {
        assert(t[k - 1] == s[k - 1]);
    }
    if k < s.len() {
        assert(t[k + 1] == s[k]);
    }
    if fuses_below(s, e) {
        lemma_fused_low(s, k, e);
    }
}

/// Putting an extent in at its rank and fusing it first with the extent below
/// and then with the extent above gives the joined sequence, and that
/// sequence is separated again.
pub proof fn lemma_joined(s: Seq<Extent>, e: Extent)
    requires
        separated(s),
        ordered(s),
        sized(s),
        e.size >= 0,
        !overlaps(s, e),
    ensures
        ({
            let k = rank(s, e.addr);
            let t = s.insert(k, e);
            let j = settled(t, k);
            let t2 = fuse_if(fuse_if(t, k - 1), j);
            &&& t2 == joined(s, e)
            &&& separated(t2)
            &&& 0 <= j < t2.len()
            &&& j > 0 ==> s.len() > 0 && t2[0].addr == s[0].addr
            &&& j < t2.len() - 1 ==> s.len() > 0 && t2.last().addr == s.last().addr
        }),
{
    let k = rank(s, e.addr);
    lemma_rank(s, e.addr, 0);
    lemma_overlaps(s, e);
    let t = s.insert(k, e);
    lemma_is_insert(s, k, e);
    let low = k > 0 && s[k - 1].end() == e.addr;
    let high = k < s.len() && e.end() == s[k].addr;
    if k > 0 {
        assert(t[k - 1] == s[k - 1]);
    }
    if k < s.len() {
        assert(t[k + 1] == s[k]);
    }
    assert(touching(t, k - 1) == low);
    let t1 = fuse_if(t, k - 1);
    let j = settled(t, k);
    if low {
        lemma_fused_low(s, k, e);
        assert(t1 == s.update(k - 1, s[k - 1].with(e)));
        assert(touching(t1, j) == high);
        if high {
            lemma_fused_both(s, k, e);
            let r = s.remove(k);
            lemma_is_remove(s, k);
            lemma_separated_remove(s, r, k);
            if k - 1 > 0 {
                assert(gap(s, k - 2, k - 1) > 0);
                assert(r[k - 2] == s[k - 2]);
            }
            if k + 1 < s.len() {
                assert(r[k] == s[k + 1]);
                assert(gap(s, k, k + 1) > 0);
            }
            lemma_separated_update(r, k - 1, s[k - 1].with(e).with(s[k]));
            let t2 = r.update(k - 1, s[k - 1].with(e).with(s[k]));
            if j > 0 {
                assert(r[0] == s[0]);
            }
            if j < t2.len() - 1 {
                assert(r[r.len() - 1] == s[s.len() - 1]);
            }
        } else {
            if k - 1 > 0 {
                assert(gap(s, k - 2, k - 1) > 0);
            }
            lemma_separated_update(s, k - 1, s[k - 1].with(e));
        }
    } else {
        assert(t1 == t);
        assert(touching(t1, j) == high);
        if high {
            lemma_fused_high(s, k, e);
            if k + 1 < s.len() {
                assert(gap(s, k, k + 1) > 0);
            }
            lemma_separated_update(s, k, e.with(s[k]));
        } else {
            lemma_separated_insert(s, t, k, e);
            if j > 0 {
                assert(t[0] == s[0]);
            }
            if j < t.len() - 1 {
                assert(t[t.len() - 1] == s[s.len() - 1]);
            }
        }
    }
}

/// Where an extent is fused with the one below it, the last extent of the
/// joined sequence starts well below it or above it.
pub proof fn lemma_fused_start(s: Seq<Extent>, e: Extent)
    requires
        separated(s),
        ordered(s),
        roomy(s),
        sized(s),
        e.size >= 0,
        !overlaps(s, e),
        fuses_below(s, e),
    ensures
        joined(s, e).len() > 0,
        joined(s, e).last().addr + 32 <= e.addr || e.end() <= joined(s, e).last().addr,
{
    let k = rank(s, e.addr);
    lemma_rank(s, e.addr, 0);
    lemma_joined(s, e);
    let t = joined(s, e);
    let last = t.len() - 1;
    assert(s[k - 1].size >= 16);
    if fuses_above(s, e) {
        lemma_is_remove(s, k);
        let r = s.remove(k);
        if last > k - 1 {
            assert(r[last] == s[last + 1]);
            assert(gap(s, k, last + 1) > 0);
        }
    } else {
        lemma_overlaps(s, e);
        if last > k {
            assert(gap(s, k, last) >= 0);
        }
    }
}

/// The joined sequence covers what the sequence covered and what the new extent covers.
pub proof fn lemma_covered_joined(s: Seq<Extent>, e: Extent)
    requires
        separated(s),
        ordered(s),
        sized(s),
        e.size >= 0,
        !overlaps(s, e),
    ensures
        forall|a: int| #[trigger] covered(joined(s, e), a) <==> covered(s, a) || e.covers(a),
{
    let k = rank(s, e.addr);
    lemma_rank(s, e.addr, 0);
    lemma_overlaps(s, e);
    lemma_joined(s, e);
    let t = s.insert(k, e);
    lemma_is_insert(s, k, e);
    lemma_covered_insert(s, t, k, e);
    lemma_ordered_insert(s, t, k, e);
    let t1 = fuse_if(t, k - 1);
    let j = settled(t, k);
    if touching(t, k - 1) {
        lemma_is_fused(t, k - 1);
        lemma_covered_fused(t, t1, k - 1);
        lemma_ordered_fused(t, t1, k - 1);
    }
    let t2 = fuse_if(t1, j);
    if touching(t1, j) {
        lemma_is_fused(t1, j);
        lemma_covered_fused(t1, t2, j);
    }
    assert forall|a: int| #[trigger] covered(t2, a) <==> covered(s, a) || e.covers(a) by {
        assert(covered(t1, a) <==> covered(t, a));
        assert(covered(t2, a) <==> covered(t1, a));
    }
}

/// An extent that ends where a listed extent ended, and starts inside it,
/// takes that extent's place when it is joined to the rest.
pub proof fn lemma_joined_in_place(s: Seq<Extent>, k: int, e: Extent)
    requires
        separated(s),
        sized(s),
        0 <= k < s.len(),
        s[k].addr < e.addr,
        e.end() == s[k].end(),
        e.size >= 0,
    ensures
        rank(s.remove(k), e.addr) == k,
        joined(s.remove(k), e) == s.update(k, e),
{
    let r = s.remove(k);
    lemma_is_remove(s, k);
    lemma_rank(r, e.addr, 0);
    let q = rank(r, e.addr);
    if k > 0 {
        assert(r[k - 1] == s[k - 1]);
        assert(gap(s, k - 1, k) > 0);
    }
    if k < r.len() {
        assert(r[k] == s[k + 1]);
        assert(gap(s, k, k + 1) > 0);
    }
    if q < k {
        assert(r[q] == s[q]);
        assert(gap(s, q, k) > 0);
    }
    assert(q == k);
    lemma_is_insert(r, k, e);
    let t = r.insert(k, e);
    let v = s.update(k, e);
    assert forall|i: int| 0 <= i < s.len() implies t[i] == v[i] by {
        if i < k {
            assert(t[i] == r[i]);
            assert(r[i] == s[i]);
        } else if i > k {
            assert(t[i] == r[i - 1]);
            assert(r[i - 1] == s[i]);
        }
    }
    assert(t =~= v);
}

/// An extent that lies inside another meets nothing that the other does not meet.
pub proof fn lemma_overlaps_inside(s: Seq<Extent>, outer: Extent, inner: Extent)
    requires
        !overlaps(s, outer),
        outer.addr <= inner.addr,
        inner.end() <= outer.end(),
    ensures
        !overlaps(s, inner),
{
    if overlaps(s, inner) {
        let i = choose|i: int| 0 <= i < s.len() && #[trigger] s[i].meets(inner);
        assert(s[i].meets(outer));
    }
}

/// An extent clear of a sequence covers nothing that the sequence covers.
pub proof fn lemma_clear_covers(s: Seq<Extent>, e: Extent, a: int)
    requires
        !overlaps(s, e),
        e.covers(a),
    ensures
        !covered(s, a),
{
    if covered(s, a) {
        let i = choose|i: int| 0 <= i < s.len() && #[trigger] s[i].covers(a);
        assert(s[i].meets(e));
    }
}

/// A sequence that covers nothing of an extent is clear of it.
pub proof fn lemma_covers_clear(s: Seq<Extent>, e: Extent)
    requires
        sized(s),
        e.size >= 0,
        forall|a: int| e.covers(a) ==> !#[trigger] covered(s, a),
    ensures
        !overlaps(s, e),
{
    if overlaps(s, e) {
        let i = choose|i: int| 0 <= i < s.len() && #[trigger] s[i].meets(e);
        let a = if s[i].addr >= e.addr {
            s[i].addr
        } else {
            e.addr
        };
        assert(s[i].covers(a));
        assert(covered(s, a));
    }
}

/// What is left of a sequence covers no more than the sequence covered.
pub proof fn lemma_covered_remove(s: Seq<Extent>, t: Seq<Extent>, k: int)
    requires
        is_remove(s, t, k),
    ensures
        forall|a: int| #[trigger] covered(t, a) ==> covered(s, a),
        forall|a: int| #[trigger] covered(s, a) ==> covered(t, a) || s[k].covers(a),
{
    assert forall|a: int| #[trigger] covered(t, a) implies covered(s, a) by {
        let i = choose|i: int| 0 <= i < t.len() && #[trigger] t[i].covers(a);
        if i < k {
            assert(t[i] == s[i]);
            assert(s[i].covers(a));
        } else {
            assert(t[i] == s[i + 1]);
            assert(s[i + 1].covers(a));
        }
    }
    assert forall|a: int| #[trigger] covered(s, a) implies covered(t, a) || s[k].covers(a) by {
        let i = choose|i: int| 0 <= i < s.len() && #[trigger] s[i].covers(a);
        if i < k {
            assert(t[i] == s[i]);
            assert(t[i].covers(a));
        } else if i > k {
            assert(t[i - 1] == s[i]);
            assert(t[i - 1].covers(a));
        }
    }
}

/// A sequence in which one extent has been replaced by a part of it covers
/// no more than it covered, and still all that the other extents and the
/// part cover.
pub proof fn lemma_covered_part(s: Seq<Extent>, k: int, part: Extent)
    requires
        0 <= k < s.len(),
        s[k].addr <= part.addr,
        part.end() <= s[k].end(),
    ensures
        forall|a: int| #[trigger] covered(s.update(k, part), a) ==> covered(s, a),
        forall|a: int|
            #[trigger] covered(s, a) && !s[k].covers(a) ==> covered(s.update(k, part), a),
        forall|a: int| part.covers(a) ==> #[trigger] covered(s.update(k, part), a),
{
    let t = s.update(k, part);
    assert forall|a: int| #[trigger] covered(t, a) implies covered(s, a) by {
        let i = choose|i: int| 0 <= i < t.len() && #[trigger] t[i].covers(a);
        assert(s[i].covers(a));
    }
    assert forall|a: int| #[trigger] covered(s, a) && !s[k].covers(a) implies covered(t, a) by {
        let i = choose|i: int| 0 <= i < s.len() && #[trigger] s[i].covers(a);
        assert(t[i].covers(a));
    }
    assert forall|a: int| part.covers(a) implies #[trigger] covered(t, a) by {
        assert(t[k].covers(a));
    }
}

/// An extent of a separated sequence is clear of all the others.
pub proof fn lemma_clear_of_rest(s: Seq<Extent>, t: Seq<Extent>, k: int)
    requires
        separated(s),
        sized(s),
        is_remove(s, t, k),
    ensures
        !overlaps(t, s[k]),
{
    if overlaps(t, s[k]) {
        let i = choose|i: int| 0 <= i < t.len() && #[trigger] t[i].meets(s[k]);
        if i < k {
            assert(t[i] == s[i]);
            assert(gap(s, i, k) > 0);
        } else {
            assert(t[i] == s[i + 1]);
            assert(gap(s, k, i + 1) > 0);
        }
    }
}

/// When the upper part of an extent that is clear of a sequence is joined to
/// the sequence, the lower part stays clear of the result.
pub proof fn lemma_clear_after_split(s: Seq<Extent>, e: Extent, low: Extent, rest: Extent)
    requires
        separated(s),
        ordered(s),
        sized(s),
        !overlaps(s, e),
        low.addr == e.addr,
        low.size >= 0,
        rest.size >= 0,
        low.end() == rest.addr,
        rest.end() == e.end(),
    ensures
        !overlaps(s, rest),
        !overlaps(joined(s, rest), low),
{
    lemma_overlaps_inside(s, e, rest);
    lemma_covered_joined(s, rest);
    let t = joined(s, rest);
    lemma_joined(s, rest);
    assert forall|a: int| low.covers(a) implies !#[trigger] covered(t, a) by {
        lemma_clear_covers(s, e, a);
    }
    lemma_rank(s, rest.addr, 0);
    lemma_joined_sized(s, rest);
    lemma_covers_clear(t, low);
}

/// Every extent has room for the two links.
pub open spec fn roomy(s: Seq<Extent>) -> bool {
    forall|i: int| 0 <= i < s.len() ==> (#[trigger] s[i]).size >= BLOCK_MIN_REGION_SIZE
}

/// The joined sequence has room for the links in each extent if the
/// sequence and the new extent had.
pub proof fn lemma_joined_roomy(s: Seq<Extent>, e: Extent)
    requires
        roomy(s),
        e.size >= 16,
    ensures
        roomy(joined(s, e)),
{
    let k = rank(s, e.addr);
    lemma_rank(s, e.addr, 0);
    let t = joined(s, e);
    let low = k > 0 && s[k - 1].end() == e.addr;
    let high = k < s.len() && e.end() == s[k].addr;
    if low && high {
        lemma_is_remove(s, k);
        let r = s.remove(k);
        assert forall|i: int| 0 <= i < t.len() implies (#[trigger] t[i]).size >= 16 by {
            if i < k - 1 {
                assert(r[i] == s[i]);
            } else if i > k - 1 {
                assert(r[i] == s[i + 1]);
            } else {
                assert(s[k - 1].size >= 16 && s[k].size >= 16);
            }
        }
    } else if low {
        assert(s[k - 1].size >= 16);
    } else if high {
        assert(s[k].size >= 16);
    } else {
        lemma_is_insert(s, k, e);
        assert forall|i: int| 0 <= i < t.len() implies (#[trigger] t[i]).size >= 16 by {
            if i < k {
                assert(t[i] == s[i]);
            } else if i > k {
                assert(t[i] == s[i - 1]);
            }
        }
    }
}

/// The joined sequence has no extent of negative size.
pub proof fn lemma_joined_sized(s: Seq<Extent>, e: Extent)
    requires
        sized(s),
        e.size >= 0,
        0 <= rank(s, e.addr) <= s.len(),
    ensures
        sized(joined(s, e)),
{
    let k = rank(s, e.addr);
    let t = joined(s, e);
    let low = k > 0 && s[k - 1].end() == e.addr;
    let high = k < s.len() && e.end() == s[k].addr;
    if low && high {
        lemma_is_remove(s, k);
        let r = s.remove(k);
        assert forall|i: int| 0 <= i < t.len() implies (#[trigger] t[i]).size >= 0 by {
            if i < k - 1 {
                assert(r[i] == s[i]);
            } else if i > k - 1 {
                assert(r[i] == s[i + 1]);
            }
        }
    } else if low || high {
    } else {
        lemma_is_insert(s, k, e);
        assert forall|i: int| 0 <= i < t.len() implies (#[trigger] t[i]).size >= 0 by {
            if i < k {
                assert(t[i] == s[i]);
            } else if i > k {
                assert(t[i] == s[i - 1]);
            }
        }
    }
}

} // verus!
