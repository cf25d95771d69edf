//! A byte-addressed image of the data segment that the allocator manages.
//!
//! The segment starts at a fixed base address and ends at the program break.
//! The break moves up when memory is obtained and down when it is given back;
//! it never passes the limit the segment was created with. Machine words are
//! kept in the image as eight little-endian bytes.

use vstd::prelude::*;

verus! {

/// Bytes in a machine word of the image.
pub const WORD_SIZE: usize = 8;

/// Unit by which the program break moves, and alignment of the base address.
pub const BREAK_UNIT: usize = 16;

/// The number that eight bytes spell in little-endian order.
pub open spec fn le_value(s: Seq<u8>) -> int {
    s[0] as int + 0x100 * (s[1] as int) + 0x1_0000 * (s[2] as int) + 0x100_0000 * (s[3] as int)
        + 0x1_0000_0000 * (s[4] as int) + 0x100_0000_0000 * (s[5] as int) + 0x1_0000_0000_0000 * (
    s[6] as int) + 0x100_0000_0000_0000 * (s[7] as int)
}

/// The machine word that eight bytes spell.
pub open spec fn word_of(s: Seq<u8>) -> usize {
    le_value(s) as usize
}

/// The smallest multiple of the break unit that is not below `n`.
pub open spec fn round_up(n: int) -> int {
    (n + BREAK_UNIT - 1) / (BREAK_UNIT as int) * BREAK_UNIT
}

/// A number below 2^64 is the sum of its eight base-256 digits, each at its place.
proof fn lemma_digits(q0: int, q1: int, q2: int, q3: int, q4: int, q5: int, q6: int, q7: int)
    requires
        0 <= q0 < 0x1_0000_0000_0000_0000,
        q1 == q0 / 256,
        q2 == q1 / 256,
        q3 == q2 / 256,
        q4 == q3 / 256,
        q5 == q4 / 256,
        q6 == q5 / 256,
        q7 == q6 / 256,
    ensures
        q7 < 256,
        q0 == q0 % 256 + 0x100 * (q1 % 256) + 0x1_0000 * (q2 % 256) + 0x100_0000 * (q3 % 256)
            + 0x1_0000_0000 * (q4 % 256) + 0x100_0000_0000 * (q5 % 256) + 0x1_0000_0000_0000 * (q6
            % 256) + 0x100_0000_0000_0000 * (q7 % 256),
{
    assert(q0 == 256 * q1 + q0 % 256);
    assert(q1 == 256 * q2 + q1 % 256);
    assert(q2 == 256 * q3 + q2 % 256);
    assert(q3 == 256 * q4 + q3 % 256);
    assert(q4 == 256 * q5 + q4 % 256);
    assert(q5 == 256 * q6 + q5 % 256);
    assert(q6 == 256 * q7 + q6 % 256);
    assert(q7 < 256);
}

/// The image of the data segment: its base address, the most bytes it may
/// hold, and the bytes below the program break.
pub struct Segment {
    base: usize,
    limit: usize,
    bytes: Vec<u8>,
}

impl Segment {
    /// Address of the first byte of the segment.
    pub closed spec fn spec_base(&self) -> usize {
        self.base
    }

    /// Largest number of bytes the segment may ever hold.
    pub closed spec fn spec_limit(&self) -> usize {
        self.limit
    }

    /// The bytes between the base and the program break.
    pub closed spec fn bytes(&self) -> Seq<u8> {
        self.bytes@
    }

    /// The program break: the address just past the last byte.
    pub open spec fn spec_brk(&self) -> int {
        self.spec_base() + self.bytes().len()
    }

    /// The base is aligned and not null, the break is aligned, and nothing wraps around.
    pub open spec fn wf(&self) -> bool {
        &&& self.spec_base() >= BREAK_UNIT
        &&& self.spec_base() % BREAK_UNIT == 0
        &&& self.bytes().len() % (BREAK_UNIT as nat) == 0
        &&& self.bytes().len() <= self.spec_limit()
        &&& self.spec_base() + self.spec_limit() <= usize::MAX
    }

    /// The `n` bytes from `addr` on lie inside the segment.
    pub open spec fn holds(&self, addr: int, n: int) -> bool {
        self.spec_base() <= addr && 0 <= n && addr + n <= self.spec_brk()
    }

    /// The byte stored at `addr`.
    pub open spec fn byte(&self, addr: int) -> u8 {
        self.bytes()[addr - self.spec_base()]
    }

    /// The word stored in the eight bytes from `addr` on.
    pub closed spec fn word(&self, addr: int) -> usize {
        word_of(self.bytes().subrange(addr - self.base, addr - self.base + 8))
    }

    /// Both images have the same bounds and agree on every byte outside `[lo, hi)`,
    /// hence on every word that does not reach into it.
    pub open spec fn same_except(&self, other: &Segment, lo: int, hi: int) -> bool {
        &&& self.spec_base() == other.spec_base()
        &&& self.spec_limit() == other.spec_limit()
        &&& self.bytes().len() == other.bytes().len()
        &&& forall|a: int|
            #![trigger self.byte(a)]
            self.spec_base() <= a < self.spec_brk() && !(lo <= a < hi) ==> self.byte(a)
                == other.byte(a)
        &&& forall|a: int|
            #![trigger self.word(a)]
            self.holds(a, WORD_SIZE as int) && (a + WORD_SIZE <= lo || hi <= a) ==> self.word(a)
                == other.word(a)
    }

    /// Both images have the same bounds and the same contents.
    pub open spec fn same(&self, other: &Segment) -> bool {
        self.same_except(other, 0, 0)
    }

    /// A word is made of its eight bytes and of nothing else.
    pub proof fn lemma_word_from_bytes(&self, other: &Segment, addr: int)
        requires
            self.spec_base() == other.spec_base(),
            self.holds(addr, 8),
            other.holds(addr, 8),
            forall|a: int| addr <= a < addr + 8 ==> self.byte(a) == other.byte(a),
        ensures
            self.word(addr) == other.word(addr),
    {
        let o = addr - self.base;
        let s1 = self.bytes@.subrange(o, o + 8);
        let s2 = other.bytes@.subrange(o, o + 8);
        assert forall|i: int| 0 <= i < 8 implies s1[i] == s2[i] by {
            assert(self.byte(addr + i) == other.byte(addr + i));
        }
        assert(s1 =~= s2);
    }

    /// Eight zero bytes spell the word zero.
    pub proof fn lemma_zero_word(&self, addr: int)
        requires
            self.holds(addr, 8),
            forall|a: int| addr <= a < addr + 8 ==> self.byte(a) == 0,
        ensures
            self.word(addr) == 0,
    {
        let o = addr - self.base;
        let s = self.bytes@.subrange(o, o + 8);
        assert forall|i: int| 0 <= i < 8 implies s[i] == 0 by {
            assert(self.byte(addr + i) == 0);
        }
    }

    /// An empty segment at `base` that may grow to `limit` bytes. There is none
    /// where the base is null or unaligned, or where the segment would wrap around.
    pub fn new(base: usize, limit: usize) -> (r: Option<Segment>)
        ensures
            r is Some <==> base >= BREAK_UNIT && base % BREAK_UNIT == 0 && base + limit
                <= usize::MAX,
            r is Some ==> {
                &&& r->0.wf()
                &&& r->0.spec_base() == base
                &&& r->0.spec_limit() == limit
                &&& r->0.bytes().len() == 0
            },
    {
        if base < BREAK_UNIT || base % BREAK_UNIT != 0 || limit > usize::MAX - base {
            None
        } else {
            Some(Segment { base, limit, bytes: Vec::new() })
        }
    }

    /// Address of the first byte of the segment.
    #[verifier::when_used_as_spec(spec_base)]
    pub fn base(&self) -> (r: usize)
        ensures
            r == self.spec_base(),
    {
        self.base
    }

    /// Largest number of bytes the segment may ever hold.
    #[verifier::when_used_as_spec(spec_limit)]
    pub fn limit(&self) -> (r: usize)
        ensures
            r == self.spec_limit(),
    {
        self.limit
    }

    /// The current program break.
    pub fn brk(&self) -> (r: usize)
        requires
            self.wf(),
        ensures
            r == self.spec_brk(),
    {
        self.base + self.bytes.len()
    }

    /// Raises the program break by `n` bytes, rounded up to the break unit, and
    /// returns the old break. The new bytes are zero. Fails, and changes nothing,
    /// where the segment would pass its limit.
    pub fn grow(&mut self, n: usize) -> (r: Option<usize>)
        requires
            old(self).wf(),
        ensures
            final(self).wf(),
            r is Some <==> old(self).bytes().len() + round_up(n as int) <= old(self).spec_limit(),
            r is None ==> final(self).same(old(self)),
            r is Some ==> {
                &&& r->0 == old(self).spec_brk()
                &&& final(self).spec_base() == old(self).spec_base()
                &&& final(self).spec_limit() == old(self).spec_limit()
                &&& final(self).spec_brk() == old(self).spec_brk() + round_up(n as int)
                &&& forall|a: int|
                    #![trigger final(self).byte(a)]
                    old(self).holds(a, 1) ==> final(self).byte(a) == old(self).byte(a)
                &&& forall|a: int|
                    #![trigger final(self).word(a)]
                    old(self).holds(a, 8) ==> final(self).word(a) == old(self).word(a)
                &&& forall|a: int|
                    old(self).spec_brk() <= a < final(self).spec_brk() ==> #[trigger] final(self)
                        .byte(a) == 0
            },
    {
        let len = self.bytes.len();
        if n > usize::MAX - (BREAK_UNIT - 1) {
            return None;
        }
        let step = (n + (BREAK_UNIT - 1)) / BREAK_UNIT * BREAK_UNIT;
        if step > self.limit - len {
            return None;
        }
        let ghost before = self.bytes@;
        self.bytes.resize(len + step, 0u8);
        proof {
            assert(self.bytes@.subrange(0, len as int) == before);
            assert forall|i: int| 0 <= i < len implies self.bytes@[i] == before[i] by {
                assert(self.bytes@.subrange(0, len as int)[i] == self.bytes@[i]);
            }
            assert forall|a: int|
                #![trigger self.word(a)]
                old(self).holds(a, 8) implies self.word(a) == old(self).word(a) by {
                let o = a - self.base;
                assert(self.bytes@.subrange(o, o + 8) =~= before.subrange(o, o + 8));
            }
        }
        Some(self.base + len)
    }

    /// Lowers the program break by `n` bytes. What lies below the new break stays as it is.
    pub fn shrink(&mut self, n: usize)
        requires
            old(self).wf(),
            n % BREAK_UNIT == 0,
            n <= old(self).bytes().len(),
        ensures
            final(self).wf(),
            final(self).spec_base() == old(self).spec_base(),
            final(self).spec_limit() == old(self).spec_limit(),
            final(self).spec_brk() == old(self).spec_brk() - n,
            forall|a: int|
                #![trigger final(self).byte(a)]
                final(self).holds(a, 1) ==> final(self).byte(a) == old(self).byte(a),
            forall|a: int|
                #![trigger final(self).word(a)]
                final(self).holds(a, 8) ==> final(self).word(a) == old(self).word(a),
    {
        let len = self.bytes.len();
        let ghost before = self.bytes@;
        self.bytes.truncate(len - n);
        proof {
            assert forall|a: int| #![trigger self.word(a)] self.holds(a, 8) implies self.word(a)
                == old(self).word(a) by {
                let o = a - self.base;
                assert(self.bytes@.subrange(o, o + 8) =~= before.subrange(o, o + 8));
            }
        }
    }

    /// Reads the byte at `addr`.
    pub fn read_byte(&self, addr: usize) -> (r: u8)
        requires
            self.wf(),
            self.holds(addr as int, 1),
        ensures
            r == self.byte(addr as int),
    {
        self.bytes[addr - self.base]
    }

    /// Writes `value` as the byte at `addr`.
    pub fn write_byte(&mut self, addr: usize, value: u8)
        requires
            old(self).wf(),
            old(self).holds(addr as int, 1),
        ensures
            final(self).wf(),
            final(self).same_except(old(self), addr as int, addr + 1),
            final(self).byte(addr as int) == value,
    {
        let ghost before = self.bytes@;
        let o = addr - self.base;
        self.bytes.set(o, value);
        proof {
            assert forall|a: int|
                #![trigger self.word(a)]
                self.holds(a, 8) && (a + 8 <= addr || addr + 1 <= a) implies self.word(a) == old(
                self).word(a) by {
                let p = a - self.base;
                assert(self.bytes@.subrange(p, p + 8) =~= before.subrange(p, p + 8));
            }
        }
    }

    /// Reads the word at `addr`.
    pub fn read_word(&self, addr: usize) -> (r: usize)
        requires
            self.wf(),
            self.holds(addr as int, WORD_SIZE as int),
        ensures
            r == self.word(addr as int),
    {
        let o = addr - self.base;
        let b0 = self.bytes[o] as u64;
        let b1 = self.bytes[o + 1] as u64;
        let b2 = self.bytes[o + 2] as u64;
        let b3 = self.bytes[o + 3] as u64;
        let b4 = self.bytes[o + 4] as u64;
        let b5 = self.bytes[o + 5] as u64;
        let b6 = self.bytes[o + 6] as u64;
        let b7 = self.bytes[o + 7] as u64;
        let w: u64 = b0 + 0x100 * b1 + 0x1_0000 * b2 + 0x100_0000 * b3 + 0x1_0000_0000 * b4
            + 0x100_0000_0000 * b5 + 0x1_0000_0000_0000 * b6 + 0x100_0000_0000_0000 * b7;
        w as usize
    }

    /// Writes `value` as the word at `addr`.
    pub fn write_word(&mut self, addr: usize, value: usize)
        requires
            old(self).wf(),
            old(self).holds(addr as int, WORD_SIZE as int),
        ensures
            final(self).wf(),
            final(self).same_except(old(self), addr as int, addr + WORD_SIZE),
            final(self).word(addr as int) == value,
    {
        let ghost before = self.bytes@;
        let o = addr - self.base;
        let q0 = value as u64;
        let q1 = q0 / 256;
        let q2 = q1 / 256;
        let q3 = q2 / 256;
        let q4 = q3 / 256;
        let q5 = q4 / 256;
        let q6 = q5 / 256;
        let q7 = q6 / 256;
        self.bytes.set(o, (q0 % 256) as u8);
        self.bytes.set(o + 1, (q1 % 256) as u8);
        self.bytes.set(o + 2, (q2 % 256) as u8);
        self.bytes.set(o + 3, (q3 % 256) as u8);
        self.bytes.set(o + 4, (q4 % 256) as u8);
        self.bytes.set(o + 5, (q5 % 256) as u8);
        self.bytes.set(o + 6, (q6 % 256) as u8);
        self.bytes.set(o + 7, (q7 % 256) as u8);
        proof {
            let s = self.bytes@.subrange(o as int, o + 8);
            assert(s[0] == q0 % 256 && s[1] == q1 % 256 && s[2] == q2 % 256 && s[3] == q3 % 256);
            assert(s[4] == q4 % 256 && s[5] == q5 % 256 && s[6] == q6 % 256 && s[7] == q7 % 256);
            lemma_digits(
                q0 as int,
                q1 as int,
                q2 as int,
                q3 as int,
                q4 as int,
                q5 as int,
                q6 as int,
                q7 as int,
            );
            assert(le_value(s) == q0);
            assert forall|a: int|
                #![trigger self.word(a)]
                self.holds(a, 8) && (a + 8 <= addr || addr + 8 <= a) implies self.word(a) == old(
                self).word(a) by {
                let p = a - self.base;
                assert(self.bytes@.subrange(p, p + 8) =~= before.subrange(p, p + 8));
            }
        }
    }

    /// Overwrites the `n` bytes from `addr` on with zero.
    pub fn fill_zero(&mut self, addr: usize, n: usize)
        requires
            old(self).wf(),
            old(self).holds(addr as int, n as int),
        ensures
            final(self).wf(),
            final(self).same_except(old(self), addr as int, addr + n),
            forall|a: int| addr <= a < addr + n ==> #[trigger] final(self).byte(a) == 0,
            forall|a: int| addr <= a && a + 8 <= addr + n ==> #[trigger] final(self).word(a) == 0,
    {
        let mut k: usize = 0;
        while k < n
            invariant
                k <= n,
                self.wf(),
                old(self).wf(),
                old(self).holds(addr as int, n as int),
                self.same_except(old(self), addr as int, addr + k),
                forall|a: int| addr <= a < addr + k ==> #[trigger] self.byte(a) == 0,
            decreases n - k,
        {
            self.write_byte(addr + k, 0u8);
            k = k + 1;
        }
        proof {
            assert forall|a: int| addr <= a && a + 8 <= addr + n implies #[trigger] self.word(a)
                == 0 by {
                self.lemma_zero_word(a);
            }
        }
    }

    /// Copies out the `n` bytes from `addr` on.
    pub fn read_bytes(&self, addr: usize, n: usize) -> (r: Vec<u8>)
        requires
            self.wf(),
            self.holds(addr as int, n as int),
        ensures
            r@.len() == n,
            forall|i: int| 0 <= i < n ==> r@[i] == self.byte(addr + i),
    {
        let mut out: Vec<u8> = Vec::new();
        let mut k: usize = 0;
        while k < n
            invariant
                k <= n,
                self.wf(),
                self.holds(addr as int, n as int),
                out@.len() == k,
                forall|i: int| 0 <= i < k ==> out@[i] == self.byte(addr + i),
            decreases n - k,
        {
            out.push(self.read_byte(addr + k));
            k = k + 1;
        }
        out
    }

    /// Stores `data` in the bytes from `addr` on.
    pub fn write_bytes(&mut self, addr: usize, data: &[u8])
        requires
            old(self).wf(),
            old(self).holds(addr as int, data@.len() as int),
        ensures
            final(self).wf(),
            final(self).same_except(old(self), addr as int, addr + data@.len()),
            forall|i: int| 0 <= i < data@.len() ==> final(self).byte(addr + i) == data@[i],
    {
        let n = data.len();
        let mut k: usize = 0;
        while k < n
            invariant
                k <= n,
                n == data@.len(),
                self.wf(),
                old(self).wf(),
                old(self).holds(addr as int, n as int),
                self.same_except(old(self), addr as int, addr + k),
                forall|i: int| 0 <= i < k ==> self.byte(addr + i) == data@[i],
            decreases n - k,
        {
            self.write_byte(addr + k, data[k]);
            k = k + 1;
        }
    }

    /// Copies the `n` bytes from `src` on to `dst`. The two ranges do not overlap.
    pub fn copy(&mut self, dst: usize, src: usize, n: usize)
        requires
            old(self).wf(),
            old(self).holds(dst as int, n as int),
            old(self).holds(src as int, n as int),
            dst + n <= src || src + n <= dst,
        ensures
            final(self).wf(),
            final(self).same_except(old(self), dst as int, dst + n),
            forall|a: int|
                dst <= a < dst + n ==> #[trigger] final(self).byte(a) == old(self).byte(
                    a - dst + src,
                ),
    {
        let mut k: usize = 0;
        while k < n
            invariant
                k <= n,
                self.wf(),
                old(self).wf(),
                old(self).holds(dst as int, n as int),
                old(self).holds(src as int, n as int),
                dst + n <= src || src + n <= dst,
                self.same_except(old(self), dst as int, dst + k),
                forall|a: int|
                    dst <= a < dst + k ==> #[trigger] self.byte(a) == old(self).byte(a - dst + src),
            decreases n - k,
        {
            let b = self.read_byte(src + k);
            assert(b == old(self).byte(src + k));
            self.write_byte(dst + k, b);
            k = k + 1;
        }
    }
}

} // verus!
