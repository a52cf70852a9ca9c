//! Bit cursor over a borrowed byte buffer.

use vstd::prelude::*;
use vstd::arithmetic::power2::{pow2, lemma2_to64, lemma_pow2_adds, lemma_pow2_pos, lemma_pow2_unfold};
use vstd::bits::{lemma_u32_shl_is_mul, lemma_u32_pow2_no_overflow};

verus! {

/// The byte at index `i`, or zero past the end of the buffer.
pub open spec fn byte_at(buf: Seq<u8>, i: int) -> u8 {
    if 0 <= i < buf.len() {
        buf[i]
    } else {
        0
    }
}

/// Bit `k` of the stream: bit `k % 8` (from the least significant end) of byte `k / 8`.
pub open spec fn bit_at(buf: Seq<u8>, k: nat) -> nat {
    ((byte_at(buf, (k / 8) as int) >> ((k % 8) as u8)) & 1u8) as nat
}

/// The unsigned value of the `n` bits starting at bit `k`; earlier bits are less significant.
pub open spec fn bits_val(buf: Seq<u8>, k: nat, n: nat) -> nat
    decreases n,
{
    if n == 0 {
        0
    } else {
        bit_at(buf, k) + 2 * bits_val(buf, k + 1, (n - 1) as nat)
    }
}

/// Two's-complement reading of an `n`-bit unsigned value.
pub open spec fn signed_of(n: nat, a: nat) -> int {
    if n > 0 && a >= pow2((n - 1) as nat) {
        a - pow2(n)
    } else {
        a as int
    }
}

/// The first byte boundary at or after bit `k`.
pub open spec fn aligned(k: nat) -> nat {
    if k % 8 == 0 {
        k
    } else {
        (k / 8 + 1) * 8
    }
}

/// Little-endian 32-bit word at byte index `i`.
pub open spec fn le32(buf: Seq<u8>, i: int) -> nat {
    (byte_at(buf, i) + 256 * byte_at(buf, i + 1) + 65536 * byte_at(buf, i + 2) + 16777216
        * byte_at(buf, i + 3)) as nat
}

/// Mask of the low `k` bits of a byte, as the reader computes it.
pub open spec fn low_mask(k: u8) -> u8 {
    if k == 8 {
        0xffu8
    } else {
        !(0xffu8 << k)
    }
}

/// An `n`-bit read is below `2^n`.
pub proof fn lemma_bits_val_bound(buf: Seq<u8>, k: nat, n: nat)
    ensures
        bits_val(buf, k, n) < pow2(n),
    decreases n,
{
    if n > 0 {
        lemma_bits_val_bound(buf, k + 1, (n - 1) as nat);
        lemma_pow2_unfold(n);
        let x = byte_at(buf, (k / 8) as int);
        let s = (k % 8) as u8;
        assert((x >> s) & 1u8 <= 1) by (bit_vector);
    } else {
        lemma2_to64();
    }
}

/// Reading `a + b` bits is reading `a` bits, then `b` more placed above them.
pub proof fn lemma_bits_val_split(buf: Seq<u8>, k: nat, a: nat, b: nat)
    ensures
        bits_val(buf, k, a + b) == bits_val(buf, k, a) + pow2(a) * bits_val(buf, k + a, b),
    decreases a,
{
    if a == 0 {
        lemma2_to64();
    } else {
        lemma_bits_val_split(buf, k + 1, (a - 1) as nat, b);
        lemma_pow2_unfold(a);
        assert((a - 1) as nat + b == (a + b - 1) as nat);
        let x = bits_val(buf, k + 1 + (a - 1) as nat, b);
        assert(k + 1 + (a - 1) as nat == k + a);
        assert(2 * (pow2((a - 1) as nat) * x) == pow2(a) * x) by (nonlinear_arith)
            requires
                pow2(a) == 2 * pow2((a - 1) as nat),
        ;
    }
}

proof fn lemma_mask_step(x: u8, s: u8, k: u8)
    by (bit_vector)
    requires
        1 <= k,
        s + k <= 8,
    ensures
        ((x >> s) & low_mask(k)) == ((x >> s) & 1u8) + 2 * ((x >> ((s + 1) as u8)) & low_mask(
            (k - 1) as u8,
        )),
{
}

/// The low `k` bits of a byte shifted right by `s` are the stream bits there.
proof fn lemma_byte_chunk(buf: Seq<u8>, pos: nat, s: u8, k: u8)
    requires
        s + k <= 8,
    ensures
        ((byte_at(buf, pos as int) >> s) & low_mask(k)) as nat == bits_val(
            buf,
            pos * 8 + s as nat,
            k as nat,
        ),
    decreases k,
{
    let x = byte_at(buf, pos as int);
    if k == 0 {
        assert((x >> s) & low_mask(0) == 0) by (bit_vector);
    } else {
        lemma_mask_step(x, s, k);
        if s + 1 < 8 {
            lemma_byte_chunk(buf, pos, (s + 1) as u8, (k - 1) as u8);
        } else {
            assert(k == 1);
            assert((x >> ((s + 1) as u8)) & low_mask(0) == 0) by (bit_vector);
        }
        let kk = pos * 8 + s as nat;
        assert(kk / 8 == pos && kk % 8 == s as nat) by (nonlinear_arith)
            requires
                kk == pos * 8 + s as nat,
                s < 8,
        ;
        assert(kk + 1 == pos * 8 + (s + 1) as nat);
        assert(((kk % 8) as u8) == s);
        assert(bit_at(buf, kk) == ((x >> s) & 1u8) as nat);
        assert(bits_val(buf, kk, k as nat) == bit_at(buf, kk) + 2 * bits_val(
            buf,
            kk + 1,
            (k - 1) as nat,
        ));
    }
}

proof fn lemma_or_below(res: u32, c: u32, p: u32)
    by (bit_vector)
    requires
        p < 32,
        res < (1u32 << p),
    ensures
        res | (c << p) == res + (c << p),
{
}

proof fn lemma_sign_extend(a: u32, b: u32, c: u32)
    by (bit_vector)
    requires
        1 <= b <= 31,
        c == b - 1,
        a < (1u32 << b),
        a >= (1u32 << c),
    ensures
        ((-1i32 << b) | (a as i32)) == a - (1u32 << b),
{
}

/// Width of the signed delta that a mode selector below 3 announces.
pub open spec fn delta_width(mode: nat) -> nat {
    if mode == 0 {
        3
    } else if mode == 1 {
        6
    } else {
        12
    }
}

/// `reference + d`, held to the range of `u32` (clamped at zero below).
pub open spec fn apply_delta(reference: u32, d: int) -> u32 {
    let v = reference + d;
    if v < 0 {
        0
    } else if v > u32::MAX {
        u32::MAX
    } else {
        v as u32
    }
}

/// The value of a delta-coded field of full width `b` at bit `k`: `None` when the
/// selector asks for a reference and there is none.
pub open spec fn delta_field(buf: Seq<u8>, k: nat, b: nat, reference: Option<u32>) -> Option<u32> {
    let mode = bits_val(buf, k, 2);
    if mode == 3 {
        Some(bits_val(buf, k + 2, b) as u32)
    } else {
        match reference {
            None => None,
            Some(r) => Some(
                apply_delta(
                    r,
                    signed_of(delta_width(mode), bits_val(buf, k + 2, delta_width(mode))),
                ),
            ),
        }
    }
}

/// The bit just past a delta-coded field of full width `b` at bit `k`.
pub open spec fn delta_field_end(buf: Seq<u8>, k: nat, b: nat) -> nat {
    let mode = bits_val(buf, k, 2);
    if mode == 3 {
        k + 2 + b
    } else {
        k + 2 + delta_width(mode)
    }
}

/// An `n`-bit two's-complement encoding of `v`.
pub open spec fn twos_complement(n: nat, v: int) -> nat {
    if v < 0 {
        (v + pow2(n)) as nat
    } else {
        v as nat
    }
}

/// Reading `n` bits and then `32 - n` bits gives the two halves of the 32-bit
/// value at the same place: the first read is its low `n` bits, the second its
/// high bits.
pub proof fn lemma_read_split_32(buf: Seq<u8>, k: nat, n: nat)
    requires
        n <= 32,
    ensures
        bits_val(buf, k, 32) == bits_val(buf, k, n) + pow2(n) * bits_val(
            buf,
            k + n,
            (32 - n) as nat,
        ),
{
    lemma_bits_val_split(buf, k, n, (32 - n) as nat);
}

/// Eight bits read at a byte boundary are that byte.
pub proof fn lemma_bits_val_byte(buf: Seq<u8>, i: nat)
    ensures
        bits_val(buf, i * 8, 8) == byte_at(buf, i as int),
{
    lemma_byte_chunk(buf, i, 0, 8);
    let x = byte_at(buf, i as int);
    assert((x >> 0u8) & low_mask(8) == x) by (bit_vector);
}

/// Thirty-two bits read at a byte boundary are the little-endian word there,
/// as `read_u32_aligned` returns it.
pub proof fn lemma_bits_val_word(buf: Seq<u8>, i: nat)
    ensures
        bits_val(buf, i * 8, 32) == le32(buf, i as int),
{
    lemma2_to64();
    lemma_bits_val_split(buf, i * 8, 8, 24);
    lemma_bits_val_split(buf, i * 8 + 8, 8, 16);
    lemma_bits_val_split(buf, i * 8 + 16, 8, 8);
    lemma_bits_val_byte(buf, i);
    lemma_bits_val_byte(buf, i + 1);
    lemma_bits_val_byte(buf, i + 2);
    lemma_bits_val_byte(buf, i + 3);
    assert(i * 8 + 8 == (i + 1) * 8);
    assert(i * 8 + 16 == (i + 2) * 8);
    assert(i * 8 + 24 == (i + 3) * 8);
}

/// Aligning an aligned cursor leaves it where it is.
pub proof fn lemma_align_idempotent(k: nat)
    ensures
        aligned(aligned(k)) == aligned(k),
        aligned(k) % 8 == 0,
        k <= aligned(k) < k + 8,
{
}

/// Every value that fits in `n` bits as a two's-complement number reads back
/// as itself from its encoding.
pub proof fn lemma_signed_round_trip(n: nat, v: int)
    requires
        2 <= n <= 16,
        -pow2((n - 1) as nat) <= v < pow2((n - 1) as nat),
    ensures
        twos_complement(n, v) < pow2(n),
        signed_of(n, twos_complement(n, v)) == v,
{
    lemma_pow2_unfold(n);
    lemma_pow2_pos((n - 1) as nat);
}

/// An absolute field (selector 3) decodes to its `b`-bit value whatever the
/// reference; a delta field (selector 0, 1 or 2) with a reference `r` decodes to
/// `max(0, r + d)` for its signed delta `d`, as long as that fits in a `u32`.
pub proof fn lemma_delta_field_values(buf: Seq<u8>, k: nat, b: nat, r: u32, other: Option<u32>)
    ensures
        bits_val(buf, k, 2) == 3 ==> delta_field(buf, k, b, Some(r)) == Some(
            bits_val(buf, k + 2, b) as u32,
        ) && delta_field(buf, k, b, other) == delta_field(buf, k, b, Some(r)),
        ({
            let mode = bits_val(buf, k, 2);
            let d = signed_of(delta_width(mode), bits_val(buf, k + 2, delta_width(mode)));
            mode < 3 && r + d <= u32::MAX ==> delta_field(buf, k, b, Some(r)) == Some(
                (if r + d < 0 {
                    0
                } else {
                    r + d
                }) as u32,
            )
        }),
{
}

/// Cursor over a byte buffer: a byte index and a bit index within that byte.
pub struct HQMMessageReader<'a> {
    buf: &'a [u8],
    pos: usize,
    bit_pos: u8,
}

impl<'a> HQMMessageReader<'a> {
    /// The buffer being read.
    pub closed spec fn bytes(&self) -> Seq<u8> {
        self.buf@
    }

    /// The cursor as an absolute bit index.
    pub closed spec fn offset(&self) -> nat {
        self.pos as nat * 8 + self.bit_pos as nat
    }

    /// The byte index of the cursor.
    pub closed spec fn byte_pos(&self) -> nat {
        self.pos as nat
    }

    /// The byte index can grow by `n` without overflow.
    pub open spec fn has_room(&self, n: nat) -> bool {
        self.byte_pos() + n <= usize::MAX
    }

    pub closed spec fn wf(&self) -> bool {
        self.bit_pos < 8
    }

    pub proof fn lemma_byte_pos(&self)
        requires
            self.wf(),
        ensures
            self.byte_pos() == self.offset() / 8,
    {
        let p = self.pos as nat;
        let b = self.bit_pos as nat;
        assert((p * 8 + b) / 8 == p) by (nonlinear_arith)
            requires
                b < 8,
        ;
    }

    pub fn new(buf: &'a [u8]) -> (r: Self)
        ensures
            r.wf(),
            r.bytes() == buf@,
            r.offset() == 0,
    {
        HQMMessageReader { buf, pos: 0, bit_pos: 0 }
    }

    /// Byte index of the cursor.
    pub fn pos(&self) -> (r: usize)
        ensures
            r as nat == self.byte_pos(),
    {
        self.pos
    }

    fn safe_get_byte(&self, pos: usize) -> (r: u8)
        ensures
            r == byte_at(self.bytes(), pos as int),
    {
        if pos < self.buf.len() {
            self.buf[pos]
        } else {
            0
        }
    }

    /// Moves the cursor to the next byte boundary, unless it is on one.
    pub fn align(&mut self)
        requires
            old(self).wf(),
            old(self).has_room(8),
        ensures
            final(self).wf(),
            final(self).bytes() == old(self).bytes(),
            final(self).offset() == aligned(old(self).offset()),
            old(self).offset() % 8 == 0 ==> final(self).offset() == old(self).offset(),
            final(self).byte_pos() <= old(self).byte_pos() + 1,
    {
        proof {
            self.lemma_byte_pos();
        }
        if self.bit_pos > 0 {
            self.bit_pos = 0;
            self.pos += 1;
        }
    }

    /// Skips to the start of the next byte, even when already on a boundary.
    pub fn next(&mut self)
        requires
            old(self).wf(),
            old(self).has_room(8),
        ensures
            final(self).wf(),
            final(self).bytes() == old(self).bytes(),
            final(self).offset() == (old(self).offset() / 8 + 1) * 8,
            final(self).byte_pos() == old(self).byte_pos() + 1,
    {
        proof {
            self.lemma_byte_pos();
        }
        self.pos += 1;
        self.bit_pos = 0;
    }

    pub fn read_byte_aligned(&mut self) -> (r: u8)
        requires
            old(self).wf(),
            old(self).has_room(8),
        ensures
            final(self).wf(),
            final(self).bytes() == old(self).bytes(),
            r == byte_at(old(self).bytes(), (aligned(old(self).offset()) / 8) as int),
            final(self).offset() == aligned(old(self).offset()) + 8,
            final(self).byte_pos() <= old(self).byte_pos() + 2,
    {
        self.align();
        proof {
            self.lemma_byte_pos();
        }
        let res = self.safe_get_byte(self.pos);
        self.pos = self.pos + 1;
        res
    }

    pub fn read_u32_aligned(&mut self) -> (r: u32)
        requires
            old(self).wf(),
            old(self).has_room(8),
        ensures
            final(self).wf(),
            final(self).bytes() == old(self).bytes(),
            r as nat == le32(old(self).bytes(), (aligned(old(self).offset()) / 8) as int),
            final(self).offset() == aligned(old(self).offset()) + 32,
            final(self).byte_pos() <= old(self).byte_pos() + 5,
    {
        self.align();
        proof {
            self.lemma_byte_pos();
        }
        let b1: u32 = self.safe_get_byte(self.pos) as u32;
        let b2: u32 = self.safe_get_byte(self.pos + 1) as u32;
        let b3: u32 = self.safe_get_byte(self.pos + 2) as u32;
        let b4: u32 = self.safe_get_byte(self.pos + 3) as u32;
        self.pos = self.pos + 4;
        assert(b1 | b2 << 8 | b3 << 16 | b4 << 24 == b1 + 256 * b2 + 65536 * b3 + 16777216 * b4)
            by (bit_vector)
            requires
                b1 < 256,
                b2 < 256,
                b3 < 256,
                b4 < 256,
        ;
        b1 | b2 << 8 | b3 << 16 | b4 << 24
    }

    /// Reads `b` bits; earlier bits land in the less significant places.
    pub fn read_bits(&mut self, b: u8) -> (r: u32)
        requires
            old(self).wf(),
            b <= 32,
            old(self).has_room(8),
        ensures
            final(self).wf(),
            final(self).bytes() == old(self).bytes(),
            r as nat == bits_val(old(self).bytes(), old(self).offset(), b as nat),
            final(self).offset() == old(self).offset() + b,
            final(self).byte_pos() <= old(self).byte_pos() + 4,
    {
        let ghost buf = self.bytes();
        let ghost start = self.offset();
        proof {
            self.lemma_byte_pos();
        }
        let mut bits_remaining: u8 = b;
        let mut res: u32 = 0;
        let mut p: u32 = 0;
        while bits_remaining > 0
            invariant
                self.wf(),
                self.bytes() == buf,
                start == old(self).offset(),
                old(self).byte_pos() == start / 8,
                old(self).has_room(8),
                p + bits_remaining == b,
                b <= 32,
                self.offset() == start + p,
                res as nat == bits_val(buf, start, p as nat),
            decreases bits_remaining,
        {
            proof {
                self.lemma_byte_pos();
                assert(self.byte_pos() <= old(self).byte_pos() + 4);
            }
            let bits_possible_to_write: u8 = 8 - self.bit_pos;
            let bits: u8 = if bits_remaining < bits_possible_to_write {
                bits_remaining
            } else {
                bits_possible_to_write
            };
            let mask: u8 = if bits == 8 {
                u8::MAX
            } else {
                !(u8::MAX << bits)
            };
            let byte = self.safe_get_byte(self.pos);
            let a: u8 = (byte >> self.bit_pos) & mask;
            let a: u32 = a as u32;
            proof {
                assert(mask == low_mask(bits));
                lemma_byte_chunk(buf, self.pos as nat, self.bit_pos, bits);
                lemma_bits_val_bound(buf, start, p as nat);
                lemma_bits_val_bound(buf, self.offset(), bits as nat);
                lemma_bits_val_split(buf, start, p as nat, bits as nat);
                lemma_pow2_adds(p as nat, bits as nat);
                lemma_pow2_pos(p as nat);
                lemma2_to64();
                assert(pow2((p + bits) as nat) <= pow2(32)) by {
                    if p + bits < 32 {
                        vstd::arithmetic::power2::lemma_pow2_strictly_increases(
                            (p + bits) as nat,
                            32,
                        );
                    }
                }
                assert(a * pow2(p as nat) < pow2(bits as nat) * pow2(p as nat)) by (nonlinear_arith)
                    requires
                        a < pow2(bits as nat),
                        pow2(p as nat) > 0,
                ;
                lemma_u32_shl_is_mul(a, p);
                lemma_u32_shl_is_mul(1u32, p);
                lemma_or_below(res, a, p);
                assert(a as nat == bits_val(buf, start + p as nat, bits as nat));
                assert(a * pow2(p as nat) == pow2(p as nat) * a) by (nonlinear_arith);
                assert((res | (a << p)) as nat == bits_val(buf, start, (p + bits) as nat));
            }
            res = res | (a << p);
            if bits_remaining >= bits_possible_to_write {
                bits_remaining -= bits_possible_to_write;
                self.bit_pos = 0;
                self.pos += 1;
                p += bits as u32;
            } else {
                self.bit_pos += bits_remaining;
                p += bits as u32;
                bits_remaining = 0;
            }
        }
        proof {
            self.lemma_byte_pos();
        }
        res
    }

    /// Reads `b` bits as a two's-complement number; a width of zero reads nothing
    /// and gives zero.
    pub fn read_bits_signed(&mut self, b: u8) -> (r: i32)
        requires
            old(self).wf(),
            b <= 31,
            old(self).has_room(8),
        ensures
            final(self).wf(),
            final(self).bytes() == old(self).bytes(),
            r as int == signed_of(b as nat, bits_val(old(self).bytes(), old(self).offset(), b as nat)),
            b == 0 ==> r == 0,
            final(self).offset() == old(self).offset() + b,
            final(self).byte_pos() <= old(self).byte_pos() + 4,
    {
        if b == 0 {
            return 0;
        }
        let a = self.read_bits(b);
        proof {
            lemma_bits_val_bound(old(self).bytes(), old(self).offset(), b as nat);
            lemma_u32_pow2_no_overflow(b as nat);
            lemma_u32_pow2_no_overflow((b - 1) as nat);
            lemma_u32_shl_is_mul(1u32, b as u32);
            lemma_u32_shl_is_mul(1u32, (b - 1) as u32);
            lemma_pow2_unfold(b as nat);
            lemma_pow2_pos(b as nat);
            lemma2_to64();
            if b < 31 {
                vstd::arithmetic::power2::lemma_pow2_strictly_increases(b as nat, 31);
            }
            assert(a < 0x8000_0000);
        }
        if a >= 1 << (b - 1) {
            proof {
                lemma_sign_extend(a, b as u32, (b - 1) as u32);
            }
            (-1i32 << b) | (a as i32)
        } else {
            a as i32
        }
    }

    /// Reads a delta-coded field: a 2-bit selector, then a 3-, 6- or 12-bit signed
    /// delta from `old_value`, or (selector 3) the absolute `b`-bit value.
    /// Returns `None` when a delta arrives without a reference.
    pub fn read_pos(&mut self, b: u8, old_value: Option<u32>) -> (r: Option<u32>)
        requires
            old(self).wf(),
            b <= 32,
            old(self).has_room(16),
        ensures
            final(self).wf(),
            final(self).bytes() == old(self).bytes(),
            r == delta_field(old(self).bytes(), old(self).offset(), b as nat, old_value),
            final(self).offset() == delta_field_end(old(self).bytes(), old(self).offset(), b as nat),
            final(self).byte_pos() <= old(self).byte_pos() + 5,
    {
        let ghost buf = self.bytes();
        let ghost k = self.offset();
        let pos_type = self.read_bits(2);
        proof {
            lemma_bits_val_bound(buf, k, 2);
            lemma2_to64();
            lemma_bits_val_bound(buf, k + 2, b as nat);
            self.lemma_byte_pos();
            old(self).lemma_byte_pos();
            assert(self.byte_pos() <= old(self).byte_pos() + 1);
        }
        if pos_type == 3 {
            let v = self.read_bits(b);
            proof {
                self.lemma_byte_pos();
                assert(self.byte_pos() <= old(self).byte_pos() + 5);
            }
            Some(v)
        } else {
            let width: u8 = if pos_type == 0 {
                3
            } else if pos_type == 1 {
                6
            } else {
                12
            };
            let diff = self.read_bits_signed(width);
            proof {
                self.lemma_byte_pos();
                assert(self.byte_pos() <= old(self).byte_pos() + 5);
            }
            match old_value {
                None => None,
                Some(o) => {
                    let v: i64 = o as i64 + diff as i64;
                    if v < 0 {
                        Some(0)
                    } else if v > u32::MAX as i64 {
                        Some(u32::MAX)
                    } else {
                        Some(v as u32)
                    }
                },
            }
        }
    }
}

} // verus!
