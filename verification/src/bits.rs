//! Bit-level helpers shared by the bitfield units, the commit masks and
//! the segment address map: reading and writing a single bit of a machine
//! word, and relating a word to the sequence of its bits.

use vstd::prelude::*;
use vstd::arithmetic::power2::pow2;

verus! {

/// Bit `i` of the 64-bit word `w`.
pub open spec fn u64_bit(w: u64, i: int) -> bool {
    0 <= i < 64 && ((w >> (i as u64)) & 1) == 1
}

/// Bit `i` of the byte `b`.
pub open spec fn u8_bit(b: u8, i: int) -> bool {
    0 <= i < 8 && ((b >> (i as u8)) & 1) == 1
}

pub proof fn lemma_u64_zero_bits()
    ensures
        forall|j: int| !u64_bit(0u64, j),
{
    assert forall|j: int| !u64_bit(0u64, j) by {
        if 0 <= j < 64 {
            let jv = j as u64;
            assert((0u64 >> jv) & 1 == 0) by (bit_vector);
        }
    }
}

pub proof fn lemma_u64_ones_bits()
    ensures
        forall|j: int| 0 <= j < 64 ==> u64_bit(0xffff_ffff_ffff_ffffu64, j),
{
    assert forall|j: int| 0 <= j < 64 implies u64_bit(0xffff_ffff_ffff_ffffu64, j) by {
        let jv = j as u64;
        assert(jv < 64 ==> (0xffff_ffff_ffff_ffffu64 >> jv) & 1 == 1) by (bit_vector);
    }
}

pub proof fn lemma_u8_zero_bits()
    ensures
        forall|j: int| !u8_bit(0u8, j),
{
    assert forall|j: int| !u8_bit(0u8, j) by {
        if 0 <= j < 8 {
            let jv = j as u8;
            assert(jv < 8 ==> (0u8 >> jv) & 1 == 0) by (bit_vector);
        }
    }
}

/// Two words with the same bits are the same word.
pub proof fn lemma_u64_bits_determine(x: u64, y: u64)
    requires
        forall|j: int| 0 <= j < 64 ==> u64_bit(x, j) == u64_bit(y, j),
    ensures
        x == y,
{
    lemma_u64_shr_agree(x, y, 64);
    assert(x >> 0u64 == x && y >> 0u64 == y) by (bit_vector);
}

proof fn lemma_u64_shr_agree(x: u64, y: u64, n: u64)
    requires
        n <= 64,
        forall|j: int| 0 <= j < 64 ==> u64_bit(x, j) == u64_bit(y, j),
    ensures
        x >> (64 - n) == y >> (64 - n),
    decreases n,
{
    if n == 0 {
        assert(x >> 64u64 == 0 && y >> 64u64 == 0) by (bit_vector);
    } else {
        let m = (64 - n) as u64;
        lemma_u64_shr_agree(x, y, (n - 1) as u64);
        assert(x >> ((64 - (n - 1)) as u64) == x >> (m + 1) as u64);
        assert(u64_bit(x, m as int) == u64_bit(y, m as int));
        assert((x >> m) & 1 < 2 && (y >> m) & 1 < 2) by (bit_vector);
        assert((x >> m) & 1 == (y >> m) & 1);
        assert(m < 64 ==> x >> m == 2 * (x >> (m + 1) as u64) + ((x >> m) & 1)) by (bit_vector);
        assert(m < 64 ==> y >> m == 2 * (y >> (m + 1) as u64) + ((y >> m) & 1)) by (bit_vector);
    }
}

pub fn u64_get_bit(w: u64, i: usize) -> (b: bool)
    requires
        i < 64,
    ensures
        b == u64_bit(w, i as int),
{
    (w >> (i as u64)) & 1 == 1
}

pub fn u64_set_bit(w: u64, i: usize, v: bool) -> (r: u64)
    requires
        i < 64,
    ensures
        forall|j: int| #[trigger] u64_bit(r, j) == (if j == i as int { v } else { u64_bit(w, j) }),
{
    let iv = i as u64;
    let r = if v { w | (1u64 << iv) } else { w & !(1u64 << iv) };
    proof {
        assert forall|j: int| #[trigger] u64_bit(r, j)
            == (if j == i as int { v } else { u64_bit(w, j) }) by {
            if 0 <= j < 64 {
                let jv = j as u64;
                if v {
                    assert(iv < 64 && jv < 64 ==> ((w | (1u64 << iv)) >> jv) & 1
                        == (if jv == iv { 1u64 } else { (w >> jv) & 1 })) by (bit_vector);
                } else {
                    assert(iv < 64 && jv < 64 ==> ((w & !(1u64 << iv)) >> jv) & 1
                        == (if jv == iv { 0u64 } else { (w >> jv) & 1 })) by (bit_vector);
                }
            }
        }
    }
    r
}

pub fn u8_get_bit(b: u8, i: usize) -> (r: bool)
    requires
        i < 8,
    ensures
        r == u8_bit(b, i as int),
{
    (b >> (i as u8)) & 1 == 1
}

pub fn u8_set_bit(b: u8, i: usize, v: bool) -> (r: u8)
    requires
        i < 8,
    ensures
        forall|j: int| #[trigger] u8_bit(r, j) == (if j == i as int { v } else { u8_bit(b, j) }),
{
    let iv = i as u8;
    let r = if v { b | (1u8 << iv) } else { b & !(1u8 << iv) };
    proof {
        assert forall|j: int| #[trigger] u8_bit(r, j)
            == (if j == i as int { v } else { u8_bit(b, j) }) by {
            if 0 <= j < 8 {
                let jv = j as u8;
                if v {
                    assert(iv < 8 && jv < 8 ==> ((b | (1u8 << iv)) >> jv) & 1
                        == (if jv == iv { 1u8 } else { (b >> jv) & 1 })) by (bit_vector);
                } else {
                    assert(iv < 8 && jv < 8 ==> ((b & !(1u8 << iv)) >> jv) & 1
                        == (if jv == iv { 0u8 } else { (b >> jv) & 1 })) by (bit_vector);
                }
            }
        }
    }
    r
}

/// Setting a bit that lands beyond the value of a word adds the bit's weight.
pub proof fn lemma_u64_or_pow2(acc: u64, i: u64)
    requires
        i < 64,
        acc < (1u64 << i),
    ensures
        (acc | (1u64 << i)) == acc + pow2(i as nat),
        acc + pow2(i as nat) < pow2((i + 1) as nat),
{
    vstd::bits::lemma_u64_pow2_no_overflow(i as nat);
    vstd::bits::lemma_u64_shl_is_mul(1u64, i);
    assert(acc < (1u64 << i) ==> (acc | (1u64 << i)) == acc + (1u64 << i)) by (bit_vector);
    vstd::arithmetic::power2::lemma_pow2_unfold((i + 1) as nat);
}

/// Low bit of a word as a boolean.
pub proof fn lemma_u64_bit0(v: u64)
    ensures
        u64_bit(v, 0) == (v & 1 == 1),
{
    assert((v >> 0u64) & 1 == v & 1) by (bit_vector);
}

/// Value of the `w`-bit field that starts at bit `off` of byte `b`,
/// least significant bit first.
pub open spec fn u8_field(b: u8, off: int, w: int) -> nat
    decreases w,
{
    if w <= 0 {
        0
    } else {
        (if u8_bit(b, off) {
            1nat
        } else {
            0nat
        }) + 2 * u8_field(b, off + 1, w - 1)
    }
}

/// A field only depends on the bits it covers.
pub proof fn lemma_u8_field_congruence(b1: u8, b2: u8, off: int, w: int)
    requires
        forall|i: int| off <= i < off + w ==> u8_bit(b1, i) == u8_bit(b2, i),
    ensures
        u8_field(b1, off, w) == u8_field(b2, off, w),
    decreases w,
{
    if w > 0 {
        lemma_u8_field_congruence(b1, b2, off + 1, w - 1);
    }
}

/// Peeling the most significant bit off a field.
pub proof fn lemma_u8_field_split_high(b: u8, off: int, w: int)
    requires
        w >= 1,
    ensures
        u8_field(b, off, w) == u8_field(b, off, w - 1) + (if u8_bit(b, off + w - 1) {
            pow2((w - 1) as nat)
        } else {
            0nat
        }),
    decreases w,
{
    if w == 1 {
        assert(pow2(0) == 1) by {
            vstd::arithmetic::power2::lemma2_to64();
        }
        assert(u8_field(b, off + 1, 0) == 0);
        assert(u8_field(b, off, 0) == 0);
    } else {
        lemma_u8_field_split_high(b, off + 1, w - 1);
        vstd::arithmetic::power2::lemma_pow2_unfold((w - 1) as nat);
        assert(u8_field(b, off, w) == (if u8_bit(b, off) {
            1nat
        } else {
            0nat
        }) + 2 * u8_field(b, off + 1, w - 1));
        assert(u8_field(b, off, w - 1) == (if u8_bit(b, off) {
            1nat
        } else {
            0nat
        }) + 2 * u8_field(b, off + 1, w - 2));
    }
}

/// A `w`-bit field is below `pow2(w)`.
pub proof fn lemma_u8_field_bound(b: u8, off: int, w: int)
    requires
        w >= 0,
    ensures
        u8_field(b, off, w) < pow2(w as nat),
    decreases w,
{
    if w == 0 {
        assert(pow2(0) == 1) by {
            vstd::arithmetic::power2::lemma2_to64();
        }
    } else {
        lemma_u8_field_bound(b, off + 1, w - 1);
        vstd::arithmetic::power2::lemma_pow2_unfold(w as nat);
    }
}

/// A field whose bits agree with the bits of a small value equals that value.
pub proof fn lemma_u8_field_of_bits(b: u8, off: int, w: int, v: u64)
    requires
        0 <= w <= 63,
        v < pow2(w as nat),
        forall|i: int| 0 <= i < w ==> u8_bit(b, off + i) == u64_bit(v, i),
    ensures
        u8_field(b, off, w) == v,
    decreases w,
{
    if w == 0 {
        assert(pow2(0) == 1) by {
            vstd::arithmetic::power2::lemma2_to64();
        }
    } else {
        let v1 = v >> 1u64;
        assert(v == 2 * (v >> 1u64) + (v & 1)) by (bit_vector);
        assert(forall|i: u64| i < 63 ==> ((v >> 1u64) >> i) & 1 == (v >> (i + 1)) & 1)
            by (bit_vector);
        assert forall|i: int| 0 <= i < w - 1 implies u8_bit(b, off + 1 + i) == u64_bit(v1, i) by {
            assert(u8_bit(b, off + (i + 1)) == u64_bit(v, i + 1));
        }
        assert(v1 < pow2((w - 1) as nat)) by {
            vstd::bits::lemma_u64_shr_is_div(v, 1);
            vstd::arithmetic::power2::lemma_pow2_unfold(w as nat);
        }
        lemma_u8_field_of_bits(b, off + 1, (w - 1) as int, v1);
        lemma_u64_bit0(v);
        assert(u8_bit(b, off + 0) == u64_bit(v, 0));
        assert(v & 1 < 2) by (bit_vector);
        assert(u8_field(b, off, w) == (if u8_bit(b, off) {
            1nat
        } else {
            0nat
        }) + 2 * u8_field(b, off + 1, w - 1));
    }
}

} // verus!
