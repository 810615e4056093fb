//! Bit-level model of a message buffer.
//!
//! A frame is a sequence of bytes; a signal is a run of bits within it.
//! Little-endian numbering counts bit `p` as bit `p % 8` of byte `p / 8`,
//! least significant first.  Big-endian numbering descends from the most
//! significant bit of each byte; `be_index` maps a schema start bit to a
//! linear index `m` such that the signal occupies `m, m + 1, ...` in
//! most-significant-first order.

use vstd::prelude::*;
use vstd::arithmetic::power2::pow2;

verus! {

/// Bit `i` (0 = least significant) of byte `b`.
pub open spec fn bit_u8(b: u8, i: u64) -> bool {
    (b >> i) & 1 == 1
}

/// Bit `k` (0 = least significant) of a 64-bit value.
pub open spec fn bit_u64(v: u64, k: u64) -> bool {
    (v >> k) & 1 == 1
}

/// Little-endian bit numbering over a byte buffer.
pub open spec fn le_bit(data: Seq<u8>, p: nat) -> bool
    recommends
        p < 8 * data.len(),
{
    bit_u8(data[p as int / 8], (p % 8) as u64)
}

/// Linear most-significant-first bit numbering over a byte buffer.
pub open spec fn be_bit(data: Seq<u8>, m: nat) -> bool
    recommends
        m < 8 * data.len(),
{
    bit_u8(data[m as int / 8], (7 - m % 8) as u64)
}

/// The linear most-significant-first index of a big-endian start bit.
pub open spec fn be_index(start: nat) -> nat {
    (8 * (start / 8) + 7 - start % 8) as nat
}

/// The raw value of a little-endian signal: bit `k` of the result is
/// buffer bit `start + k`.
pub open spec fn le_raw(data: Seq<u8>, start: nat, width: nat) -> nat
    decreases width,
{
    if width == 0 {
        0
    } else {
        le_raw(data, start, (width - 1) as nat) + if le_bit(
            data,
            (start + width - 1) as nat,
        ) {
            pow2((width - 1) as nat)
        } else {
            0
        }
    }
}

/// The raw value of a big-endian signal starting at linear index `m`:
/// the first bit is the most significant of the result.
pub open spec fn be_raw(data: Seq<u8>, m: nat, width: nat) -> nat
    decreases width,
{
    if width == 0 {
        0
    } else {
        2 * be_raw(data, m, (width - 1) as nat) + if be_bit(data, (m + width - 1) as nat) {
            1nat
        } else {
            0nat
        }
    }
}

/// The value `raw` (of `width` bits) sign-extended into a 64-bit container.
pub open spec fn sign_extend64(raw: nat, width: nat) -> nat
    recommends
        1 <= width <= 64,
        raw < pow2(width),
{
    if raw >= pow2((width - 1) as nat) {
        (raw + pow2(64) - pow2(width)) as nat
    } else {
        raw
    }
}

/// The signed reading of a two's complement 64-bit pattern.
pub open spec fn as_signed64(v: nat) -> int
    recommends
        v < pow2(64),
{
    if v >= pow2(63) {
        v - pow2(64)
    } else {
        v as int
    }
}

/// The signed value of `raw` interpreted as a `width`-bit two's complement field.
pub open spec fn signed_value(raw: nat, width: nat) -> int
    recommends
        1 <= width <= 64,
        raw < pow2(width),
{
    if raw >= pow2((width - 1) as nat) {
        raw - pow2(width)
    } else {
        raw as int
    }
}

/// `pow2(s)` and `1u64 << s` name the same value for shifts below 64.
pub proof fn lemma_pow2_shl(s: u64)
    requires
        s < 64,
    ensures
        pow2(s as nat) == 1u64 << s,
{
    vstd::bits::lemma_u64_pow2_no_overflow(s as nat);
    vstd::bits::lemma_u64_shl_is_mul(1u64, s);
}

/// A `width`-bit raw value is below `pow2(width)`.
pub proof fn lemma_le_raw_bound(data: Seq<u8>, start: nat, width: nat)
    ensures
        le_raw(data, start, width) < pow2(width),
    decreases width,
{
    vstd::arithmetic::power2::lemma_pow2_pos(width);
    if width > 0 {
        lemma_le_raw_bound(data, start, (width - 1) as nat);
        vstd::arithmetic::power2::lemma_pow2_unfold(width);
    }
}

/// A `width`-bit big-endian raw value is below `pow2(width)`.
pub proof fn lemma_be_raw_bound(data: Seq<u8>, m: nat, width: nat)
    ensures
        be_raw(data, m, width) < pow2(width),
    decreases width,
{
    vstd::arithmetic::power2::lemma_pow2_pos(width);
    if width > 0 {
        lemma_be_raw_bound(data, m, (width - 1) as nat);
        vstd::arithmetic::power2::lemma_pow2_unfold(width);
    }
}

proof fn lemma_eq_low_bits(a: u64, b: u64, n: u64)
    requires
        n <= 63,
        forall|k: u64| k < n ==> bit_u64(a, k) == bit_u64(b, k),
    ensures
        a & (((1u64 << n) - 1) as u64) == b & (((1u64 << n) - 1) as u64),
    decreases n,
{
    if n == 0 {
        assert(a & (((1u64 << 0) - 1) as u64) == b & (((1u64 << 0) - 1) as u64)) by (bit_vector);
    } else {
        let m = (n - 1) as u64;
        lemma_eq_low_bits(a, b, m);
        assert(bit_u64(a, m) == bit_u64(b, m));
        assert(a & (((1u64 << n) - 1) as u64) == b & (((1u64 << n) - 1) as u64)) by (bit_vector)
            requires
                n <= 63,
                m == n - 1,
                a & (((1u64 << m) - 1) as u64) == b & (((1u64 << m) - 1) as u64),
                ((a >> m) & 1 == 1) == ((b >> m) & 1 == 1),
        ;
    }
}

/// Two 64-bit values with the same bits are the same value.
pub proof fn lemma_u64_from_bits(a: u64, b: u64)
    requires
        forall|k: u64| k < 64 ==> bit_u64(a, k) == bit_u64(b, k),
    ensures
        a == b,
{
    lemma_eq_low_bits(a, b, 63);
    assert(bit_u64(a, 63) == bit_u64(b, 63));
    assert(a == b) by (bit_vector)
        requires
            a & (((1u64 << 63) - 1) as u64) == b & (((1u64 << 63) - 1) as u64),
            ((a >> 63) & 1 == 1) == ((b >> 63) & 1 == 1),
    ;
}

proof fn lemma_add_pow2_bit(a: u64, s: u64, k: u64)
    by (bit_vector)
    requires
        s < 64,
        k < 64,
        a < (1u64 << s),
    ensures
        a + (1u64 << s) <= u64::MAX,
        bit_u64((a + (1u64 << s)) as u64, k) == (k == s || bit_u64(a, k)),
{
}

proof fn lemma_double_add_bit(a: u64, c: u64, k: u64)
    by (bit_vector)
    requires
        a < (1u64 << 63),
        c <= 1,
        k < 64,
    ensures
        2 * a + c <= u64::MAX,
        bit_u64((2 * a + c) as u64, k) == (if k == 0 {
            c == 1
        } else {
            bit_u64(a, (k - 1) as u64)
        }),
{
}

/// Bit `k` of a little-endian raw value is buffer bit `start + k`.
pub proof fn lemma_le_raw_bit(data: Seq<u8>, start: nat, width: nat, k: u64)
    requires
        width <= 64,
        k < 64,
    ensures
        bit_u64(le_raw(data, start, width) as u64, k) == (k < width && le_bit(
            data,
            start + k as nat,
        )),
    decreases width,
{
    lemma_le_raw_bound(data, start, width);
    if width < 64 {
        vstd::arithmetic::power2::lemma_pow2_strictly_increases(width, 64);
    }
    if width == 0 {
        assert((0u64 >> k) & 1 != 1) by (bit_vector);
    } else {
        let prev = le_raw(data, start, (width - 1) as nat);
        lemma_le_raw_bound(data, start, (width - 1) as nat);
        lemma_le_raw_bit(data, start, (width - 1) as nat, k);
        let s = (width - 1) as u64;
        lemma_pow2_shl(s);
        if le_bit(data, (start + width - 1) as nat) {
            lemma_add_pow2_bit(prev as u64, s, k);
        }
    }
}

/// Bit `k` of a big-endian raw value is buffer bit `m + width - 1 - k`.
pub proof fn lemma_be_raw_bit(data: Seq<u8>, m: nat, width: nat, k: u64)
    requires
        width <= 64,
        k < 64,
    ensures
        bit_u64(be_raw(data, m, width) as u64, k) == (k < width && be_bit(
            data,
            (m + width - 1 - k) as nat,
        )),
    decreases width,
{
    lemma_be_raw_bound(data, m, width);
    if width < 64 {
        vstd::arithmetic::power2::lemma_pow2_strictly_increases(width, 64);
    }
    if width == 0 {
        assert((0u64 >> k) & 1 != 1) by (bit_vector);
    } else {
        let prev = be_raw(data, m, (width - 1) as nat);
        lemma_be_raw_bound(data, m, (width - 1) as nat);
        if width - 1 < 63 {
            vstd::arithmetic::power2::lemma_pow2_strictly_increases((width - 1) as nat, 63);
        }
        lemma_pow2_shl(63);
        let c: u64 = if be_bit(data, (m + width - 1) as nat) {
            1u64
        } else {
            0u64
        };
        lemma_double_add_bit(prev as u64, c, k);
        if k > 0 {
            lemma_be_raw_bit(data, m, (width - 1) as nat, (k - 1) as u64);
        }
    }
}

/// Bits of `v | ((b as u64) << s)`: the original bits, with the byte's bits
/// appearing at positions `s..s + 8`.
pub proof fn lemma_or_shl_byte(v: u64, b: u8, s: u64, k: u64)
    by (bit_vector)
    requires
        s < 64,
        k < 64,
    ensures
        bit_u64(v | ((b as u64) << s), k) == (bit_u64(v, k) || (s <= k < s + 8 && bit_u8(
            b,
            (k - s) as u64,
        ))),
{
}

/// Bits of `v | ((b as u64) >> s)`.
pub proof fn lemma_or_shr_byte(v: u64, b: u8, s: u64, k: u64)
    by (bit_vector)
    requires
        s < 8,
        k < 64,
    ensures
        bit_u64(v | ((b as u64) >> s), k) == (bit_u64(v, k) || (k + s < 8 && bit_u8(
            b,
            (k + s) as u64,
        ))),
{
}

/// Bits of a right-shifted byte widened to 64 bits.
pub proof fn lemma_byte_shr(b: u8, s: u64, k: u64)
    by (bit_vector)
    requires
        s < 8,
        k < 64,
    ensures
        bit_u64((b as u64) >> s, k) == (k + s < 8 && bit_u8(b, (k + s) as u64)),
{
}

/// Bits of a masked 64-bit value: the mask keeps the low `w` bits.
pub proof fn lemma_mask64(x: u64, w: u64, k: u64)
    by (bit_vector)
    requires
        w < 64,
        k < 64,
    ensures
        bit_u64(x & (((1u64 << w) - 1) as u64), k) == (k < w && bit_u64(x, k)),
{
}

/// Bits of a masked byte: the mask keeps the low `r` bits.
pub proof fn lemma_mask8(b: u8, r: u64, j: u64)
    by (bit_vector)
    requires
        r < 8,
        j < 8,
    ensures
        bit_u8(b & (((1u8 << r) - 1) as u8), j) == (j < r && bit_u8(b, j)),
{
}

/// Bits of `(v << 8) | b`, the step that accumulates one more byte of a
/// big-endian value.
pub proof fn lemma_shl8_or_byte(v: u64, b: u8, k: u64)
    by (bit_vector)
    requires
        k < 64,
    ensures
        bit_u64((v << 8) | (b as u64), k) == (if k < 8 {
            bit_u8(b, k)
        } else {
            bit_u64(v, (k - 8) as u64)
        }),
{
}

/// Bits of a whole byte taken out of `v` at offset `rshift`.
pub proof fn lemma_full_byte_write(v: u64, rshift: u64, j: u64)
    by (bit_vector)
    requires
        rshift <= 56,
        j < 8,
    ensures
        bit_u8((v >> rshift) as u8, j) == bit_u64(v, (rshift + j) as u64),
{
}

/// Bits of a read-modify-write byte update: positions `lshift..lshift + nbits`
/// take bits `rshift..` of `v`; every other bit of the byte is preserved.
pub proof fn lemma_rmw_byte(
    ob: u8,
    nb: u8,
    src: u8,
    mask: u8,
    v: u64,
    rshift: u64,
    lshift: u64,
    nbits: u64,
    j: u64,
)
    by (bit_vector)
    requires
        lshift < 8,
        1 <= nbits <= 7,
        lshift + nbits <= 8,
        rshift + nbits <= 64,
        rshift < 64,
        j < 8,
        mask == ((((1u8 << nbits) - 1) as u8) << lshift) as u8,
        src == ((v >> rshift) << lshift) as u8,
        nb == (ob & !mask) | (src & mask),
    ensures
        bit_u8(nb, j) == (if lshift <= j < lshift + nbits {
            bit_u64(v, (rshift + j - lshift) as u64)
        } else {
            bit_u8(ob, j)
        }),
{
}

/// Little-endian buffer bit `8 * byte + j` is bit `j` of byte `byte`.
pub proof fn lemma_le_bit_byte(data: Seq<u8>, byte: nat, j: nat)
    requires
        j < 8,
    ensures
        le_bit(data, 8 * byte + j) == bit_u8(data[byte as int], j as u64),
{
    vstd::arithmetic::div_mod::lemma_fundamental_div_mod_converse(
        8 * byte + j as int,
        8,
        byte as int,
        j as int,
    );
}

/// Linear big-endian buffer bit `8 * byte + jm` is bit `7 - jm` of byte `byte`.
pub proof fn lemma_be_bit_byte(data: Seq<u8>, byte: nat, jm: nat)
    requires
        jm < 8,
    ensures
        be_bit(data, 8 * byte + jm) == bit_u8(data[byte as int], (7 - jm) as u64),
{
    vstd::arithmetic::div_mod::lemma_fundamental_div_mod_converse(
        8 * byte + jm as int,
        8,
        byte as int,
        jm as int,
    );
}

/// Bits of a byte widened to 64 bits.
pub proof fn lemma_byte_bits(b: u8, k: u64)
    by (bit_vector)
    requires
        k < 64,
    ensures
        bit_u64(b as u64, k) == (k < 8 && bit_u8(b, k)),
{
}

/// Bits of a left-shifted 64-bit value.
pub proof fn lemma_shl_bits(x: u64, s: u64, k: u64)
    by (bit_vector)
    requires
        s < 64,
        k < 64,
    ensures
        bit_u64(x << s, k) == (k >= s && bit_u64(x, (k - s) as u64)),
{
}

/// Bits of a byte with one bit set.
pub proof fn lemma_set_bit8(ob: u8, i: u64, j: u64)
    by (bit_vector)
    requires
        i < 8,
        j < 8,
    ensures
        bit_u8(ob | ((1u8 << i) as u8), j) == (j == i || bit_u8(ob, j)),
{
}

/// Bits of a byte with one bit cleared.
pub proof fn lemma_clear_bit8(ob: u8, i: u64, j: u64)
    by (bit_vector)
    requires
        i < 8,
        j < 8,
    ensures
        bit_u8(ob & (!((1u8 << i) as u8)) as u8, j) == (j != i && bit_u8(ob, j)),
{
}


/// A left shift of one is at least one, so a mask `(1 << w) - 1` never underflows.
pub proof fn lemma_shl1_pos(w: u64)
    by (bit_vector)
    requires
        w < 64,
    ensures
        1u64 << w >= 1,
{
}

/// The byte-sized counterpart of `lemma_shl1_pos`.
pub proof fn lemma_shl1_pos8(r: u64)
    by (bit_vector)
    requires
        r < 8,
    ensures
        1u8 << r >= 1,
{
}

} // verus!
