//! The codec core: exact bit extraction for every signal layout.
//!
//! Each function implements the extraction algorithm for one layout class
//! and is proved to return exactly the raw value that the bit-level model
//! (`le_raw`, `be_raw`) assigns to the signal's bits.

use vstd::prelude::*;
use vstd::arithmetic::power2::pow2;
use crate::bits::bit_u8;
use crate::bits::bit_u64;
use crate::bits::le_bit;
use crate::bits::be_bit;
use crate::bits::be_index;
use crate::bits::le_raw;
use crate::bits::be_raw;
use crate::bits::sign_extend64;
use crate::bits::lemma_le_raw_bound;
use crate::bits::lemma_be_raw_bound;
use crate::bits::lemma_le_raw_bit;
use crate::bits::lemma_be_raw_bit;
use crate::bits::lemma_u64_from_bits;
use crate::bits::as_signed64;
use crate::bits::signed_value;
use crate::bits::lemma_or_shl_byte;
use crate::bits::lemma_or_shr_byte;
use crate::bits::lemma_byte_shr;
use crate::bits::lemma_mask64;
use crate::bits::lemma_mask8;
use crate::bits::lemma_shl8_or_byte;
use crate::bits::lemma_le_bit_byte;
use crate::bits::lemma_full_byte_write;
use crate::bits::lemma_rmw_byte;
use crate::bits::lemma_set_bit8;
use crate::bits::lemma_clear_bit8;
use crate::bits::lemma_shl1_pos;
use crate::bits::lemma_byte_bits;
use crate::bits::lemma_shl_bits;
use crate::bits::lemma_shl1_pos8;
use crate::bits::lemma_be_bit_byte;

verus! {

/// How far into the signal the bytes up to offset `o` reach during a
/// little-endian extraction that starts `left` bits into its first byte.
pub open spec fn le_taken(width: int, left: int, o: int) -> int {
    if 8 * o - left >= width {
        width as int
    } else {
        8 * o - left
    }
}

/// Read a whole-byte-aligned little-endian signal: `width / 8` contiguous
/// bytes starting at byte `start / 8`, least significant byte first.
pub fn extract_aligned_le(pdu: &Vec<u8>, start: usize, width: usize) -> (r: u64)
    requires
        start % 8 == 0,
        width % 8 == 0,
        8 <= width <= 64,
        start + width <= 8 * pdu@.len(),
        8 * pdu@.len() <= usize::MAX,
    ensures
        r as nat == le_raw(pdu@, start as nat, width as nat),
{
    let low = start / 8;
    let n = width / 8;
    let mut v: u64 = 0;
    let mut i: usize = 0;
    while i < n
        invariant
            i <= n,
            n == width / 8,
            low == start / 8,
            start % 8 == 0,
            width % 8 == 0,
            8 <= width <= 64,
            start + width <= 8 * pdu@.len(),
            v as nat == le_raw(pdu@, start as nat, (8 * i) as nat),
        decreases n - i,
    {
        proof {
            vstd::arithmetic::div_mod::lemma_fundamental_div_mod(start as int, 8);
            vstd::arithmetic::div_mod::lemma_fundamental_div_mod(width as int, 8);
        }
        let b = pdu[low + i];
        let ghost prev = v;
        let s = 8 * i;
        v = v | ((b as u64) << (s as u64));
        proof {
            let data = pdu@;
            let st = start as nat;
            let c = (8 * i) as nat;
            lemma_le_raw_bound(data, st, (c + 8) as nat);
            if c + 8 < 64 {
                vstd::arithmetic::power2::lemma_pow2_strictly_increases((c + 8) as nat, 64);
            }
            vstd::arithmetic::power2::lemma2_to64();
            vstd::arithmetic::power2::lemma2_to64_rest();
            let target = le_raw(data, st, (c + 8) as nat) as u64;
            assert forall|k: u64| k < 64 implies bit_u64(v, k) == bit_u64(target, k) by {
                lemma_le_raw_bit(data, st, c, k);
                lemma_le_raw_bit(data, st, (c + 8) as nat, k);
                lemma_or_shl_byte(prev, b, s as u64, k);
                if s as u64 <= k < s as u64 + 8 {
                    lemma_le_bit_byte(data, (low + i) as nat, (k - s) as nat);
                    assert(st + k as nat == 8 * ((low + i) as nat) + (k - s) as nat);
                }
            }
            lemma_u64_from_bits(v, target);
        }
        i = i + 1;
    }
    proof {
        vstd::arithmetic::div_mod::lemma_fundamental_div_mod(width as int, 8);
    }
    v
}

/// Read a little-endian signal that is not byte-aligned: seed from the first
/// byte shifted right, then fold in each later byte shifted into place, with
/// a partial-byte mask on the last byte where the signal ends mid-byte.
pub fn extract_unaligned_le(pdu: &Vec<u8>, start: usize, width: usize) -> (r: u64)
    requires
        1 <= width <= 64,
        width == 64 ==> start % 8 != 0,
        start + width <= 8 * pdu@.len(),
        8 * pdu@.len() <= usize::MAX,
    ensures
        r as nat == le_raw(pdu@, start as nat, width as nat),
{
    proof {
        vstd::arithmetic::div_mod::lemma_fundamental_div_mod(start as int, 8);
        vstd::arithmetic::div_mod::lemma_fundamental_div_mod((start + width - 1) as int, 8);
        vstd::arithmetic::div_mod::lemma_fundamental_div_mod((start + width) as int, 8);
    }
    let low = start / 8;
    let left = start % 8;
    let high = (start + width - 1) / 8;
    let count = high - low;
    let right = (start + width) % 8;
    let b0 = pdu[low];
    let mut v: u64 = b0 as u64;
    if left != 0 {
        if count == 0 {
            proof {
                assert(width + left <= 8);
                lemma_shl1_pos(width as u64);
            }
            v = (v >> (left as u64)) & ((1u64 << (width as u64)) - 1);
        } else {
            v = v >> (left as u64);
        }
    } else {
        proof {
            lemma_shl1_pos(width as u64);
        }
        v = v & ((1u64 << (width as u64)) - 1);
    }
    proof {
        let data = pdu@;
        let st = start as nat;
        assert forall|k: u64| k < 64 implies bit_u64(v, k) == (k < le_taken(
            width as int,
            left as int,
            1,
        ) && le_bit(data, st + k as nat)) by {
            if left != 0 {
                if count == 0 {
                    lemma_byte_shr(b0, left as u64, k);
                    lemma_mask64((b0 as u64) >> (left as u64), width as u64, k);
                } else {
                    lemma_byte_shr(b0, left as u64, k);
                }
            } else {
                lemma_or_shl_byte(0u64, b0, 0u64, k);
                assert(bit_u64(0u64 | ((b0 as u64) << 0u64), k) == bit_u64(b0 as u64, k))
                    by (bit_vector);
                lemma_mask64(b0 as u64, width as u64, k);
                assert(bit_u64(b0 as u64, k) == (k < 8 && bit_u8(b0, k))) by (bit_vector);
            }
            if k + left < 8 {
                lemma_le_bit_byte(data, low as nat, (k + left) as nat);
                assert(st + k as nat == 8 * (low as nat) + (k + left) as nat);
            }
        }
    }
    let mut o: usize = 1;
    while o <= count
        invariant
            1 <= o <= count + 1,
            low == start / 8,
            left == start % 8,
            high == (start + width - 1) / 8,
            count == high - low,
            right == (start + width) % 8,
            start == 8 * low + left,
            start + width - 1 == 8 * high + ((start + width - 1) % 8),
            1 <= width <= 64,
            start + width <= 8 * pdu@.len(),
            forall|k: u64|
                k < 64 ==> bit_u64(v, k) == (k < le_taken(width as int, left as int, o as int)
                    && le_bit(pdu@, (start + k) as nat)),
        decreases count + 1 - o,
    {
        let data: Ghost<Seq<u8>> = Ghost(pdu@);
        let b = pdu[low + o];
        let sh = 8 * o - left;
        let ghost prev = v;
        if o == count && right != 0 {
            proof {
                lemma_shl1_pos8(right as u64);
            }
            let mb = b & ((1u8 << (right as u64)) - 1);
            v = v | ((mb as u64) << (sh as u64));
            proof {
                assert forall|k: u64| k < 64 implies bit_u64(v, k) == (k < le_taken(
                    width as int,
                    left as int,
                    o as int + 1,
                ) && le_bit(data@, (start + k) as nat)) by {
                    lemma_or_shl_byte(prev, mb, sh as u64, k);
                    if sh as u64 <= k < sh as u64 + 8 {
                        lemma_mask8(b, right as u64, (k - sh) as u64);
                        lemma_le_bit_byte(data@, (low + o) as nat, (k - sh) as nat);
                        assert(start as nat + k as nat == 8 * ((low + o) as nat) + (k
                            - sh) as nat);
                    }
                }
            }
        } else {
            v = v | ((b as u64) << (sh as u64));
            proof {
                assert forall|k: u64| k < 64 implies bit_u64(v, k) == (k < le_taken(
                    width as int,
                    left as int,
                    o as int + 1,
                ) && le_bit(data@, (start + k) as nat)) by {
                    lemma_or_shl_byte(prev, b, sh as u64, k);
                    if sh as u64 <= k < sh as u64 + 8 {
                        lemma_le_bit_byte(data@, (low + o) as nat, (k - sh) as nat);
                        assert(start as nat + k as nat == 8 * ((low + o) as nat) + (k
                            - sh) as nat);
                    }
                }
            }
        }
        o = o + 1;
    }
    proof {
        let data = pdu@;
        let st = start as nat;
        lemma_le_raw_bound(data, st, width as nat);
        if width < 64 {
            vstd::arithmetic::power2::lemma_pow2_strictly_increases(width as nat, 64);
        }
        vstd::arithmetic::power2::lemma2_to64();
        vstd::arithmetic::power2::lemma2_to64_rest();
        let target = le_raw(data, st, width as nat) as u64;
        assert(le_taken(width as int, left as int, o as int) == width as int);
        assert forall|k: u64| k < 64 implies bit_u64(v, k) == bit_u64(target, k) by {
            lemma_le_raw_bit(data, st, width as nat, k);
        }
        lemma_u64_from_bits(v, target);
    }
    v
}

/// Read a whole-byte-aligned big-endian signal: `width / 8` contiguous bytes
/// starting at byte `start / 8`, most significant byte first.
pub fn extract_aligned_be(pdu: &Vec<u8>, start: usize, width: usize) -> (r: u64)
    requires
        start % 8 == 7,
        width % 8 == 0,
        8 <= width <= 64,
        be_index(start as nat) + width <= 8 * pdu@.len(),
        8 * pdu@.len() <= usize::MAX,
    ensures
        r as nat == be_raw(pdu@, be_index(start as nat), width as nat),
{
    proof {
        vstd::arithmetic::div_mod::lemma_fundamental_div_mod(start as int, 8);
        vstd::arithmetic::div_mod::lemma_fundamental_div_mod(width as int, 8);
    }
    let low = start / 8;
    let n = width / 8;
    let ghost m = be_index(start as nat);
    proof {
        assert(m == 8 * low);
    }
    let mut v: u64 = 0;
    let mut i: usize = 0;
    proof {
        assert forall|k: u64| k < 64 implies !bit_u64(0u64, k) by {
            assert((0u64 >> k) & 1 != 1) by (bit_vector);
        }
    }
    while i < n
        invariant
            i <= n,
            n == width / 8,
            low == start / 8,
            m == 8 * low,
            start % 8 == 7,
            width % 8 == 0,
            8 * n == width,
            8 <= width <= 64,
            m + width <= 8 * pdu@.len(),
            forall|k: u64|
                k < 64 ==> bit_u64(v, k) == (k < 8 * i && be_bit(pdu@, (m + 8 * i - 1 - k) as nat)),
        decreases n - i,
    {
        let b = pdu[low + i];
        let ghost prev = v;
        v = (v << 8) | (b as u64);
        proof {
            let data = pdu@;
            assert forall|k: u64| k < 64 implies bit_u64(v, k) == (k < 8 * (i + 1) && be_bit(
                data,
                (m + 8 * (i + 1) - 1 - k) as nat,
            )) by {
                lemma_shl8_or_byte(prev, b, k);
                if k < 8 {
                    lemma_be_bit_byte(data, (low + i) as nat, (7 - k) as nat);
                    assert((m + 8 * (i + 1) - 1 - k) as nat == 8 * ((low + i) as nat) + (7
                        - k) as nat);
                }
            }
        }
        i = i + 1;
    }
    proof {
        let data = pdu@;
        lemma_be_raw_bound(data, m, width as nat);
        if width < 64 {
            vstd::arithmetic::power2::lemma_pow2_strictly_increases(width as nat, 64);
        }
        vstd::arithmetic::power2::lemma2_to64();
        vstd::arithmetic::power2::lemma2_to64_rest();
        let target = be_raw(data, m, width as nat) as u64;
        assert forall|k: u64| k < 64 implies bit_u64(v, k) == bit_u64(target, k) by {
            lemma_be_raw_bit(data, m, width as nat, k);
        }
        lemma_u64_from_bits(v, target);
    }
    v
}

/// Read a big-endian signal that is not byte-aligned: take the low bits of
/// the first byte shifted up to their place, fold in whole bytes, and finish
/// with the top bits of a final partial byte.
pub fn extract_unaligned_be(pdu: &Vec<u8>, start: usize, width: usize) -> (r: u64)
    requires
        1 <= width <= 64,
        be_index(start as nat) + width <= 8 * pdu@.len(),
        8 * pdu@.len() <= usize::MAX,
    ensures
        r as nat == be_raw(pdu@, be_index(start as nat), width as nat),
{
    proof {
        vstd::arithmetic::div_mod::lemma_fundamental_div_mod(start as int, 8);
    }
    let low = start / 8;
    let left = start % 8;
    let ghost m = be_index(start as nat);
    proof {
        assert(m == 8 * low + 7 - left);
    }
    let b0 = pdu[low];
    let data: Ghost<Seq<u8>> = Ghost(pdu@);
    let mut v: u64;
    if width <= left + 1 {
        // the signal fits in its first byte alone
        let sh = left + 1 - width;
        proof {
            lemma_shl1_pos(width as u64);
        }
        v = ((b0 as u64) >> (sh as u64)) & ((1u64 << (width as u64)) - 1);
        proof {
            assert forall|k: u64| k < 64 implies bit_u64(v, k) == (k < width && be_bit(
                data@,
                (m + width - 1 - k) as nat,
            )) by {
                lemma_byte_shr(b0, sh as u64, k);
                lemma_mask64((b0 as u64) >> (sh as u64), width as u64, k);
                if k < width {
                    lemma_be_bit_byte(data@, low as nat, (7 - left + width - 1 - k) as nat);
                    assert((m + width - 1 - k) as nat == 8 * (low as nat) + (7 - left + width - 1
                        - k) as nat);
                }
            }
        }
    } else {
        let mut rem = width - (left + 1);
        if left == 7 {
            v = (b0 as u64) << (rem as u64);
            proof {
                assert forall|k: u64| k < 64 implies bit_u64(v, k) == (rem <= k < width && be_bit(
                    data@,
                    (m + width - 1 - k) as nat,
                )) by {
                    lemma_shl_bits(b0 as u64, rem as u64, k);
                    if k >= rem {
                        lemma_byte_bits(b0, (k - rem) as u64);
                    }
                    if rem <= k < width {
                        lemma_be_bit_byte(data@, low as nat, (7 - (k - rem)) as nat);
                        assert((m + width - 1 - k) as nat == 8 * (low as nat) + (7 - (k
                            - rem)) as nat);
                    }
                }
            }
        } else {
            proof {
                lemma_shl1_pos((left + 1) as u64);
            }
            v = ((b0 as u64) & ((1u64 << ((left + 1) as u64)) - 1)) << (rem as u64);
            proof {
                assert forall|k: u64| k < 64 implies bit_u64(v, k) == (rem <= k < width && be_bit(
                    data@,
                    (m + width - 1 - k) as nat,
                )) by {
                    let masked = (b0 as u64) & ((1u64 << ((left + 1) as u64)) - 1) as u64;
                    lemma_shl_bits(masked, rem as u64, k);
                    if k >= rem {
                        lemma_mask64(b0 as u64, (left + 1) as u64, (k - rem) as u64);
                        lemma_byte_bits(b0, (k - rem) as u64);
                    }
                    if rem <= k < width {
                        lemma_be_bit_byte(data@, low as nat, (7 - (k - rem)) as nat);
                        assert((m + width - 1 - k) as nat == 8 * (low as nat) + (7 - (k
                            - rem)) as nat);
                    }
                }
            }
        }
        let mut byte = low + 1;
        while rem >= 8
            invariant
                left == start % 8,
                left < 8,
                width > left + 1,
                m == 8 * low + 7 - left,
                1 <= width <= 64,
                m + width <= 8 * pdu@.len(),
                8 * pdu@.len() <= usize::MAX,
                data@ == pdu@,
                rem <= width - (left + 1),
                m + width - rem == 8 * byte,
                forall|k: u64|
                    k < 64 ==> bit_u64(v, k) == (rem <= k < width && be_bit(
                        pdu@,
                        (m + width - 1 - k) as nat,
                    )),
            decreases rem,
        {
            let b = pdu[byte];
            let ghost prev = v;
            let sh = rem - 8;
            v = v | ((b as u64) << (sh as u64));
            proof {
                assert forall|k: u64| k < 64 implies bit_u64(v, k) == (sh <= k < width && be_bit(
                    data@,
                    (m + width - 1 - k) as nat,
                )) by {
                    lemma_or_shl_byte(prev, b, sh as u64, k);
                    if sh <= k < rem {
                        lemma_be_bit_byte(data@, byte as nat, (rem - 1 - k) as nat);
                        assert((m + width - 1 - k) as nat == 8 * (byte as nat) + (rem - 1
                            - k) as nat);
                    }
                }
            }
            rem = rem - 8;
            byte = byte + 1;
        }
        if rem > 0 {
            let b = pdu[byte];
            let ghost prev = v;
            let sh = 8 - rem;
            v = v | ((b as u64) >> (sh as u64));
            proof {
                assert forall|k: u64| k < 64 implies bit_u64(v, k) == (k < width && be_bit(
                    data@,
                    (m + width - 1 - k) as nat,
                )) by {
                    lemma_or_shr_byte(prev, b, sh as u64, k);
                    if k < rem {
                        lemma_be_bit_byte(data@, byte as nat, (rem - 1 - k) as nat);
                        assert((m + width - 1 - k) as nat == 8 * (byte as nat) + (rem - 1
                            - k) as nat);
                    }
                }
            }
        }
    }
    proof {
        lemma_be_raw_bound(data@, m, width as nat);
        if width < 64 {
            vstd::arithmetic::power2::lemma_pow2_strictly_increases(width as nat, 64);
        }
        vstd::arithmetic::power2::lemma2_to64();
        vstd::arithmetic::power2::lemma2_to64_rest();
        let target = be_raw(data@, m, width as nat) as u64;
        assert forall|k: u64| k < 64 implies bit_u64(v, k) == bit_u64(target, k) by {
            lemma_be_raw_bit(data@, m, width as nat, k);
        }
        lemma_u64_from_bits(v, target);
    }
    v
}


/// What insertion of a little-endian signal leaves behind: the signal's bit
/// positions carry the low `width` bits of `v`; every other bit, and the
/// buffer length, are untouched.
pub open spec fn le_inserted(prior: Seq<u8>, now: Seq<u8>, start: nat, width: nat, v: u64) -> bool {
    &&& now.len() == prior.len()
    &&& forall|p: nat|
        p < 8 * prior.len() ==> #[trigger] le_bit(now, p) == (if start <= p < start + width {
            bit_u64(v, (p - start) as u64)
        } else {
            le_bit(prior, p)
        })
}

/// The big-endian counterpart of `le_inserted`, over linear indices from `m`.
pub open spec fn be_inserted(prior: Seq<u8>, now: Seq<u8>, m: nat, width: nat, v: u64) -> bool {
    &&& now.len() == prior.len()
    &&& forall|p: nat|
        p < 8 * prior.len() ==> #[trigger] be_bit(now, p) == (if m <= p < m + width {
            bit_u64(v, (m + width - 1 - p) as u64)
        } else {
            be_bit(prior, p)
        })
}

/// Write a whole-byte-aligned little-endian signal, least significant byte
/// first.
pub fn insert_aligned_le(pdu: &mut Vec<u8>, start: usize, width: usize, v: u64)
    requires
        start % 8 == 0,
        width % 8 == 0,
        8 <= width <= 64,
        start + width <= 8 * old(pdu)@.len(),
        8 * old(pdu)@.len() <= usize::MAX,
    ensures
        le_inserted(old(pdu)@, final(pdu)@, start as nat, width as nat, v),
{
    let ghost orig = pdu@;
    proof {
        vstd::arithmetic::div_mod::lemma_fundamental_div_mod(start as int, 8);
        vstd::arithmetic::div_mod::lemma_fundamental_div_mod(width as int, 8);
    }
    let low = start / 8;
    let n = width / 8;
    let mut i: usize = 0;
    while i < n
        invariant
            i <= n,
            low == start / 8,
            n == width / 8,
            start == 8 * low,
            width == 8 * n,
            8 <= width <= 64,
            start + width <= 8 * orig.len(),
            8 * orig.len() <= usize::MAX,
            pdu@.len() == orig.len(),
            forall|p: nat|
                p < 8 * orig.len() ==> #[trigger] le_bit(pdu@, p) == (if start <= p < start + 8 * i {
                    bit_u64(v, (p - start) as u64)
                } else {
                    le_bit(orig, p)
                }),
        decreases n - i,
    {
        let sh = 8 * i;
        let b = #[verifier::truncate] ((v >> (sh as u64)) as u8);
        let ghost before = pdu@;
        pdu[low + i] = b;
        proof {
            assert forall|p: nat| p < 8 * orig.len() implies #[trigger] le_bit(pdu@, p) == (if start
                <= p < start + 8 * (i + 1) {
                bit_u64(v, (p - start) as u64)
            } else {
                le_bit(orig, p)
            }) by {
                vstd::arithmetic::div_mod::lemma_fundamental_div_mod(p as int, 8);
                let q = p as int / 8;
                let j = (p as int) % 8;
                assert(le_bit(before, p) == (if start <= p < start + 8 * i {
                    bit_u64(v, (p - start) as u64)
                } else {
                    le_bit(orig, p)
                }));
                if q == low + i {
                    assert(p == 8 * ((low + i) as nat) + j as nat);
                    lemma_le_bit_byte(pdu@, (low + i) as nat, j as nat);
                    lemma_le_bit_byte(before, (low + i) as nat, j as nat);
                    lemma_full_byte_write(v, sh as u64, j as u64);
                } else {
                    assert(pdu@[q] == before[q]);
                    assert(le_bit(pdu@, p) == le_bit(before, p));
                }
            }
        }
        i = i + 1;
    }
}

/// Write a whole-byte-aligned big-endian signal, most significant byte first.
pub fn insert_aligned_be(pdu: &mut Vec<u8>, start: usize, width: usize, v: u64)
    requires
        start % 8 == 7,
        width % 8 == 0,
        8 <= width <= 64,
        be_index(start as nat) + width <= 8 * old(pdu)@.len(),
        8 * old(pdu)@.len() <= usize::MAX,
    ensures
        be_inserted(old(pdu)@, final(pdu)@, be_index(start as nat), width as nat, v),
{
    let ghost orig = pdu@;
    proof {
        vstd::arithmetic::div_mod::lemma_fundamental_div_mod(start as int, 8);
        vstd::arithmetic::div_mod::lemma_fundamental_div_mod(width as int, 8);
    }
    let low = start / 8;
    let n = width / 8;
    let ghost m = be_index(start as nat);
    proof {
        assert(m == 8 * low);
    }
    let mut i: usize = 0;
    while i < n
        invariant
            i <= n,
            low == start / 8,
            n == width / 8,
            m == 8 * low,
            width == 8 * n,
            8 <= width <= 64,
            m + width <= 8 * orig.len(),
            8 * orig.len() <= usize::MAX,
            pdu@.len() == orig.len(),
            forall|p: nat|
                p < 8 * orig.len() ==> #[trigger] be_bit(pdu@, p) == (if m <= p < m + 8 * i {
                    bit_u64(v, (m + width - 1 - p) as u64)
                } else {
                    be_bit(orig, p)
                }),
        decreases n - i,
    {
        let sh = width - 8 - 8 * i;
        let b = #[verifier::truncate] ((v >> (sh as u64)) as u8);
        let ghost before = pdu@;
        pdu[low + i] = b;
        proof {
            assert forall|p: nat| p < 8 * orig.len() implies #[trigger] be_bit(pdu@, p) == (if m <= p
                < m + 8 * (i + 1) {
                bit_u64(v, (m + width - 1 - p) as u64)
            } else {
                be_bit(orig, p)
            }) by {
                vstd::arithmetic::div_mod::lemma_fundamental_div_mod(p as int, 8);
                let q = p as int / 8;
                let jm = (p as int) % 8;
                assert(be_bit(before, p) == (if m <= p < m + 8 * i {
                    bit_u64(v, (m + width - 1 - p) as u64)
                } else {
                    be_bit(orig, p)
                }));
                if q == low + i {
                    assert(p == 8 * ((low + i) as nat) + jm as nat);
                    lemma_be_bit_byte(pdu@, (low + i) as nat, jm as nat);
                    lemma_be_bit_byte(before, (low + i) as nat, jm as nat);
                    lemma_full_byte_write(v, sh as u64, (7 - jm) as u64);
                } else {
                    assert(pdu@[q] == before[q]);
                    assert(be_bit(pdu@, p) == be_bit(before, p));
                }
            }
        }
        i = i + 1;
    }
}

/// One byte write extends the inserted little-endian window by `nbits` bits.
proof fn lemma_update_le(
    before: Seq<u8>,
    now: Seq<u8>,
    orig: Seq<u8>,
    start: nat,
    width: nat,
    v: u64,
    byte: nat,
    lshift: nat,
    nbits: nat,
    rshift: nat,
)
    requires
        before.len() == orig.len(),
        now.len() == before.len(),
        1 <= width <= 64,
        start + width <= 8 * orig.len(),
        lshift < 8,
        1 <= nbits <= 8,
        lshift + nbits <= 8,
        rshift + nbits <= width,
        8 * byte + lshift == start + rshift,
        lshift != 0 ==> rshift == 0,
        forall|j: u64|
            j < 8 ==> #[trigger] bit_u8(now[byte as int], j) == (if lshift <= j < lshift + nbits {
                bit_u64(v, (rshift + j - lshift) as u64)
            } else {
                bit_u8(before[byte as int], j)
            }),
        forall|q: int| 0 <= q < before.len() && q != byte ==> now[q] == before[q],
        forall|p: nat|
            p < 8 * orig.len() ==> #[trigger] le_bit(before, p) == (if start <= p < start + rshift {
                bit_u64(v, (p - start) as u64)
            } else {
                le_bit(orig, p)
            }),
    ensures
        forall|p: nat|
            p < 8 * orig.len() ==> #[trigger] le_bit(now, p) == (if start <= p < start + rshift
                + nbits {
                bit_u64(v, (p - start) as u64)
            } else {
                le_bit(orig, p)
            }),
{
    assert forall|p: nat| p < 8 * orig.len() implies #[trigger] le_bit(now, p) == (if start <= p
        < start + rshift + nbits {
        bit_u64(v, (p - start) as u64)
    } else {
        le_bit(orig, p)
    }) by {
        vstd::arithmetic::div_mod::lemma_fundamental_div_mod(p as int, 8);
        let q = p as int / 8;
        let j = (p as int) % 8;
        assert(le_bit(before, p) == (if start <= p < start + rshift {
            bit_u64(v, (p - start) as u64)
        } else {
            le_bit(orig, p)
        }));
        if q == byte {
            assert(p == 8 * byte + j as nat);
            lemma_le_bit_byte(now, byte, j as nat);
            lemma_le_bit_byte(before, byte, j as nat);
            assert(bit_u8(now[byte as int], j as u64) == (if lshift <= j < lshift + nbits {
                bit_u64(v, (rshift + j - lshift) as u64)
            } else {
                bit_u8(before[byte as int], j as u64)
            }));
        } else {
            assert(now[q] == before[q]);
            assert(le_bit(now, p) == le_bit(before, p));
        }
    }
}

/// Write one whole byte of `v`, taken from bit `rshift`, into byte `byte`.
fn write_full(pdu: &mut Vec<u8>, byte: usize, rshift: usize, v: u64)
    requires
        byte < old(pdu)@.len(),
        rshift <= 56,
    ensures
        final(pdu)@.len() == old(pdu)@.len(),
        forall|j: u64|
            j < 8 ==> #[trigger] bit_u8(final(pdu)@[byte as int], j) == bit_u64(
                v,
                (rshift + j) as u64,
            ),
        forall|q: int|
            0 <= q < old(pdu)@.len() && q != byte ==> final(pdu)@[q] == old(pdu)@[q],
{
    let b = #[verifier::truncate] ((v >> (rshift as u64)) as u8);
    pdu[byte] = b;
    proof {
        assert forall|j: u64| j < 8 implies #[trigger] bit_u8(pdu@[byte as int], j) == bit_u64(
            v,
            (rshift + j) as u64,
        ) by {
            lemma_full_byte_write(v, rshift as u64, j);
        }
    }
}

/// Read-modify-write `nbits` bits of `v`, taken from bit `rshift`, into byte
/// `byte` at in-byte position `lshift`; the other bits of the byte survive.
fn write_partial(pdu: &mut Vec<u8>, byte: usize, lshift: usize, nbits: usize, rshift: usize, v: u64)
    requires
        byte < old(pdu)@.len(),
        lshift < 8,
        1 <= nbits <= 7,
        lshift + nbits <= 8,
        rshift + nbits <= 64,
        rshift < 64,
    ensures
        final(pdu)@.len() == old(pdu)@.len(),
        forall|j: u64|
            j < 8 ==> #[trigger] bit_u8(final(pdu)@[byte as int], j) == (if lshift <= j < lshift
                + nbits {
                bit_u64(v, (rshift + j - lshift) as u64)
            } else {
                bit_u8(old(pdu)@[byte as int], j)
            }),
        forall|q: int|
            0 <= q < old(pdu)@.len() && q != byte ==> final(pdu)@[q] == old(pdu)@[q],
{
    proof {
        lemma_shl1_pos8(nbits as u64);
    }
    let mask: u8 = ((1u8 << (nbits as u64)) - 1) << (lshift as u64);
    let src = #[verifier::truncate] (((v >> (rshift as u64)) << (lshift as u64)) as u8);
    let ob = pdu[byte];
    pdu[byte] = (ob & !mask) | (src & mask);
    proof {
        assert forall|j: u64| j < 8 implies #[trigger] bit_u8(pdu@[byte as int], j) == (if lshift
            <= j < lshift + nbits {
            bit_u64(v, (rshift + j - lshift) as u64)
        } else {
            bit_u8(ob, j)
        }) by {
            lemma_rmw_byte(
                ob,
                pdu@[byte as int],
                src,
                mask,
                v,
                rshift as u64,
                lshift as u64,
                nbits as u64,
                j,
            );
        }
    }
}

/// Write a little-endian signal that is not byte-aligned: a masked
/// read-modify-write on each partially covered byte preserves the other
/// fields that share those bytes, and whole covered bytes are written
/// outright.
pub fn insert_unaligned_le(pdu: &mut Vec<u8>, start: usize, width: usize, v: u64)
    requires
        1 <= width <= 64,
        start + width <= 8 * old(pdu)@.len(),
        8 * old(pdu)@.len() <= usize::MAX,
    ensures
        le_inserted(old(pdu)@, final(pdu)@, start as nat, width as nat, v),
{
    let ghost orig = pdu@;
    proof {
        vstd::arithmetic::div_mod::lemma_fundamental_div_mod(start as int, 8);
    }
    let low = start / 8;
    let left = start % 8;
    let mut byte = low;
    let mut lshift = left;
    let mut rem = width;
    let mut rshift: usize = 0;
    while rem > 0
        invariant
            1 <= width <= 64,
            start + width <= 8 * orig.len(),
            8 * orig.len() <= usize::MAX,
            pdu@.len() == orig.len(),
            rem <= width,
            rshift == width - rem,
            lshift < 8,
            rem > 0 ==> 8 * byte + lshift == start + rshift,
            rem > 0 && lshift != 0 ==> rshift == 0,
            forall|p: nat|
                p < 8 * orig.len() ==> #[trigger] le_bit(pdu@, p) == (if start <= p < start + rshift {
                    bit_u64(v, (p - start) as u64)
                } else {
                    le_bit(orig, p)
                }),
        decreases rem,
    {
        let avail = 8 - lshift;
        let ghost before = pdu@;
        if rem < avail {
            write_partial(pdu, byte, lshift, rem, rshift, v);
            proof {
                lemma_update_le(before, pdu@, orig, start as nat, width as nat, v, byte as nat,
                    lshift as nat, rem as nat, rshift as nat);
            }
            rshift = rshift + rem;
            rem = 0;
        } else if lshift == 0 && rem >= 8 {
            write_full(pdu, byte, rshift, v);
            proof {
                lemma_update_le(before, pdu@, orig, start as nat, width as nat, v, byte as nat,
                    0, 8, rshift as nat);
            }
            rshift = rshift + 8;
            rem = rem - 8;
            byte = byte + 1;
        } else {
            write_partial(pdu, byte, lshift, avail, rshift, v);
            proof {
                lemma_update_le(before, pdu@, orig, start as nat, width as nat, v, byte as nat,
                    lshift as nat, avail as nat, rshift as nat);
            }
            rshift = rshift + avail;
            rem = rem - avail;
            lshift = 0;
            byte = byte + 1;
        }
    }
}

/// One byte write extends the inserted big-endian window by `nbits` bits.
proof fn lemma_update_be(
    before: Seq<u8>,
    now: Seq<u8>,
    orig: Seq<u8>,
    m: nat,
    width: nat,
    v: u64,
    byte: nat,
    lshift: nat,
    nbits: nat,
    rshift: nat,
    c: nat,
)
    requires
        before.len() == orig.len(),
        now.len() == before.len(),
        1 <= width <= 64,
        m + width <= 8 * orig.len(),
        lshift < 8,
        1 <= nbits <= 8,
        lshift + nbits <= 8,
        c + nbits <= width,
        rshift == width - c - nbits,
        m + c == 8 * byte + 8 - lshift - nbits,
        forall|j: u64|
            j < 8 ==> #[trigger] bit_u8(now[byte as int], j) == (if lshift <= j < lshift + nbits {
                bit_u64(v, (rshift + j - lshift) as u64)
            } else {
                bit_u8(before[byte as int], j)
            }),
        forall|q: int| 0 <= q < before.len() && q != byte ==> now[q] == before[q],
        forall|p: nat|
            p < 8 * orig.len() ==> #[trigger] be_bit(before, p) == (if m <= p < m + c {
                bit_u64(v, (m + width - 1 - p) as u64)
            } else {
                be_bit(orig, p)
            }),
    ensures
        forall|p: nat|
            p < 8 * orig.len() ==> #[trigger] be_bit(now, p) == (if m <= p < m + c + nbits {
                bit_u64(v, (m + width - 1 - p) as u64)
            } else {
                be_bit(orig, p)
            }),
{
    assert forall|p: nat| p < 8 * orig.len() implies #[trigger] be_bit(now, p) == (if m <= p < m + c
        + nbits {
        bit_u64(v, (m + width - 1 - p) as u64)
    } else {
        be_bit(orig, p)
    }) by {
        vstd::arithmetic::div_mod::lemma_fundamental_div_mod(p as int, 8);
        let q = p as int / 8;
        let jm = (p as int) % 8;
        let j = 7 - jm;
        assert(be_bit(before, p) == (if m <= p < m + c {
            bit_u64(v, (m + width - 1 - p) as u64)
        } else {
            be_bit(orig, p)
        }));
        if q == byte {
            assert(p == 8 * byte + jm as nat);
            lemma_be_bit_byte(now, byte, jm as nat);
            lemma_be_bit_byte(before, byte, jm as nat);
            assert(bit_u8(now[byte as int], j as u64) == (if lshift <= j < lshift + nbits {
                bit_u64(v, (rshift + j - lshift) as u64)
            } else {
                bit_u8(before[byte as int], j as u64)
            }));
        } else {
            assert(now[q] == before[q]);
            assert(be_bit(now, p) == be_bit(before, p));
        }
    }
}

/// Write a big-endian signal that is not byte-aligned, the mirror image of
/// the unaligned big-endian read: the first byte takes the value's top bits
/// into its low bits, whole bytes follow, and a final partial byte takes the
/// value's low bits into its top bits, each partial byte by masked
/// read-modify-write.
pub fn insert_unaligned_be(pdu: &mut Vec<u8>, start: usize, width: usize, v: u64)
    requires
        1 <= width <= 64,
        be_index(start as nat) + width <= 8 * old(pdu)@.len(),
        8 * old(pdu)@.len() <= usize::MAX,
    ensures
        be_inserted(old(pdu)@, final(pdu)@, be_index(start as nat), width as nat, v),
{
    let ghost orig = pdu@;
    proof {
        vstd::arithmetic::div_mod::lemma_fundamental_div_mod(start as int, 8);
    }
    let low = start / 8;
    let left = start % 8;
    let ghost m = be_index(start as nat);
    proof {
        assert(m == 8 * low + 7 - left);
    }
    let ghost before0 = pdu@;
    if width <= left + 1 {
        // the signal fits in its first byte alone
        if width == 8 {
            write_full(pdu, low, 0, v);
        } else {
            write_partial(pdu, low, left + 1 - width, width, 0, v);
        }
        proof {
            lemma_update_be(before0, pdu@, orig, m, width as nat, v, low as nat,
                (left + 1 - width) as nat, width as nat, 0, 0);
        }
    } else {
        let mut rem = width - (left + 1);
        if left == 7 {
            write_full(pdu, low, rem, v);
        } else {
            write_partial(pdu, low, 0, left + 1, rem, v);
        }
        proof {
            lemma_update_be(before0, pdu@, orig, m, width as nat, v, low as nat, 0,
                (left + 1) as nat, rem as nat, 0);
        }
        let mut byte = low + 1;
        while rem >= 8
            invariant
                1 <= width <= 64,
                m + width <= 8 * orig.len(),
                8 * orig.len() <= usize::MAX,
                pdu@.len() == orig.len(),
                rem <= width,
                m + width - rem == 8 * byte,
                forall|p: nat|
                    p < 8 * orig.len() ==> #[trigger] be_bit(pdu@, p) == (if m <= p < m + width
                        - rem {
                        bit_u64(v, (m + width - 1 - p) as u64)
                    } else {
                        be_bit(orig, p)
                    }),
            decreases rem,
        {
            let ghost before = pdu@;
            write_full(pdu, byte, rem - 8, v);
            proof {
                lemma_update_be(before, pdu@, orig, m, width as nat, v, byte as nat, 0, 8,
                    (rem - 8) as nat, (width - rem) as nat);
            }
            rem = rem - 8;
            byte = byte + 1;
        }
        if rem > 0 {
            let ghost before = pdu@;
            write_partial(pdu, byte, 8 - rem, rem, 0, v);
            proof {
                lemma_update_be(before, pdu@, orig, m, width as nat, v, byte as nat,
                    (8 - rem) as nat, rem as nat, 0, (width - rem) as nat);
            }
        }
    }
}

/// Read a single-bit signal: bit `start % 8` of byte `start / 8`.
pub fn extract_bool(pdu: &Vec<u8>, start: usize) -> (b: bool)
    requires
        start < 8 * pdu@.len(),
        8 * pdu@.len() <= usize::MAX,
    ensures
        b == le_bit(pdu@, start as nat),
{
    proof {
        vstd::arithmetic::div_mod::lemma_fundamental_div_mod(start as int, 8);
    }
    let byte = start / 8;
    let bit = start % 8;
    let r = (pdu[byte] & (1u8 << (bit as u64))) != 0;
    proof {
        let b0 = pdu@[byte as int];
        assert((b0 & (1u8 << (bit as u64)) != 0) == bit_u8(b0, bit as u64)) by (bit_vector)
            requires
                bit < 8,
        ;
        lemma_le_bit_byte(pdu@, byte as nat, bit as nat);
        assert(start as nat == 8 * (byte as nat) + bit as nat);
    }
    r
}

/// Write a single-bit signal by setting or clearing exactly one bit of its
/// byte; the other seven bits are untouched.
pub fn insert_bool(pdu: &mut Vec<u8>, start: usize, b: bool)
    requires
        start < 8 * old(pdu)@.len(),
        8 * old(pdu)@.len() <= usize::MAX,
    ensures
        final(pdu)@.len() == old(pdu)@.len(),
        forall|p: nat|
            p < 8 * old(pdu)@.len() ==> #[trigger] le_bit(final(pdu)@, p) == (if p == start {
                b
            } else {
                le_bit(old(pdu)@, p)
            }),
{
    let ghost orig = pdu@;
    proof {
        vstd::arithmetic::div_mod::lemma_fundamental_div_mod(start as int, 8);
    }
    let byte = start / 8;
    let bit = start % 8;
    let mask: u8 = 1u8 << (bit as u64);
    let ob = pdu[byte];
    if b {
        pdu[byte] = ob | mask;
    } else {
        pdu[byte] = ob & !mask;
    }
    proof {
        assert forall|p: nat| p < 8 * orig.len() implies #[trigger] le_bit(pdu@, p) == (if p
            == start {
            b
        } else {
            le_bit(orig, p)
        }) by {
            vstd::arithmetic::div_mod::lemma_fundamental_div_mod(p as int, 8);
            let q = p as int / 8;
            let j = (p as int) % 8;
            if q == byte {
                assert(p == 8 * (byte as nat) + j as nat);
                assert(start as nat == 8 * (byte as nat) + bit as nat);
                lemma_le_bit_byte(pdu@, byte as nat, j as nat);
                lemma_le_bit_byte(orig, byte as nat, j as nat);
                if b {
                    lemma_set_bit8(ob, bit as u64, j as u64);
                } else {
                    lemma_clear_bit8(ob, bit as u64, j as u64);
                }
            } else {
                assert(pdu@[q] == orig[q]);
                assert(le_bit(pdu@, p) == le_bit(orig, p));
            }
        }
    }
}

/// Sign-extend a `width`-bit raw value into the 64-bit container: when the
/// field's top bit is set, every higher-order bit is set too.
pub fn sign_extend(v: u64, width: usize) -> (r: u64)
    requires
        1 <= width <= 64,
        v < pow2(width as nat),
    ensures
        r == sign_extend64(v as nat, width as nat),
{
    let s = (width - 1) as u64;
    proof {
        crate::bits::lemma_pow2_shl(s);
        if width < 64 {
            crate::bits::lemma_pow2_shl(width as u64);
        }
        vstd::arithmetic::power2::lemma_pow2_adds((width - 1) as nat, 1);
        vstd::arithmetic::power2::lemma_pow2_unfold(width as nat);
    }
    let mask: u64 = 1u64 << s;
    if v & mask != 0 {
        proof {
            assert((v & (1u64 << s) != 0) ==> v >= (1u64 << s)) by (bit_vector);
        }
        let mor: u64 = mask | (mask - 1);
        let r = v | !mor;
        proof {
            assert(mor == ((1u64 << s) | (((1u64 << s) - 1) as u64)) as u64);
            if s < 63 {
                assert(mor as nat == (((1u64 << ((s + 1) as u64)) - 1) as u64) as nat)
                    by (bit_vector)
                    requires
                        s < 63,
                        mor == ((1u64 << s) | (((1u64 << s) - 1) as u64)) as u64,
                ;
                crate::bits::lemma_pow2_shl((s + 1) as u64);
            } else {
                assert(mor == 0xffff_ffff_ffff_ffffu64) by (bit_vector)
                    requires
                        s == 63,
                        mor == ((1u64 << s) | (((1u64 << s) - 1) as u64)) as u64,
                ;
                vstd::arithmetic::power2::lemma2_to64_rest();
            }
            assert(v <= mor ==> (v | !mor) == v + (0xffff_ffff_ffff_ffffu64 - mor))
                by (bit_vector)
                requires
                    s < 64,
                    mor == ((1u64 << s) | (((1u64 << s) - 1) as u64)) as u64,
            ;
            vstd::arithmetic::power2::lemma2_to64_rest();
        }
        r
    } else {
        proof {
            assert((v & (1u64 << s) == 0 && (s == 63 || v < (1u64 << ((s + 1) as u64)))) ==> v < (
            1u64 << s)) by (bit_vector)
                requires
                    s < 64,
            ;
            if width < 64 {
                assert(v < (1u64 << ((s + 1) as u64)));
            }
        }
        v
    }
}

/// Reinterpret a 64-bit container as its two's complement signed reading.
pub fn as_signed(v: u64) -> (r: i64)
    ensures
        r as int == as_signed64(v as nat),
{
    proof {
        vstd::arithmetic::power2::lemma2_to64_rest();
    }
    if v >= 0x8000_0000_0000_0000u64 {
        proof {
            assert(!v == 0xffff_ffff_ffff_ffffu64 - v) by (bit_vector)
                requires
                    v >= 0x8000_0000_0000_0000u64,
            ;
        }
        -((!v) as i64) - 1
    } else {
        v as i64
    }
}

/// Round trip, little-endian: after a value is inserted, reading the same
/// bit range back yields the value reduced to the signal's width.
pub proof fn lemma_le_round_trip(prior: Seq<u8>, now: Seq<u8>, start: nat, width: nat, v: u64)
    requires
        1 <= width <= 64,
        start + width <= 8 * prior.len(),
        le_inserted(prior, now, start, width, v),
    ensures
        le_raw(now, start, width) == (v as nat) % pow2(width),
{
    lemma_le_raw_bound(now, start, width);
    vstd::arithmetic::power2::lemma_pow2_pos(width);
    if width < 64 {
        vstd::arithmetic::power2::lemma_pow2_strictly_increases(width, 64);
    }
    vstd::arithmetic::power2::lemma2_to64();
    vstd::arithmetic::power2::lemma2_to64_rest();
    let t = le_raw(now, start, width) as u64;
    if width == 64 {
        assert forall|k: u64| k < 64 implies bit_u64(t, k) == bit_u64(v, k) by {
            lemma_le_raw_bit(now, start, width, k);
            assert(le_bit(now, start + k as nat) == bit_u64(v, ((start + k) - start) as u64));
        }
        lemma_u64_from_bits(t, v);
        vstd::arithmetic::div_mod::lemma_small_mod(v as nat, pow2(64));
    } else {
        crate::bits::lemma_pow2_shl(width as u64);
        let mv = v & (((1u64 << (width as u64)) - 1) as u64);
        assert forall|k: u64| k < 64 implies bit_u64(t, k) == bit_u64(mv, k) by {
            lemma_le_raw_bit(now, start, width, k);
            lemma_mask64(v, width as u64, k);
            if k < width {
                assert(le_bit(now, start + k as nat) == bit_u64(v, ((start + k) - start) as u64));
            }
        }
        lemma_u64_from_bits(t, mv);
        vstd::bits::lemma_u64_low_bits_mask_is_mod(v, width);
        assert(vstd::bits::low_bits_mask(width) == (pow2(width) - 1) as nat);
    }
}

/// Round trip, big-endian: the mirror statement over linear indices.
pub proof fn lemma_be_round_trip(prior: Seq<u8>, now: Seq<u8>, m: nat, width: nat, v: u64)
    requires
        1 <= width <= 64,
        m + width <= 8 * prior.len(),
        be_inserted(prior, now, m, width, v),
    ensures
        be_raw(now, m, width) == (v as nat) % pow2(width),
    decreases width,
{
    lemma_be_raw_bound(now, m, width);
    vstd::arithmetic::power2::lemma_pow2_pos(width);
    if width < 64 {
        vstd::arithmetic::power2::lemma_pow2_strictly_increases(width, 64);
    }
    vstd::arithmetic::power2::lemma2_to64();
    vstd::arithmetic::power2::lemma2_to64_rest();
    let t = be_raw(now, m, width) as u64;
    if width == 64 {
        assert forall|k: u64| k < 64 implies bit_u64(t, k) == bit_u64(v, k) by {
            lemma_be_raw_bit(now, m, width, k);
            if k < width {
                let p = (m + width - 1 - k) as nat;
                assert(be_bit(now, p) == bit_u64(v, (m + width - 1 - p) as u64));
            }
        }
        lemma_u64_from_bits(t, v);
        vstd::arithmetic::div_mod::lemma_small_mod(v as nat, pow2(64));
    } else {
        crate::bits::lemma_pow2_shl(width as u64);
        let mv = v & (((1u64 << (width as u64)) - 1) as u64);
        assert forall|k: u64| k < 64 implies bit_u64(t, k) == bit_u64(mv, k) by {
            lemma_be_raw_bit(now, m, width, k);
            lemma_mask64(v, width as u64, k);
            if k < width {
                let p = (m + width - 1 - k) as nat;
                assert(be_bit(now, p) == bit_u64(v, (m + width - 1 - p) as u64));
            }
        }
        lemma_u64_from_bits(t, mv);
        vstd::bits::lemma_u64_low_bits_mask_is_mod(v, width);
        assert(vstd::bits::low_bits_mask(width) == (pow2(width) - 1) as nat);
    }
}

/// Sign extension agrees with the two's complement reading: extending a raw
/// field into the 64-bit container and reading that container signed gives
/// the field's signed value.
pub proof fn lemma_sign_extend_signed(raw: nat, width: nat)
    requires
        1 <= width <= 64,
        raw < pow2(width),
    ensures
        sign_extend64(raw, width) < pow2(64),
        as_signed64(sign_extend64(raw, width)) == signed_value(raw, width),
{
    vstd::arithmetic::power2::lemma_pow2_unfold(width);
    vstd::arithmetic::power2::lemma_pow2_unfold(64);
    if width < 64 {
        vstd::arithmetic::power2::lemma_pow2_strictly_increases(width, 64);
    }
    if width < 64 {
        vstd::arithmetic::power2::lemma_pow2_strictly_increases((width - 1) as nat, 63);
    }
    vstd::arithmetic::power2::lemma_pow2_adds((width - 1) as nat, 1);
    vstd::arithmetic::power2::lemma_pow2_adds(63, 1);
}

} // verus!
