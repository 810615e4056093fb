//! Signal description: storage-type selection, layout classification, and
//! the per-signal decode and encode operations.

use vstd::prelude::*;
use vstd::arithmetic::power2::pow2;
use crate::bits::be_index;
use crate::bits::le_bit;
use crate::bits::le_raw;
use crate::bits::be_raw;
use crate::bits::signed_value;
use crate::codec::le_inserted;
use crate::codec::be_inserted;
use crate::codec::extract_bool;
use crate::codec::extract_aligned_le;
use crate::codec::extract_aligned_be;
use crate::codec::extract_unaligned_le;
use crate::codec::extract_unaligned_be;
use crate::codec::insert_bool;
use crate::codec::insert_aligned_le;
use crate::codec::insert_aligned_be;
use crate::codec::insert_unaligned_le;
use crate::codec::insert_unaligned_be;
use crate::codec::sign_extend;

verus! {

/// Order in which a signal's bits are laid across the frame's bytes.
#[derive(Clone, Copy, PartialEq, Eq, Structural, Debug)]
pub enum ByteOrder {
    LittleEndian,
    BigEndian,
}

/// A runtime field value: the storage reading of a signal.
///
/// A scaled signal's field holds the raw container value; the linear
/// scale/offset transform into engineering units is floating-point work and
/// stays outside the verified core.
#[derive(Clone, Copy, PartialEq, Eq, Structural, Debug)]
pub enum SignalValue {
    Bool(bool),
    Unsigned(u64),
    Signed(i64),
}

/// The layout classes; each selects one extraction/insertion algorithm.
#[derive(Clone, Copy, PartialEq, Eq, Structural, Debug)]
pub enum Layout {
    SingleBit,
    AlignedLe,
    AlignedBe,
    UnalignedLe,
    UnalignedBe,
}

/// A value-table entry: a raw signal value and its description.
#[derive(Clone, Debug)]
pub struct ValueEntry {
    pub raw: u64,
    pub description: String,
}

/// The storage width for a signal of `width` bits: the narrowest of
/// 1 (boolean), 8, 16, 32 or 64 that holds it.
pub open spec fn spec_storage_width(width: nat) -> nat {
    if width == 1 {
        1
    } else if width <= 8 {
        8
    } else if width <= 16 {
        16
    } else if width <= 32 {
        32
    } else {
        64
    }
}

/// The storage width for a signal: the narrowest of 1 (boolean), 8, 16, 32
/// or 64 bits that holds its width.
pub fn storage_width(width: usize) -> (w: usize)
    requires
        1 <= width <= 64,
    ensures
        w == spec_storage_width(width as nat),
{
    if width == 1 {
        1
    } else if width <= 8 {
        8
    } else if width <= 16 {
        16
    } else if width <= 32 {
        32
    } else {
        64
    }
}

/// Static description of one signal within a message.
pub struct SignalInfo {
    /// The signal's name, unique within its message.
    pub name: String,
    /// The start bit within the frame, counted in the byte order's numbering.
    pub start: usize,
    /// The width in bits, 1 to 64.
    pub width: usize,
    /// The storage width chosen for the signal.
    pub nwidth: usize,
    /// The byte order of the signal's bits.
    pub byte_order: ByteOrder,
    /// Whether the storage type is signed.
    pub signed: bool,
    /// True when the schema's scale factor differs from one; the native type
    /// is then a 32-bit float, produced outside the verified core.
    pub scaled: bool,
    /// The ordered value table: raw values with their descriptions.
    pub values: Vec<ValueEntry>,
}

/// The two's complement 64-bit pattern of a field value.
pub open spec fn value_pattern(v: SignalValue) -> u64 {
    match v {
        SignalValue::Bool(b) => if b {
            1u64
        } else {
            0u64
        },
        SignalValue::Unsigned(u) => u,
        SignalValue::Signed(i) => if i >= 0 {
            i as u64
        } else {
            (i + 0x1_0000_0000_0000_0000) as u64
        },
    }
}

impl SignalInfo {
    /// A well-formed signal: a width the model supports and the matching
    /// storage width.
    pub open spec fn wf(self) -> bool {
        &&& 1 <= self.width <= 64
        &&& self.nwidth == spec_storage_width(self.width as nat)
    }

    /// The one-past-the-end bit index of the signal in its numbering.
    pub open spec fn extent(self) -> nat {
        match self.byte_order {
            ByteOrder::LittleEndian => (self.start + self.width) as nat,
            ByteOrder::BigEndian => (be_index(self.start as nat) + self.width) as nat,
        }
    }

    /// Whether the signal lies within a frame of `len` bytes.
    pub open spec fn fits(self, len: nat) -> bool {
        self.extent() <= 8 * len
    }

    /// Build the description of a signal: the storage width is the smallest
    /// of 1, 8, 16, 32 or 64 not below the bit width.
    pub fn new(
        name: String,
        start: usize,
        width: usize,
        byte_order: ByteOrder,
        signed: bool,
        scaled: bool,
        values: Vec<ValueEntry>,
    ) -> (r: SignalInfo)
        requires
            1 <= width <= 64,
        ensures
            r.wf(),
            r.name == name,
            r.start == start,
            r.width == width,
            r.byte_order == byte_order,
            r.signed == signed,
            r.scaled == scaled,
            r.values == values,
    {
        let nwidth: usize = if width == 1 {
            1
        } else if width <= 8 {
            8
        } else if width <= 16 {
            16
        } else if width <= 32 {
            32
        } else {
            64
        };
        SignalInfo { name, start, width, nwidth, byte_order, signed, scaled, values }
    }

    /// A signal with a scale factor is treated as a floating-point value.
    pub fn is_float(&self) -> (r: bool)
        ensures
            r == self.scaled,
    {
        self.scaled
    }

    /// The layout class of the signal.
    pub open spec fn spec_layout(self) -> Layout {
        if self.width == 1 {
            Layout::SingleBit
        } else if self.byte_order == ByteOrder::LittleEndian && self.width == self.nwidth
            && self.start % 8 == 0 {
            Layout::AlignedLe
        } else if self.byte_order == ByteOrder::BigEndian && self.width == self.nwidth
            && self.start % 8 == 7 {
            Layout::AlignedBe
        } else if self.byte_order == ByteOrder::LittleEndian {
            Layout::UnalignedLe
        } else {
            Layout::UnalignedBe
        }
    }

    /// Classify the signal's bit placement: single-bit, aligned (whole bytes
    /// at a byte boundary) or unaligned, per byte order.
    pub fn layout(&self) -> (l: Layout)
        ensures
            l == self.spec_layout(),
    {
        let aligned = self.width == self.nwidth;
        match self.byte_order {
            ByteOrder::LittleEndian => {
                if self.width == 1 {
                    Layout::SingleBit
                } else if aligned && self.start % 8 == 0 {
                    Layout::AlignedLe
                } else {
                    Layout::UnalignedLe
                }
            },
            ByteOrder::BigEndian => {
                if self.width == 1 {
                    Layout::SingleBit
                } else if aligned && self.start % 8 == 7 {
                    Layout::AlignedBe
                } else {
                    Layout::UnalignedBe
                }
            },
        }
    }

    /// The raw (unsigned, unextended) value of the signal's bits in a frame.
    pub open spec fn raw_of(self, data: Seq<u8>) -> nat {
        match self.byte_order {
            ByteOrder::LittleEndian => le_raw(data, self.start as nat, self.width as nat),
            ByteOrder::BigEndian => be_raw(data, be_index(self.start as nat), self.width as nat),
        }
    }

    /// The field value the signal decodes to from a frame.
    pub open spec fn decoded(self, data: Seq<u8>) -> SignalValue {
        if self.width == 1 {
            SignalValue::Bool(le_bit(data, self.start as nat))
        } else if self.signed {
            SignalValue::Signed(signed_value(self.raw_of(data), self.width as nat) as i64)
        } else {
            SignalValue::Unsigned(self.raw_of(data) as u64)
        }
    }

    /// Decode the signal from a frame: extract its raw bits by the layout's
    /// algorithm, then sign-extend signed fields into their container.
    pub fn decode(&self, pdu: &Vec<u8>) -> (r: SignalValue)
        requires
            self.wf(),
            self.fits(pdu@.len()),
            8 * pdu@.len() <= usize::MAX,
        ensures
            r == self.decoded(pdu@),
    {
        let l = self.layout();
        if matches!(l, Layout::SingleBit) {
            proof {
                vstd::arithmetic::div_mod::lemma_fundamental_div_mod(self.start as int, 8);
            }
            SignalValue::Bool(extract_bool(pdu, self.start))
        } else {
            let raw: u64 = match l {
                Layout::AlignedLe => extract_aligned_le(pdu, self.start, self.width),
                Layout::AlignedBe => extract_aligned_be(pdu, self.start, self.width),
                Layout::UnalignedLe => extract_unaligned_le(pdu, self.start, self.width),
                Layout::UnalignedBe => extract_unaligned_be(pdu, self.start, self.width),
                Layout::SingleBit => 0,
            };
            proof {
                crate::bits::lemma_le_raw_bound(pdu@, self.start as nat, self.width as nat);
                crate::bits::lemma_be_raw_bound(
                    pdu@,
                    be_index(self.start as nat),
                    self.width as nat,
                );
            }
            if self.signed {
                let ext = sign_extend(raw, self.width);
                proof {
                    crate::codec::lemma_sign_extend_signed(raw as nat, self.width as nat);
                    vstd::arithmetic::power2::lemma2_to64_rest();
                }
                let sv: i64 = crate::codec::as_signed(ext);
                SignalValue::Signed(sv)
            } else {
                SignalValue::Unsigned(raw)
            }
        }
    }

    /// Whether a field value has the variant this signal stores.
    pub open spec fn accepts(self, v: SignalValue) -> bool {
        if self.width == 1 {
            v is Bool
        } else if self.signed {
            v is Signed
        } else {
            v is Unsigned
        }
    }

    /// What this signal's encoding guarantees: single-bit signals set or
    /// clear exactly their bit, wider signals place the value's low `width`
    /// bits at the signal's positions; every other bit of the frame is
    /// preserved.
    pub open spec fn encoded(self, prior: Seq<u8>, now: Seq<u8>, v: SignalValue) -> bool {
        if self.width == 1 {
            &&& now.len() == prior.len()
            &&& forall|p: nat|
                p < 8 * prior.len() ==> #[trigger] le_bit(now, p) == (if p == self.start as nat {
                    v == SignalValue::Bool(true)
                } else {
                    le_bit(prior, p)
                })
        } else {
            match self.byte_order {
                ByteOrder::LittleEndian => le_inserted(
                    prior,
                    now,
                    self.start as nat,
                    self.width as nat,
                    value_pattern(v),
                ),
                ByteOrder::BigEndian => be_inserted(
                    prior,
                    now,
                    be_index(self.start as nat),
                    self.width as nat,
                    value_pattern(v),
                ),
            }
        }
    }

    /// Encode the signal into a frame: write its bits by the layout's
    /// algorithm, truncating the field value to the signal's width, and
    /// leave every other bit of the frame unchanged.
    pub fn encode(&self, pdu: &mut Vec<u8>, value: SignalValue)
        requires
            self.wf(),
            self.fits(old(pdu)@.len()),
            8 * old(pdu)@.len() <= usize::MAX,
            self.accepts(value),
        ensures
            self.encoded(old(pdu)@, final(pdu)@, value),
    {
        let l = self.layout();
        if matches!(l, Layout::SingleBit) {
            proof {
                vstd::arithmetic::div_mod::lemma_fundamental_div_mod(self.start as int, 8);
            }
            match value {
                SignalValue::Bool(b) => insert_bool(pdu, self.start, b),
                _ => {
                    proof {
                        assert(false);
                    }
                },
            }
        } else {
            let v: u64 = match value {
                SignalValue::Unsigned(u) => u,
                SignalValue::Signed(i) => {
                    if i >= 0 {
                        i as u64
                    } else {
                        0xffff_ffff_ffff_ffffu64 - ((-(i + 1)) as u64)
                    }
                },
                SignalValue::Bool(_) => {
                    proof {
                        assert(false);
                    }
                    0
                },
            };
            match l {
                Layout::AlignedLe => insert_aligned_le(pdu, self.start, self.width, v),
                Layout::AlignedBe => insert_aligned_be(pdu, self.start, self.width, v),
                Layout::UnalignedLe => insert_unaligned_le(pdu, self.start, self.width, v),
                Layout::UnalignedBe => insert_unaligned_be(pdu, self.start, self.width, v),
                Layout::SingleBit => {
                    proof {
                        assert(false);
                    }
                },
            }
        }
    }
}

/// Round trip for signed fields: encoding a signed field value in range and
/// reading the raw bits back as a two's complement field of the same width
/// recovers the value.  Together with the little- and big-endian round-trip
/// lemmas this covers every integer-typed signal.
pub proof fn lemma_signed_round_trip(i: i64, width: nat)
    requires
        1 <= width <= 64,
        -pow2((width - 1) as nat) <= i as int,
        (i as int) < pow2((width - 1) as nat),
    ensures
        signed_value(
            value_pattern(SignalValue::Signed(i)) as nat % pow2(width),
            width,
        ) == i as int,
{
    vstd::arithmetic::power2::lemma_pow2_adds((width - 1) as nat, 1);
    vstd::arithmetic::power2::lemma_pow2_unfold(width);
    vstd::arithmetic::power2::lemma_pow2_pos((width - 1) as nat);
    vstd::arithmetic::power2::lemma2_to64();
    vstd::arithmetic::power2::lemma2_to64_rest();
    if width < 64 {
        vstd::arithmetic::power2::lemma_pow2_strictly_increases(width, 64);
    }
    let p = value_pattern(SignalValue::Signed(i));
    if i >= 0 {
        assert(p == i);
        vstd::arithmetic::div_mod::lemma_small_mod(p as nat, pow2(width));
    } else {
        assert(p as int == i + pow2(64));
        vstd::arithmetic::power2::lemma_pow2_adds(width, (64 - width) as nat);
        let m = pow2(width) as int;
        let a = pow2((64 - width) as nat) as int - 1;
        assert(p as int == m * a + (i + m)) by (nonlinear_arith)
            requires
                p as int == i + pow2(64),
                pow2(64) == pow2(width) * pow2((64 - width) as nat),
                m == pow2(width),
                a == pow2((64 - width) as nat) - 1,
        ;
        vstd::arithmetic::div_mod::lemma_mod_multiples_vanish(a, i + m, m);
        assert(0 <= i + m < m);
        vstd::arithmetic::div_mod::lemma_small_mod((i + m) as nat, pow2(width));
        assert(p as nat % pow2(width) == (i + m) as nat);
    }
}

/// Round trip for a whole signal: a frame that carries an encoded in-range
/// field value decodes back to that value.  For unsigned fields the value
/// must be representable in the signal's width, for signed fields in its
/// two's complement range; single-bit fields always round-trip.
pub proof fn lemma_signal_round_trip(s: SignalInfo, prior: Seq<u8>, now: Seq<u8>, v: SignalValue)
    requires
        s.wf(),
        s.fits(prior.len()),
        s.accepts(v),
        s.encoded(prior, now, v),
        match v {
            SignalValue::Bool(_) => true,
            SignalValue::Unsigned(u) => (u as nat) < pow2(s.width as nat),
            SignalValue::Signed(i) => -pow2((s.width - 1) as nat) <= i as int && (i as int) < pow2(
                (s.width - 1) as nat,
            ),
        },
    ensures
        s.decoded(now) == v,
{
    vstd::arithmetic::power2::lemma_pow2_pos(s.width as nat);
    if s.width == 1 {
    } else {
        let p = value_pattern(v);
        let raw = s.raw_of(now);
        match s.byte_order {
            ByteOrder::LittleEndian => {
                crate::codec::lemma_le_round_trip(
                    prior,
                    now,
                    s.start as nat,
                    s.width as nat,
                    p,
                );
            },
            ByteOrder::BigEndian => {
                crate::codec::lemma_be_round_trip(
                    prior,
                    now,
                    be_index(s.start as nat),
                    s.width as nat,
                    p,
                );
            },
        }
        assert(raw == (p as nat) % pow2(s.width as nat));
        match v {
            SignalValue::Unsigned(u) => {
                vstd::arithmetic::div_mod::lemma_small_mod(u as nat, pow2(s.width as nat));
            },
            SignalValue::Signed(i) => {
                lemma_signed_round_trip(i, s.width as nat);
                vstd::arithmetic::power2::lemma_pow2_pos((s.width - 1) as nat);
                vstd::arithmetic::power2::lemma_pow2_adds((s.width - 1) as nat, 1);
            },
            SignalValue::Bool(_) => {
                assert(false);
            },
        }
    }
}

} // verus!
