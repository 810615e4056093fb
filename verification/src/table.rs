//! The value-table emitter: named constants built from a signal's value
//! table, typed like the signal's own field.

use vstd::prelude::*;
use vstd::arithmetic::power2::pow2;
use crate::bits::signed_value;
use crate::bits::lemma_pow2_shl;
use crate::signal::SignalInfo;
use crate::signal::SignalValue;
use crate::message::MessageInfo;

verus! {

/// The uppercase mapping of a string; the standard library computes it, and
/// it depends on the characters alone.
pub uninterp spec fn upper_of(s: Seq<char>) -> Seq<char>;

/// Whether a character is alphanumeric; the standard library decides it, and
/// it depends on the character alone.
pub uninterp spec fn alnum(c: char) -> bool;

/// Relies on str::to_uppercase: the uppercase mapping of the characters.
#[verifier::external_body]
fn to_upper(s: &String) -> (r: String)
    ensures
        r@ == upper_of(s@),
{
    s.to_uppercase()
}

/// Relies on char::is_alphanumeric: whether the character is alphanumeric.
#[verifier::external_body]
fn char_is_alnum(c: char) -> (r: bool)
    ensures
        r == alnum(c),
{
    c.is_alphanumeric()
}

/// Relies on str::chars: the characters of the string, in order.
#[verifier::external_body]
fn chars_of(s: &String) -> (r: Vec<char>)
    ensures
        r@ == s@,
{
    s.chars().collect()
}

/// Relies on String's FromIterator over characters: the string holding
/// exactly the given characters.
#[verifier::external_body]
fn string_from_chars(v: Vec<char>) -> (r: String)
    ensures
        r@ == v@,
{
    String::from_iter(v)
}

/// Whether the sanitizer keeps a character: alphanumeric or underscore.
pub open spec fn keep_char(c: char) -> bool {
    alnum(c) || c == '_'
}

/// The sanitized form of a string: every other character is dropped.
pub open spec fn sanitized(s: Seq<char>) -> Seq<char>
    decreases s.len(),
{
    if s.len() == 0 {
        Seq::empty()
    } else {
        sanitized(s.drop_last()) + if keep_char(s.last()) {
            seq![s.last()]
        } else {
            Seq::empty()
        }
    }
}

/// The constant name for a value-table entry: the signal name, an
/// underscore and the description, upper-cased and sanitized.
pub open spec fn spec_constant_name(sig: Seq<char>, desc: Seq<char>) -> Seq<char> {
    sanitized(upper_of(sig + seq!['_'] + desc))
}

/// Build a constant name.
pub fn constant_name(sig: &String, desc: &String) -> (r: String)
    ensures
        r@ == spec_constant_name(sig@, desc@),
{
    let mut joined = <String as vstd::string::StringExecFns>::from_str(sig.as_str());
    proof {
        reveal_strlit("_");
        assert("_"@ =~= seq!['_']);
    }
    <String as vstd::string::StringExecFns>::append(&mut joined, "_");
    <String as vstd::string::StringExecFns>::append(&mut joined, desc.as_str());
    let upper = to_upper(&joined);
    let cs = chars_of(&upper);
    let mut out: Vec<char> = Vec::new();
    let mut i: usize = 0;
    while i < cs.len()
        invariant
            i <= cs@.len(),
            out@ == sanitized(cs@.take(i as int)),
        decreases cs@.len() - i,
    {
        let c = cs[i];
        if char_is_alnum(c) || c == '_' {
            out.push(c);
        }
        proof {
            assert(cs@.take(i as int + 1).drop_last() == cs@.take(i as int));
            assert(cs@.take(i as int + 1).last() == cs@[i as int]);
        }
        i = i + 1;
    }
    proof {
        assert(cs@.take(cs@.len() as int) == cs@);
    }
    string_from_chars(out)
}

/// The typed constant for a raw value-table value: a scaled signal's
/// constant carries the raw number (its float form is cast outside the
/// verified core), a single-bit signal's constant is a boolean, and an
/// integer signal's constant is the raw value wrapped to its storage width.
pub open spec fn spec_const_value(s: SignalInfo, raw: u64) -> SignalValue {
    if s.scaled {
        SignalValue::Unsigned(raw)
    } else if s.width == 1 {
        SignalValue::Bool(raw != 0)
    } else if s.signed {
        SignalValue::Signed(signed_value(raw as nat % pow2(s.nwidth as nat), s.nwidth as nat) as i64)
    } else {
        SignalValue::Unsigned((raw as nat % pow2(s.nwidth as nat)) as u64)
    }
}

/// Produce the typed constant for one value-table entry.
pub fn const_value(s: &SignalInfo, raw: u64) -> (r: SignalValue)
    requires
        s.wf(),
    ensures
        r == spec_const_value(*s, raw),
{
    if s.scaled {
        SignalValue::Unsigned(raw)
    } else if s.width == 1 {
        SignalValue::Bool(raw != 0)
    } else {
        let m: u64 = if s.nwidth == 64 {
            proof {
                vstd::arithmetic::power2::lemma2_to64_rest();
                vstd::arithmetic::div_mod::lemma_small_mod(raw as nat, pow2(64));
            }
            raw
        } else {
            proof {
                crate::bits::lemma_shl1_pos(s.nwidth as u64);
                lemma_pow2_shl(s.nwidth as u64);
                vstd::bits::lemma_u64_low_bits_mask_is_mod(raw, s.nwidth as nat);
                assert(vstd::bits::low_bits_mask(s.nwidth as nat) == (pow2(s.nwidth as nat)
                    - 1) as nat);
            }
            raw & ((1u64 << (s.nwidth as u64)) - 1)
        };
        proof {
            vstd::arithmetic::power2::lemma_pow2_pos(s.nwidth as nat);
            vstd::arithmetic::div_mod::lemma_mod_bound(raw as int, pow2(s.nwidth as nat) as int);
        }
        if s.signed {
            let ext = crate::codec::sign_extend(m, s.nwidth);
            proof {
                crate::codec::lemma_sign_extend_signed(m as nat, s.nwidth as nat);
            }
            SignalValue::Signed(crate::codec::as_signed(ext))
        } else {
            SignalValue::Unsigned(m)
        }
    }
}

/// The constants of one signal's value table, first `n` entries.
pub open spec fn sig_constants_upto(s: SignalInfo, n: int) -> Seq<(Seq<char>, SignalValue)>
    decreases n,
{
    if n <= 0 {
        Seq::empty()
    } else {
        sig_constants_upto(s, n - 1) + seq![
            (
                spec_constant_name(s.name@, s.values@[n - 1].description@),
                spec_const_value(s, s.values@[n - 1].raw),
            ),
        ]
    }
}

/// The constants of the first `n` signals' value tables, in order.
pub open spec fn msg_constants_upto(sigs: Seq<SignalInfo>, n: int) -> Seq<(Seq<char>, SignalValue)>
    decreases n,
{
    if n <= 0 {
        Seq::empty()
    } else {
        msg_constants_upto(sigs, n - 1) + sig_constants_upto(
            sigs[n - 1],
            sigs[n - 1].values@.len() as int,
        )
    }
}

/// Every value-table constant of a message's selected signals.
pub open spec fn spec_constants(sigs: Seq<SignalInfo>) -> Seq<(Seq<char>, SignalValue)> {
    msg_constants_upto(sigs, sigs.len() as int)
}

/// Whether an emitted table matches its specification entry for entry.
pub open spec fn table_matches(
    r: Seq<(String, SignalValue)>,
    t: Seq<(Seq<char>, SignalValue)>,
) -> bool {
    &&& r.len() == t.len()
    &&& forall|i: int|
        0 <= i < r.len() ==> (#[trigger] r[i]).0@ == t[i].0 && r[i].1 == t[i].1
}

/// The value of the last table entry with the given name, if any: when two
/// descriptions sanitize to the same name, the later entry wins.
pub open spec fn spec_lookup(t: Seq<(Seq<char>, SignalValue)>, name: Seq<char>) -> Option<
    SignalValue,
>
    decreases t.len(),
{
    if t.len() == 0 {
        Option::None
    } else if t.last().0 == name {
        Option::Some(t.last().1)
    } else {
        spec_lookup(t.drop_last(), name)
    }
}

impl MessageInfo {
    /// Emit the value-table constants of every selected signal, in order:
    /// for each entry a sanitized `SIGNAL_DESCRIPTION` name and the typed
    /// constant.
    pub fn constants(&self) -> (r: Vec<(String, SignalValue)>)
        requires
            self.wf(),
        ensures
            table_matches(r@, spec_constants(self.spec_signals())),
    {
        let sigs_n = self.signal_count();
        let mut out: Vec<(String, SignalValue)> = Vec::new();
        let mut i: usize = 0;
        while i < sigs_n
            invariant
                self.wf(),
                sigs_n == self.spec_signals().len(),
                i <= sigs_n,
                table_matches(out@, msg_constants_upto(self.spec_signals(), i as int)),
            decreases sigs_n - i,
        {
            let s = self.signal(i);
            let n = s.values.len();
            let mut j: usize = 0;
            while j < n
                invariant
                    self.wf(),
                    i < self.spec_signals().len(),
                    *s == self.spec_signals()[i as int],
                    s.wf(),
                    n == s.values@.len(),
                    j <= n,
                    table_matches(
                        out@,
                        msg_constants_upto(self.spec_signals(), i as int) + sig_constants_upto(
                            *s,
                            j as int,
                        ),
                    ),
                decreases n - j,
            {
                let name = constant_name(&s.name, &s.values[j].description);
                let value = const_value(s, s.values[j].raw);
                out.push((name, value));
                j = j + 1;
            }
            proof {
                assert(msg_constants_upto(self.spec_signals(), i as int + 1)
                    == msg_constants_upto(self.spec_signals(), i as int) + sig_constants_upto(
                    self.spec_signals()[i as int],
                    self.spec_signals()[i as int].values@.len() as int,
                ));
            }
            i = i + 1;
        }
        out
    }

    /// Look a value-table constant up by its emitted name; the last matching
    /// entry wins.
    pub fn constant(&self, name: &String) -> (r: Option<SignalValue>)
        requires
            self.wf(),
        ensures
            r == spec_lookup(spec_constants(self.spec_signals()), name@),
    {
        let tbl = self.constants();
        let ghost t = spec_constants(self.spec_signals());
        let mut cur: Option<SignalValue> = Option::None;
        let mut i: usize = 0;
        proof {
            assert(t.take(0).len() == 0);
        }
        let n = tbl.len();
        while i < n
            invariant
                n == tbl@.len(),
                i <= n,
                table_matches(tbl@, t),
                t == spec_constants(self.spec_signals()),
                cur == spec_lookup(t.take(i as int), name@),
            decreases n - i,
        {
            if tbl[i].0.eq(name) {
                cur = Option::Some(tbl[i].1);
            }
            proof {
                assert(t.take(i as int + 1).drop_last() == t.take(i as int));
                assert(t.take(i as int + 1).last() == t[i as int]);
            }
            i = i + 1;
        }
        proof {
            assert(t.take(t.len() as int) == t);
        }
        cur
    }
}

} // verus!
