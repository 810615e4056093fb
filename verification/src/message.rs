//! Message schema, signal selection, and the composite decode and encode
//! operations driving every selected signal.

use vstd::prelude::*;
use crate::bits::be_index;
use crate::bits::le_bit;
use crate::bits::be_bit;
use crate::bits::bit_u64;
use crate::signal::ByteOrder;
use crate::signal::SignalInfo;
use crate::signal::SignalValue;
use crate::signal::value_pattern;

verus! {

/// A message identifier: the standard 11-bit or the extended 29-bit space.
#[derive(Clone, Copy, PartialEq, Eq, Structural, Debug)]
pub enum MessageId {
    Standard(u16),
    Extended(u32),
}

/// A schema-level message description, as the schema parser hands it over.
pub struct MessageDef {
    /// The message's name.
    pub name: String,
    /// The message identifier.
    pub id: MessageId,
    /// The byte length of the message's frame.
    pub size: usize,
    /// The cycle time in milliseconds, when the schema supplies one.
    pub cycle_time: Option<usize>,
    /// The message's signals, in schema order.
    pub signals: Vec<SignalInfo>,
}

/// The parsed schema: an ordered list of message descriptions.
pub struct Schema {
    pub messages: Vec<MessageDef>,
}

/// Errors found while a message description is resolved against the schema.
#[derive(Clone, Copy, PartialEq, Eq, Structural, Debug)]
pub enum SchemaError {
    /// A requested message or signal name has no schema entry.
    SchemaMismatch,
    /// A signal's bit range does not fit its message's frame, or its width
    /// or storage width is not one the model supports.
    SignalOutOfRange,
}

/// A runtime length error: the buffer handed to the fallible constructor
/// does not have the message's byte length.
#[derive(Clone, Copy, PartialEq, Eq, Structural, Debug)]
pub enum CodecError {
    LengthMismatch,
}

/// Field-wise equality of signal descriptions: every schema-visible part
/// agrees (the value table compared by contents).
pub open spec fn sig_eq(a: SignalInfo, b: SignalInfo) -> bool {
    &&& a.name@ == b.name@
    &&& a.start == b.start
    &&& a.width == b.width
    &&& a.nwidth == b.nwidth
    &&& a.byte_order == b.byte_order
    &&& a.signed == b.signed
    &&& a.scaled == b.scaled
    &&& a.values@.len() == b.values@.len()
    &&& forall|i: int|
        0 <= i < a.values@.len() ==> (#[trigger] a.values@[i]).raw == b.values@[i].raw
            && a.values@[i].description@ == b.values@[i].description@
}

/// Field-wise equality of two signal lists.
pub open spec fn sigs_eq(a: Seq<SignalInfo>, b: Seq<SignalInfo>) -> bool {
    a.len() == b.len() && forall|i: int| 0 <= i < a.len() ==> sig_eq(#[trigger] a[i], #[trigger] b[i])
}

/// Whether some signal in the list carries the given name.
pub open spec fn name_in(sigs: Seq<SignalInfo>, n: Seq<char>) -> bool {
    exists|i: int| 0 <= i < sigs.len() && (#[trigger] sigs[i]).name@ == n
}

/// Whether a selection list admits a signal name: an empty list admits all.
pub open spec fn selected_by(list: Seq<String>, name: Seq<char>) -> bool {
    list.len() == 0 || exists|j: int| 0 <= j < list.len() && list[j]@ == name
}

/// The subsequence of `sigs` admitted by the selection list, in order.
pub open spec fn spec_selected(sigs: Seq<SignalInfo>, list: Seq<String>) -> Seq<SignalInfo>
    decreases sigs.len(),
{
    if sigs.len() == 0 {
        Seq::empty()
    } else {
        spec_selected(sigs.drop_last(), list) + if selected_by(list, sigs.last().name@) {
            seq![sigs.last()]
        } else {
            Seq::empty()
        }
    }
}

/// Whether every name in the selection list names a signal of the message.
pub open spec fn names_found(sigs: Seq<SignalInfo>, list: Seq<String>) -> bool {
    forall|j: int| 0 <= j < list.len() ==> name_in(sigs, (#[trigger] list[j])@)
}

/// Whether every signal is well formed and lies within a frame of `size`
/// bytes that the machine can address bit by bit.
pub open spec fn all_valid(sigs: Seq<SignalInfo>, size: nat) -> bool {
    &&& 8 * size <= usize::MAX
    &&& forall|i: int| 0 <= i < sigs.len() ==> (#[trigger] sigs[i]).wf() && sigs[i].fits(size)
}

/// The index of the first message with the given name, if any.
pub open spec fn spec_find(msgs: Seq<MessageDef>, name: Seq<char>) -> Option<int>
    decreases msgs.len(),
{
    if msgs.len() == 0 {
        Option::None
    } else if msgs[0].name@ == name {
        Option::Some(0int)
    } else {
        match spec_find(msgs.drop_first(), name) {
            Option::Some(i) => Option::Some(i + 1),
            Option::None => Option::None,
        }
    }
}

/// The 32-bit value of a message identifier.
pub open spec fn spec_id32(id: MessageId) -> u32 {
    match id {
        MessageId::Standard(v) => v as u32,
        MessageId::Extended(v) => v,
    }
}

/// A message resolved against the schema: its constants and the selected
/// signals, validated once, ahead of any decode or encode call.
pub struct MessageInfo {
    id: u32,
    extended: bool,
    dlc: usize,
    cycle_time: Option<usize>,
    signal_list: Vec<String>,
    signals: Vec<SignalInfo>,
}

impl MessageInfo {
    /// The selected signals are well formed and fit the frame.
    pub open spec fn wf(self) -> bool {
        all_valid(self.spec_signals(), self.spec_dlc() as nat)
    }

    pub closed spec fn spec_id(self) -> u32 {
        self.id
    }

    pub closed spec fn spec_extended(self) -> bool {
        self.extended
    }

    pub closed spec fn spec_dlc(self) -> usize {
        self.dlc
    }

    pub closed spec fn spec_cycle_time(self) -> Option<usize> {
        self.cycle_time
    }

    pub closed spec fn spec_signals(self) -> Seq<SignalInfo> {
        self.signals@
    }

    pub closed spec fn spec_signal_list(self) -> Seq<String> {
        self.signal_list@
    }

    /// The message's numeric identifier.
    pub fn id(&self) -> (r: u32)
        ensures
            r == self.spec_id(),
    {
        self.id
    }

    /// Whether the identifier lives in the extended 29-bit space.
    pub fn extended(&self) -> (r: bool)
        ensures
            r == self.spec_extended(),
    {
        self.extended
    }

    /// The frame byte length.
    pub fn dlc(&self) -> (r: usize)
        ensures
            r == self.spec_dlc(),
    {
        self.dlc
    }

    /// The cycle time, when the schema supplied one.
    pub fn cycle_time(&self) -> (r: Option<usize>)
        ensures
            r == self.spec_cycle_time(),
    {
        self.cycle_time
    }

    /// How many signals were selected.
    pub fn signal_count(&self) -> (r: usize)
        ensures
            r == self.spec_signals().len(),
    {
        self.signals.len()
    }

    /// The selected signal at an index.
    pub fn signal(&self, i: usize) -> (r: &SignalInfo)
        requires
            i < self.spec_signals().len(),
        ensures
            *r == self.spec_signals()[i as int],
    {
        &self.signals[i]
    }

    /// Whether a signal name is materialized: an empty selection list admits
    /// every signal of the message.
    pub fn use_signal(&self, name: &String) -> (r: bool)
        ensures
            r == selected_by(self.spec_signal_list(), name@),
    {
        if self.signal_list.len() == 0 {
            return true;
        }
        list_has(&self.signal_list, name)
    }

    /// Resolve a message by name against the schema and select its signals.
    ///
    /// Fails with `SchemaMismatch` when the message name, or a name on the
    /// selection list, has no schema entry; with `SignalOutOfRange` when a
    /// selected signal does not fit the frame.  An empty selection list
    /// selects every signal.
    pub fn new(schema: &Schema, name: &String, signal_list: Vec<String>) -> (r: Result<
        MessageInfo,
        SchemaError,
    >)
        ensures
            match r {
                Result::Ok(m) => {
                    &&& spec_find(schema.messages@, name@) is Some
                    &&& {
                        let def = schema.messages@[spec_find(schema.messages@, name@).unwrap()];
                        &&& names_found(def.signals@, signal_list@)
                        &&& m.spec_id() == spec_id32(def.id)
                        &&& m.spec_extended() == (def.id is Extended)
                        &&& m.spec_dlc() == def.size
                        &&& m.spec_cycle_time() == def.cycle_time
                        &&& sigs_eq(m.spec_signals(), spec_selected(def.signals@, signal_list@))
                        &&& m.wf()
                    }
                },
                Result::Err(e) => {
                    if spec_find(schema.messages@, name@) is None {
                        e == SchemaError::SchemaMismatch
                    } else {
                        let def = schema.messages@[spec_find(schema.messages@, name@).unwrap()];
                        if !names_found(def.signals@, signal_list@) {
                            e == SchemaError::SchemaMismatch
                        } else {
                            e == SchemaError::SignalOutOfRange && !all_valid(
                                spec_selected(def.signals@, signal_list@),
                                def.size as nat,
                            )
                        }
                    }
                },
            },
    {
        let found = Self::find_message(schema, name);
        match found {
            Option::None => Result::Err(SchemaError::SchemaMismatch),
            Option::Some(idx) => {
                let def = &schema.messages[idx];
                if !Self::check_names(def, &signal_list) {
                    return Result::Err(SchemaError::SchemaMismatch);
                }
                let selected = Self::select_signals(def, &signal_list);
                if def.size > usize::MAX / 8 {
                    proof {
                        vstd::arithmetic::div_mod::lemma_fundamental_div_mod(usize::MAX as int, 8);
                    }
                    return Result::Err(SchemaError::SignalOutOfRange);
                }
                let mut i: usize = 0;
                while i < selected.len()
                    invariant
                        i <= selected@.len(),
                        8 * def.size <= usize::MAX,
                        idx < schema.messages@.len(),
                        spec_find(schema.messages@, name@) == Option::Some(idx as int),
                        *def == schema.messages@[idx as int],
                        names_found(def.signals@, signal_list@),
                        sigs_eq(selected@, spec_selected(def.signals@, signal_list@)),
                        forall|t: int|
                            0 <= t < i ==> (#[trigger] selected@[t]).wf() && selected@[t].fits(
                                def.size as nat,
                            ),
                    decreases selected@.len() - i,
                {
                    let s = &selected[i];
                    let ok = 1 <= s.width && s.width <= 64 && s.nwidth == crate::signal::storage_width(
                        s.width,
                    ) && {
                        let ext: u128 = match s.byte_order {
                            ByteOrder::LittleEndian => s.start as u128 + s.width as u128,
                            ByteOrder::BigEndian => 8 * (s.start as u128 / 8) + 7 - (
                            s.start as u128) % 8 + s.width as u128,
                        };
                        ext <= 8 * (def.size as u128)
                    };
                    if !ok {
                        proof {
                            let sel = spec_selected(def.signals@, signal_list@);
                            assert(sig_eq(selected@[i as int], sel[i as int]));
                            assert(!(sel[i as int].wf() && sel[i as int].fits(def.size as nat)));
                        }
                        return Result::Err(SchemaError::SignalOutOfRange);
                    }
                    i = i + 1;
                }
                let (id, extended) = match def.id {
                    MessageId::Standard(v) => (v as u32, false),
                    MessageId::Extended(v) => (v, true),
                };
                Result::Ok(
                    MessageInfo {
                        id,
                        extended,
                        dlc: def.size,
                        cycle_time: def.cycle_time,
                        signal_list,
                        signals: selected,
                    },
                )
            },
        }
    }

    /// Find the first message of the schema with the given name.
    fn find_message(schema: &Schema, name: &String) -> (r: Option<usize>)
        ensures
            match r {
                Option::Some(i) => spec_find(schema.messages@, name@) == Option::Some(i as int)
                    && i < schema.messages@.len(),
                Option::None => spec_find(schema.messages@, name@) is None,
            },
    {
        let mut i: usize = 0;
        proof {
            assert(schema.messages@.skip(0) == schema.messages@);
        }
        while i < schema.messages.len()
            invariant
                i <= schema.messages@.len(),
                spec_find(schema.messages@, name@) == match spec_find(
                    schema.messages@.skip(i as int),
                    name@,
                ) {
                    Option::Some(t) => Option::Some(t + i),
                    Option::None => Option::<int>::None,
                },
            decreases schema.messages@.len() - i,
        {
            proof {
                assert(schema.messages@.skip(i as int)[0] == schema.messages@[i as int]);
                assert(schema.messages@.skip(i as int).drop_first() == schema.messages@.skip(
                    i as int + 1,
                ));
            }
            if schema.messages[i].name.eq(name) {
                return Option::Some(i);
            }
            i = i + 1;
        }
        proof {
            assert(schema.messages@.skip(schema.messages@.len() as int).len() == 0);
        }
        Option::None
    }

    /// Check that every name on the selection list names a signal.
    fn check_names(def: &MessageDef, list: &Vec<String>) -> (r: bool)
        ensures
            r == names_found(def.signals@, list@),
    {
        let mut j: usize = 0;
        while j < list.len()
            invariant
                j <= list@.len(),
                forall|t: int| 0 <= t < j ==> name_in(def.signals@, (#[trigger] list@[t])@),
            decreases list@.len() - j,
        {
            if !contains_name(&def.signals, &list[j]) {
                return false;
            }
            j = j + 1;
        }
        true
    }

    /// Build the ordered list of selected signals.
    fn select_signals(def: &MessageDef, list: &Vec<String>) -> (r: Vec<SignalInfo>)
        ensures
            sigs_eq(r@, spec_selected(def.signals@, list@)),
    {
        let mut out: Vec<SignalInfo> = Vec::new();
        let mut i: usize = 0;
        while i < def.signals.len()
            invariant
                i <= def.signals@.len(),
                sigs_eq(out@, spec_selected(def.signals@.take(i as int), list@)),
            decreases def.signals@.len() - i,
        {
            let keep = if list.len() == 0 {
                true
            } else {
                list_has(list, &def.signals[i].name)
            };
            proof {
                assert(keep == selected_by(list@, def.signals@[i as int].name@));
            }
            if keep {
                out.push(clone_signal(&def.signals[i]));
            }
            proof {
                assert(def.signals@.take(i as int + 1).drop_last() == def.signals@.take(i as int));
                assert(def.signals@.take(i as int + 1).last() == def.signals@[i as int]);
            }
            i = i + 1;
        }
        proof {
            assert(def.signals@.take(def.signals@.len() as int) == def.signals@);
        }
        out
    }
}

/// Whether any signal carries the given name.
fn contains_name(sigs: &Vec<SignalInfo>, n: &String) -> (r: bool)
    ensures
        r == name_in(sigs@, n@),
{
    let mut i: usize = 0;
    while i < sigs.len()
        invariant
            i <= sigs@.len(),
            forall|t: int| 0 <= t < i ==> (#[trigger] sigs@[t]).name@ != n@,
        decreases sigs@.len() - i,
    {
        if sigs[i].name.eq(n) {
            return true;
        }
        i = i + 1;
    }
    false
}

/// Whether the list holds the given name.
fn list_has(list: &Vec<String>, n: &String) -> (r: bool)
    ensures
        r == exists|j: int| 0 <= j < list@.len() && (#[trigger] list@[j])@ == n@,
{
    let mut j: usize = 0;
    while j < list.len()
        invariant
            j <= list@.len(),
            forall|t: int| 0 <= t < j ==> (#[trigger] list@[t])@ != n@,
        decreases list@.len() - j,
    {
        if list[j].eq(n) {
            return true;
        }
        j = j + 1;
    }
    false
}

/// Copy a signal description.
fn clone_signal(s: &SignalInfo) -> (r: SignalInfo)
    ensures
        sig_eq(*s, r),
        sig_eq(r, *s),
{
    SignalInfo {
        name: clone_string(&s.name),
        start: s.start,
        width: s.width,
        nwidth: s.nwidth,
        byte_order: s.byte_order,
        signed: s.signed,
        scaled: s.scaled,
        values: clone_entries(&s.values),
    }
}

/// Copy a string.
fn clone_string(s: &String) -> (r: String)
    ensures
        r == *s,
{
    s.clone()
}

/// Copy a value table.
fn clone_entries(v: &Vec<crate::signal::ValueEntry>) -> (r: Vec<crate::signal::ValueEntry>)
    ensures
        r@ == v@,
{
    let mut out: Vec<crate::signal::ValueEntry> = Vec::new();
    let mut i: usize = 0;
    while i < v.len()
        invariant
            i <= v@.len(),
            out@ == v@.take(i as int),
        decreases v@.len() - i,
    {
        let e = crate::signal::ValueEntry {
            raw: v[i].raw,
            description: clone_string(&v[i].description),
        };
        out.push(e);
        proof {
            assert(v@.take(i as int + 1).drop_last() == v@.take(i as int));
            assert(v@.take(i as int + 1).last() == v@[i as int]);
            assert(out@ =~= v@.take(i as int + 1));
        }
        i = i + 1;
    }
    proof {
        assert(v@.take(v@.len() as int) == v@);
    }
    out
}

/// Whether a signal's encoding touches little-endian bit position `p`.
pub open spec fn covers(s: SignalInfo, p: nat) -> bool {
    if s.width == 1 {
        p == s.start as nat
    } else {
        match s.byte_order {
            ByteOrder::LittleEndian => s.start <= p < s.start + s.width,
            ByteOrder::BigEndian => be_index(s.start as nat) <= be_index(p) < be_index(
                s.start as nat,
            ) + s.width,
        }
    }
}

/// The bit a signal's encoding writes at little-endian position `p`.
pub open spec fn sig_bit(s: SignalInfo, v: SignalValue, p: nat) -> bool {
    if s.width == 1 {
        v == SignalValue::Bool(true)
    } else {
        match s.byte_order {
            ByteOrder::LittleEndian => bit_u64(value_pattern(v), (p - s.start) as u64),
            ByteOrder::BigEndian => bit_u64(
                value_pattern(v),
                (be_index(s.start as nat) + s.width - 1 - be_index(p)) as u64,
            ),
        }
    }
}

/// The bit at position `p` after the first `n` signals are encoded in order
/// over a prior buffer: the last signal covering `p` wins; a position no
/// signal covers keeps the prior buffer's bit.
pub open spec fn encoded_bit_upto(
    sigs: Seq<SignalInfo>,
    vals: Seq<SignalValue>,
    orig: Seq<u8>,
    p: nat,
    n: int,
) -> bool
    decreases n,
{
    if n <= 0 {
        le_bit(orig, p)
    } else if covers(sigs[n - 1], p) {
        sig_bit(sigs[n - 1], vals[n - 1], p)
    } else {
        encoded_bit_upto(sigs, vals, orig, p, n - 1)
    }
}

/// The bit at position `p` after every signal is encoded in order.
pub open spec fn encoded_bit(
    sigs: Seq<SignalInfo>,
    vals: Seq<SignalValue>,
    orig: Seq<u8>,
    p: nat,
) -> bool {
    encoded_bit_upto(sigs, vals, orig, p, sigs.len() as int)
}

/// The linear big-endian index is an involution on a byte: reading a buffer
/// bit through it agrees with the little-endian numbering.
pub proof fn lemma_be_le_bit(data: Seq<u8>, p: nat)
    ensures
        be_bit(data, be_index(p)) == le_bit(data, p),
        be_index(p) as int / 8 == p as int / 8,
{
    vstd::arithmetic::div_mod::lemma_fundamental_div_mod(p as int, 8);
    vstd::arithmetic::div_mod::lemma_fundamental_div_mod_converse(
        be_index(p) as int,
        8,
        p as int / 8,
        7 - (p as int) % 8,
    );
}

/// The default field value for a signal, as a fresh message instance holds
/// it.
pub open spec fn default_value(s: SignalInfo) -> SignalValue {
    if s.width == 1 {
        SignalValue::Bool(false)
    } else if s.signed {
        SignalValue::Signed(0)
    } else {
        SignalValue::Unsigned(0)
    }
}

/// The index of the first selected signal with the given name, if any.
pub open spec fn spec_find_signal(sigs: Seq<SignalInfo>, name: Seq<char>) -> Option<int>
    decreases sigs.len(),
{
    if sigs.len() == 0 {
        Option::None
    } else if sigs[0].name@ == name {
        Option::Some(0int)
    } else {
        match spec_find_signal(sigs.drop_first(), name) {
            Option::Some(i) => Option::Some(i + 1),
            Option::None => Option::None,
        }
    }
}

/// A caller-owned message instance: the resolved description and one field
/// per selected signal.
pub struct Message {
    info: MessageInfo,
    fields: Vec<SignalValue>,
}

impl Message {
    pub closed spec fn spec_info(self) -> MessageInfo {
        self.info
    }

    pub closed spec fn spec_fields(self) -> Seq<SignalValue> {
        self.fields@
    }

    /// One well-typed field per selected signal.
    pub open spec fn wf(self) -> bool {
        &&& self.spec_info().wf()
        &&& self.spec_fields().len() == self.spec_info().spec_signals().len()
        &&& forall|i: int|
            0 <= i < self.spec_fields().len() ==> (#[trigger] self.spec_info().spec_signals()[i]).accepts(
                self.spec_fields()[i],
            )
    }

    /// A fresh instance with default-initialized fields.
    pub fn new(info: MessageInfo) -> (m: Message)
        requires
            info.wf(),
        ensures
            m.wf(),
            m.spec_info() == info,
            m.spec_fields().len() == info.spec_signals().len(),
            forall|i: int|
                0 <= i < m.spec_fields().len() ==> m.spec_fields()[i] == default_value(
                    #[trigger] info.spec_signals()[i],
                ),
    {
        let mut fields: Vec<SignalValue> = Vec::new();
        let mut i: usize = 0;
        while i < info.signal_count()
            invariant
                i <= info.spec_signals().len(),
                fields@.len() == i,
                forall|t: int|
                    0 <= t < i ==> fields@[t] == default_value(#[trigger] info.spec_signals()[t]),
            decreases info.spec_signals().len() - i,
        {
            let s = info.signal(i);
            let v = if s.width == 1 {
                SignalValue::Bool(false)
            } else if s.signed {
                SignalValue::Signed(0)
            } else {
                SignalValue::Unsigned(0)
            };
            fields.push(v);
            i = i + 1;
        }
        Message { info, fields }
    }

    /// The resolved message description.
    pub fn info(&self) -> (r: &MessageInfo)
        ensures
            *r == self.spec_info(),
    {
        &self.info
    }

    /// The field at a signal's index.
    pub fn field(&self, i: usize) -> (r: SignalValue)
        requires
            i < self.spec_fields().len(),
        ensures
            r == self.spec_fields()[i as int],
    {
        self.fields[i]
    }

    /// Overwrite the field at a signal's index with a value of its variant.
    pub fn set_field(&mut self, i: usize, v: SignalValue)
        requires
            old(self).wf(),
            i < old(self).spec_fields().len(),
            old(self).spec_info().spec_signals()[i as int].accepts(v),
        ensures
            final(self).wf(),
            final(self).spec_info() == old(self).spec_info(),
            final(self).spec_fields() == old(self).spec_fields().update(i as int, v),
    {
        self.fields[i] = v;
    }

    /// The field of the first selected signal with the given name.
    pub fn value(&self, name: &String) -> (r: Option<SignalValue>)
        requires
            self.wf(),
        ensures
            r == match spec_find_signal(self.spec_info().spec_signals(), name@) {
                Option::Some(i) => Option::Some(self.spec_fields()[i]),
                Option::None => Option::<SignalValue>::None,
            },
    {
        match self.find_signal(name) {
            Option::Some(i) => Option::Some(self.fields[i]),
            Option::None => Option::None,
        }
    }

    /// Overwrite the field of the first selected signal with the given name;
    /// false, and no change, when the name is unknown or the value's variant
    /// does not match the signal.
    pub fn set_value(&mut self, name: &String, v: SignalValue) -> (r: bool)
        requires
            old(self).wf(),
        ensures
            final(self).wf(),
            final(self).spec_info() == old(self).spec_info(),
            match spec_find_signal(old(self).spec_info().spec_signals(), name@) {
                Option::Some(i) => {
                    if old(self).spec_info().spec_signals()[i].accepts(v) {
                        r && final(self).spec_fields() == old(self).spec_fields().update(i, v)
                    } else {
                        !r && final(self).spec_fields() == old(self).spec_fields()
                    }
                },
                Option::None => !r && final(self).spec_fields() == old(self).spec_fields(),
            },
    {
        match self.find_signal(name) {
            Option::Some(i) => {
                let s = self.info.signal(i);
                let ok = if s.width == 1 {
                    matches!(v, SignalValue::Bool(_))
                } else if s.signed {
                    matches!(v, SignalValue::Signed(_))
                } else {
                    matches!(v, SignalValue::Unsigned(_))
                };
                if ok {
                    self.fields[i] = v;
                    true
                } else {
                    false
                }
            },
            Option::None => false,
        }
    }

    /// Find the first selected signal with the given name.
    fn find_signal(&self, name: &String) -> (r: Option<usize>)
        requires
            self.wf(),
        ensures
            match r {
                Option::Some(i) => spec_find_signal(self.spec_info().spec_signals(), name@)
                    == Option::Some(i as int) && i < self.spec_fields().len(),
                Option::None => spec_find_signal(self.spec_info().spec_signals(), name@) is None,
            },
    {
        let mut i: usize = 0;
        proof {
            assert(self.info.spec_signals().skip(0) == self.info.spec_signals());
        }
        while i < self.info.signal_count()
            invariant
                self.wf(),
                i <= self.spec_info().spec_signals().len(),
                spec_find_signal(self.spec_info().spec_signals(), name@) == match spec_find_signal(
                    self.spec_info().spec_signals().skip(i as int),
                    name@,
                ) {
                    Option::Some(t) => Option::Some(t + i),
                    Option::None => Option::<int>::None,
                },
            decreases self.spec_info().spec_signals().len() - i,
        {
            proof {
                assert(self.info.spec_signals().skip(i as int)[0] == self.info.spec_signals()[i as int]);
                assert(self.info.spec_signals().skip(i as int).drop_first()
                    == self.info.spec_signals().skip(i as int + 1));
            }
            if self.info.signal(i).name.eq(name) {
                return Option::Some(i);
            }
            i = i + 1;
        }
        proof {
            assert(self.info.spec_signals().skip(
                self.info.spec_signals().len() as int,
            ).len() == 0);
        }
        Option::None
    }

    /// Decode a frame: with the wrong buffer length, return false and change
    /// nothing; with the right length, decode every selected signal in
    /// schema order into its field and return true.  Decoding a
    /// length-correct buffer never fails.
    pub fn decode(&mut self, pdu: &Vec<u8>) -> (r: bool)
        requires
            old(self).wf(),
        ensures
            final(self).wf(),
            final(self).spec_info() == old(self).spec_info(),
            r == (pdu@.len() == old(self).spec_info().spec_dlc()),
            !r ==> final(self).spec_fields() == old(self).spec_fields(),
            r ==> forall|i: int|
                0 <= i < final(self).spec_fields().len() ==> final(self).spec_fields()[i] == (
                #[trigger] old(self).spec_info().spec_signals()[i]).decoded(pdu@),
    {
        if pdu.len() != self.info.dlc() {
            return false;
        }
        let n = self.info.signal_count();
        let mut i: usize = 0;
        while i < n
            invariant
                self.wf(),
                n == self.spec_info().spec_signals().len(),
                i <= n,
                pdu@.len() == self.spec_info().spec_dlc(),
                self.spec_info() == old(self).spec_info(),
                forall|t: int|
                    0 <= t < i ==> self.spec_fields()[t] == (
                    #[trigger] self.spec_info().spec_signals()[t]).decoded(pdu@),
            decreases n - i,
        {
            let v = self.info.signal(i).decode(pdu);
            proof {
                let s = self.spec_info().spec_signals()[i as int];
                if s.width == 1 {
                } else if s.signed {
                } else {
                    crate::bits::lemma_le_raw_bound(pdu@, s.start as nat, s.width as nat);
                    crate::bits::lemma_be_raw_bound(
                        pdu@,
                        be_index(s.start as nat),
                        s.width as nat,
                    );
                }
            }
            self.fields[i] = v;
            i = i + 1;
        }
        true
    }

    /// Encode a frame: with the wrong buffer length, return false and change
    /// nothing; with the right length, write every selected signal in schema
    /// order and return true.  Bits no selected signal covers are preserved,
    /// and where signals overlap the later one wins.
    pub fn encode(&self, pdu: &mut Vec<u8>) -> (r: bool)
        requires
            self.wf(),
        ensures
            r == (old(pdu)@.len() == self.spec_info().spec_dlc()),
            !r ==> final(pdu)@ == old(pdu)@,
            r ==> final(pdu)@.len() == old(pdu)@.len(),
            r ==> forall|p: nat|
                p < 8 * old(pdu)@.len() ==> #[trigger] le_bit(final(pdu)@, p) == encoded_bit(
                    self.spec_info().spec_signals(),
                    self.spec_fields(),
                    old(pdu)@,
                    p,
                ),
    {
        if pdu.len() != self.info.dlc() {
            return false;
        }
        let ghost orig = pdu@;
        let n = self.info.signal_count();
        let mut i: usize = 0;
        while i < n
            invariant
                self.wf(),
                n == self.spec_info().spec_signals().len(),
                i <= n,
                pdu@.len() == orig.len(),
                orig.len() == self.spec_info().spec_dlc(),
                forall|p: nat|
                    p < 8 * orig.len() ==> #[trigger] le_bit(pdu@, p) == encoded_bit_upto(
                        self.spec_info().spec_signals(),
                        self.spec_fields(),
                        orig,
                        p,
                        i as int,
                    ),
            decreases n - i,
        {
            let s = self.info.signal(i);
            let ghost before = pdu@;
            s.encode(pdu, self.fields[i]);
            proof {
                let sigs = self.spec_info().spec_signals();
                let vals = self.spec_fields();
                let sg = sigs[i as int];
                let v = vals[i as int];
                assert forall|p: nat| p < 8 * orig.len() implies #[trigger] le_bit(pdu@, p)
                    == encoded_bit_upto(sigs, vals, orig, p, i as int + 1) by {
                    if sg.width == 1 {
                    } else {
                        match sg.byte_order {
                            ByteOrder::LittleEndian => {},
                            ByteOrder::BigEndian => {
                                lemma_be_le_bit(pdu@, p);
                                lemma_be_le_bit(before, p);
                                assert(be_index(p) < 8 * orig.len());
                            },
                        }
                    }
                }
            }
            i = i + 1;
        }
        true
    }

    /// The fallible constructor from a raw byte buffer: a freshly defaulted
    /// instance is decoded; a buffer of the wrong length yields a
    /// `LengthMismatch` error rather than a defaulted-but-wrong instance.
    pub fn try_from_bytes(info: MessageInfo, pdu: &Vec<u8>) -> (r: Result<Message, CodecError>)
        requires
            info.wf(),
        ensures
            r is Ok <==> pdu@.len() == info.spec_dlc(),
            match r {
                Result::Ok(m) => {
                    &&& m.wf()
                    &&& m.spec_info() == info
                    &&& forall|i: int|
                        0 <= i < m.spec_fields().len() ==> m.spec_fields()[i] == (
                        #[trigger] info.spec_signals()[i]).decoded(pdu@)
                },
                Result::Err(e) => e == CodecError::LengthMismatch,
            },
    {
        let mut m = Message::new(info);
        if m.decode(pdu) {
            Result::Ok(m)
        } else {
            Result::Err(CodecError::LengthMismatch)
        }
    }
}

} // verus!
