use dbc_data::codec::{extract_aligned_le, extract_unaligned_le};
use dbc_data::message::{Message, MessageDef, MessageId, MessageInfo, Schema, SchemaError};
use dbc_data::signal::{ByteOrder, SignalInfo, SignalValue, ValueEntry};

fn one_signal_schema(name: &str, size: usize, s: SignalInfo) -> Schema {
    Schema {
        messages: vec![MessageDef {
            name: name.to_string(),
            id: MessageId::Standard(1),
            size,
            cycle_time: None,
            signals: vec![s],
        }],
    }
}

fn one_signal_message(size: usize, s: SignalInfo) -> Message {
    let schema = one_signal_schema("M", size, s);
    Message::new(MessageInfo::new(&schema, &"M".to_string(), Vec::new()).unwrap())
}

fn field(m: &Message, name: &str) -> SignalValue {
    m.value(&name.to_string()).unwrap()
}

#[test]
fn sign_extension_three_bits() {
    // a 3-bit signed field in an 8-bit container, raw pattern 0b101
    let s = SignalInfo::new(
        "F".to_string(),
        0,
        3,
        ByteOrder::LittleEndian,
        true,
        false,
        Vec::new(),
    );
    let mut m = one_signal_message(1, s);
    assert!(m.decode(&vec![0b101u8]));
    assert_eq!(field(&m, "F"), SignalValue::Signed(-3));
}

#[test]
fn scale_offset_example() {
    // scale 0.25, offset 10.0, raw unsigned 100: decoded value 35.0
    let s = SignalInfo::new(
        "F".to_string(),
        0,
        8,
        ByteOrder::LittleEndian,
        false,
        true,
        Vec::new(),
    );
    let mut m = one_signal_message(1, s);
    assert!(m.decode(&vec![100u8]));
    match field(&m, "F") {
        SignalValue::Unsigned(raw) => assert_eq!(raw as f32 * 0.25 + 10.0, 35.0f32),
        other => panic!("unexpected field {:?}", other),
    }
}

#[test]
fn single_bit_isolation() {
    // encoding a single-bit field must not alter the other 7 bits
    let s = SignalInfo::new(
        "B".to_string(),
        3,
        1,
        ByteOrder::LittleEndian,
        false,
        false,
        Vec::new(),
    );
    let mut m = one_signal_message(1, s);
    assert!(m.set_value(&"B".to_string(), SignalValue::Bool(false)));
    let mut pdu: Vec<u8> = vec![0xFF];
    assert!(m.encode(&mut pdu));
    assert_eq!(pdu[0], 0xF7);

    assert!(m.set_value(&"B".to_string(), SignalValue::Bool(true)));
    let mut pdu: Vec<u8> = vec![0x00];
    assert!(m.encode(&mut pdu));
    assert_eq!(pdu[0], 0x08);
}

#[test]
fn length_guard() {
    // wrong-length buffers are rejected and nothing moves
    let s = SignalInfo::new(
        "F".to_string(),
        0,
        16,
        ByteOrder::LittleEndian,
        false,
        false,
        Vec::new(),
    );
    let mut m = one_signal_message(2, s);
    assert!(m.decode(&vec![0x34, 0x12]));
    assert_eq!(field(&m, "F"), SignalValue::Unsigned(0x1234));

    assert!(!m.decode(&vec![0x01, 0x02, 0x03]));
    assert_eq!(field(&m, "F"), SignalValue::Unsigned(0x1234));

    let mut pdu: Vec<u8> = vec![0xAA; 3];
    assert!(!m.encode(&mut pdu));
    assert_eq!(pdu, vec![0xAA; 3]);
}

#[test]
fn aligned_unaligned_equivalence() {
    // a 16-bit little-endian signal at start bit 0 decodes identically
    // through the aligned and the generic unaligned algorithm
    let pdu: Vec<u8> = vec![0xCD, 0xAB, 0x99, 0x11];
    assert_eq!(
        extract_aligned_le(&pdu, 0, 16),
        extract_unaligned_le(&pdu, 0, 16)
    );
    assert_eq!(extract_aligned_le(&pdu, 0, 16), 0xABCD);
    assert_eq!(
        extract_aligned_le(&pdu, 8, 16),
        extract_unaligned_le(&pdu, 8, 16)
    );
}

#[test]
fn unsigned_round_trip() {
    // decode(encode(raw)) == raw into an otherwise zeroed buffer
    let s = SignalInfo::new(
        "F".to_string(),
        43,
        15,
        ByteOrder::LittleEndian,
        false,
        false,
        Vec::new(),
    );
    let mut m = one_signal_message(8, s);
    for raw in [0u64, 1, 0x2E74, 0x5af5, 0x7FFF] {
        assert!(m.set_value(&"F".to_string(), SignalValue::Unsigned(raw)));
        let mut pdu: Vec<u8> = vec![0u8; 8];
        assert!(m.encode(&mut pdu));
        assert!(m.decode(&pdu));
        assert_eq!(field(&m, "F"), SignalValue::Unsigned(raw));
    }
}

#[test]
fn signed_round_trip_big_endian() {
    let s = SignalInfo::new(
        "F".to_string(),
        43,
        15,
        ByteOrder::BigEndian,
        true,
        false,
        Vec::new(),
    );
    let mut m = one_signal_message(8, s);
    for v in [-16384i64, -3, -1, 0, 1, 16383] {
        assert!(m.set_value(&"F".to_string(), SignalValue::Signed(v)));
        let mut pdu: Vec<u8> = vec![0u8; 8];
        assert!(m.encode(&mut pdu));
        assert!(m.decode(&pdu));
        assert_eq!(field(&m, "F"), SignalValue::Signed(v));
    }
}

#[test]
fn schema_errors() {
    let s = SignalInfo::new(
        "F".to_string(),
        0,
        8,
        ByteOrder::LittleEndian,
        false,
        false,
        Vec::new(),
    );
    let schema = one_signal_schema("M", 1, s);

    // unknown message name
    let r = MessageInfo::new(&schema, &"Other".to_string(), Vec::new());
    assert_eq!(r.err(), Some(SchemaError::SchemaMismatch));

    // a selection list naming an unknown signal
    let r = MessageInfo::new(&schema, &"M".to_string(), vec!["G".to_string()]);
    assert_eq!(r.err(), Some(SchemaError::SchemaMismatch));

    // a signal reaching beyond the frame
    let wide = SignalInfo::new(
        "F".to_string(),
        4,
        8,
        ByteOrder::LittleEndian,
        false,
        false,
        Vec::new(),
    );
    let schema = one_signal_schema("M", 1, wide);
    let r = MessageInfo::new(&schema, &"M".to_string(), Vec::new());
    assert_eq!(r.err(), Some(SchemaError::SignalOutOfRange));
}

#[test]
fn selection_filter() {
    let le = ByteOrder::LittleEndian;
    let schema = Schema {
        messages: vec![MessageDef {
            name: "M".to_string(),
            id: MessageId::Standard(5),
            size: 1,
            cycle_time: None,
            signals: vec![
                SignalInfo::new("A".to_string(), 0, 1, le, false, false, Vec::new()),
                SignalInfo::new("B".to_string(), 1, 1, le, false, false, Vec::new()),
            ],
        }],
    };
    let filtered =
        MessageInfo::new(&schema, &"M".to_string(), vec!["A".to_string()]).unwrap();
    assert!(filtered.use_signal(&"A".to_string()));
    assert!(!filtered.use_signal(&"B".to_string()));
    assert_eq!(filtered.signal_count(), 1);

    let all = MessageInfo::new(&schema, &"M".to_string(), Vec::new()).unwrap();
    assert!(all.use_signal(&"A".to_string()));
    assert!(all.use_signal(&"B".to_string()));
    assert_eq!(all.signal_count(), 2);
}

#[test]
fn constant_name_sanitized() {
    // upper-cased, with every character outside alphanumerics and
    // underscore dropped
    let s = SignalInfo::new(
        "Mode".to_string(),
        0,
        2,
        ByteOrder::LittleEndian,
        false,
        false,
        vec![ValueEntry {
            raw: 2,
            description: "On/Off Mode!".to_string(),
        }],
    );
    let schema = one_signal_schema("M", 1, s);
    let info = MessageInfo::new(&schema, &"M".to_string(), Vec::new()).unwrap();
    assert_eq!(
        info.constant(&"MODE_ONOFFMODE".to_string()),
        Some(SignalValue::Unsigned(2))
    );
    assert_eq!(info.constant(&"MODE_ON".to_string()), None);
}

#[test]
fn overlap_last_writer_wins() {
    // two signals sharing bits: the later one's bits land in the frame
    let le = ByteOrder::LittleEndian;
    let schema = Schema {
        messages: vec![MessageDef {
            name: "M".to_string(),
            id: MessageId::Standard(9),
            size: 1,
            cycle_time: None,
            signals: vec![
                SignalInfo::new("A".to_string(), 0, 8, le, false, false, Vec::new()),
                SignalInfo::new("B".to_string(), 0, 4, le, false, false, Vec::new()),
            ],
        }],
    };
    let mut m = Message::new(MessageInfo::new(&schema, &"M".to_string(), Vec::new()).unwrap());
    assert!(m.set_value(&"A".to_string(), SignalValue::Unsigned(0xF0)));
    assert!(m.set_value(&"B".to_string(), SignalValue::Unsigned(0x05)));
    let mut pdu: Vec<u8> = vec![0u8; 1];
    assert!(m.encode(&mut pdu));
    assert_eq!(pdu[0], 0xF5);
}
