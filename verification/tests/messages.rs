use dbc_data::message::{CodecError, Message, MessageDef, MessageId, MessageInfo, Schema};
use dbc_data::signal::{ByteOrder, SignalInfo, SignalValue, ValueEntry};

fn sig(name: &str, start: usize, width: usize, order: ByteOrder, signed: bool) -> SignalInfo {
    SignalInfo::new(name.to_string(), start, width, order, signed, false, Vec::new())
}

fn sig_scaled(name: &str, start: usize, width: usize, table: Vec<(u64, &str)>) -> SignalInfo {
    let values = table
        .into_iter()
        .map(|(raw, d)| ValueEntry {
            raw,
            description: d.to_string(),
        })
        .collect();
    SignalInfo::new(
        name.to_string(),
        start,
        width,
        ByteOrder::LittleEndian,
        false,
        true,
        values,
    )
}

fn sig_table(
    name: &str,
    start: usize,
    width: usize,
    order: ByteOrder,
    table: Vec<(u64, &str)>,
) -> SignalInfo {
    let values = table
        .into_iter()
        .map(|(raw, d)| ValueEntry {
            raw,
            description: d.to_string(),
        })
        .collect();
    SignalInfo::new(name.to_string(), start, width, order, false, false, values)
}

fn test_schema() -> Schema {
    let le = ByteOrder::LittleEndian;
    let be = ByteOrder::BigEndian;
    let messages = vec![
        MessageDef {
            name: "AlignedLE".to_string(),
            id: MessageId::Standard(1023),
            size: 8,
            cycle_time: None,
            signals: vec![
                sig("Signed8", 0, 8, le, true),
                sig("Unsigned8", 8, 8, le, false),
                sig("Unsigned16", 16, 16, le, false),
                sig("Unsigned32", 32, 32, le, false),
            ],
        },
        MessageDef {
            name: "AlignedBE".to_string(),
            id: MessageId::Standard(1024),
            size: 8,
            cycle_time: None,
            signals: vec![
                sig("Signed8", 7, 8, be, true),
                sig("Unsigned8", 15, 8, be, false),
                sig("Unsigned16", 23, 16, be, false),
                sig("Unsigned32", 39, 32, be, false),
            ],
        },
        MessageDef {
            name: "UnalignedUnsignedLE".to_string(),
            id: MessageId::Standard(1025),
            size: 8,
            cycle_time: None,
            signals: vec![
                sig("Unsigned15", 43, 15, le, false),
                sig("Unsigned23", 18, 23, le, false),
                sig("Unsigned3", 11, 3, le, false),
                sig("Unsigned2", 8, 2, le, false),
                sig("Unsigned2a", 1, 2, le, false),
            ],
        },
        MessageDef {
            name: "UnalignedUnsignedBE".to_string(),
            id: MessageId::Standard(1026),
            size: 8,
            cycle_time: None,
            signals: vec![
                sig_table("Unsigned15", 43, 15, be, vec![(17283, "Test")]),
                sig("Unsigned23", 18, 23, be, false),
                sig("Unsigned3", 11, 3, be, false),
            ],
        },
        MessageDef {
            name: "UnalignedSignedLE".to_string(),
            id: MessageId::Standard(1027),
            size: 8,
            cycle_time: None,
            signals: vec![
                sig("Signed15", 43, 15, le, true),
                sig("Signed23", 18, 23, le, true),
                sig("Signed3", 11, 3, le, true),
            ],
        },
        MessageDef {
            name: "UnalignedSignedBE".to_string(),
            id: MessageId::Standard(1028),
            size: 8,
            cycle_time: None,
            signals: vec![
                sig("Signed15", 43, 15, be, true),
                sig("Signed23", 18, 23, be, true),
                sig("Signed3", 11, 3, be, true),
            ],
        },
        MessageDef {
            name: "MiscMessage".to_string(),
            id: MessageId::Standard(8191),
            size: 2,
            cycle_time: Some(100),
            signals: vec![
                sig_table("Bool_A", 0, 1, le, vec![(1, "On"), (0, "Off")]),
                sig("Bool_B", 1, 1, le, false),
                sig("Bool_C", 2, 1, le, false),
                sig("Bool_D", 3, 1, le, false),
                sig("Bool_E", 4, 1, le, false),
                sig("Bool_F", 5, 1, le, false),
                sig("Bool_G", 6, 1, le, false),
                sig("Bool_H", 7, 1, le, false),
                sig_scaled("Float_A", 8, 8, vec![(31415, "Pi"), (27182, "E")]),
            ],
        },
        MessageDef {
            name: "SixtyFourBitLE".to_string(),
            id: MessageId::Standard(1029),
            size: 8,
            cycle_time: None,
            signals: vec![sig("SixtyFour", 0, 64, le, false)],
        },
        MessageDef {
            name: "SixtyFourBitBE".to_string(),
            id: MessageId::Standard(1030),
            size: 8,
            cycle_time: None,
            signals: vec![sig("SixtyFour", 7, 64, be, false)],
        },
        MessageDef {
            name: "SixtyFourBitSigned".to_string(),
            id: MessageId::Standard(1031),
            size: 8,
            cycle_time: Some(2000),
            signals: vec![sig("SixtyFour", 0, 64, le, true)],
        },
        MessageDef {
            name: "GroupData1".to_string(),
            id: MessageId::Standard(1032),
            size: 8,
            cycle_time: None,
            signals: vec![sig("ValueA", 0, 32, le, false)],
        },
        MessageDef {
            name: "Extended1".to_string(),
            id: MessageId::Extended(0x0012_3456),
            size: 8,
            cycle_time: None,
            signals: vec![],
        },
    ];
    Schema { messages }
}

fn info(name: &str) -> MessageInfo {
    MessageInfo::new(&test_schema(), &name.to_string(), Vec::new()).unwrap()
}

fn info_filtered(name: &str, list: &[&str]) -> MessageInfo {
    let list: Vec<String> = list.iter().map(|s| s.to_string()).collect();
    MessageInfo::new(&test_schema(), &name.to_string(), list).unwrap()
}

fn message(name: &str) -> Message {
    Message::new(info(name))
}

fn get(m: &Message, name: &str) -> SignalValue {
    m.value(&name.to_string()).unwrap()
}

fn get_u(m: &Message, name: &str) -> u64 {
    match get(m, name) {
        SignalValue::Unsigned(u) => u,
        other => panic!("expected unsigned field, got {:?}", other),
    }
}

fn get_i(m: &Message, name: &str) -> i64 {
    match get(m, name) {
        SignalValue::Signed(i) => i,
        other => panic!("expected signed field, got {:?}", other),
    }
}

fn get_b(m: &Message, name: &str) -> bool {
    match get(m, name) {
        SignalValue::Bool(b) => b,
        other => panic!("expected boolean field, got {:?}", other),
    }
}

fn set(m: &mut Message, name: &str, v: SignalValue) {
    assert!(m.set_value(&name.to_string(), v));
}

#[test]
fn basic() {
    let mut t = message("AlignedLE");

    // invalid length
    assert!(!t.decode(&vec![0x00]));

    // message ID, DLC constants
    assert_eq!(info("AlignedLE").id(), 1023);
    assert_eq!(info("AlignedLE").dlc(), 8);
    assert_eq!(info("MiscMessage").id(), 8191);
    assert_eq!(info("MiscMessage").dlc(), 2);
    assert!(!info("MiscMessage").extended());
    assert_eq!(info("Extended1").id(), 0x0012_3456);
    assert!(info("Extended1").extended());
}

#[test]
fn cycle_time() {
    assert_eq!(info("MiscMessage").cycle_time(), Some(100));
    assert_eq!(info("SixtyFourBitSigned").cycle_time(), Some(2000));
}

#[test]
fn value_table() {
    let misc = info("MiscMessage");
    let pi = misc.constant(&"FLOAT_A_PI".to_string()).unwrap();
    let e = misc.constant(&"FLOAT_A_E".to_string()).unwrap();
    match pi {
        SignalValue::Unsigned(v) => assert_eq!(v as f32, 31415.0f32),
        other => panic!("unexpected constant {:?}", other),
    }
    match e {
        SignalValue::Unsigned(v) => assert_eq!(v as f32, 27182.0f32),
        other => panic!("unexpected constant {:?}", other),
    }
    assert_eq!(
        misc.constant(&"BOOL_A_ON".to_string()),
        Some(SignalValue::Bool(true))
    );
    assert_eq!(
        misc.constant(&"BOOL_A_OFF".to_string()),
        Some(SignalValue::Bool(false))
    );
}

#[test]
fn aligned_unsigned_le() {
    let mut t = message("AlignedLE");

    assert!(t.decode(&vec![0xfe, 0x55, 0x01, 0x20, 0x34, 0x56, 0x78, 0x9A]));
    assert_eq!(get_i(&t, "Signed8"), -2);
    assert_eq!(get_u(&t, "Unsigned8"), 0x55);
    assert_eq!(get_u(&t, "Unsigned16"), 0x2001);
    assert_eq!(get_u(&t, "Unsigned32"), 0x9A78_5634);

    let mut pdu: Vec<u8> = vec![0u8; 8];
    set(&mut t, "Signed8", SignalValue::Signed(-99));
    set(&mut t, "Unsigned8", SignalValue::Unsigned(0x33));
    set(&mut t, "Unsigned16", SignalValue::Unsigned(0x78bc));
    assert!(t.encode(&mut pdu));
    assert_eq!(pdu[0], 0x9d);
    assert_eq!(pdu[1], 0x33);
    assert_eq!(pdu[2], 0xbc);
    assert_eq!(pdu[3], 0x78);
}

#[test]
fn aligned_unsigned_be() {
    let mut t = message("AlignedBE");

    assert!(t.decode(&vec![0xAA, 0x55, 0x01, 0x20, 0x34, 0x56, 0x78, 0x9A]));
    assert_eq!(get_i(&t, "Signed8"), -86);
    assert_eq!(get_u(&t, "Unsigned8"), 0x55);
    assert_eq!(get_u(&t, "Unsigned16"), 0x0120);
    assert_eq!(get_u(&t, "Unsigned32"), 0x3456_789A);

    let mut pdu: Vec<u8> = vec![0u8; 8];
    set(&mut t, "Signed8", SignalValue::Signed(12));
    set(&mut t, "Unsigned8", SignalValue::Unsigned(0x77));
    set(&mut t, "Unsigned16", SignalValue::Unsigned(0x78bc));
    set(&mut t, "Unsigned32", SignalValue::Unsigned(0x1234_FEDC));
    assert!(t.encode(&mut pdu));
    assert_eq!(pdu[0], 0x0C);
    assert_eq!(pdu[1], 0x77);
    assert_eq!(pdu[2], 0x78);
    assert_eq!(pdu[3], 0xbc);
    assert_eq!(pdu[4], 0x12);
    assert_eq!(pdu[5], 0x34);
    assert_eq!(pdu[6], 0xFE);
    assert_eq!(pdu[7], 0xDC);
}

#[test]
fn unaligned_unsigned_le() {
    let mut t = message("UnalignedUnsignedLE");

    // various unaligned values
    assert!(t.decode(&vec![0xF5, 0x71, 0x20, 0x31, 0xf0, 0xa1, 0x73, 0xfd]));
    assert_eq!(get_u(&t, "Unsigned15"), 0x2E74);
    assert_eq!(get_u(&t, "Unsigned23"), 0x007C_0C48);
    assert_eq!(get_u(&t, "Unsigned3"), 6u64);
    assert_eq!(get_u(&t, "Unsigned2"), 1u64);
    assert_eq!(get_u(&t, "Unsigned2a"), 2u64);

    let mut pdu: Vec<u8> = vec![0xffu8; 8];
    set(&mut t, "Unsigned15", SignalValue::Unsigned(0x5af5));
    set(&mut t, "Unsigned23", SignalValue::Unsigned(0x003C_0C49));
    set(&mut t, "Unsigned3", SignalValue::Unsigned(0x2));
    set(&mut t, "Unsigned2", SignalValue::Unsigned(0x2));
    set(&mut t, "Unsigned2a", SignalValue::Unsigned(0x3));
    assert!(t.encode(&mut pdu));
    assert_eq!(pdu, vec![0xffu8, 0xd6, 0x27, 0x31, 0xf0, 0xae, 0xd7, 0xfe]);
}

#[test]
fn unaligned_unsigned_be() {
    let mut t = message("UnalignedUnsignedBE");

    // various unaligned values
    assert!(t.decode(&vec![0xfd, 0xe5, 0xa1, 0xf0, 0x31, 0xf8, 0x70, 0x77]));
    assert_eq!(get_u(&t, "Unsigned3"), 2u64);
    let expected = info("UnalignedUnsignedBE")
        .constant(&"UNSIGNED15_TEST".to_string())
        .unwrap();
    assert_eq!(SignalValue::Unsigned(get_u(&t, "Unsigned15")), expected);
    assert_eq!(get_u(&t, "Unsigned23"), 0x001F_031F);
}

#[test]
fn unaligned_signed_le() {
    let mut t = message("UnalignedSignedLE");

    // various unaligned values
    assert!(t.decode(&vec![0xF7, 0x70, 0x20, 0x31, 0xf0, 0xa1, 0x73, 0xfd]));
    assert_eq!(get_i(&t, "Signed15"), 0x2E74);
    assert_eq!(get_i(&t, "Signed23"), (0xFFFC_0C48_u32 as i32) as i64);
    assert_eq!(get_i(&t, "Signed3"), -2);
}

#[test]
fn unaligned_signed_be() {
    let mut t = message("UnalignedSignedBE");

    // various unaligned values
    assert!(t.decode(&vec![0xfd, 0xe5, 0xa1, 0xf0, 0x31, 0xf8, 0x70, 0x77]));
    assert_eq!(get_i(&t, "Signed3"), 2);
    assert_eq!(get_i(&t, "Signed15"), (0xC383u16 as i16) as i64);
    assert_eq!(get_i(&t, "Signed23"), 0x001F_031F);
}

#[test]
fn misc() {
    let mut t = Message::new(info_filtered(
        "MiscMessage",
        &["Bool_A", "Bool_H", "Float_A"],
    ));

    // booleans
    assert!(t.decode(&vec![0x82, 0x20]));
    assert!(!get_b(&t, "Bool_A"));
    assert!(get_b(&t, "Bool_H"));
    // scale 0.5, offset 0.25: the raw container value carries the field
    let float_a = get_u(&t, "Float_A") as f32 * 0.5 + 0.25;
    assert_eq!(float_a, 16.25);

    let mut pdu: Vec<u8> = vec![0u8; 2];
    set(&mut t, "Bool_A", SignalValue::Bool(true));
    let raw = ((20.75f32 - 0.25) / 0.5) as u64;
    set(&mut t, "Float_A", SignalValue::Unsigned(raw));
    assert!(t.encode(&mut pdu));
    assert_eq!(pdu[0], 0x81);
    assert_eq!(pdu[1], 0x29);
}

#[test]
fn sixty_four_bit() {
    let mut le = message("SixtyFourBitLE");

    // 64-bit unsigned little-endian
    assert!(le.decode(&vec![0x11, 0x22, 0x33, 0x44, 0x55, 0x66, 0x77, 0x88]));
    assert_eq!(get_u(&le, "SixtyFour"), 0x8877_6655_4433_2211);

    // 64-bit unsigned big-endian
    let mut be = message("SixtyFourBitBE");
    assert!(be.decode(&vec![0x11, 0x22, 0x33, 0x44, 0x55, 0x66, 0x77, 0x88]));
    assert_eq!(get_u(&be, "SixtyFour"), 0x1122_3344_5566_7788);

    // 64-bit signed little-endian
    let mut signed = message("SixtyFourBitSigned");
    assert!(signed.decode(&vec![0x11, 0x22, 0x33, 0x44, 0x55, 0x66, 0x77, 0x88]));
    assert_eq!(get_i(&signed, "SixtyFour"), -8_613_303_245_920_329_199);
}

#[test]
fn extract() {
    let data: [u8; 1] = [0x87u8];
    let value = i8::from_le_bytes(data);
    assert_eq!(value, -121);
}

#[test]
fn grouped() {
    let mut t = message("GroupData1");
    assert!(t.decode(&vec![0xAA, 0x55, 0x01, 0x20, 0x34, 0x56, 0x78, 0x9A]));
    assert_eq!(get_u(&t, "ValueA"), 0x2001_55AA);
}

#[test]
fn try_from() {
    let data: [u8; 8] = [0x20, 0x30, 0x00, 0x00, 0x00, 0x00, 0x00, 0x00];
    let misc = Message::try_from_bytes(info("MiscMessage"), &data[0..2].to_vec());
    assert!(misc.is_ok());
    let misc = Message::try_from_bytes(info("MiscMessage"), &data[0..3].to_vec());
    assert!(misc.is_err());
    assert!(matches!(misc, Err(CodecError::LengthMismatch)));
    let sixty_four = Message::try_from_bytes(info("SixtyFourBitLE"), &data[0..8].to_vec());
    assert!(sixty_four.is_ok());
}

#[test]
fn enum_declaration() {
    assert_eq!(info("MiscMessage").id(), 8191);
}
