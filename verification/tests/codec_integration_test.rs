use sse_tdgw_binary::codec::decoder::MessageDecoder;
use sse_tdgw_binary::codec::encoder::MessageEncoder;
use sse_tdgw_binary::config::manager::ConfigManager;
use sse_tdgw_binary::config::types::{
    BaseFieldDef, FieldDef, FieldType, MessageConfig, MessageDef,
};
use sse_tdgw_binary::message::{FieldValue, Message};

fn bf(name: &str, t: FieldType, len: Option<usize>) -> BaseFieldDef {
    BaseFieldDef { name: name.to_string(), ftype: t, length: len, desc: None }
}

fn scalar(name: &str, t: FieldType) -> FieldDef {
    FieldDef { base: bf(name, t, None), length_field: None, struct_def: None }
}

fn chr(name: &str, len: usize) -> FieldDef {
    FieldDef { base: bf(name, FieldType::Char, Some(len)), length_field: None, struct_def: None }
}

fn px(v: f64) -> i64 {
    (v * 100000.0) as i64
}

fn qty(v: f64) -> i64 {
    ((v * 1000.0) as i64) * 100
}

/// Message type 1001 with one field of every scalar type.
fn create_test_config_manager() -> ConfigManager {
    let def = MessageDef {
        msg_type: 1001,
        name: "TestMessage".to_string(),
        fields: vec![
            scalar("field_u8", FieldType::U8),
            scalar("field_u16", FieldType::U16),
            scalar("field_u32", FieldType::U32),
            scalar("field_u64", FieldType::U64),
            scalar("field_i64", FieldType::I64),
            chr("field_char", 10),
            scalar("field_price", FieldType::Price),
            scalar("field_quantity", FieldType::Quantity),
            scalar("field_amount", FieldType::Amount),
            scalar("field_date", FieldType::Date),
            scalar("field_ntime", FieldType::NTime),
        ],
        extensions: vec![],
    };
    let mut cm = ConfigManager::new();
    cm.load_config(MessageConfig { messages: vec![def] }).unwrap();
    cm
}

fn create_test_message() -> Message {
    let mut message = Message::new(1001, 12345);
    message.add_field("field_u8".to_string(), FieldValue::U8(255));
    message.add_field("field_u16".to_string(), FieldValue::U16(65535));
    message.add_field("field_u32".to_string(), FieldValue::U32(4294967295));
    message.add_field("field_u64".to_string(), FieldValue::U64(18446744073709551615));
    message.add_field("field_i64".to_string(), FieldValue::I64(-9223372036854775808));
    message.add_field("field_char".to_string(), FieldValue::Str("HELLO".to_string()));
    message.add_field("field_price".to_string(), FieldValue::Float(px(99999999.99999)));
    message.add_field("field_quantity".to_string(), FieldValue::Float(qty(999999999999.999)));
    message.add_field("field_amount".to_string(), FieldValue::Float(px(9999999999998.99999)));
    message.add_field("field_date".to_string(), FieldValue::U32(20231225));
    message.add_field("field_ntime".to_string(), FieldValue::U64(1234567891234));
    message
}

fn values_equal(a: &FieldValue, b: &FieldValue) -> bool {
    match (a, b) {
        (FieldValue::U8(x), FieldValue::U8(y)) => x == y,
        (FieldValue::U16(x), FieldValue::U16(y)) => x == y,
        (FieldValue::U32(x), FieldValue::U32(y)) => x == y,
        (FieldValue::U64(x), FieldValue::U64(y)) => x == y,
        (FieldValue::I64(x), FieldValue::I64(y)) => x == y,
        (FieldValue::Float(x), FieldValue::Float(y)) => x == y,
        (FieldValue::Str(x), FieldValue::Str(y)) => x.trim() == y.trim(),
        (FieldValue::Array(x), FieldValue::Array(y)) => {
            x.len() == y.len()
                && x.iter().zip(y.iter()).all(|(r, s)| {
                    r.len() == s.len()
                        && r.iter().zip(s.iter()).all(|(v, w)| values_equal(v, w))
                })
        }
        _ => false,
    }
}

#[test]
fn test_encode_decode_roundtrip() {
    let config_manager = create_test_config_manager();
    let original_message = create_test_message();

    let mut encoder = MessageEncoder::new(&config_manager);
    let encoded_data = encoder.encode(&original_message).expect("Failed to encode message");

    println!("Encoded data length: {} bytes", encoded_data.len());
    println!("Encoded data (hex): {}", hex::encode(&encoded_data));

    let mut decoder = MessageDecoder::new(&config_manager, &encoded_data);
    let decoded_message = decoder.decode().expect("Failed to decode message");

    assert_eq!(decoded_message.msg_type, original_message.msg_type, "Message type mismatch");
    assert_eq!(decoded_message.seq_num, original_message.seq_num, "Sequence number mismatch");

    assert_eq!(
        decoded_message.field_count(),
        original_message.field_count(),
        "Field count mismatch"
    );

    for (field_name, original_value) in &original_message.fields {
        let decoded_value = decoded_message
            .get_field(field_name)
            .unwrap_or_else(|| panic!("Field '{}' not found in decoded message", field_name));

        assert!(
            values_equal(decoded_value, original_value),
            "Field '{}' value mismatch: expected {:?}, got {:?}",
            field_name,
            original_value,
            decoded_value
        );
    }

    println!("All fields match between original and decoded messages");
}

#[test]
fn test_boundary_values() {
    let config_manager = create_test_config_manager();
    let mut message = Message::new(1001, 0);

    message.add_field("field_u8".to_string(), FieldValue::U8(0));
    message.add_field("field_u16".to_string(), FieldValue::U16(0));
    message.add_field("field_u32".to_string(), FieldValue::U32(0));
    message.add_field("field_u64".to_string(), FieldValue::U64(0));
    message.add_field("field_i64".to_string(), FieldValue::I64(0));
    message.add_field("field_char".to_string(), FieldValue::Str("".to_string()));
    message.add_field("field_price".to_string(), FieldValue::Float(px(-99999999.99999)));
    message.add_field("field_quantity".to_string(), FieldValue::Float(qty(-999999999999.999)));
    message.add_field("field_amount".to_string(), FieldValue::Float(px(-9999999999998.99999)));
    message.add_field("field_date".to_string(), FieldValue::U32(10101));
    message.add_field("field_ntime".to_string(), FieldValue::U64(0));

    let mut encoder = MessageEncoder::new(&config_manager);
    let encoded_data = encoder.encode(&message).expect("Failed to encode boundary values");

    let mut decoder = MessageDecoder::new(&config_manager, &encoded_data);
    let decoded_message = decoder.decode().expect("Failed to decode boundary values");

    assert_eq!(decoded_message.msg_type, message.msg_type);
    assert_eq!(decoded_message.field_count(), message.field_count());

    println!("Boundary values test passed");
}

#[test]
fn test_maximum_values() {
    let config_manager = create_test_config_manager();
    let mut message = Message::new(1001, u32::MAX);

    message.add_field("field_u8".to_string(), FieldValue::U8(u8::MAX));
    message.add_field("field_u16".to_string(), FieldValue::U16(u16::MAX));
    message.add_field("field_u32".to_string(), FieldValue::U32(u32::MAX));
    message.add_field("field_u64".to_string(), FieldValue::U64(u64::MAX));
    message.add_field("field_i64".to_string(), FieldValue::I64(i64::MAX));
    message.add_field("field_char".to_string(), FieldValue::Str("1234567890".to_string()));
    message.add_field("field_price".to_string(), FieldValue::Float(px(99999999.99999)));
    message.add_field("field_quantity".to_string(), FieldValue::Float(qty(999999999999.999)));
    message.add_field("field_amount".to_string(), FieldValue::Float(px(9999999999999.98999)));
    message.add_field("field_date".to_string(), FieldValue::U32(99991231));
    message.add_field("field_ntime".to_string(), FieldValue::U64(2359599999999));

    let mut encoder = MessageEncoder::new(&config_manager);
    let encoded_data = encoder.encode(&message).expect("Failed to encode maximum values");

    let mut decoder = MessageDecoder::new(&config_manager, &encoded_data);
    let decoded_message = decoder.decode().expect("Failed to decode maximum values");

    assert_eq!(decoded_message.msg_type, message.msg_type);
    assert_eq!(decoded_message.field_count(), message.field_count());

    println!("Maximum values test passed");
}

#[test]
fn test_negative_values() {
    let config_manager = create_test_config_manager();
    let mut message = Message::new(1001, 999);

    message.add_field("field_u8".to_string(), FieldValue::U8(128));
    message.add_field("field_u16".to_string(), FieldValue::U16(32768));
    message.add_field("field_u32".to_string(), FieldValue::U32(2147483648));
    message.add_field("field_u64".to_string(), FieldValue::U64(9223372036854775808));
    message.add_field("field_i64".to_string(), FieldValue::I64(-1234567890));
    message.add_field("field_char".to_string(), FieldValue::Str("TEST".to_string()));
    message.add_field("field_price".to_string(), FieldValue::Float(px(-1.0)));
    message.add_field("field_quantity".to_string(), FieldValue::Float(qty(-1.0)));
    message.add_field("field_amount".to_string(), FieldValue::Float(px(-1.0)));
    message.add_field("field_date".to_string(), FieldValue::U32(20200229));
    message.add_field("field_ntime".to_string(), FieldValue::U64(12000000000000));

    let mut encoder = MessageEncoder::new(&config_manager);
    let encoded_data = encoder.encode(&message).expect("Failed to encode negative values");

    let mut decoder = MessageDecoder::new(&config_manager, &encoded_data);
    let decoded_message = decoder.decode().expect("Failed to decode negative values");

    assert_eq!(decoded_message.msg_type, message.msg_type);
    assert_eq!(decoded_message.field_count(), message.field_count());

    println!("Negative values test passed");
}

#[test]
fn test_special_string_values() {
    let config_manager = create_test_config_manager();
    let mut message = Message::new(1001, 777);

    message.add_field("field_u8".to_string(), FieldValue::U8(42));
    message.add_field("field_u16".to_string(), FieldValue::U16(1024));
    message.add_field("field_u32".to_string(), FieldValue::U32(1048576));
    message.add_field("field_u64".to_string(), FieldValue::U64(1073741824));
    message.add_field("field_i64".to_string(), FieldValue::I64(1099511627776));
    message.add_field("field_char".to_string(), FieldValue::Str("ABC123".to_string()));
    message.add_field("field_price".to_string(), FieldValue::Float(px(1000.50)));
    message.add_field("field_quantity".to_string(), FieldValue::Float(qty(1500.000)));
    message.add_field("field_amount".to_string(), FieldValue::Float(px(25000.75000)));
    message.add_field("field_date".to_string(), FieldValue::U32(20231201));
    message.add_field("field_ntime".to_string(), FieldValue::U64(930451234567));

    let mut encoder = MessageEncoder::new(&config_manager);
    let encoded_data = encoder.encode(&message).expect("Failed to encode special values");

    let mut decoder = MessageDecoder::new(&config_manager, &encoded_data);
    let decoded_message = decoder.decode().expect("Failed to decode special values");

    assert_eq!(decoded_message.msg_type, message.msg_type);
    assert_eq!(decoded_message.field_count(), message.field_count());

    let decoded_char = decoded_message.get_field("field_char").unwrap();
    if let FieldValue::Str(s) = decoded_char {
        assert!(s.starts_with("ABC123"), "String field should start with 'ABC123'");
    } else {
        panic!("Expected string field");
    }

    println!("Special string values test passed");
}

#[test]
fn test_performance() {
    let config_manager = create_test_config_manager();
    let test_message = create_test_message();

    let start_time = std::time::Instant::now();
    let iterations = 1000;

    for i in 0..iterations {
        let mut message = test_message.clone();
        message.seq_num = i;

        let mut encoder = MessageEncoder::new(&config_manager);
        let encoded_data =
            encoder.encode(&message).unwrap_or_else(|_| panic!("Failed to encode message {}", i));

        let mut decoder = MessageDecoder::new(&config_manager, &encoded_data);
        let decoded_message =
            decoder.decode().unwrap_or_else(|_| panic!("Failed to decode message {}", i));

        assert_eq!(decoded_message.msg_type, message.msg_type);
        assert_eq!(decoded_message.seq_num, message.seq_num);
    }

    let elapsed = start_time.elapsed();
    println!(
        "Performance test: {} iterations in {:?} ({:.2} msg/sec)",
        iterations,
        elapsed,
        iterations as f64 / elapsed.as_secs_f64()
    );
}
