use sse_tdgw_binary::codec::decoder::MessageDecoder;
use sse_tdgw_binary::codec::encoder::MessageEncoder;
use sse_tdgw_binary::config::manager::ConfigManager;
use sse_tdgw_binary::config::types::{
    BaseFieldDef, FieldDef, FieldType, MessageConfig, MessageDef, StructDef,
};
use sse_tdgw_binary::message::{FieldValue, Message};

fn bf(name: &str, t: FieldType, len: Option<usize>) -> BaseFieldDef {
    BaseFieldDef { name: name.to_string(), ftype: t, length: len, desc: None }
}

fn px(v: f64) -> i64 {
    (v * 100000.0) as i64
}

fn qty(v: f64) -> i64 {
    ((v * 1000.0) as i64) * 100
}

/// Message type 2001 with two array fields.
fn create_array_test_config_manager() -> ConfigManager {
    let def = MessageDef {
        msg_type: 2001,
        name: "ArrayTestMessage".to_string(),
        fields: vec![
            FieldDef { base: bf("item", FieldType::U16, None), length_field: None, struct_def: None },
            FieldDef {
                base: bf("simple_array", FieldType::Array, None),
                length_field: Some(bf("NoItems", FieldType::U16, None)),
                struct_def: Some(StructDef {
                    fields: vec![
                        bf("item_id", FieldType::U32, None),
                        bf("item_name", FieldType::Char, Some(8)),
                        bf("item_price", FieldType::Price, None),
                    ],
                }),
            },
            FieldDef {
                base: bf("nested_array", FieldType::Array, None),
                length_field: Some(bf("NoGroups", FieldType::U16, None)),
                struct_def: Some(StructDef {
                    fields: vec![
                        bf("group_id", FieldType::U16, None),
                        bf("sub_count", FieldType::U16, None),
                        bf("sub_items", FieldType::Quantity, None),
                    ],
                }),
            },
        ],
        extensions: vec![],
    };
    let mut cm = ConfigManager::new();
    cm.load_config(MessageConfig { messages: vec![def] }).unwrap();
    cm
}

fn create_array_test_message() -> Message {
    let mut message = Message::new(2001, 54321);

    let simple_array_data = vec![
        vec![
            FieldValue::U32(1001),
            FieldValue::Str("ITEM001".to_string()),
            FieldValue::Float(px(123.45000)),
        ],
        vec![
            FieldValue::U32(1002),
            FieldValue::Str("ITEM002".to_string()),
            FieldValue::Float(px(678.90000)),
        ],
        vec![
            FieldValue::U32(1003),
            FieldValue::Str("ITEM003".to_string()),
            FieldValue::Float(px(999.99000)),
        ],
    ];

    let nested_array_data = vec![
        vec![FieldValue::U16(100), FieldValue::U16(2), FieldValue::Float(qty(1234.56000))],
        vec![FieldValue::U16(200), FieldValue::U16(3), FieldValue::Float(qty(7890.12000))],
    ];

    message.add_field("item".to_string(), FieldValue::U16(3));
    message.add_field("simple_array".to_string(), FieldValue::Array(simple_array_data));
    message.add_field("nested_array".to_string(), FieldValue::Array(nested_array_data));

    message
}

#[test]
fn test_simple_array_encode_decode() {
    let config_manager = create_array_test_config_manager();
    let original_message = create_array_test_message();

    let mut encoder = MessageEncoder::new(&config_manager);
    let encoded_data = encoder.encode(&original_message).expect("Failed to encode array message");

    println!("Array message encoded data length: {} bytes", encoded_data.len());
    println!(
        "Array message encoded data (hex): {}",
        encoded_data.iter().map(|b| format!("{:02x}", b)).collect::<String>()
    );

    let mut decoder = MessageDecoder::new(&config_manager, &encoded_data);
    let decoded_message = decoder.decode().expect("Failed to decode array message");

    assert_eq!(decoded_message.msg_type, original_message.msg_type, "Message type mismatch");
    assert_eq!(decoded_message.seq_num, original_message.seq_num, "Sequence number mismatch");

    assert_eq!(
        decoded_message.field_count(),
        original_message.field_count(),
        "Field count mismatch"
    );

    let item = decoded_message.get_field("item").unwrap();
    assert_eq!(item, &FieldValue::U16(3), "Item count mismatch");

    let simple_array = decoded_message.get_field("simple_array").unwrap();
    if let FieldValue::Array(array_data) = simple_array {
        assert_eq!(array_data.len(), 3, "Simple array length mismatch");

        assert_eq!(array_data[0][0], FieldValue::U32(1001), "First item ID mismatch");
        if let FieldValue::Str(name) = &array_data[0][1] {
            assert!(name.starts_with("ITEM001"), "First item name mismatch");
        } else {
            panic!("Expected string field for item name");
        }
        assert_eq!(array_data[0][2], FieldValue::Float(px(123.45000)), "First item price mismatch");
    } else {
        panic!("Expected array field for simple_array");
    }

    println!("Simple array encode/decode test passed");
}

#[test]
fn test_empty_array_encode_decode() {
    let config_manager = create_array_test_config_manager();

    let mut message = Message::new(2001, 11111);
    message.add_field("item".to_string(), FieldValue::U16(0));
    message.add_field("simple_array".to_string(), FieldValue::Array(vec![]));
    message.add_field("nested_array".to_string(), FieldValue::Array(vec![]));

    let mut encoder = MessageEncoder::new(&config_manager);
    let encoded_data = encoder.encode(&message).expect("Failed to encode empty array message");

    let mut decoder = MessageDecoder::new(&config_manager, &encoded_data);
    let decoded_message = decoder.decode().expect("Failed to decode empty array message");

    assert_eq!(decoded_message.msg_type, message.msg_type);
    assert_eq!(decoded_message.seq_num, message.seq_num);

    let simple_array = decoded_message.get_field("simple_array").unwrap();
    if let FieldValue::Array(array_data) = simple_array {
        assert_eq!(array_data.len(), 0, "Simple array should be empty");
    } else {
        panic!("Expected array field for simple_array");
    }

    let nested_array = decoded_message.get_field("nested_array").unwrap();
    if let FieldValue::Array(array_data) = nested_array {
        assert_eq!(array_data.len(), 0, "Nested array should be empty");
    } else {
        panic!("Expected array field for nested_array");
    }

    println!("Empty array encode/decode test passed");
}

#[test]
fn test_large_array_encode_decode() {
    let config_manager = create_array_test_config_manager();

    let mut large_array_data = Vec::new();
    for i in 0..100 {
        large_array_data.push(vec![
            FieldValue::U32(i + 1000),
            FieldValue::Str(format!("ITEM{:03}", i)),
            FieldValue::Float(px((i + 1) as f64)),
        ]);
    }

    let mut message = Message::new(2001, 88888);
    message.add_field("item".to_string(), FieldValue::U16(100));
    message.add_field("simple_array".to_string(), FieldValue::Array(large_array_data));
    message.add_field("nested_array".to_string(), FieldValue::Array(vec![]));

    let mut encoder = MessageEncoder::new(&config_manager);
    let encoded_data = encoder.encode(&message).expect("Failed to encode large array message");

    let mut decoder = MessageDecoder::new(&config_manager, &encoded_data);
    let decoded_message = decoder.decode().expect("Failed to decode large array message");

    assert_eq!(decoded_message.msg_type, message.msg_type);
    assert_eq!(decoded_message.seq_num, message.seq_num);

    let simple_array = decoded_message.get_field("simple_array").unwrap();
    if let FieldValue::Array(array_data) = simple_array {
        assert_eq!(array_data.len(), 100, "Large array length mismatch");

        assert_eq!(array_data[0][0], FieldValue::U32(1000), "First large item ID mismatch");
        assert_eq!(array_data[99][0], FieldValue::U32(1099), "Last large item ID mismatch");
        assert_eq!(
            array_data[50][2],
            FieldValue::Float(px(51.0)),
            "Middle large item price mismatch"
        );
    } else {
        panic!("Expected array field for simple_array");
    }

    println!("Large array encode/decode test passed");
}

#[test]
fn test_array_field_type_consistency() {
    let config_manager = create_array_test_config_manager();

    let mixed_array_data = vec![
        vec![
            FieldValue::U32(u32::MAX),
            FieldValue::Str("MAX_TEST".to_string()),
            FieldValue::Float(px(9999999.99999)),
        ],
        vec![
            FieldValue::U32(0),
            FieldValue::Str("MIN_TEST".to_string()),
            FieldValue::Float(px(-9999999.99999)),
        ],
    ];

    let mut message = Message::new(2001, 33333);
    message.add_field("item".to_string(), FieldValue::U16(2));
    message.add_field("simple_array".to_string(), FieldValue::Array(mixed_array_data));
    message.add_field("nested_array".to_string(), FieldValue::Array(vec![]));

    let mut encoder = MessageEncoder::new(&config_manager);
    let encoded_data = encoder.encode(&message).expect("Failed to encode mixed array message");

    let mut decoder = MessageDecoder::new(&config_manager, &encoded_data);
    let decoded_message = decoder.decode().expect("Failed to decode mixed array message");

    let simple_array = decoded_message.get_field("simple_array").unwrap();
    if let FieldValue::Array(array_data) = simple_array {
        assert_eq!(array_data[0][0], FieldValue::U32(u32::MAX), "Max U32 value mismatch");
        assert_eq!(array_data[0][2], FieldValue::Float(px(9999999.99999)), "Max I64 value mismatch");
        assert_eq!(array_data[1][0], FieldValue::U32(0), "Min U32 value mismatch");
        assert_eq!(
            array_data[1][2],
            FieldValue::Float(px(-9999999.99999)),
            "Min I64 value mismatch"
        );
    } else {
        panic!("Expected array field for simple_array");
    }

    println!("Array field type consistency test passed");
}
