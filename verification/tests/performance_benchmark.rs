use sse_tdgw_binary::codec::decoder::MessageDecoder;
use sse_tdgw_binary::codec::encoder::MessageEncoder;
use sse_tdgw_binary::config::manager::ConfigManager;
use sse_tdgw_binary::config::types::{
    BaseFieldDef, FieldDef, FieldType, MessageConfig, MessageDef, StructDef,
};
use sse_tdgw_binary::message::{FieldValue, Message};
use std::time::{Duration, Instant};

fn bf(name: &str, t: FieldType, len: Option<usize>) -> BaseFieldDef {
    BaseFieldDef { name: name.to_string(), ftype: t, length: len, desc: None }
}

fn scalar(name: &str, t: FieldType) -> FieldDef {
    FieldDef { base: bf(name, t, None), length_field: None, struct_def: None }
}

fn chr(name: &str, len: usize) -> FieldDef {
    FieldDef { base: bf(name, FieldType::Char, Some(len)), length_field: None, struct_def: None }
}

fn px(v: f64) -> i64 {
    (v * 100000.0) as i64
}

fn qty(v: f64) -> i64 {
    ((v * 1000.0) as i64) * 100
}

/// Message types 4001 (small), 4002 (medium), 4003 (large) and 4004 (array).
fn create_performance_config_manager() -> ConfigManager {
    let small = MessageDef {
        msg_type: 4001,
        name: "SmallMessage".to_string(),
        fields: vec![scalar("id", FieldType::U32), scalar("value", FieldType::I64)],
        extensions: vec![],
    };
    let medium = MessageDef {
        msg_type: 4002,
        name: "MediumMessage".to_string(),
        fields: vec![
            scalar("header_id", FieldType::U32),
            scalar("timestamp", FieldType::U64),
            scalar("price", FieldType::Price),
            scalar("quantity", FieldType::Quantity),
            scalar("amount", FieldType::Amount),
            chr("symbol", 16),
            scalar("date", FieldType::Date),
            scalar("time", FieldType::NTime),
            scalar("status", FieldType::U8),
            scalar("flags", FieldType::U16),
        ],
        extensions: vec![],
    };
    let large = MessageDef {
        msg_type: 4003,
        name: "LargeMessage".to_string(),
        fields: vec![
            scalar("msg_id", FieldType::U64),
            scalar("seq_no", FieldType::U32),
            scalar("timestamp", FieldType::U64),
            chr("symbol", 32),
            chr("name", 64),
            chr("market", 8),
            chr("sector", 16),
            chr("currency", 4),
            scalar("price", FieldType::Price),
            scalar("prev_close", FieldType::Price),
            scalar("open_price", FieldType::Price),
            scalar("high_price", FieldType::Price),
            scalar("low_price", FieldType::Price),
            scalar("volume", FieldType::Quantity),
            scalar("turnover", FieldType::Amount),
            scalar("bid_price1", FieldType::Price),
            scalar("bid_volume1", FieldType::Quantity),
            scalar("ask_price1", FieldType::Price),
            scalar("ask_volume1", FieldType::Quantity),
            scalar("trade_date", FieldType::Date),
            scalar("trade_time", FieldType::NTime),
            scalar("status", FieldType::U8),
            scalar("halt_flag", FieldType::U8),
            scalar("limit_up", FieldType::Price),
            scalar("limit_down", FieldType::Price),
        ],
        extensions: vec![],
    };
    let array = MessageDef {
        msg_type: 4004,
        name: "ArrayMessage".to_string(),
        fields: vec![FieldDef {
            base: bf("items", FieldType::Array, None),
            length_field: Some(bf("NoGroups", FieldType::U16, None)),
            struct_def: Some(StructDef {
                fields: vec![
                    bf("item_id", FieldType::U32, None),
                    bf("item_price", FieldType::Price, None),
                    bf("item_qty", FieldType::Quantity, None),
                ],
            }),
        }],
        extensions: vec![],
    };
    let mut cm = ConfigManager::new();
    cm.load_config(MessageConfig { messages: vec![small, medium, large, array] }).unwrap();
    cm
}

fn create_small_message(seq: u32) -> Message {
    let mut message = Message::new(4001, seq);
    message.add_field("id".to_string(), FieldValue::U32(seq));
    message.add_field("value".to_string(), FieldValue::I64(seq as i64 * 1000));
    message
}

fn create_medium_message(seq: u32) -> Message {
    let mut message = Message::new(4002, seq);
    message.add_field("header_id".to_string(), FieldValue::U32(seq));
    message.add_field("timestamp".to_string(), FieldValue::U64(1703500800000000000 + seq as u64));
    message.add_field("price".to_string(), FieldValue::Float(px(10000000.0 + (seq % 1000000) as f64)));
    message.add_field(
        "quantity".to_string(),
        FieldValue::Float(qty(1000000.0 + (seq % 100000) as f64)),
    );
    message.add_field(
        "amount".to_string(),
        FieldValue::Float(px(100000000000.0 + (seq % 100000000) as f64)),
    );
    message.add_field("symbol".to_string(), FieldValue::Str(format!("SH{:06}", seq % 1000000)));
    message.add_field("date".to_string(), FieldValue::U32(20231225));
    message.add_field("time".to_string(), FieldValue::U64(930000000000 + (seq as u64 % 10000000)));
    message.add_field("status".to_string(), FieldValue::U8((seq % 256) as u8));
    message.add_field("flags".to_string(), FieldValue::U16((seq % 65536) as u16));
    message
}

fn create_large_message(seq: u32) -> Message {
    let mut message = Message::new(4003, seq);
    message.add_field("msg_id".to_string(), FieldValue::U64(seq as u64));
    message.add_field("seq_no".to_string(), FieldValue::U32(seq));
    message.add_field("timestamp".to_string(), FieldValue::U64(1703500800000000000 + seq as u64));
    message.add_field("symbol".to_string(), FieldValue::Str(format!("SH{:06}.SSE", seq % 1000000)));
    message.add_field("name".to_string(), FieldValue::Str(format!("SECURITY-{:06}", seq % 1000000)));
    message.add_field("market".to_string(), FieldValue::Str("SSE".to_string()));
    message.add_field("sector".to_string(), FieldValue::Str(format!("SECTOR{:02}", seq % 100)));
    message.add_field("currency".to_string(), FieldValue::Str("CNY".to_string()));
    message.add_field("price".to_string(), FieldValue::Float(px(10000000.0 + (seq % 1000000) as f64)));
    message.add_field(
        "prev_close".to_string(),
        FieldValue::Float(px(9950000.0 + (seq % 1000000) as f64)),
    );
    message.add_field(
        "open_price".to_string(),
        FieldValue::Float(px(9980000.0 + (seq % 1000000) as f64)),
    );
    message.add_field(
        "high_price".to_string(),
        FieldValue::Float(px(10050000.0 + (seq % 1000000) as f64)),
    );
    message.add_field(
        "low_price".to_string(),
        FieldValue::Float(px(9900000.0 + (seq % 1000000) as f64)),
    );
    message.add_field(
        "volume".to_string(),
        FieldValue::Float(qty(1000000000.0 + (seq as f64 % 100000000.0))),
    );
    message.add_field(
        "turnover".to_string(),
        FieldValue::Float(px(10000000000.0 + (seq as f64 % 1000000000.0))),
    );
    message.add_field(
        "bid_price1".to_string(),
        FieldValue::Float(px(9999000.0 + (seq as f64 % 1000000.0))),
    );
    message.add_field(
        "bid_volume1".to_string(),
        FieldValue::Float(qty(100000.0 + (seq as f64 % 100000.0))),
    );
    message.add_field(
        "ask_price1".to_string(),
        FieldValue::Float(px(10001000.0 + (seq as f64 % 100000.0))),
    );
    message.add_field(
        "ask_volume1".to_string(),
        FieldValue::Float(qty(100000.0 + (seq as f64 % 100000.0))),
    );
    message.add_field("trade_date".to_string(), FieldValue::U32(20231225));
    message.add_field(
        "trade_time".to_string(),
        FieldValue::U64(930000000000 + (seq as u64 % 10000000)),
    );
    message.add_field("status".to_string(), FieldValue::U8(1));
    message.add_field("halt_flag".to_string(), FieldValue::U8(0));
    message.add_field(
        "limit_up".to_string(),
        FieldValue::Float(px(11000000.0 + (seq as f64 % 1000000.0))),
    );
    message.add_field(
        "limit_down".to_string(),
        FieldValue::Float(px(9000000.0 + (seq as f64 % 1000000.0))),
    );
    message
}

fn create_array_message(seq: u32, array_size: usize) -> Message {
    let mut message = Message::new(4004, seq);

    let mut array_data = Vec::new();
    for i in 0..array_size {
        array_data.push(vec![
            FieldValue::U32(seq * 1000 + i as u32),
            FieldValue::Float(px(10000000.0 + (i as f64 % 1000000.0))),
            FieldValue::Float(qty(1000000.0 + (i as f64 % 100000.0))),
        ]);
    }

    message.add_field("items".to_string(), FieldValue::Array(array_data));
    message
}

fn run_performance_test<F>(test_name: &str, iterations: usize, test_fn: F) -> (Duration, f64)
where
    F: Fn(),
{
    for _ in 0..100 {
        test_fn();
    }

    let start_time = Instant::now();
    for _ in 0..iterations {
        test_fn();
    }
    let elapsed = start_time.elapsed();

    let ops_per_sec = iterations as f64 / elapsed.as_secs_f64();

    println!(
        "[{}] {} iterations in {:?} ({:.2} ops/sec)",
        test_name, iterations, elapsed, ops_per_sec
    );

    (elapsed, ops_per_sec)
}

#[test]
fn test_small_message_encode_performance() {
    let config_manager = create_performance_config_manager();
    let iterations = 10000;

    let (_elapsed, ops_per_sec) = run_performance_test("Small Message Encode", iterations, || {
        let message = create_small_message(12345);
        let mut encoder = MessageEncoder::new(&config_manager);
        let _ = encoder.encode(&message).expect("Encode failed");
    });

    assert!(
        ops_per_sec > 1000.0,
        "Small message encoding should be faster than 1000 ops/sec, got {:.2}",
        ops_per_sec
    );

    println!("Small message encode performance test passed");
}

#[test]
fn test_small_message_decode_performance() {
    let config_manager = create_performance_config_manager();
    let message = create_small_message(12345);
    let mut encoder = MessageEncoder::new(&config_manager);
    let encoded_data = encoder.encode(&message).expect("Encode failed");
    let iterations = 10000;

    let (_elapsed, ops_per_sec) = run_performance_test("Small Message Decode", iterations, || {
        let mut decoder = MessageDecoder::new(&config_manager, &encoded_data);
        let _ = decoder.decode().expect("Decode failed");
    });

    assert!(
        ops_per_sec > 1000.0,
        "Small message decoding should be faster than 1000 ops/sec, got {:.2}",
        ops_per_sec
    );

    println!("Small message decode performance test passed");
}

#[test]
fn test_medium_message_roundtrip_performance() {
    let config_manager = create_performance_config_manager();
    let iterations = 5000;

    let (_elapsed, ops_per_sec) =
        run_performance_test("Medium Message Roundtrip", iterations, || {
            let message = create_medium_message(12345);
            let mut encoder = MessageEncoder::new(&config_manager);
            let encoded_data = encoder.encode(&message).expect("Encode failed");

            let mut decoder = MessageDecoder::new(&config_manager, &encoded_data);
            let _ = decoder.decode().expect("Decode failed");
        });

    assert!(
        ops_per_sec > 500.0,
        "Medium message roundtrip should be faster than 500 ops/sec, got {:.2}",
        ops_per_sec
    );

    println!("Medium message roundtrip performance test passed");
}

#[test]
fn test_large_message_roundtrip_performance() {
    let config_manager = create_performance_config_manager();
    let iterations = 1000;

    let (_elapsed, ops_per_sec) = run_performance_test("Large Message Roundtrip", iterations, || {
        let message = create_large_message(12345);
        let mut encoder = MessageEncoder::new(&config_manager);
        let encoded_data = encoder.encode(&message).expect("Encode failed");

        let mut decoder = MessageDecoder::new(&config_manager, &encoded_data);
        let _ = decoder.decode().expect("Decode failed");
    });

    assert!(
        ops_per_sec > 100.0,
        "Large message roundtrip should be faster than 100 ops/sec, got {:.2}",
        ops_per_sec
    );

    println!("Large message roundtrip performance test passed");
}

#[test]
fn test_small_array_message_performance() {
    let config_manager = create_performance_config_manager();
    let iterations = 2000;

    let (_elapsed, ops_per_sec) =
        run_performance_test("Small Array Message (10 items)", iterations, || {
            let message = create_array_message(12345, 10);
            let mut encoder = MessageEncoder::new(&config_manager);
            let encoded_data = encoder.encode(&message).expect("Encode failed");

            let mut decoder = MessageDecoder::new(&config_manager, &encoded_data);
            let _ = decoder.decode().expect("Decode failed");
        });

    assert!(
        ops_per_sec > 200.0,
        "Small array message should be faster than 200 ops/sec, got {:.2}",
        ops_per_sec
    );

    println!("Small array message performance test passed");
}

#[test]
fn test_large_array_message_performance() {
    let config_manager = create_performance_config_manager();
    let iterations = 100;

    let (_elapsed, ops_per_sec) =
        run_performance_test("Large Array Message (1000 items)", iterations, || {
            let message = create_array_message(12345, 1000);
            let mut encoder = MessageEncoder::new(&config_manager);
            let encoded_data = encoder.encode(&message).expect("Encode failed");

            let mut decoder = MessageDecoder::new(&config_manager, &encoded_data);
            let _ = decoder.decode().expect("Decode failed");
        });

    assert!(
        ops_per_sec > 10.0,
        "Large array message should be faster than 10 ops/sec, got {:.2}",
        ops_per_sec
    );

    println!("Large array message performance test passed");
}

#[test]
fn test_batch_message_processing_performance() {
    let config_manager = create_performance_config_manager();
    let batch_size = 1000;

    let mut messages = Vec::new();
    for i in 0..batch_size {
        messages.push(create_medium_message(i as u32));
    }

    let start_time = Instant::now();

    let mut encoded_messages = Vec::new();
    for message in &messages {
        let mut encoder = MessageEncoder::new(&config_manager);
        let encoded_data = encoder.encode(message).expect("Encode failed");
        encoded_messages.push(encoded_data);
    }

    let encode_time = start_time.elapsed();

    let decode_start = Instant::now();
    let mut decoded_messages = Vec::new();
    for encoded_data in &encoded_messages {
        let mut decoder = MessageDecoder::new(&config_manager, encoded_data);
        let decoded_message = decoder.decode().expect("Decode failed");
        decoded_messages.push(decoded_message);
    }

    let decode_time = decode_start.elapsed();
    let total_time = start_time.elapsed();

    let encode_ops_per_sec = batch_size as f64 / encode_time.as_secs_f64();
    let decode_ops_per_sec = batch_size as f64 / decode_time.as_secs_f64();
    let total_ops_per_sec = batch_size as f64 / total_time.as_secs_f64();

    println!("[Batch Processing] {} messages:", batch_size);
    println!("  Encode: {:?} ({:.2} ops/sec)", encode_time, encode_ops_per_sec);
    println!("  Decode: {:?} ({:.2} ops/sec)", decode_time, decode_ops_per_sec);
    println!("  Total:  {:?} ({:.2} ops/sec)", total_time, total_ops_per_sec);

    assert_eq!(messages.len(), decoded_messages.len(), "Message count mismatch");
    for (i, (original, decoded)) in messages.iter().zip(decoded_messages.iter()).enumerate() {
        assert_eq!(original.msg_type, decoded.msg_type, "Message type mismatch at index {}", i);
        assert_eq!(original.seq_num, decoded.seq_num, "Sequence number mismatch at index {}", i);
    }

    assert!(
        total_ops_per_sec > 100.0,
        "Batch processing should be faster than 100 ops/sec, got {:.2}",
        total_ops_per_sec
    );

    println!("Batch message processing performance test passed");
}

#[test]
fn test_memory_efficiency() {
    let config_manager = create_performance_config_manager();

    let small_message = create_small_message(12345);
    let medium_message = create_medium_message(12345);
    let large_message = create_large_message(12345);
    let array_message = create_array_message(12345, 100);

    let mut encoder = MessageEncoder::new(&config_manager);

    let small_encoded = encoder.encode(&small_message).expect("Encode failed");
    let medium_encoded = encoder.encode(&medium_message).expect("Encode failed");
    let large_encoded = encoder.encode(&large_message).expect("Encode failed");
    let array_encoded = encoder.encode(&array_message).expect("Encode failed");

    println!("[Memory Efficiency] Encoded message sizes:");
    println!("  Small message:  {} bytes", small_encoded.len());
    println!("  Medium message: {} bytes", medium_encoded.len());
    println!("  Large message:  {} bytes", large_encoded.len());
    println!("  Array message:  {} bytes (100 items)", array_encoded.len());

    assert!(
        small_encoded.len() < medium_encoded.len(),
        "Small message should be smaller than medium"
    );
    assert!(
        medium_encoded.len() < large_encoded.len(),
        "Medium message should be smaller than large"
    );

    let array_10 = encoder.encode(&create_array_message(12345, 10)).expect("Encode failed");
    let array_100 = encoder.encode(&create_array_message(12345, 100)).expect("Encode failed");

    println!("  Array 10 items:  {} bytes", array_10.len());
    println!("  Array 100 items: {} bytes", array_100.len());

    assert!(array_100.len() > array_10.len() * 5, "Array size should scale with element count");

    println!("Memory efficiency test passed");
}

#[test]
fn test_comprehensive_performance_report() {
    let config_manager = create_performance_config_manager();

    println!("\n=== Comprehensive Performance Report ===");

    let test_cases: Vec<(&str, Box<dyn Fn() -> Message>, usize)> = vec![
        ("Small", Box::new(|| create_small_message(12345)), 5000),
        ("Medium", Box::new(|| create_medium_message(12345)), 2000),
        ("Large", Box::new(|| create_large_message(12345)), 500),
        ("Array-10", Box::new(|| create_array_message(12345, 10)), 1000),
        ("Array-100", Box::new(|| create_array_message(12345, 100)), 200),
    ];

    for (name, message_fn, iterations) in test_cases {
        let message = message_fn();

        let (_encode_time, encode_ops) =
            run_performance_test(&format!("{} Encode", name), iterations, || {
                let mut encoder = MessageEncoder::new(&config_manager);
                let _ = encoder.encode(&message).expect("Encode failed");
            });

        let mut encoder = MessageEncoder::new(&config_manager);
        let encoded_data = encoder.encode(&message).expect("Encode failed");

        let (_decode_time, decode_ops) =
            run_performance_test(&format!("{} Decode", name), iterations, || {
                let mut decoder = MessageDecoder::new(&config_manager, &encoded_data);
                let _ = decoder.decode().expect("Decode failed");
            });

        println!(
            "[{}] Size: {} bytes, Encode: {:.2} ops/sec, Decode: {:.2} ops/sec",
            name,
            encoded_data.len(),
            encode_ops,
            decode_ops
        );
    }

    println!("=== Performance Report Complete ===\n");
    println!("Comprehensive performance report test passed");
}
