use needle2::float_bits::{argmax_total, bits_gt, total_key_of};
use needle2::blocks::transpose_blocks;
use needle2::engram::engram_slot;
use needle2::tensor::hadamard_negative;
use needle2::tools::{tool_calls_from, JsonTop};
use needle2::{decode_tool_calls, engram_indices, render_tool_prompt};
use serde_json::Value;

#[test]
fn engram_hash_matches_reference_fixture() {
    assert_eq!(
        engram_indices(&[1, 2, 3, 4], &[2, 3], 2, 8192),
        [
            3101, 3314, 234, 5746, 6228, 6217, 1096, 3580, 2635, 6396, 4366, 6630, 7601, 4923,
            1956, 4976
        ]
    );
}

#[test]
fn renders_official_tool_prompt() {
    assert_eq!(
        render_tool_prompt("[{\"name\":\"weather\"}]", "hello"),
        "<|im_start|>user\\n<tools>[{\"name\":\"weather\"}]</tools>\\nhello<|im_end|>\\n<|im_start|>assistant\\n"
    );
}

#[test]
fn decodes_single_and_multiple_tool_calls() {
    assert_eq!(
        decode_tool_calls("<tool_call>{\"name\":\"weather\"}</tool_call>")
            .unwrap()
            .len(),
        1
    );
    assert_eq!(
        decode_tool_calls("reasoning {\"name\":\"weather\"}")
            .unwrap()
            .len(),
        1
    );
    assert_eq!(
        decode_tool_calls("[{\"name\":\"a\"},{\"name\":\"b\"}]")
            .unwrap()
            .len(),
        2
    );
    assert!(decode_tool_calls("null").is_err());
}

#[test]
fn engram_slots_stay_below_slot_count_and_follow_layout() {
    let tokens = [7u32, 0, 4_000_000_000, 12];
    let orders = [1usize, 2, 5];
    let out = engram_indices(&tokens, &orders, 3, 97);
    assert_eq!(out.len(), tokens.len() * orders.len() * 3);
    assert!(out.iter().all(|&v| v < 97));
    // The order-1 hash of a position depends on its own token only.
    let single = engram_indices(&[12], &[1], 3, 97);
    assert_eq!(&out[3 * 9..3 * 9 + 3], &single[..]);
}

#[test]
fn engram_with_no_heads_or_orders_is_empty() {
    assert!(engram_indices(&[1, 2, 3], &[2, 3], 0, 0).is_empty());
    assert!(engram_indices(&[1, 2, 3], &[], 2, 0).is_empty());
    assert!(engram_indices(&[], &[2], 2, 0).is_empty());
}

#[test]
fn tool_calls_inside_tags_ignore_trailing_text() {
    let calls = decode_tool_calls(
        "thinking\n<tool_call>\n [{\"name\":\"a\"},{\"name\":\"b\"},{\"name\":\"c\"}]\n</tool_call> done",
    )
    .unwrap();
    assert_eq!(calls.len(), 3);
    assert_eq!(calls[1]["name"], "b");
}

#[test]
fn tool_call_errors_name_their_cause() {
    assert_eq!(
        decode_tool_calls("no json here").unwrap_err(),
        "missing JSON tool payload"
    );
    assert_eq!(
        decode_tool_calls("<tool_call>[1, 2]").unwrap().len(),
        2
    );
    assert!(decode_tool_calls("{\"name\": ").is_err());
    assert_eq!(
        decode_tool_calls("{\"a\":1} trailing").unwrap_err().is_empty(),
        false
    );
}

#[test]
fn float_comparison_follows_ieee() {
    let one = 1.0f32.to_bits();
    let two = 2.0f32.to_bits();
    let neg = (-3.5f32).to_bits();
    let nan = f32::NAN.to_bits();
    assert!(bits_gt(two, one));
    assert!(!bits_gt(one, two));
    assert!(bits_gt(one, neg));
    assert!(!bits_gt(nan, one));
    assert!(!bits_gt(one, nan));
    assert!(!bits_gt(0.0f32.to_bits(), (-0.0f32).to_bits()));
    assert!(!bits_gt((-0.0f32).to_bits(), 0.0f32.to_bits()));
    assert!(bits_gt(f32::INFINITY.to_bits(), f32::MAX.to_bits()));
}

#[test]
fn argmax_matches_total_cmp_max_by() {
    let values = [1.5f32, -2.0, 7.25, 7.25, 0.0, -0.0, 3.0];
    let bits: Vec<u32> = values.iter().map(|v| v.to_bits()).collect();
    let expected = values
        .iter()
        .enumerate()
        .max_by(|a, b| a.1.total_cmp(b.1))
        .map(|(i, _)| i)
        .unwrap();
    assert_eq!(argmax_total(&bits), expected);
    assert_eq!(argmax_total(&bits), 3);
    let with_nan = [1.0f32, f32::NAN, 5.0];
    let bits: Vec<u32> = with_nan.iter().map(|v| v.to_bits()).collect();
    assert_eq!(argmax_total(&bits), 1);
    assert!(total_key_of((-0.0f32).to_bits()) < total_key_of(0.0f32.to_bits()));
}

#[test]
fn tool_calls_keep_the_parsed_values_in_order() {
    let calls = decode_tool_calls("[{\"name\":\"a\"},{\"name\":\"b\"},3]").unwrap();
    assert_eq!(calls[0]["name"], "a");
    assert_eq!(calls[1]["name"], "b");
    assert_eq!(calls[2], Value::from(3));
    let single = decode_tool_calls("<tool_call>{\"name\":\"w\",\"arguments\":{}}</tool_call>").unwrap();
    assert_eq!(single.len(), 1);
    assert_eq!(single[0]["name"], "w");
    assert!(single[0]["arguments"].is_object());
}

#[test]
fn tool_calls_from_a_parsed_payload() {
    let array = vec![Value::from("x"), Value::from(2), Value::Null];
    assert_eq!(tool_calls_from(Ok(JsonTop::Array(array.clone()))).unwrap(), array);
    let object = serde_json::from_str::<Value>("{\"name\":\"w\"}").unwrap();
    assert_eq!(tool_calls_from(Ok(JsonTop::Object(object.clone()))).unwrap(), vec![object]);
    assert_eq!(
        tool_calls_from(Ok(JsonTop::Other)).unwrap_err(),
        "tool call payload must be an object or array"
    );
    assert_eq!(
        tool_calls_from(Err(String::from("EOF while parsing a value at line 1 column 3"))).unwrap_err(),
        "EOF while parsing a value at line 1 column 3"
    );
}

#[test]
fn invalid_tool_payloads_report_the_json_error() {
    for (text, payload) in [
        ("<tool_call>[1,</tool_call>", "[1,"),
        ("{\"a\":1} trailing", "{\"a\":1} trailing"),
        ("call: {\"name\": ", "{\"name\":"),
    ] {
        let expected = serde_json::from_str::<Value>(payload).unwrap_err().to_string();
        assert!(expected.starts_with("EOF") || expected.starts_with("trailing"));
        assert_eq!(decode_tool_calls(text).unwrap_err(), expected);
    }
}

#[test]
fn engram_table_of_a_prefix_is_a_prefix_of_the_table() {
    let tokens = [5u32, 9, 9, 1, 70000, 3];
    let orders = [1usize, 2, 4];
    let full = engram_indices(&tokens, &orders, 2, 101);
    for p in 0..=tokens.len() {
        let part = engram_indices(&tokens[..p], &orders, 2, 101);
        assert_eq!(&part[..], &full[..p * orders.len() * 2]);
    }
}

#[test]
fn engram_slot_waits_for_a_full_ngram() {
    let tokens = [1u32, 2, 3, 4];
    let orders = [2usize, 3];
    let indices = engram_indices(&tokens, &orders, 2, 8192);
    assert_eq!(engram_slot(&indices, &orders, 2, 0, 0), None);
    assert_eq!(engram_slot(&indices, &orders, 2, 0, 3), None);
    assert_eq!(engram_slot(&indices, &orders, 2, 1, 1), Some(6217));
    assert_eq!(engram_slot(&indices, &orders, 2, 1, 2), None);
    assert_eq!(engram_slot(&indices, &orders, 2, 2, 2), Some(4366));
    assert_eq!(engram_slot(&indices, &orders, 2, 3, 3), Some(4976));
}

#[test]
fn blocks_move_between_token_and_head_major_order() {
    let tokens = 3;
    let heads = 2;
    let dim = 2;
    // Item d of head h at token t holds 100 * t + 10 * h + d.
    let token_major: Vec<u32> = (0..tokens * heads * dim)
        .map(|i| (100 * (i / (heads * dim)) + 10 * ((i / dim) % heads) + i % dim) as u32)
        .collect();
    let head_major = transpose_blocks(&token_major, tokens, heads, dim);
    assert_eq!(head_major, [0, 1, 100, 101, 200, 201, 10, 11, 110, 111, 210, 211]);
    assert_eq!(transpose_blocks(&head_major, heads, tokens, dim), token_major);
    assert!(transpose_blocks::<u32>(&[], 0, 5, 7).is_empty());
}

#[test]
fn hadamard_signs_follow_the_parity_of_common_bits() {
    for j in 0..64usize {
        for k in 0..64usize {
            assert_eq!(hadamard_negative(j, k), (j & k).count_ones() % 2 == 1);
        }
    }
    assert!(!hadamard_negative(0, usize::MAX));
    assert!(hadamard_negative(usize::MAX, 1));
    assert!(!hadamard_negative(usize::MAX, 3));
}
