use needle2::model::{DTYPE_CQ, DTYPE_FP16, DTYPE_FP32, DTYPE_RAW, TAG};
use needle2::tensor::half_to_single_bits;
use needle2::tokenizer::parse_tokenizer;
use needle2::{
    aligned_directory_end, CactError, CactModel, GreedyDecoder, ModelHeader, TensorData, Tokenizer,
};

const NORMAL: u8 = 0;

fn tokenizer_blob(pieces: &[(f32, u8, &[u8])], dummy_prefix: bool, byte_fallback: bool) -> Vec<u8> {
    let mut b = Vec::new();
    b.extend_from_slice(&(pieces.len() as u32).to_le_bytes());
    b.extend_from_slice(&0u32.to_le_bytes());
    b.extend_from_slice(&1u32.to_le_bytes());
    b.extend_from_slice(&2u32.to_le_bytes());
    b.extend_from_slice(&0u32.to_le_bytes());
    b.push(dummy_prefix as u8);
    b.push(byte_fallback as u8);
    b.push(0);
    b.push(0);
    for (score, kind, surface) in pieces {
        b.extend_from_slice(&score.to_le_bytes());
        b.push(*kind);
        b.extend_from_slice(&(surface.len() as u16).to_le_bytes());
        b.extend_from_slice(surface);
    }
    b
}

struct Tensor {
    dtype: u8,
    shape: [u32; 4],
    ndim: u8,
    payload: Vec<u8>,
    group_size: u32,
    bits: u32,
}

fn model_file(codebook: &[f32], tensors: &[Tensor]) -> Vec<u8> {
    let mut b = Vec::new();
    b.extend_from_slice(&TAG.to_le_bytes());
    b.extend_from_slice(&(tensors.len() as u32).to_le_bytes());
    b.extend_from_slice(&(codebook.len() as u32).to_le_bytes());
    b.extend_from_slice(&7u32.to_le_bytes());
    b.extend_from_slice(&8u32.to_le_bytes());
    for c in codebook {
        b.extend_from_slice(&c.to_le_bytes());
    }
    let mut offset = (20 + codebook.len() * 4 + tensors.len() * 44) as u64;
    for t in tensors {
        b.push(t.dtype);
        b.push(t.ndim);
        b.push(0);
        b.push(0);
        for d in t.shape {
            b.extend_from_slice(&d.to_le_bytes());
        }
        b.extend_from_slice(&offset.to_le_bytes());
        b.extend_from_slice(&(t.payload.len() as u64).to_le_bytes());
        b.extend_from_slice(&t.group_size.to_le_bytes());
        b.extend_from_slice(&t.bits.to_le_bytes());
        offset += t.payload.len() as u64;
    }
    for t in tensors {
        b.extend_from_slice(&t.payload);
    }
    b
}

fn raw(payload: Vec<u8>) -> Tensor {
    Tensor { dtype: DTYPE_RAW, shape: [payload.len() as u32, 0, 0, 0], ndim: 1, payload, group_size: 0, bits: 0 }
}

fn simple_tokenizer() -> Vec<u8> {
    tokenizer_blob(
        &[
            (0.0, 2, b"<unk>"),
            (0.0, 1, b"</s>"),
            (0.0, 1, b"<s>"),
            (0.0, NORMAL, "\u{2581}".as_bytes()),
            (0.0, NORMAL, b"h"),
            (0.0, NORMAL, b"e"),
            (0.0, NORMAL, b"l"),
            (0.0, NORMAL, b"o"),
            (-1.0, NORMAL, b"he"),
            (-2.0, NORMAL, b"ll"),
            (-0.5, NORMAL, b"hell"),
            (-0.1, NORMAL, b"hello"),
            (-0.05, NORMAL, "\u{2581}hello".as_bytes()),
            (0.0, 4, b"<0x41>"),
            (0.0, 3, b"<tool_call>"),
            (0.0, 3, b"<a>"),
            (0.0, 3, b"<ab>"),
            (0.0, 4, b"<0xFF>"),
        ],
        true,
        true,
    )
}

fn sample_model() -> Vec<u8> {
    let fp16: Vec<u8> = [0x3c00u16, 0xc000, 0x0001, 0x7c00]
        .iter()
        .flat_map(|h| h.to_le_bytes())
        .collect();
    let fp32: Vec<u8> = [1.5f32, -2.25].iter().flat_map(|v| v.to_le_bytes()).collect();
    model_file(
        &[0.5, -0.5, 1.0, -1.0],
        &[
            Tensor { dtype: DTYPE_FP16, shape: [2, 2, 0, 0], ndim: 2, payload: fp16, group_size: 0, bits: 0 },
            Tensor { dtype: DTYPE_FP32, shape: [2, 0, 0, 0], ndim: 1, payload: fp32, group_size: 0, bits: 0 },
            raw(simple_tokenizer()),
        ],
    )
}

fn tokenizer() -> Tokenizer {
    parse_tokenizer(&simple_tokenizer()).unwrap()
}

#[test]
fn parses_a_model_and_its_directory() {
    let bytes = sample_model();
    let model = CactModel::parse(&bytes).unwrap();
    assert_eq!(
        model.header,
        ModelHeader { tensor_count: 3, codebook_len: 4, kv_window: 7, kv_bits: 8 }
    );
    assert_eq!(model.header.tensor_count as usize, model.tensors.len());
    assert_eq!(model.codebook.len(), 16);
    assert_eq!(model.tensors[1].dtype, DTYPE_FP32);
    assert_eq!(model.tensors[0].shape, [2, 2, 0, 0]);
    assert_eq!(model.tokenizer.pieces.len(), 18);
    assert_eq!(model.tokenizer.pieces[3].surface, "\u{2581}");
    assert_eq!(model.tensor_bytes(1).unwrap(), &bytes[20 + 16 + 3 * 44 + 8..20 + 16 + 3 * 44 + 16]);
    assert!(model.tensor_bytes(3).is_none());
}

#[test]
fn widens_fp16_and_reads_fp32_words() {
    let bytes = sample_model();
    let model = CactModel::parse(&bytes).unwrap();
    match model.tensor_f32_bits(0).unwrap() {
        TensorData::Words(w) => {
            let values: Vec<f32> = w.iter().map(|b| f32::from_bits(*b)).collect();
            assert_eq!(values[0], 1.0);
            assert_eq!(values[1], -2.0);
            assert_eq!(values[2], 5.960_464_5e-8);
            assert_eq!(values[3], f32::INFINITY);
        }
        _ => panic!("expected words"),
    }
    match model.tensor_f32_bits(1).unwrap() {
        TensorData::Words(w) => assert_eq!(w, [1.5f32.to_bits(), (-2.25f32).to_bits()]),
        _ => panic!("expected words"),
    }
    assert_eq!(model.tensor_f32_bits(2).err(), Some(CactError::UnsupportedDtype(DTYPE_RAW)));
    assert_eq!(model.tensor_f32_bits(9).err(), Some(CactError::BadBounds));
}

#[test]
fn half_precision_widening_matches_reference_values() {
    for (h, want) in [
        (0x0000u16, 0.0f32),
        (0x8000, -0.0),
        (0x3555, 0.333_251_95),
        (0x7bff, 65504.0),
        (0x0400, 6.103_515_6e-5),
        (0x03ff, 6.097_555e-5),
        (0x8001, -5.960_464_5e-8),
        (0xfc00, f32::NEG_INFINITY),
    ] {
        assert_eq!(half_to_single_bits(h), want.to_bits(), "half {h:#06x}");
    }
    assert!(f32::from_bits(half_to_single_bits(0x7e00)).is_nan());
}

#[test]
fn rejects_short_and_mistagged_files() {
    assert_eq!(CactModel::parse(&[0u8; 19]).err(), Some(CactError::TooShort));
    let mut bytes = sample_model();
    bytes[0] ^= 1;
    let tag = u32::from_le_bytes([bytes[0], bytes[1], bytes[2], bytes[3]]);
    assert_eq!(CactModel::parse(&bytes).err(), Some(CactError::BadTag(tag)));
}

#[test]
fn rejects_every_truncation_of_a_valid_file() {
    let bytes = sample_model();
    for n in 0..bytes.len() {
        assert!(CactModel::parse(&bytes[..n]).is_err(), "prefix of {n} bytes");
    }
    assert_eq!(CactModel::parse(&bytes[..30]).err(), Some(CactError::BadBounds));
}

#[test]
fn rejects_bad_directory_entries() {
    let base = 20 + 16;
    let mut bytes = sample_model();
    bytes[base + 1] = 5;
    assert_eq!(CactModel::parse(&bytes).err(), Some(CactError::BadShape));
    let mut bytes = sample_model();
    bytes[base + 44] = 9;
    assert_eq!(CactModel::parse(&bytes).err(), Some(CactError::UnsupportedDtype(9)));
    let mut bytes = sample_model();
    bytes[base + 44 + 20..base + 44 + 28].copy_from_slice(&u64::MAX.to_le_bytes());
    assert_eq!(CactModel::parse(&bytes).err(), Some(CactError::BadBounds));
    let no_tokenizer = model_file(&[], &[Tensor { dtype: DTYPE_FP32, shape: [1, 0, 0, 0], ndim: 1, payload: vec![0; 4], group_size: 0, bits: 0 }]);
    assert_eq!(CactModel::parse(&no_tokenizer).err(), Some(CactError::MissingTokenizer));
}

#[test]
fn tokenizer_errors_reach_the_model_reader() {
    let bad_utf8 = tokenizer_blob(&[(0.0, NORMAL, &[0xff, 0xfe])], false, false);
    assert_eq!(parse_tokenizer(&bad_utf8).err(), Some(CactError::BadUtf8));
    let file = model_file(&[], &[raw(bad_utf8)]);
    assert_eq!(CactModel::parse(&file).err(), Some(CactError::BadUtf8));
    assert_eq!(parse_tokenizer(&[0u8; 23]).err(), Some(CactError::TooShort));
    let mut truncated = tokenizer_blob(&[(0.0, NORMAL, b"abc")], false, false);
    truncated.pop();
    assert_eq!(parse_tokenizer(&truncated).err(), Some(CactError::BadBounds));
}

#[test]
fn error_messages_name_the_error() {
    assert_eq!(CactError::BadTag(1234).message(), "invalid cact model: BadTag(1234)");
    assert_eq!(CactError::UnsupportedDtype(9).message(), "invalid cact model: UnsupportedDtype(9)");
    assert_eq!(CactError::TooShort.message(), "invalid cact model: TooShort");
    assert_eq!(CactError::BadTag(0).message(), "invalid cact model: BadTag(0)");
}

#[test]
fn directory_end_is_rounded_to_64() {
    let header = ModelHeader { tensor_count: 3, codebook_len: 4, kv_window: 0, kv_bits: 0 };
    assert_eq!(aligned_directory_end(&header), 192);
    let header = ModelHeader { tensor_count: 1, codebook_len: 0, kv_window: 0, kv_bits: 0 };
    assert_eq!(aligned_directory_end(&header), 64);
    let header = ModelHeader { tensor_count: 0, codebook_len: 11, kv_window: 0, kv_bits: 0 };
    assert_eq!(aligned_directory_end(&header), 64);
}

#[test]
fn encodes_by_greedy_best_score_merging() {
    let t = tokenizer();
    assert_eq!(t.encode("hello"), [12]);
    assert!(t.encode("").is_empty());
    assert_eq!(t.encode("hello hello"), [12, 12]);
}

#[test]
fn byte_fallback_and_unknown_symbols() {
    let t = tokenizer();
    assert_eq!(t.encode("A"), [3, 13]);
    let no_fallback = parse_tokenizer(&tokenizer_blob(
        &[(0.0, 2, b"<unk>"), (0.0, NORMAL, b"x")],
        false,
        false,
    ))
    .unwrap();
    assert_eq!(no_fallback.encode("xyx"), [1, 0, 1]);
}

#[test]
fn markers_match_verbatim_longest_first() {
    let t = tokenizer();
    assert_eq!(t.encode("he<tool_call>lo"), [3, 8, 14, 6, 7]);
    assert_eq!(t.encode("<ab>"), [3, 16]);
    assert_eq!(t.encode("<a>"), [3, 15]);
}

#[test]
fn nan_scores_are_never_beaten() {
    let t = parse_tokenizer(&tokenizer_blob(
        &[(0.0, NORMAL, b"a"), (0.0, NORMAL, b"b"), (0.0, NORMAL, b"c"), (f32::NAN, NORMAL, b"ab"), (5.0, NORMAL, b"bc")],
        false,
        false,
    ))
    .unwrap();
    assert_eq!(t.encode("abc"), [3, 2]);
}

#[test]
fn equal_scores_merge_leftmost_pair() {
    let t = parse_tokenizer(&tokenizer_blob(
        &[(0.0, NORMAL, b"a"), (0.0, NORMAL, b"b"), (1.0, NORMAL, b"ab"), (1.0, NORMAL, b"ba")],
        false,
        false,
    ))
    .unwrap();
    assert_eq!(t.encode("aba"), [2, 0]);
}

#[test]
fn decodes_pieces_bytes_and_spaces() {
    let t = tokenizer();
    assert_eq!(t.decode(&[12, 13, 1, 999, 3, 4]), " helloA h");
    assert_eq!(t.decode(&[17]), "\u{fffd}");
    assert_eq!(t.decode(&[0, 2]), "");
    assert_eq!(t.decode(&t.encode("hello he<a>")), " hello he<a>");
}

#[test]
fn encode_termination_and_decodability_checks() {
    let t = tokenizer();
    assert!(t.encode_terminates("anything"));
    assert!(t.can_decode(&[13, 17, 12, 5000]));
    let odd = parse_tokenizer(&tokenizer_blob(&[(0.0, 4, b"ab"), (0.0, 3, b"")], false, false)).unwrap();
    assert!(!odd.can_decode(&[0]));
    assert!(odd.can_decode(&[1]));
    assert!(!odd.encode_terminates("x"));
    assert!(odd.encode_terminates(""));
}

#[test]
fn quantized_tensor_layout_and_codes() {
    // Two rows of four values, groups of four, 2-bit codes: 8 bits per row
    // pair into one byte per row, then one half-precision norm per group.
    let mut payload = vec![0b11_10_01_00u8, 0b00_01_10_11];
    payload.extend_from_slice(&0x3c00u16.to_le_bytes());
    payload.extend_from_slice(&0x4000u16.to_le_bytes());
    let bytes = model_file(
        &[0.5, -0.5, 1.0, -1.0],
        &[
            Tensor { dtype: DTYPE_CQ, shape: [2, 4, 0, 0], ndim: 2, payload, group_size: 4, bits: 2 },
            raw(simple_tokenizer()),
        ],
    );
    let model = CactModel::parse(&bytes).unwrap();
    match model.tensor_f32_bits(0).unwrap() {
        TensorData::Quantized(layout, blob, count) => {
            assert_eq!(count, 8);
            assert_eq!((layout.rows, layout.cols, layout.group, layout.padded), (2, 4, 4, 4));
            assert_eq!((layout.packed_row, layout.norm_offset, layout.codebook_start), (1, 2, 0));
            let codes: Vec<usize> = (0..4).map(|k| layout.code_at(blob, 0, 0, k)).collect();
            assert_eq!(codes, [0, 1, 2, 3]);
            let codes: Vec<usize> = (0..4).map(|k| layout.code_at(blob, 1, 0, k)).collect();
            assert_eq!(codes, [3, 2, 1, 0]);
            assert_eq!(f32::from_bits(layout.norm_bits(blob, 1, 0)), 2.0);
        }
        _ => panic!("expected a quantized tensor"),
    }
}

#[test]
fn ternary_codes_are_remapped_and_short_payloads_rejected() {
    let mut payload = vec![0b11_10_01_00u8];
    payload.extend_from_slice(&0x3c00u16.to_le_bytes());
    let bytes = model_file(
        &[],
        &[
            Tensor { dtype: DTYPE_CQ, shape: [1, 4, 0, 0], ndim: 2, payload: payload.clone(), group_size: 4, bits: 5 },
            Tensor { dtype: DTYPE_CQ, shape: [2, 4, 0, 0], ndim: 2, payload: payload.clone(), group_size: 4, bits: 2 },
            Tensor { dtype: DTYPE_CQ, shape: [1, 4, 0, 0], ndim: 2, payload, group_size: 4, bits: 6 },
            raw(simple_tokenizer()),
        ],
    );
    let model = CactModel::parse(&bytes).unwrap();
    match model.tensor_f32_bits(0).unwrap() {
        TensorData::Quantized(layout, blob, _) => {
            let codes: Vec<usize> = (0..4).map(|k| layout.code_at(blob, 0, 0, k)).collect();
            assert_eq!(codes, [1, 2, 1, 0]);
        }
        _ => panic!("expected a quantized tensor"),
    }
    assert_eq!(model.tensor_f32_bits(1).err(), Some(CactError::BadBounds));
    assert_eq!(model.tensor_f32_bits(2).err(), Some(CactError::BadShape));
}

#[test]
fn a_huge_shape_is_a_bad_shape() {
    let bytes = model_file(
        &[],
        &[
            Tensor { dtype: DTYPE_FP32, shape: [u32::MAX, u32::MAX, u32::MAX, 0], ndim: 4, payload: vec![0; 4], group_size: 0, bits: 0 },
            raw(simple_tokenizer()),
        ],
    );
    let model = CactModel::parse(&bytes).unwrap();
    assert_eq!(model.tensor_f32_bits(0).err(), Some(CactError::BadShape));
}

#[test]
fn greedy_decoder_picks_last_maximum_and_stops_at_end_token() {
    let t = tokenizer();
    let mut decoder = GreedyDecoder::new(&t, "[]", "hello", 3);
    let prompt = decoder.tokens().to_vec();
    assert_eq!(prompt[0], 2);
    assert_eq!(&prompt[1..], &t.encode(&needle2::render_tool_prompt("[]", "hello"))[..]);
    let mut logits = vec![0.0f32.to_bits(); 20];
    logits[12] = 1.0f32.to_bits();
    logits[15] = 1.0f32.to_bits();
    assert_eq!(decoder.step(&logits), 15);
    logits[15] = 0.0f32.to_bits();
    assert_eq!(decoder.step(&logits), 12);
    assert_eq!(decoder.generated(), [15, 12]);
    assert_eq!(decoder.tokens(), [&prompt[..], &[15, 12]].concat());
    assert!(!decoder.is_done());
    logits[1] = 2.0f32.to_bits();
    assert_eq!(decoder.step(&logits), 1);
    assert!(decoder.is_done());
    assert_eq!(decoder.generated(), [15, 12]);
    assert_eq!(decoder.output(&t), "<a> hello");
}

#[test]
fn greedy_decoder_respects_the_token_budget() {
    let t = tokenizer();
    let mut decoder = GreedyDecoder::new(&t, "[]", "q", 1);
    assert!(!decoder.is_done());
    let mut logits = vec![0.0f32.to_bits(); 8];
    logits[4] = 3.0f32.to_bits();
    assert_eq!(decoder.step(&logits), 4);
    assert!(decoder.is_done());
    assert_eq!(decoder.output(&t), "h");
    let idle = GreedyDecoder::new(&t, "[]", "q", 0);
    assert!(idle.is_done());
    assert_eq!(idle.output(&t), "");
}

#[test]
fn decoding_an_encoding_gives_the_text_back() {
    let t = tokenizer();
    for text in ["hello", "hello hello", "he<tool_call>lo", "<ab><a>hello", "hello  <a> ll"] {
        let ids = t.encode(text);
        assert!(t.can_decode(&ids));
        assert_eq!(t.decode(&ids), format!(" {text}"));
    }
    assert_eq!(t.decode(&t.encode("")), "");
    let plain = parse_tokenizer(&tokenizer_blob(
        &[(0.0, NORMAL, b"a"), (0.0, NORMAL, b"b"), (1.0, NORMAL, b"ab"), (0.0, NORMAL, "\u{2581}".as_bytes())],
        false,
        false,
    ))
    .unwrap();
    assert_eq!(plain.encode("ab ba"), [2, 3, 1, 0]);
    assert_eq!(plain.decode(&plain.encode("ab ba")), "ab ba");
}

fn one_hot_logits(tokens: &[u32]) -> Vec<u32> {
    let sum: u64 = tokens.iter().map(|&t| t as u64).sum();
    let pick = if tokens.len() % 6 == 5 { 1 } else { (sum % 17 + 2) as usize };
    let mut logits = vec![0.0f32.to_bits(); 20];
    logits[pick] = 1.0f32.to_bits();
    logits
}

fn run_greedy(t: &Tokenizer, budget: usize) -> Vec<u32> {
    let mut decoder = GreedyDecoder::new(t, "[]", "hello", budget);
    while !decoder.is_done() {
        let logits = one_hot_logits(decoder.tokens());
        decoder.step(&logits);
    }
    decoder.generated().to_vec()
}

#[test]
fn a_larger_budget_extends_what_greedy_decoding_generates() {
    let t = tokenizer();
    let runs: Vec<Vec<u32>> = (0..12).map(|n| run_greedy(&t, n)).collect();
    for n in 0..runs.len() {
        assert!(runs[n].len() <= n);
        assert!(!runs[n].contains(&1));
        for m in n..runs.len() {
            assert_eq!(&runs[m][..runs[n].len()], &runs[n][..]);
            if runs[n].len() < n {
                assert_eq!(runs[m], runs[n]);
            }
        }
    }
    assert!(runs[11].len() < 11);
}
