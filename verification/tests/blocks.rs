use fossil::block::{self, decode_block, encode_block, encode_block_seg, model_name, offer_signal, wants_signal};
use fossil::models::signal;
use fossil::models::{bwtm, delta, generator, huffman, ppm, range, rle, transpose, word};

fn mixed_sample() -> Vec<u8> {
    let mut v = Vec::new();
    for i in 0..150 {
        v.extend_from_slice(format!("record {:04} value={}\n", i, (i * 37) % 101).as_bytes());
    }
    v
}

#[test]
fn each_block_decodes_to_itself() {
    let data = mixed_sample();
    let mut start = 0;
    let mut done: Vec<u8> = Vec::new();
    while start < data.len() {
        let end = (start + 4096).min(data.len());
        let (model, payload) = encode_block(&data, start, end, false);
        assert!(payload.len() <= end - start);
        let out = decode_block(model, &payload, end - start, &done);
        assert_eq!(out, data[start..end].to_vec(), "model {}", model_name(model));
        done.extend_from_slice(&out);
        start = end;
    }
}

#[test]
fn constant_block_is_tiny() {
    let data = vec![0u8; 4096];
    let (model, payload) = encode_block(&data, 0, 4096, true);
    assert!(payload.len() < 16, "model {} gave {}", model_name(model), payload.len());
    assert_eq!(decode_block(model, &payload, 4096, &[]), data);
}

#[test]
fn random_block_stays_raw_sized() {
    let mut x: u32 = 12345;
    let data: Vec<u8> = (0..4096)
        .map(|_| {
            x = x.wrapping_mul(1103515245).wrapping_add(12345);
            (x >> 16) as u8
        })
        .collect();
    let (model, payload) = encode_block(&data, 0, 4096, true);
    assert!(payload.len() <= 4096);
    assert_eq!(decode_block(model, &payload, 4096, &[]), data);
}

#[test]
fn segments_limit_the_window() {
    let mut data = Vec::new();
    let mut unit = mixed_sample();
    unit.extend_from_slice(&mixed_sample());
    for _ in 0..3 {
        data.extend_from_slice(&unit[..4096]);
    }
    let (model, payload) = encode_block_seg(&data, 8192, 12288, 8192, true);
    let out = decode_block(model, &payload, 4096, &data[8192..8192]);
    assert_eq!(out, data[8192..12288].to_vec());
}

#[test]
fn unknown_models_give_the_payload() {
    assert_eq!(decode_block(200, &[1, 2, 3], 3, &[]), vec![1, 2, 3]);
    assert_eq!(decode_block(block::RAW, &[9, 8], 2, &[]), vec![9, 8]);
}

#[test]
fn model_names() {
    assert_eq!(model_name(block::RAW), "RAW");
    assert_eq!(model_name(block::LZ), "LZ");
    assert_eq!(model_name(block::GEN), "GEN");
}

#[test]
fn signal_is_tried_only_on_poorly_compressed_blocks() {
    assert!(wants_signal(false, 4000, 4096));
    assert!(!wants_signal(false, 100, 4096));
    assert!(!wants_signal(true, 4000, 4096));
}

fn no_predictors(len: usize) -> Vec<Vec<Vec<(u32, Vec<i64>)>>> {
    let mut lpcs = Vec::new();
    for ci in 0..signal::N_CONFIGS {
        let cfg = signal::config_at(ci);
        let _ = len;
        lpcs.push(vec![Vec::new(); cfg.channels as usize]);
    }
    lpcs
}

#[test]
fn signal_payload_replaces_a_larger_choice_and_decodes_back() {
    // A slow ramp of 16-bit samples: the fixed predictors code it tightly.
    let mut data = Vec::new();
    for i in 0..1000u32 {
        let s = (i * 3) as u16;
        data.extend_from_slice(&s.to_le_bytes());
    }
    let lpcs = no_predictors(data.len());
    assert!(signal::lpc_sets_fit(&lpcs));
    let raw = (block::RAW, data.clone());
    let r = offer_signal(&data, 0, data.len(), raw, &lpcs);
    assert_eq!(r.0, block::SIGNAL);
    assert!(r.1.len() < data.len());
    assert_eq!(decode_block(r.0, &r.1, data.len(), &[]), data);
    let tiny = (block::RLE, vec![1u8]);
    let kept = offer_signal(&data, 0, data.len(), tiny.clone(), &lpcs);
    assert_eq!(kept, tiny);
    assert!(!signal::lpc_sets_fit(&Vec::new()));
}

#[test]
fn chosen_payload_is_no_longer_than_any_model_alone() {
    let data = mixed_sample();
    let end = data.len().min(4096);
    let b = &data[0..end];
    let (_, payload) = encode_block(&data, 0, end, false);
    let n = payload.len();
    assert!(n <= b.len());
    assert!(n <= rle::encode(b).len());
    assert!(n <= range::encode(b).len());
    assert!(n <= huffman::encode(b).len());
    assert!(n <= generator::encode(b).len());
    assert!(n <= delta::encode(b).len());
    assert!(n <= transpose::encode(b).len());
    assert!(n <= word::encode(b).len());
    assert!(n <= bwtm::encode2(b).len());
    assert!(n <= ppm::encode(b).len());
}
