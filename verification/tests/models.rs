use fossil::models::{bwt, bwtm, delta, generator, huffman, huffman_lossless, lz, lzh, lzr, mtf, ppm, range, rle, signal, transpose, word};
use fossil::biglz;
use fossil::varint;

fn text_sample() -> Vec<u8> {
    let mut v = Vec::new();
    for i in 0..40 {
        v.extend_from_slice(b"the quick brown fox jumps over the lazy dog ");
        v.extend_from_slice(format!("line {} ", i % 7).as_bytes());
    }
    v
}

fn ramp_sample() -> Vec<u8> {
    let mut v = vec![7u8; 300];
    for i in 0..200u32 {
        v.push((i * 3) as u8);
    }
    v.extend(std::iter::repeat(0u8).take(100));
    v
}

#[test]
fn varint_round_trips_and_uses_seven_bits_per_byte() {
    for &v in &[0usize, 1, 127, 128, 300, 16384, 1 << 40, usize::MAX] {
        let mut out = Vec::new();
        varint::write(&mut out, v);
        let mut pos = 0usize;
        assert_eq!(varint::read(&out, &mut pos), v);
        assert_eq!(pos, out.len());
    }
    let mut out = Vec::new();
    varint::write(&mut out, 300);
    assert_eq!(out, vec![0xAC, 0x02]);
}

#[test]
fn rle_round_trips() {
    let data = ramp_sample();
    assert_eq!(rle::decode(&rle::encode(&data)), data);
    assert_eq!(rle::encode(&[5, 5, 5]), vec![3, 0, 0, 0, 5]);
}

#[test]
fn mtf_inverse_undoes_forward() {
    let data = text_sample();
    assert_eq!(mtf::inverse(&mtf::forward(&data)), data);
    assert_eq!(mtf::forward(&[1, 1, 0]), vec![1, 0, 1]);
}

#[test]
fn bwt_inverse_undoes_forward() {
    let data = b"banana".to_vec();
    let (last, primary) = bwt::forward(&data);
    assert_eq!(bwt::inverse(&last, primary), data);
    let data = text_sample();
    let (last, primary) = bwt::forward(&data);
    assert_eq!(bwt::inverse(&last, primary), data);
}

#[test]
fn huffman_round_trips() {
    let data = text_sample();
    let enc = huffman::encode(&data);
    assert!(enc.len() < data.len());
    assert_eq!(huffman::decode(&enc, data.len()), data);
}

#[test]
fn range_round_trips() {
    let data = text_sample();
    assert_eq!(range::decode(&range::encode(&data), data.len()), data);
    let empty: Vec<u8> = Vec::new();
    assert_eq!(range::decode(&range::encode(&empty), 0), empty);
}

#[test]
fn ppm_round_trips() {
    let data = text_sample();
    assert_eq!(ppm::decode(&ppm::encode(&data), data.len()), data);
}

#[test]
fn delta_round_trips() {
    let data = ramp_sample();
    assert_eq!(delta::decode(&delta::encode(&data), data.len()), data);
}

#[test]
fn lz_round_trips_with_and_without_history() {
    let data = text_sample();
    let enc = biglz::encode(&data);
    assert!(enc.len() < data.len());
    assert_eq!(lz::decode(&enc, data.len()), data);
    assert_eq!(biglz::decode(&enc, data.len()), data);
    let (history, block) = data.split_at(1000);
    let enc2 = biglz::encode_from(&data, 1000);
    assert_eq!(lz::decode_windowed(&enc2, block.len(), history), block.to_vec());
}

#[test]
fn lzh_round_trips() {
    let data = text_sample();
    let enc = lzh::encode(&data);
    assert_eq!(lzh::decode(&enc, data.len()), data);
}

#[test]
fn lzr_round_trips() {
    let data = text_sample();
    let enc = lzr::encode(&data);
    assert_eq!(lzr::decode(&enc, data.len()), data);
}

#[test]
fn bwtm_round_trips() {
    let data = text_sample();
    assert_eq!(bwtm::decode(&bwtm::encode(&data), data.len()), data);
    assert_eq!(bwtm::decode2(&bwtm::encode2(&data), data.len()), data);
}

#[test]
fn generator_round_trips_and_describes() {
    let data = ramp_sample();
    let enc = generator::encode(&data);
    assert!(enc.len() < 20);
    assert_eq!(generator::decode(&enc), data);
    let lines = generator::describe(&enc);
    assert!(!lines.is_empty());
}

#[test]
fn transpose_round_trips_a_table() {
    let data = b"id,name,score\n1,ann,90\n2,bob,85\n3,cy,77\n".to_vec();
    assert_eq!(transpose::decode(&transpose::encode(&data), data.len()), data);
}

#[test]
fn word_round_trips_text() {
    let data = text_sample();
    assert_eq!(word::decode(&word::encode(&data), data.len()), data);
}

#[test]
fn signal_stored_form_gives_the_bytes_back() {
    assert_eq!(signal::decode(&[0xFE, 1, 2, 3], 3), vec![1, 2, 3]);
    let empty: Vec<u8> = Vec::new();
    assert_eq!(signal::decode(&[], 0), empty);
}

#[test]
fn signal_zigzag_decoding() {
    assert_eq!(signal::unzig(0), 0);
    assert_eq!(signal::unzig(1), -1);
    assert_eq!(signal::unzig(2), 1);
    assert_eq!(signal::unzig(3), -2);
    assert_eq!(signal::fixed_coefs(2), vec![2, -1]);
    assert_eq!(signal::fixed_coefs(4), vec![4, -6, 4, -1]);
    assert_eq!(signal::fixed_coefs(5), Vec::<i64>::new());
}

#[test]
fn signal_zigzag_encoding_interleaves_signs() {
    assert_eq!(signal::zigzag(0), 0);
    assert_eq!(signal::zigzag(-1), 1);
    assert_eq!(signal::zigzag(1), 2);
    assert_eq!(signal::zigzag(-2), 3);
    for x in [-300i64, -1, 0, 7, 123456] {
        assert_eq!(signal::unzig(signal::zigzag(x)), x);
    }
}

#[test]
fn signal_bit_writers_pack_most_significant_first() {
    let mut w = fossil::bits::BitWriter::new();
    signal::put(&mut w, 0b101, 3);
    signal::put(&mut w, 1, 5);
    assert_eq!(w.finish(), vec![0xA1]);

    let mut w = fossil::bits::BitWriter::new();
    signal::rice_put(&mut w, 5, 1);
    assert_eq!(w.finish(), vec![0xD0]);

    let mut w = fossil::bits::BitWriter::new();
    signal::put_signed(&mut w, -1, 4);
    assert_eq!(w.finish(), vec![0xF0]);
}

#[test]
fn signal_rice_parameter_and_partitions() {
    assert_eq!(signal::best_k(&[0, 0, 0, 0]), (0, 4));
    assert_eq!(signal::best_k(&[10, -10, 10, -10]), (3, 24));
    assert_eq!(signal::partition_p(&[0, 0, 0, 0]), 0);
}

#[test]
fn signal_residuals_are_restored() {
    let x = vec![1, 2, 3, 5, 8];
    let q = vec![2i64, -1];
    let res = signal::residual(&x, &q, 0);
    assert_eq!(res, vec![0, 1, 1]);
    assert_eq!(signal::restore(&vec![1, 2], &res, &q, 0, 5), x);
}

#[test]
fn signal_channels_split_mid_and_side() {
    let bytes = [0x01, 0x00, 0x03, 0x00, 0x05, 0x00, 0xFF, 0xFF];
    let cfg = signal::config_at(4);
    let ch = signal::channels(&bytes, &cfg);
    assert_eq!(ch, vec![vec![2, 2], vec![-2, 6]]);
    let plain = signal::channels(&bytes, &signal::config_at(3));
    assert_eq!(plain, vec![vec![1, 5], vec![3, -1]]);
}

fn no_lpc() -> Vec<Vec<Vec<(u32, Vec<i64>)>>> {
    (0..signal::N_CONFIGS)
        .map(|ci| vec![Vec::new(); signal::config_at(ci).channels as usize])
        .collect()
}

#[test]
fn signal_encoder_round_trips_through_the_decoder() {
    let mut bytes = Vec::new();
    for i in 0..200u32 {
        let v = ((i * 37) % 256) as i16 * 40 - 5000;
        bytes.extend_from_slice(&v.to_le_bytes());
    }
    bytes.push(9);
    let coded = signal::encode(&bytes, &no_lpc());
    assert!(coded[0] < signal::N_CONFIGS);
    assert_eq!(signal::decode(&coded, bytes.len()), bytes);

    let lpc = vec![(1u32, vec![2i64, -1])];
    let mut lpcs = no_lpc();
    lpcs[1] = vec![lpc];
    let coded = signal::encode(&bytes, &lpcs);
    assert_eq!(signal::decode(&coded, bytes.len()), bytes);
}

#[test]
fn signal_encoder_stores_what_fits_no_layout() {
    assert_eq!(signal::encode(&[7], &no_lpc()), vec![0xFE, 7]);
}

#[test]
fn lz_longest_match_and_parse_counts() {
    assert_eq!(lz::longest_match(b"abcabcabc", 3), (3, 6));
    assert_eq!(lz::longest_match(b"aaaa", 1), (1, 3));
    assert_eq!(lz::longest_match(b"abcd", 2), (0, 0));
    assert_eq!(lz::stats(b"abcabcabc"), (3, 1, 6));
    assert_eq!(lz::stats(b""), (0, 0, 0));
}

#[test]
fn lz_parse_of_repeats_is_fixed() {
    assert_eq!(biglz::encode(b"aaaaaaaa"), vec![0x02, 0x61, 0x01, 0x04]);
    assert_eq!(lz::encode(b"abcabcabc"), vec![0x08, 0x61, 0x62, 0x63, 0x03, 0x03]);
}

#[test]
fn lz_parse_without_chain_steps_is_all_literals() {
    let data = b"abcabcabcabc";
    let toks = biglz::tokens_chain(data, 2, 0);
    assert_eq!(toks.len(), data.len() - 2);
    for (k, t) in toks.iter().enumerate() {
        match t {
            biglz::Token::Lit(b) => assert_eq!(*b, data[k + 2]),
            _ => panic!("a match without chain steps"),
        }
    }
}

#[test]
fn bwt_of_banana() {
    assert_eq!(bwt::forward(b"banana"), (b"nnbaaa".to_vec(), 3));
}

#[test]
fn bwt_of_periodic_input_keeps_equal_rotations_in_order() {
    assert_eq!(bwt::forward(b"abab"), (b"bbaa".to_vec(), 0));
    assert_eq!(bwt::inverse(&b"bbaa".to_vec(), 0), b"abab".to_vec());
    assert_eq!(bwt::forward(b"zzz"), (b"zzz".to_vec(), 0));
    assert_eq!(bwt::forward(b""), (Vec::new(), 0));
}

#[test]
fn mtf_forward_undoes_inverse() {
    let codes = vec![3u8, 0, 0, 255, 1, 7, 7, 0];
    assert_eq!(mtf::forward(&mtf::inverse(&codes)), codes);
    assert_eq!(mtf::inverse(&[1, 0, 1]), vec![1, 1, 0]);
}

#[test]
fn range_round_trips_on_edge_inputs() {
    let one = vec![200u8];
    assert_eq!(range::decode(&range::encode(&one), 1), one);
    let zeros = vec![0u8; 5000];
    assert_eq!(range::decode(&range::encode(&zeros), zeros.len()), zeros);
    let all: Vec<u8> = (0..=255u8).collect();
    assert_eq!(range::decode(&range::encode(&all), all.len()), all);
}

#[test]
fn ppm_and_word_round_trip_on_repetitive_text() {
    let text = b"the cat and the hat, the bat; 123 the cat!\n".repeat(20);
    assert_eq!(ppm::decode(&ppm::encode(&text), text.len()), text);
    assert_eq!(word::decode(&word::encode(&text), text.len()), text);
    let empty: Vec<u8> = Vec::new();
    assert_eq!(word::decode(&word::encode(&empty), 0), empty);
}

#[test]
fn bit_writer_pads_to_whole_bytes() {
    let mut w = fossil::bits::BitWriter::new();
    w.write_bit(1);
    w.write_bit(0);
    w.write_bit(1);
    assert_eq!(w.finish(), vec![0xA0]);
    let mut w = fossil::bits::BitWriter::new();
    for _ in 0..9 {
        w.write_bit(1);
    }
    assert_eq!(w.finish(), vec![0xFF, 0x80]);
}

#[test]
fn huffman_lengths_fill_no_more_than_the_code_space() {
    let data = text_sample();
    let lengths = huffman::code_lengths(&data);
    let mut kraft: u64 = 0;
    for &l in lengths.iter() {
        if l > 0 {
            assert!(l <= 32);
            kraft += 1u64 << (32 - l as u64);
        }
    }
    assert!(kraft <= 1u64 << 32);
    let codes = huffman::canonical_codes(&lengths);
    for a in 0..256 {
        for b in 0..256 {
            if a != b && lengths[a] > 0 && lengths[a] <= lengths[b] {
                let d = (lengths[b] - lengths[a]) as u32;
                assert_ne!(codes[b] >> d, codes[a]);
            }
        }
    }
}

#[test]
fn huffman_codes_fit_real_blocks() {
    let data = text_sample();
    assert!(huffman_lossless::fits(&data));
    assert!(huffman_lossless::fits(b"aaaaaaaab"));
    assert!(huffman_lossless::fits(b""));
    let enc = huffman::encode(&data);
    assert_eq!(huffman::decode(&enc, data.len()), data);
}

#[test]
fn lzh_round_trips_text() {
    let data = text_sample();
    let enc = lzh::encode(&data);
    assert!(enc.len() < data.len());
    assert_eq!(lzh::decode(&enc, data.len()), data);
}

#[test]
fn transpose_keeps_a_table_without_final_newline() {
    let data = b"a,b\nc,d".to_vec();
    let enc = transpose::encode(&data);
    assert_eq!(enc[0], 1);
    assert_eq!(transpose::decode(&enc, data.len()), data);
}

#[test]
fn transpose_keeps_empty_fields() {
    let data = b",x,\n,,\ny,,z\n".to_vec();
    let enc = transpose::encode(&data);
    assert_eq!(enc[0], 1);
    assert_eq!(transpose::decode(&enc, data.len()), data);
}

#[test]
fn transpose_stores_ragged_rows() {
    let data = b"a,b\nc\n".to_vec();
    let enc = transpose::encode(&data);
    assert_eq!(enc[0], 0);
    assert_eq!(&enc[1..], &data[..]);
    assert_eq!(transpose::decode(&enc, data.len()), data);
}

#[test]
fn generator_describes_each_segment() {
    let mut data = vec![1u8, 2];
    data.extend(std::iter::repeat(7u8).take(50));
    data.extend_from_slice(&[10, 8, 6, 4, 2]);
    let enc = generator::encode(&data);
    assert_eq!(generator::decode(&enc), data);
    let lines = generator::describe(&enc);
    assert_eq!(lines, vec![
        "literal      × 2".to_string(),
        "const 0x07   × 50".to_string(),
        "ramp 0x0A -2 × 5".to_string(),
    ]);
}

#[test]
fn bwt_inverse_undoes_periodic_inputs() {
    for data in [b"abab".to_vec(), b"aaaa".to_vec(), b"banana".to_vec(), b"x".to_vec(), Vec::new()] {
        let (last, primary) = bwt::forward(&data);
        assert_eq!(bwt::inverse(&last, primary), data);
    }
    let (last, primary) = bwt::forward(b"abab");
    assert_eq!(last, b"bbaa".to_vec());
    assert_eq!(primary, 0);
}

#[test]
fn bwtm_round_trips_repetitive_text() {
    let data = text_sample();
    assert_eq!(bwtm::decode(&bwtm::encode(&data), data.len()), data);
    assert_eq!(bwtm::decode2(&bwtm::encode2(&data), data.len()), data);
}

#[test]
fn lzr2_round_trips_with_history() {
    let full = text_sample();
    let h = 300;
    let toks = biglz::tokens(&full, h);
    let enc = lzr::encode_tokens2(&full, h, &toks);
    assert_eq!(lzr::decode_windowed2(&enc, full.len() - h, &full[..h]), full[h..].to_vec());
    let toks0 = biglz::tokens(&full, 0);
    let enc0 = lzr::encode_tokens2(&full, 0, &toks0);
    assert_eq!(lzr::decode_windowed2(&enc0, full.len(), &[]), full);
}

#[test]
fn lzh_and_lzr_round_trip_short_and_empty_inputs() {
    for data in [Vec::new(), b"a".to_vec(), b"abcabcabcabcabc".to_vec()] {
        assert_eq!(lzh::decode(&lzh::encode(&data), data.len()), data);
        assert_eq!(lzr::decode(&lzr::encode(&data), data.len()), data);
    }
}

#[test]
fn bwt_primary_row_is_inside_the_column() {
    for data in [b"abab".to_vec(), b"zyx".to_vec(), b"q".to_vec()] {
        let (last, primary) = bwt::forward(&data);
        assert!(primary < last.len());
    }
}

#[test]
fn generator_descriptions_write_long_counts_hex_letters_and_plus_signs() {
    let mut data = Vec::new();
    for i in 0..300u32 {
        data.push(((i * 7919) % 251) as u8 ^ 0x5a);
    }
    data.extend(std::iter::repeat(0xABu8).take(1234));
    for k in 0..40u8 {
        data.push(0xF0u8.wrapping_add(k.wrapping_mul(3)));
    }
    let enc = generator::encode(&data);
    assert_eq!(generator::decode(&enc), data);
    let lines = generator::describe(&enc);
    assert!(lines.contains(&"const 0xAB   × 1234".to_string()));
    assert!(lines.iter().any(|l| l.starts_with("ramp 0xF0 +3 × ")));
    assert!(lines.iter().any(|l| l.starts_with("literal      × ")));
}
