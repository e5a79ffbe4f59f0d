use std::collections::BTreeMap;

use fossil::block::{encode_block_seg, SEGMENT_BLOCKS, SIGNAL};
use fossil::container::{block_lengths, segment_size, assemble, block_source, decode_range, read, read_lazy, BlockRef, FormatError, BLOCK_SIZE, FILTER_NONE, FILTER_PNG};
use fossil::bundle;
use fossil::crc::crc32;

/// Packs the way the command line does, without threads or the signal
/// model.
fn pack(bytes: &[u8], ext: &str) -> Vec<u8> {
    let filtered = block_source(bytes, ext);
    let src: &[u8] = filtered.as_deref().unwrap_or(bytes);
    let seg = if ext == "/" { SEGMENT_BLOCKS * BLOCK_SIZE } else { 0 };
    let mut encoded = Vec::new();
    let mut lens = Vec::new();
    let mut start = 0;
    while start < src.len() {
        let end = (start + BLOCK_SIZE).min(src.len());
        encoded.push(encode_block_seg(src, start, end, seg, true));
        lens.push(end - start);
        start = end;
    }
    assemble(bytes, ext, filtered.is_some(), &lens, &encoded)
}

fn sample() -> Vec<u8> {
    let mut v = Vec::new();
    for i in 0..1200 {
        v.extend_from_slice(format!("entry {} -> {}\n", i, i * i).as_bytes());
    }
    v
}

#[test]
fn packed_file_reads_back_and_decodes() {
    let data = sample();
    let packed = pack(&data, "txt");
    assert!(packed.len() < data.len());
    assert_eq!(&packed[0..4], b"FOSL");
    let c = read(&packed).unwrap();
    assert_eq!(c.ext, "txt");
    assert_eq!(c.orig_size, data.len());
    assert_eq!(c.crc, crc32(&data));
    assert_eq!(c.filter, FILTER_NONE);
    assert_eq!(c.decode(), data);
}

#[test]
fn tiny_input_is_stored_and_never_grows_past_the_header() {
    let data = b"hi".to_vec();
    let packed = pack(&data, "");
    assert_eq!(packed[5], 1);
    let c = read(&packed).unwrap();
    assert_eq!(c.blocks.len(), 1);
    assert_eq!(c.decode(), data);
    let empty: Vec<u8> = Vec::new();
    let packed = pack(&empty, "bin");
    assert_eq!(read(&packed).unwrap().decode(), empty);
}

#[test]
fn directory_bundle_packs_without_metadata() {
    let files = vec![("a.txt".to_string(), sample()), ("b/c.txt".to_string(), b"hello".to_vec())];
    let payload = bundle::pack(&files);
    let packed = pack(&payload, "/");
    assert_eq!(packed[4], 1);
    let c = read(&packed).unwrap();
    assert_eq!(c.ext, "/");
    assert!(c.meta.is_empty());
    let back = bundle::unpack(&c.decode());
    assert_eq!(back, files);
}

#[test]
fn header_layout_is_version_one() {
    let empty: Vec<u8> = Vec::new();
    let packed = pack(&empty, "bin");
    let mut want = b"FOSL".to_vec();
    want.extend_from_slice(&[1, 1, 0, 3]);
    want.extend_from_slice(b"bin");
    want.push(0);
    want.extend_from_slice(&crc32(&empty).to_le_bytes());
    assert_eq!(packed, want);
    assert_eq!(packed.len(), 12 + 3 + 1);
}

#[test]
fn each_block_carries_its_original_length() {
    let encoded = vec![(7u8, vec![9u8, 9]), (0u8, vec![1u8])];
    let lens = vec![300usize, 1];
    let orig = vec![5u8; 301];
    let out = assemble(&orig, "", false, &lens, &encoded);
    let mut want = b"FOSL".to_vec();
    want.extend_from_slice(&[1, 0, 0, 0]);
    want.extend_from_slice(&[0xAD, 0x02]);
    want.extend_from_slice(&crc32(&orig).to_le_bytes());
    want.push(2);
    want.extend_from_slice(&[7, 0xAC, 0x02, 2, 9, 9]);
    want.extend_from_slice(&[0, 1, 1, 1]);
    assert_eq!(out, want);
    let c = read(&out).unwrap();
    assert_eq!(c.blocks[0].orig_len, 300);
    assert_eq!(c.blocks[1].orig_len, 1);
}

#[test]
fn raw_image_is_filtered_and_restored() {
    let mut img = b"P6\n16 8\n255\n".to_vec();
    for y in 0..8u32 {
        for x in 0..16u32 {
            img.extend_from_slice(&[(x * 10) as u8, (y * 20) as u8, ((x + y) * 5) as u8]);
        }
    }
    let packed = pack(&img, "ppm");
    let c = read(&packed).unwrap();
    if c.blocks.len() > 1 || packed[5] == 0 {
        assert_eq!(c.filter, FILTER_PNG);
    }
    assert_eq!(c.decode(), img);
}

#[test]
fn read_rejects_bad_input() {
    assert_eq!(read(b"FOS").err(), Some(FormatError::Truncated));
    assert_eq!(read(b"ABCD\x02\x00\x00\x00").err(), Some(FormatError::BadMagic));
    assert_eq!(read(b"FOSL\x09\x00\x00\x00").err(), Some(FormatError::UnsupportedVersion(9)));
    let mut bad_mode = b"FOSL\x02\x07\x00\x00".to_vec();
    bad_mode.extend_from_slice(&[0, 0, 0, 0, 0, 0]);
    assert_eq!(read(&bad_mode).err(), Some(FormatError::UnknownMode(7)));
}

#[test]
fn read_range_matches_the_whole_decode() {
    let data = sample();
    let packed = pack(&data, "txt");
    let mut lazy = read_lazy(&packed).unwrap();
    assert_eq!(lazy.orig_size, data.len());
    let got = lazy.read_range(5000, 3000).unwrap();
    assert_eq!(got, data[5000..8000].to_vec());
    let again = lazy.read_range(100, 10).unwrap();
    assert_eq!(again, data[100..110].to_vec());
    assert_eq!(lazy.read_range(data.len() - 1, 2).err(), Some(FormatError::RangeBeyond));
    assert!(lazy.read_range(0, 0).unwrap().is_empty());
    let parts = lazy.into_parts();
    assert_eq!(parts.ext, "txt");
    assert_eq!(parts.seg_blocks, 0);
}

#[test]
fn decode_range_reports_overflow_and_missing_blocks() {
    let blocks: Vec<BlockRef> = Vec::new();
    let mut cache: BTreeMap<usize, Vec<u8>> = BTreeMap::new();
    assert_eq!(decode_range(&[], &blocks, 0, &mut cache, usize::MAX, 2).err(), Some(FormatError::RangeOverflow));
    assert_eq!(decode_range(&[], &blocks, 0, &mut cache, 0, 1).err(), Some(FormatError::RangeBeyond));
    assert!(cache.is_empty());
}

#[test]
fn signal_model_number_is_stable() {
    assert_eq!(SIGNAL, 13);
}

#[test]
fn one_block_decodes_with_what_came_before() {
    let data = sample();
    let packed = pack(&data, "txt");
    let c = read(&packed).unwrap();
    assert!(c.blocks.len() > 2);
    for n in 0..c.blocks.len() {
        let start = n * BLOCK_SIZE;
        let end = (start + BLOCK_SIZE).min(data.len());
        assert_eq!(c.decode_block_at(n), data[start..end].to_vec());
    }
}

#[test]
fn checksum_matches_only_the_original() {
    let data = b"checksummed contents, checksummed contents".to_vec();
    let file = pack(&data, "txt");
    let c = read(&file).unwrap();
    let out = c.decode();
    assert_eq!(out, data);
    assert!(c.checksum_matches(&out));
    let mut bad = out.clone();
    bad[0] ^= 1;
    assert!(!c.checksum_matches(&bad));
}

#[test]
fn block_lengths_cut_at_block_size() {
    assert_eq!(block_lengths(0), Vec::<usize>::new());
    assert_eq!(block_lengths(1), vec![1]);
    assert_eq!(block_lengths(BLOCK_SIZE), vec![BLOCK_SIZE]);
    assert_eq!(block_lengths(2 * BLOCK_SIZE + 5), vec![BLOCK_SIZE, BLOCK_SIZE, 5]);
    assert_eq!(segment_size("/"), SEGMENT_BLOCKS * BLOCK_SIZE);
    assert_eq!(segment_size("txt"), 0);
    assert_eq!(segment_size(""), 0);
}

#[test]
fn read_range_gives_the_same_bytes_again_and_reads_directory_segments() {
    let data = sample();
    let packed = pack(&data, "txt");
    let mut lazy = read_lazy(&packed).unwrap();
    let first = lazy.read_range(4090, 20).unwrap();
    let second = lazy.read_range(4090, 20).unwrap();
    assert_eq!(first, data[4090..4110].to_vec());
    assert_eq!(first, second);
    let end = lazy.read_range(data.len() - 5, 5).unwrap();
    assert_eq!(end, data[data.len() - 5..].to_vec());

    let mut big = Vec::new();
    while big.len() < 70 * BLOCK_SIZE {
        big.extend_from_slice(format!("line {} of the bundle\n", big.len() % 977).as_bytes());
    }
    let packed_dir = pack(&big, "/");
    let mut lazy_dir = read_lazy(&packed_dir).unwrap();
    let off = 65 * BLOCK_SIZE + 7;
    assert_eq!(lazy_dir.read_range(off, 300).unwrap(), big[off..off + 300].to_vec());
    assert_eq!(lazy_dir.read_range(off, 300).unwrap(), big[off..off + 300].to_vec());
    assert_eq!(lazy_dir.read_range(10, 5000).unwrap(), big[10..5010].to_vec());
}
