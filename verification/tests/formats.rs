use fossil::bundle;
use fossil::dir::{self, ManifestError};
use fossil::entropy::{histogram, ubytes};
use fossil::image::{detect, filter, unfilter};
use fossil::lossy::{compressed_format, ppm_header_len, quantize, quantize_content, raw_image_format};

fn files() -> Vec<(String, Vec<u8>)> {
    vec![
        ("a.txt".to_string(), b"alpha".to_vec()),
        ("sub/b.bin".to_string(), vec![0, 1, 2, 3]),
        ("empty".to_string(), Vec::new()),
        ("ünï.txt".to_string(), b"unicode name".to_vec()),
    ]
}

#[test]
fn bundle_unpacks_what_it_packed() {
    let f = files();
    assert_eq!(bundle::unpack(&bundle::pack(&f)), f);
    let none: Vec<(String, Vec<u8>)> = Vec::new();
    assert_eq!(bundle::unpack(&bundle::pack(&none)), none);
}

#[test]
fn manifest_reads_back_paths_offsets_and_crcs() {
    let f = files();
    let (meta, payload) = dir::pack(&f);
    let entries = dir::read(&meta).unwrap();
    assert_eq!(entries.len(), f.len());
    for (e, (path, bytes)) in entries.iter().zip(f.iter()) {
        assert_eq!(&e.path, path);
        assert_eq!(e.len, bytes.len());
        assert_eq!(&payload[e.offset..e.offset + e.len], &bytes[..]);
        assert_eq!(e.crc, Some(fossil::crc::crc32(bytes)));
    }
}

#[test]
fn manifest_errors() {
    assert_eq!(dir::read(b"XX").err(), Some(ManifestError::Missing));
    assert_eq!(dir::read(b"FDR2\x01\x05ab").err(), Some(ManifestError::Truncated));
    assert_eq!(ManifestError::Missing.message(), "missing directory manifest");
    assert_eq!(ManifestError::Truncated.message(), "truncated directory manifest");
    let old = b"FDIR\x01\x01a\x03".to_vec();
    let entries = dir::read(&old).unwrap();
    assert_eq!(entries[0].path, "a");
    assert_eq!(entries[0].len, 3);
    assert_eq!(entries[0].crc, None);
}

fn ppm_image() -> Vec<u8> {
    let mut img = b"P6\n# a comment\n4 3\n255\n".to_vec();
    for i in 0..36u32 {
        img.push((i * 7) as u8);
    }
    img
}

#[test]
fn ppm_filter_is_reversible() {
    let img = ppm_image();
    let g = detect(&img).unwrap();
    assert_eq!(g.bpp, 3);
    assert_eq!(g.stride, 12);
    assert_eq!(g.rows, 3);
    let f = filter(&img, &g);
    assert_eq!(f.len(), img.len() + 3);
    assert_eq!(&f[..g.header], &img[..g.header]);
    assert_eq!(unfilter(&f), img);
}

#[test]
fn bmp_filter_is_reversible() {
    let w = 5u32;
    let h = 4u32;
    let stride = ((w * 3 + 3) / 4 * 4) as usize;
    let mut bmp = vec![0u8; 54];
    bmp[0] = b'B';
    bmp[1] = b'M';
    bmp[10] = 54;
    bmp[14] = 40;
    bmp[18..22].copy_from_slice(&w.to_le_bytes());
    bmp[22..26].copy_from_slice(&h.to_le_bytes());
    bmp[28] = 24;
    for i in 0..(stride * h as usize) {
        bmp.push((i * 13 % 251) as u8);
    }
    let g = detect(&bmp).unwrap();
    assert_eq!(g.header, 54);
    assert_eq!(g.stride, stride);
    let f = filter(&bmp, &g);
    assert_eq!(unfilter(&f), bmp);
}

#[test]
fn non_images_are_left_alone() {
    assert!(detect(b"hello world").is_none());
    assert_eq!(unfilter(b"hello"), b"hello".to_vec());
}

#[test]
fn lossy_quantize_drops_low_bits_and_keeps_headers() {
    assert_eq!(quantize(&[0xFF, 0x13], 4), vec![0xF0, 0x10]);
    let img = ppm_image();
    let q = quantize_content(&img, 2);
    let h = ppm_header_len(&img).unwrap();
    assert_eq!(&q[..h], &img[..h]);
    assert_eq!(q[h], img[h] & 0xFC);
    assert_eq!(quantize_content(&q, 2), q);
}

#[test]
fn compressed_formats_are_recognised() {
    assert_eq!(compressed_format(b"\x89PNG\r\n"), Some("PNG"));
    assert_eq!(compressed_format(b"\xFF\xD8\xFF\xE0"), Some("JPEG"));
    assert_eq!(compressed_format(b"PK\x03\x04"), Some("ZIP"));
    assert_eq!(compressed_format(b"FOSL"), Some("fossil"));
    assert_eq!(compressed_format(b"plain"), None);
    assert_eq!(raw_image_format(b"P6 1 1 255 "), Some("PPM"));
    assert_eq!(raw_image_format(b"BM"), None);
}

#[test]
fn histogram_counts_bytes() {
    let h = histogram(b"aab");
    assert_eq!(h[b'a' as usize], 2);
    assert_eq!(h[b'b' as usize], 1);
    assert_eq!(ubytes(b"aab"), 2);
    assert_eq!(ubytes(b""), 0);
}

#[test]
fn entry_contents_are_cut_from_the_payload() {
    let payload = b"abcdefgh".to_vec();
    let e = dir::Entry { path: "x".to_string(), offset: 2, len: 3, crc: None };
    assert_eq!(e.contents(&payload), Ok(b"cde".to_vec()));
    let past = dir::Entry { path: "y".to_string(), offset: 6, len: 3, crc: None };
    assert_eq!(past.contents(&payload), Err(dir::SliceError::OutsidePayload));
    let huge = dir::Entry { path: "z".to_string(), offset: usize::MAX, len: 1, crc: None };
    assert_eq!(huge.contents(&payload), Err(dir::SliceError::SizeOverflow));
    let empty = dir::Entry { path: "w".to_string(), offset: 8, len: 0, crc: None };
    assert_eq!(empty.contents(&payload), Ok(Vec::new()));
}

#[test]
fn wrapped_bundle_unwraps_and_shrinks_repeats() {
    let content = b"the same file contents, repeated in two places".repeat(20);
    let files = vec![("a.txt".to_string(), content.clone()), ("b/a.txt".to_string(), content.clone())];
    let packed = bundle::pack(&files);
    let wrapped = bundle::wrap(&packed);
    assert!(wrapped.len() < packed.len() / 2);
    assert_eq!(bundle::unwrap(&wrapped), packed);
    assert_eq!(bundle::unpack(&bundle::unwrap(&wrapped)), files);
    assert_eq!(bundle::unwrap(&bundle::wrap(&[])), Vec::<u8>::new());
}
