use fossil::block;
use fossil::cli::{closest, color_for, decode_file_uri, dib_to_bmp, first_url, image_ext, levenshtein, lossy_decision, model_color, reason, run_stats, Lossy, LossyOpts};
use fossil::entropy::EntropyClass;

#[test]
fn edit_distance_counts_characters() {
    assert_eq!(levenshtein("kitten", "sitting"), 3);
    assert_eq!(levenshtein("", "abc"), 3);
    assert_eq!(levenshtein("abc", "abc"), 0);
    assert_eq!(levenshtein("ä", "a"), 1);
}

#[test]
fn mistyped_commands_get_suggestions() {
    assert_eq!(closest("pakc"), Some("pack"));
    assert_eq!(closest("unpak"), Some("unpack"));
    assert_eq!(closest("xyzzyxyzzy"), None);
    assert_eq!(closest("hlep"), Some("help"));
}

#[test]
fn lossy_decisions() {
    let opts = LossyOpts { bits: Some(2), best_effort: false, images_only: false };
    assert_eq!(lossy_decision(b"\x89PNG....", &opts), Lossy::Refuse);
    assert_eq!(lossy_decision(b"plain text", &opts), Lossy::Quantize);
    let best = LossyOpts { bits: Some(2), best_effort: true, images_only: false };
    assert_eq!(lossy_decision(b"\x89PNG....", &best), Lossy::Skip);
    let images = LossyOpts { bits: None, best_effort: false, images_only: true };
    assert_eq!(lossy_decision(b"P6 2 2 255 ", &images), Lossy::Quantize);
    assert_eq!(lossy_decision(b"plain text", &images), Lossy::Skip);
}

#[test]
fn labels_and_colours() {
    assert_eq!(reason(block::LZ), "repeated substrings");
    assert_eq!(reason(200), "the fallback, stored as-is");
    assert_eq!(model_color(block::SIGNAL), "38;5;209");
    assert_eq!(model_color(block::RAW), "38;5;144");
    assert_eq!(color_for(EntropyClass::Empty), "38;5;245");
    assert_eq!(color_for(EntropyClass::VeryHigh), "38;5;203");
}

#[test]
fn runs_are_counted() {
    assert_eq!(run_stats(b""), (0, 0));
    assert_eq!(run_stats(b"a"), (1, 1));
    assert_eq!(run_stats(b"aaabcc"), (3, 3));
    assert_eq!(run_stats(b"abccccd"), (4, 4));
}

#[test]
fn image_signatures() {
    assert_eq!(image_ext(b"\x89PNG\r\n\x1a\n"), Some("png".to_string()));
    assert_eq!(image_ext(b"GIF89a"), Some("gif".to_string()));
    assert_eq!(image_ext(b"RIFF\0\0\0\0WEBPVP8 "), Some("webp".to_string()));
    assert_eq!(image_ext(b"BM...."), Some("bmp".to_string()));
    assert_eq!(image_ext(b"text"), None);
}

#[test]
fn dib_gets_a_file_header() {
    let mut dib = vec![0u8; 40];
    dib[0] = 40;
    dib[14] = 24;
    dib.extend_from_slice(&[1, 2, 3, 4]);
    let bmp = dib_to_bmp(&dib).unwrap();
    assert_eq!(&bmp[0..2], b"BM");
    assert_eq!(u32::from_le_bytes([bmp[2], bmp[3], bmp[4], bmp[5]]), 14 + 44);
    assert_eq!(u32::from_le_bytes([bmp[10], bmp[11], bmp[12], bmp[13]]), 54);
    assert_eq!(&bmp[14..], &dib[..]);
    let mut pal = vec![0u8; 40];
    pal[0] = 40;
    pal[14] = 8;
    let bmp = dib_to_bmp(&pal).unwrap();
    assert_eq!(u32::from_le_bytes([bmp[10], bmp[11], bmp[12], bmp[13]]), 14 + 40 + 1024);
    assert!(dib_to_bmp(&[0u8; 10]).is_none());
}

#[test]
fn file_uris_are_decoded() {
    assert_eq!(decode_file_uri("file:///tmp/a%20b.txt"), "/tmp/a b.txt");
    assert_eq!(decode_file_uri("/plain/path"), "/plain/path");
    assert_eq!(decode_file_uri("file:///x%zz"), "/x%zz");
    assert_eq!(decode_file_uri("file:///%C3%A9"), "/é");
}

#[test]
fn links_are_found_in_clipboard_text() {
    assert_eq!(first_url("  https://example.com/a.png more"), Some("https://example.com/a.png".to_string()));
    assert_eq!(first_url("http://x\n"), Some("http://x".to_string()));
    assert_eq!(first_url("see https://example.com"), None);
    assert_eq!(first_url("   "), None);
    assert_eq!(first_url("\u{3000}http://a.b"), Some("http://a.b".to_string()));
}
