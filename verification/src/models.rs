//! The per-block models; each turns a block into a payload and back.

pub mod bwt;
pub mod bwt_lossless;
pub mod bwtm;
pub mod bwtm_lossless;
pub mod delta;
pub mod generator;
pub mod huffman;
pub mod huffman_lossless;
pub mod lz;
pub mod lzh;
pub mod lzr;
pub mod lzr_lossless;
pub mod mtf;
pub mod ppm;
pub mod range;
pub mod range_events;
pub mod range_lossless;
pub mod rle;
pub mod signal;
pub mod signal_lossless;
pub mod transpose;
pub mod transpose_lossless;
pub mod word;
pub mod word_lossless;
