//! Block-wise compression with a self-describing container format.
use vstd::prelude::*;

pub mod biglz;
pub mod bits;
pub mod bundle;
pub mod cli;
pub mod container;
pub mod block;
pub mod crc;
pub mod dir;
pub mod image;
pub mod lossy;
pub mod entropy;
pub mod models;
pub mod slices;
pub mod text;
pub mod varint;
