//! A PNG encoder and decoder with its own DEFLATE, checksums and filters.
//!
//! [`decode`] and [`encode`] are the short way in. [`Decoder`] and [`Encoder`] carry settings
//! and keep their working memory from one image to the next. [`read_info`] reads no more than
//! the header and the chunks in front of the image data.
//!
//! What a file means is stated in [`file`](mod@file) and [`stream`], what is written in
//! [`writing`] and [`encoding`]. The functions of the library are proved against those
//! statements, and [`laws`], [`roundtrip`], [`truncation`], [`damage`], [`growth`], [`walk`],
//! [`metadata`], [`pixels`] and [`optimal`] hold what follows of the library as a whole.
//!
//! The statements are themselves held to the format, by its numbers and bits: [`reading`] to
//! what any stream expands to, [`contents`] to what any file says, [`passes`] to interlacing,
//! [`colors`] to colours, [`residuals`] to filters, and [`layout`] to the order of chunks.

pub mod adler32;
pub mod bits;
pub mod cases;
pub mod code;
pub mod colors;
pub mod common;
pub mod contents;
pub mod corpus;
pub mod crc32;
pub mod damage;
pub mod decoder;
pub mod deflate;
pub mod encoder;
pub mod encoding;
pub mod error;
pub mod file;
pub mod filter;
pub mod growth;
pub mod huffman;
pub mod inflate;
pub mod interlace;
pub mod laws;
pub mod layout;
pub mod metadata;
pub mod optimal;
pub mod passes;
pub mod pixels;
pub mod reading;
pub mod residuals;
pub mod roundtrip;
pub mod selection;
pub mod stream;
mod table;
pub mod tables;
pub mod text;
pub mod transform;
pub mod tree;
pub mod truncation;
pub mod walk;
pub mod writing;

pub use common::{BitDepth, Chunk, ColorType, Info, Interlacing};
pub use decoder::{decode, read_info, Checks, Decoder, Image, Keep, DEFAULT_MAX_DECOMPRESSED_SIZE};
pub use encoder::{encode, encode_rgb8, encode_rgba8, Encoder, Encoding, FilterStrategy};
pub use error::Error;
pub use filter::Filter;
