//! Delta and run-length compression of fixed-width integers.
//!
//! Columns of timestamps, identifiers and regular samples rise or fall in steps
//! that hardly change. Such a column is compressed in two stages: each value but
//! the first is replaced by its difference to the one before it, and the
//! differences are run-length encoded, as 64-bit values and 8-bit lengths.
//!
//! The values `[1000, 1001, 1002, 1003, 1004, 1005]` have the deltas
//! `[1000, 1, 1, 1, 1, 1]`, which are the runs `[(1000, 1), (1, 5)]`.
//!
//! - `encoder` and `decompressor` hold the compressor and the decompressor, with
//!   the specification of what they compute; `miniblock` and `block` the two
//!   compressed forms; `compression` the interfaces of these forms.
//! - `selection` decides whether a column is monotonic enough to be compressed.
//! - `delta`, `rle`, `endian` and `data` hold the mathematics of the two stages and
//!   of the buffers; `native` the integer types of a column.
//! - `laws` proves that decompression undoes compression, and more; `codec_laws` what
//!   the compressed forms hold and what is read from them; `format_laws` what their
//!   numbers, buffers and runs are; `selection_laws` what is monotonic enough.

pub mod block;
pub mod codec_laws;
pub mod compression;
pub mod data;
pub mod decompressor;
pub mod delta;
pub mod encoder;
pub mod endian;
pub mod error;
pub mod format_laws;
pub mod laws;
pub mod miniblock;
pub mod native;
pub mod rle;
pub mod selection;
pub mod selection_laws;

pub use crate::compression::{
    BlockCompressor, BlockDecompressor, CompressiveEncoding, DeltaRle, MiniBlockChunk,
    MiniBlockCompressed, MiniBlockCompressor, MiniBlockDecompressor,
};
pub use crate::data::{DataBlock, FixedWidthDataBlock, LanceBuffer};
pub use crate::decompressor::DeltaRleDecompressor;
pub use crate::encoder::DeltaRleEncoder;
pub use crate::error::Error;
pub use crate::selection::{
    compute_monotonicity, is_delta_rle_candidate, suits_delta_rle, Monotonicity,
};
