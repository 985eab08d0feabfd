//! Pack/unpack toolkit for a family of four nested container and compression
//! formats: an outer archive (EPAC) holding sub-archives (PACH) whose entries
//! are small archives (TEX), some stored inside a byte-pair-encoding
//! compressor (BPE). Every codec here is a pure function over byte vectors;
//! file and directory handling lives outside the library.

pub mod bpe;
pub mod bpe_chain;
pub mod bpe_table;
pub mod epac;
pub mod listing;
pub mod pach;
pub mod tex;
pub mod util;

pub use util::write_padding_zeroes;
