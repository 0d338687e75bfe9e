//! Decoder and extractor of `.xp3` archives.

pub mod cxdec;
pub mod decoder;
pub mod file;
pub mod header;
pub mod inflate;
pub mod info;
pub mod segment;
pub mod solve;
pub mod utils;

pub use solve::XP3 as Xp3;
