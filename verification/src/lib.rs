//! Compressed sets of `u32` values, stored as containers of sixteen-bit
//! suffixes, together with their byte-exact wire format and three ways of
//! reading it: into an owned set, through a lazy index that decodes one
//! container per request, and through a borrowed view that reads the bytes in
//! place.

pub mod bitmap;
pub mod error;

pub use bitmap::RoaringBitmap;
pub use error::Error;
