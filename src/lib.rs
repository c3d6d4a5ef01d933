//! Reading and writing of Version 1 MoPaQ (MPQ) archives.
//!
//! An archive is a single byte image holding many named files, each optionally
//! compressed and encrypted, located through an encrypted hash table and an
//! encrypted block table.
pub mod archive;
pub mod bytes;
pub mod compression;
pub mod creator;
pub mod crypto;
pub mod error;
pub mod header;
pub mod lookup;
pub mod roundtrip;
pub mod seeker;
pub mod table;

pub use archive::Archive;
pub use creator::{Creator, FileOptions};
pub use error::Error;
pub use table::sector_count_from_size;

