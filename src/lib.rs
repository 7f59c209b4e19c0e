//! Reader for MPQ archives: a self-describing container of indexed,
//! optionally encrypted and compressed files.
pub mod archive;
pub mod assets;
pub mod bytes;
pub mod compression;
pub mod crypto;
pub mod error;
pub mod header;

pub use archive::{Archive, File};
pub use error::MpqError;
