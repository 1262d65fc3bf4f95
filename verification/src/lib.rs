//! Codec for RGSSAD archives (`.rgssad`, `.rgss2a`, `.rgss3a`): the header,
//! the two entry-table layouts and the keystream cipher that masks them.

pub mod archive;
pub mod codec;
pub mod entry;
pub mod error;
pub mod filter;
pub mod io_util;
pub mod magic;
pub mod name;
pub mod pack;
pub mod rgss3a;
pub mod rgssad;
pub mod table;

pub use archive::RGSSArchive;
pub use entry::RGSSArchiveEntry;
pub use error::Error;
