//! Readers for a game's proprietary archive formats: a record-tree container
//! ("GGPK") holding a directory/file hierarchy in one immutable buffer, a
//! compressed-bundle container, a path index that maps 64-bit path hashes to
//! bundle offsets and reconstructs human-readable paths, and a typed tabular
//! row format ("DAT").

pub mod bundle;
pub mod csd;
pub mod dat;
pub mod error;
pub mod export_window;
pub mod ggpk;
pub mod hashes;
pub mod index;
pub mod psg;
pub mod record;
pub mod schema;
pub mod settings;
pub mod settings_window;
pub mod strutil;
pub mod update;
pub mod viewer;
pub mod wire;

pub use error::ArchiveError;
