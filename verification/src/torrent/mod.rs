//! Torrent metainfo files.

pub mod v1;
