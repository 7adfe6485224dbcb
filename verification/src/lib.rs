//! BitTorrent v1 metainfo files and the bencode codec beneath them.
//!
//! The library decodes and encodes bencode, reads torrents from bytes and
//! writes them back, derives info hashes and magnet links, and holds the
//! rules by which a torrent is built from files: the choices of a builder,
//! the order of the walk, and the hashing of the content piece by piece.
//! Reading and writing files and running threads is left to the caller.
//!
//! Every function is verified with Verus. Contracts are stated over
//! mathematical models: the bytes of an input, the [`bencode::Value`] that
//! an element stands for, and the views of the torrent types. What holds
//! between the functions is proved in the two `laws` modules: decoding and
//! encoding undo one another, a torrent that was read is written as the
//! bytes it was read from, and its info hash is the digest of the `info`
//! dictionary as it stands in those bytes.
//!
//! Four things are taken on trust, each behind one small function that
//! says what is claimed of it: UTF-8 decoding by `core::str`, SHA-1 by the
//! `sha1` crate, percent escapes by the `percent_encoding` crate, and the
//! joining of strings by the `itertools` crate. Paths of the file system
//! are carried through as `std` makes them, with nothing claimed of them.

pub mod bencode;
pub mod digest;
pub mod error;
pub mod escape;
pub mod path;
pub mod text;
pub mod torrent;

pub use crate::error::LavaTorrentError;
