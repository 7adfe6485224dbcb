//! The bencode codec: elements, their mathematical model, decoding and
//! canonical encoding.

pub mod entries;
pub mod laws;
pub mod model;
pub mod read;
pub mod show;
pub mod write;
pub mod elem;

pub use self::elem::{BencodeElem, Dictionary, Entry};
pub use self::model::{Fault, ReadLimit, Value};
