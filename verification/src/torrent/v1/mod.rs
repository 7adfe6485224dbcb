//! Torrents of the first version of the protocol: what they hold, and how
//! they are read, written and derived from.

use std::path::PathBuf;
use vstd::prelude::*;
use crate::bencode::elem::BencodeElem;
use crate::bencode::entries::{lookup, put, put_all};
use crate::bencode::model::{encode, Value};
use crate::digest::{sha1, sha1_digest};
use crate::error::{Failure, LavaTorrentError};
use crate::path::{path_from, path_is_absolute, path_push};
use crate::text::{ascii_chars, hex_text, texts_of, to_hex};

pub mod builder;
pub mod content;
pub mod laws;
pub mod magnet;
pub mod pieces;
pub mod read;
pub mod show;
pub mod walk;
pub mod write;

pub use self::builder::TorrentBuilder;
pub use crate::bencode::elem::Dictionary;

verus! {

/// The tiers of trackers: each tier is a list of URLs.
pub type AnnounceList = Vec<Vec<String>>;

/// The SHA-1 hash of one piece of the content.
pub type Piece = Vec<u8>;

/// A bencode integer.
pub type Integer = i64;

/// The number of bytes in the hash of a piece.
pub const PIECE_STRING_LENGTH: usize = 20;

/// A file of a torrent that holds several.
#[derive(Debug, PartialEq, Eq)]
pub struct File {
    /// The size of the file in bytes.
    pub length: Integer,
    /// The components of the path, relative to the torrent's name.
    pub path: Vec<String>,
    /// What the file's dictionary holds beyond length and path.
    pub extra_fields: Option<Dictionary>,
}

/// All that a torrent file holds.
#[derive(Debug, PartialEq, Eq)]
pub struct Torrent {
    /// The URL of the tracker.
    pub announce: Option<String>,
    /// The tiers of trackers.
    pub announce_list: Option<AnnounceList>,
    /// The size of the content in bytes: the sum of the sizes of the files.
    pub length: Integer,
    /// The files, where the torrent holds a directory; `None` where it holds
    /// one file.
    pub files: Option<Vec<File>>,
    /// The name of the file, or of the directory that holds the files.
    pub name: String,
    /// The size of a piece in bytes.
    pub piece_length: Integer,
    /// The hash of each piece.
    pub pieces: Vec<Piece>,
    /// What the top-level dictionary holds beyond the known keys.
    pub extra_fields: Option<Dictionary>,
    /// What the `info` dictionary holds beyond the known keys.
    pub extra_info_fields: Option<Dictionary>,
}

/// What a file stands for.
pub struct FileView {
    /// The size of the file in bytes.
    pub length: i64,
    /// The components of the path.
    pub path: Seq<Seq<char>>,
    /// The extra fields, in the order of their keys.
    pub extra_fields: Option<Seq<(Seq<char>, Value)>>,
}

/// What a torrent stands for.
pub struct TorrentView {
    /// The URL of the tracker.
    pub announce: Option<Seq<char>>,
    /// The URLs of each tier of trackers.
    pub announce_list: Option<Seq<Seq<Seq<char>>>>,
    /// The size of the content in bytes.
    pub length: i64,
    /// The files, where the torrent holds a directory.
    pub files: Option<Seq<FileView>>,
    /// The name.
    pub name: Seq<char>,
    /// The size of a piece in bytes.
    pub piece_length: i64,
    /// The hash of each piece.
    pub pieces: Seq<Seq<u8>>,
    /// The extra fields of the top level, in the order of their keys.
    pub extra_fields: Option<Seq<(Seq<char>, Value)>>,
    /// The extra fields of `info`, in the order of their keys.
    pub extra_info_fields: Option<Seq<(Seq<char>, Value)>>,
}

/// The URLs of each tier of `tiers`.
pub open spec fn tiers_of(tiers: Seq<Vec<String>>) -> Seq<Seq<Seq<char>>> {
    Seq::new(tiers.len(), |i: int| texts_of(tiers[i]@))
}

/// The bytes of each hash of `pieces`.
pub open spec fn hashes_of(pieces: Seq<Vec<u8>>) -> Seq<Seq<u8>> {
    Seq::new(pieces.len(), |i: int| pieces[i]@)
}

/// What each file of `files` stands for.
pub open spec fn files_of(files: Seq<File>) -> Seq<FileView> {
    Seq::new(files.len(), |i: int| files[i]@)
}

/// The entries of a dictionary that may be absent.
pub open spec fn fields_of(fields: Option<Dictionary>) -> Option<Seq<(Seq<char>, Value)>> {
    match fields {
        Some(d) => Some(d@),
        None => None,
    }
}

impl View for File {
    type V = FileView;

    open spec fn view(&self) -> FileView {
        FileView {
            length: self.length,
            path: texts_of(self.path@),
            extra_fields: fields_of(self.extra_fields),
        }
    }
}

impl View for Torrent {
    type V = TorrentView;

    open spec fn view(&self) -> TorrentView {
        TorrentView {
            announce: match self.announce {
                Some(url) => Some(url@),
                None => None,
            },
            announce_list: match self.announce_list {
                Some(tiers) => Some(tiers_of(tiers@)),
                None => None,
            },
            length: self.length,
            files: match self.files {
                Some(files) => Some(files_of(files@)),
                None => None,
            },
            name: self.name@,
            piece_length: self.piece_length,
            pieces: hashes_of(self.pieces@),
            extra_fields: fields_of(self.extra_fields),
            extra_info_fields: fields_of(self.extra_info_fields),
        }
    }
}

/// A copy of `strings`.
pub(crate) fn clone_texts(strings: &Vec<String>) -> (res: Vec<String>)
    ensures
        texts_of(res@) == texts_of(strings@),
{
    let mut out: Vec<String> = Vec::new();
    let mut i: usize = 0;
    while i < strings.len()
        invariant
            i <= strings.len(),
            out.len() == i,
            forall|j: int| 0 <= j < i ==> (#[trigger] out[j])@ == strings[j]@,
        decreases strings.len() - i,
    {
        out.push(strings[i].clone());
        i += 1;
    }
    assert(texts_of(out@) =~= texts_of(strings@));
    out
}

/// A copy of `tiers`.
pub(crate) fn clone_tiers(tiers: &Vec<Vec<String>>) -> (res: Vec<Vec<String>>)
    ensures
        tiers_of(res@) == tiers_of(tiers@),
{
    let mut out: Vec<Vec<String>> = Vec::new();
    let mut i: usize = 0;
    while i < tiers.len()
        invariant
            i <= tiers.len(),
            out.len() == i,
            forall|j: int| 0 <= j < i ==> texts_of((#[trigger] out[j])@) == texts_of(tiers[j]@),
        decreases tiers.len() - i,
    {
        out.push(clone_texts(&tiers[i]));
        i += 1;
    }
    assert(tiers_of(out@) =~= tiers_of(tiers@));
    out
}

/// A copy of `pieces`.
pub(crate) fn clone_pieces(pieces: &Vec<Vec<u8>>) -> (res: Vec<Vec<u8>>)
    ensures
        hashes_of(res@) == hashes_of(pieces@),
{
    let mut out: Vec<Vec<u8>> = Vec::new();
    let mut i: usize = 0;
    while i < pieces.len()
        invariant
            i <= pieces.len(),
            out.len() == i,
            forall|j: int| 0 <= j < i ==> (#[trigger] out[j])@ == pieces[j]@,
        decreases pieces.len() - i,
    {
        out.push(pieces[i].clone());
        i += 1;
    }
    assert(hashes_of(out@) =~= hashes_of(pieces@));
    out
}

/// A copy of a dictionary that may be absent.
pub(crate) fn clone_fields(fields: &Option<Dictionary>) -> (res: Option<Dictionary>)
    ensures
        fields_of(res) == fields_of(*fields),
{
    match fields {
        Some(d) => Some(d.clone()),
        None => None,
    }
}

impl Clone for File {
    fn clone(&self) -> (res: Self)
        ensures
            res@ == self@,
    {
        File {
            length: self.length,
            path: clone_texts(&self.path),
            extra_fields: clone_fields(&self.extra_fields),
        }
    }
}

/// A copy of `files`.
pub(crate) fn clone_files(files: &Vec<File>) -> (res: Vec<File>)
    ensures
        files_of(res@) == files_of(files@),
{
    let mut out: Vec<File> = Vec::new();
    let mut i: usize = 0;
    while i < files.len()
        invariant
            i <= files.len(),
            out.len() == i,
            forall|j: int| 0 <= j < i ==> (#[trigger] out[j])@ == files[j]@,
        decreases files.len() - i,
    {
        out.push(files[i].clone());
        i += 1;
    }
    assert(files_of(out@) =~= files_of(files@));
    out
}

impl Clone for Torrent {
    fn clone(&self) -> (res: Self)
        ensures
            res@ == self@,
    {
        Torrent {
            announce: match &self.announce {
                Some(url) => Some(url.clone()),
                None => None,
            },
            announce_list: match &self.announce_list {
                Some(tiers) => Some(clone_tiers(tiers)),
                None => None,
            },
            length: self.length,
            files: match &self.files {
                Some(files) => Some(clone_files(files)),
                None => None,
            },
            name: self.name.clone(),
            piece_length: self.piece_length,
            pieces: clone_pieces(&self.pieces),
            extra_fields: clone_fields(&self.extra_fields),
            extra_info_fields: clone_fields(&self.extra_info_fields),
        }
    }
}

/// The byte sequences of `pieces`, one after the other.
pub open spec fn concat_all(pieces: Seq<Seq<u8>>) -> Seq<u8>
    decreases pieces.len(),
{
    if pieces.len() == 0 {
        Seq::empty()
    } else {
        concat_all(pieces.drop_last()) + pieces.last()
    }
}

/// `base` with the entries of `extras` put into it, where there are any.
pub open spec fn merged(
    base: Seq<(Seq<char>, Value)>,
    extras: Option<Seq<(Seq<char>, Value)>>,
) -> Seq<(Seq<char>, Value)> {
    match extras {
        Some(more) => put_all(base, more),
        None => base,
    }
}

/// Each text of `texts` as a bencode value.
pub open spec fn text_values(texts: Seq<Seq<char>>) -> Seq<Value> {
    Seq::new(texts.len(), |i: int| Value::Text(texts[i]))
}

/// The dictionary that stands for a file in a torrent file.
pub open spec fn file_value(f: FileView) -> Value {
    Value::Dict(
        merged(
            put(
                put(Seq::empty(), "length"@, Value::Integer(f.length)),
                "path"@,
                Value::List(text_values(f.path)),
            ),
            f.extra_fields,
        ),
    )
}

/// The dictionary of each file of `files`.
pub open spec fn file_values(files: Seq<FileView>) -> Seq<Value> {
    Seq::new(files.len(), |i: int| file_value(files[i]))
}

/// The `info` dictionary of a torrent: the files or else the length, the
/// name, the piece length and the hashes in one byte string, and over them
/// the extra fields.
pub open spec fn info_of(t: TorrentView) -> Value {
    let first = match t.files {
        Some(files) => put(Seq::empty(), "files"@, Value::List(file_values(files))),
        None => put(Seq::empty(), "length"@, Value::Integer(t.length)),
    };
    Value::Dict(
        merged(
            put(
                put(put(first, "name"@, Value::Text(t.name)), "piece length"@, Value::Integer(
                    t.piece_length,
                )),
                "pieces"@,
                Value::Bytes(concat_all(t.pieces)),
            ),
            t.extra_info_fields,
        ),
    )
}

/// The info hash of a torrent: the SHA-1 digest of its encoded `info`
/// dictionary.
pub open spec fn info_hash_of(t: TorrentView) -> Seq<u8> {
    sha1(encode(info_of(t)))
}

/// Whether a torrent is marked private: `private` maps to the integer 1 among
/// the extra fields of `info`.
pub open spec fn private(t: TorrentView) -> bool {
    match t.extra_info_fields {
        Some(fields) => lookup(fields, "private"@) == Some(Value::Integer(1)),
        None => false,
    }
}

impl File {
    /// The path of the file below `parent`, if that path is absolute.
    ///
    /// The components of the file's path are joined to `parent` by the rules
    /// of the platform, which also decide whether the result is absolute.
    pub fn absolute_path(&self, parent: &str) -> (res: Result<PathBuf, LavaTorrentError>)
        ensures
            res matches Err(e) ==> e@ == Failure::InvalidArgument("Joined path is not absolute."@),
    {
        let mut joined = path_from(parent);
        let mut i: usize = 0;
        while i < self.path.len()
            invariant
                i <= self.path.len(),
            decreases self.path.len() - i,
        {
            path_push(&mut joined, self.path[i].as_str());
            i += 1;
        }
        let absolute = path_is_absolute(&joined);
        File::absolute_or_refused(joined, absolute)
    }

    /// `joined` if it is absolute, and else the refusal.
    pub fn absolute_or_refused(joined: PathBuf, absolute: bool) -> (res: Result<
        PathBuf,
        LavaTorrentError,
    >)
        ensures
            absolute ==> res == Ok::<PathBuf, LavaTorrentError>(joined),
            !absolute ==> (res matches Err(e) && e@ == Failure::InvalidArgument(
                "Joined path is not absolute."@,
            )),
    {
        if absolute {
            Ok(joined)
        } else {
            Err(LavaTorrentError::invalid_argument("Joined path is not absolute."))
        }
    }
}

impl Torrent {
    /// The `info` dictionary of the torrent, built anew at every call.
    pub fn construct_info(&self) -> (res: BencodeElem)
        ensures
            res@ == info_of(self@),
    {
        let mut info = Dictionary::new();
        match &self.files {
            Some(files) => {
                info.insert("files".to_owned(), write::files_elem(files));
            },
            None => {
                info.insert("length".to_owned(), BencodeElem::Integer(self.length));
            },
        }
        info.insert("name".to_owned(), BencodeElem::String(self.name.clone()));
        info.insert("piece length".to_owned(), BencodeElem::Integer(self.piece_length));
        info.insert("pieces".to_owned(), BencodeElem::Bytes(write::flatten(&self.pieces)));
        match &self.extra_info_fields {
            Some(extras) => {
                info.extend(extras);
            },
            None => {},
        }
        BencodeElem::Dictionary(info)
    }

    /// The info hash of the torrent as 20 bytes, computed anew at every call.
    pub fn info_hash_bytes(&self) -> (res: Vec<u8>)
        ensures
            res@ == info_hash_of(self@),
            res@.len() == 20,
    {
        let encoded = self.construct_info().encode();
        sha1_digest(encoded.as_slice())
    }

    /// The info hash of the torrent as 40 lower-case hexadecimal digits,
    /// computed anew at every call.
    pub fn info_hash(&self) -> (res: String)
        ensures
            res@ == ascii_chars(hex_text(info_hash_of(self@))),
    {
        let digest = self.info_hash_bytes();
        to_hex(digest.as_slice())
    }

    /// Whether the torrent is marked private.
    pub fn is_private(&self) -> (res: bool)
        ensures
            res == private(self@),
    {
        match &self.extra_info_fields {
            Some(dict) => {
                match dict.get("private") {
                    Some(BencodeElem::Integer(val)) => *val == 1,
                    Some(_) => false,
                    None => false,
                }
            },
            None => false,
        }
    }
}

} // verus!
