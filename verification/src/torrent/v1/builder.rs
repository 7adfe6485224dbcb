//! Building: the choices of a builder, and the torrent that comes of them
//! once the files are known and the pieces are hashed.

use std::path::PathBuf;
use vstd::prelude::*;
use crate::bencode::elem::{BencodeElem, Dictionary};
use crate::bencode::entries::{lookup, put};
use crate::bencode::model::Value;
use crate::error::{Failure, LavaTorrentError};
use crate::path::{path_copy, path_from};
use crate::torrent::v1::{
    clone_fields, clone_tiers, fields_of, files_of, hashes_of, tiers_of, File, FileView, Torrent,
    TorrentView,
};
use crate::torrent::v1::read::sum_lengths;

verus! {

/// The choices from which a torrent is built.
///
/// The path and the piece length are required. Every other choice has a
/// method that sets it.
#[derive(Debug, PartialEq, Eq)]
pub struct TorrentBuilder {
    announce: Option<String>,
    announce_list: Option<Vec<Vec<String>>>,
    name: Option<String>,
    path: PathBuf,
    piece_length: i64,
    extra_fields: Option<Dictionary>,
    extra_info_fields: Option<Dictionary>,
    is_private: bool,
    num_threads: Option<usize>,
}

/// What a builder stands for.
pub struct BuilderView {
    /// The URL of the tracker, if one was set.
    pub announce: Option<Seq<char>>,
    /// The URLs of each tier of trackers, if tiers were set.
    pub announce_list: Option<Seq<Seq<Seq<char>>>>,
    /// The name, if one was set.
    pub name: Option<Seq<char>>,
    /// The path of what the torrent is built from.
    pub path: PathBuf,
    /// The size of a piece in bytes.
    pub piece_length: i64,
    /// The extra fields of the top level, if any were added.
    pub extra_fields: Option<Seq<(Seq<char>, Value)>>,
    /// The extra fields of `info`, if any were added.
    pub extra_info_fields: Option<Seq<(Seq<char>, Value)>>,
    /// Whether the torrent is marked private.
    pub is_private: bool,
    /// The number of threads that hash the pieces, if one was set.
    pub num_threads: Option<usize>,
}

/// The characters of a string that may be absent.
pub open spec fn optional_text(s: Option<String>) -> Option<Seq<char>> {
    match s {
        Some(s) => Some(s@),
        None => None,
    }
}

/// The entries of `fields`, or none where there is no dictionary.
pub open spec fn entries_of(fields: Option<Seq<(Seq<char>, Value)>>) -> Seq<(Seq<char>, Value)> {
    match fields {
        Some(entries) => entries,
        None => Seq::empty(),
    }
}

/// `name` holds a slash or a backslash.
pub open spec fn has_separator(name: Seq<char>) -> bool {
    exists|i: int| 0 <= i < name.len() && (#[trigger] name[i] == '/' || name[i] == '\\')
}

/// `fields` holds one of the keys that a builder sets at the top level.
pub open spec fn top_collision(fields: Seq<(Seq<char>, Value)>) -> bool {
    ||| lookup(fields, "announce"@) is Some
    ||| lookup(fields, "announce-list"@) is Some
    ||| lookup(fields, "info"@) is Some
}

/// `fields` holds one of the keys that a builder sets in `info`; `private` is
/// one of them where the builder marks the torrent private.
pub open spec fn info_collision(fields: Seq<(Seq<char>, Value)>, is_private: bool) -> bool {
    ||| lookup(fields, "files"@) is Some
    ||| lookup(fields, "length"@) is Some
    ||| lookup(fields, "name"@) is Some
    ||| lookup(fields, "piece length"@) is Some
    ||| lookup(fields, "pieces"@) is Some
    ||| (is_private && lookup(fields, "private"@) is Some)
}

/// Why a torrent cannot be built from these choices, if it cannot. Of
/// several reasons the first in this order counts: the piece length, the
/// number of threads, the name, the extra fields, the extra fields of
/// `info`.
pub open spec fn refusal(b: BuilderView) -> Option<Seq<char>> {
    if b.piece_length <= 0 {
        Some("TorrentBuilder has `piece_length` <= 0."@)
    } else if b.num_threads == Some(0usize) {
        Some("TorrentBuilder has `num_threads` == 0."@)
    } else if b.name is Some && b.name->0.len() == 0 {
        Some("TorrentBuilder has `name` but its length is 0."@)
    } else if b.name is Some && has_separator(b.name->0) {
        Some("TorrentBuilder has `name` but it contains a path separator."@)
    } else if top_collision(entries_of(b.extra_fields)) {
        Some("TorrentBuilder has `extra_fields` with a key that it sets itself."@)
    } else if info_collision(entries_of(b.extra_info_fields), b.is_private) {
        Some("TorrentBuilder has `extra_info_fields` with a key that it sets itself."@)
    } else {
        None
    }
}

/// Whether `name` holds a slash or a backslash.
pub fn contains_separator(name: &str) -> (res: bool)
    ensures
        res == has_separator(name@),
{
    let mut found = false;
    for c in it: name.chars()
        invariant
            it.seq() == name@,
            found == exists|i: int|
                0 <= i < it.index() && (#[trigger] name@[i] == '/' || name@[i] == '\\'),
    {
        if c == '/' || c == '\\' {
            found = true;
        }
    }
    found
}

impl View for TorrentBuilder {
    type V = BuilderView;

    closed spec fn view(&self) -> BuilderView {
        BuilderView {
            announce: optional_text(self.announce),
            announce_list: match self.announce_list {
                Some(tiers) => Some(tiers_of(tiers@)),
                None => None,
            },
            name: optional_text(self.name),
            path: self.path,
            piece_length: self.piece_length,
            extra_fields: fields_of(self.extra_fields),
            extra_info_fields: fields_of(self.extra_info_fields),
            is_private: self.is_private,
            num_threads: self.num_threads,
        }
    }
}

impl Clone for TorrentBuilder {
    fn clone(&self) -> (res: Self)
        ensures
            res@ == self@,
    {
        TorrentBuilder {
            announce: match &self.announce {
                Some(url) => Some(url.clone()),
                None => None,
            },
            announce_list: match &self.announce_list {
                Some(tiers) => Some(clone_tiers(tiers)),
                None => None,
            },
            name: match &self.name {
                Some(name) => Some(name.clone()),
                None => None,
            },
            path: path_copy(&self.path),
            piece_length: self.piece_length,
            extra_fields: clone_fields(&self.extra_fields),
            extra_info_fields: clone_fields(&self.extra_info_fields),
            is_private: self.is_private,
            num_threads: self.num_threads,
        }
    }
}

impl Default for TorrentBuilder {
    /// A builder without a path and with a piece length of 0: both have to
    /// be set before a torrent can be built.
    fn default() -> (res: Self)
        ensures
            res@.announce is None,
            res@.announce_list is None,
            res@.name is None,
            res@.piece_length == 0,
            res@.extra_fields is None,
            res@.extra_info_fields is None,
            !res@.is_private,
            res@.num_threads is None,
    {
        TorrentBuilder::new(path_from(""), 0)
    }
}

impl TorrentBuilder {
    /// A builder for what lies at `path`, with pieces of `piece_length`
    /// bytes. Nothing else is chosen yet.
    pub fn new(path: PathBuf, piece_length: i64) -> (res: TorrentBuilder)
        ensures
            res@ == (BuilderView {
                announce: None,
                announce_list: None,
                name: None,
                path,
                piece_length,
                extra_fields: None,
                extra_info_fields: None,
                is_private: false,
                num_threads: None,
            }),
    {
        TorrentBuilder {
            announce: None,
            announce_list: None,
            name: None,
            path,
            piece_length,
            extra_fields: None,
            extra_info_fields: None,
            is_private: false,
            num_threads: None,
        }
    }

    /// Sets or clears the tracker.
    pub fn set_announce(self, announce: Option<String>) -> (res: TorrentBuilder)
        ensures
            res@ == (BuilderView { announce: optional_text(announce), ..self@ }),
    {
        TorrentBuilder { announce, ..self }
    }

    /// Sets the tiers of trackers.
    pub fn set_announce_list(self, announce_list: Vec<Vec<String>>) -> (res: TorrentBuilder)
        ensures
            res@ == (BuilderView { announce_list: Some(tiers_of(announce_list@)), ..self@ }),
    {
        TorrentBuilder { announce_list: Some(announce_list), ..self }
    }

    /// Sets the name, in place of the last component of the path.
    pub fn set_name(self, name: String) -> (res: TorrentBuilder)
        ensures
            res@ == (BuilderView { name: Some(name@), ..self@ }),
    {
        TorrentBuilder { name: Some(name), ..self }
    }

    /// Sets the path.
    pub fn set_path(self, path: PathBuf) -> (res: TorrentBuilder)
        ensures
            res@ == (BuilderView { path, ..self@ }),
    {
        TorrentBuilder { path, ..self }
    }

    /// Sets the piece length.
    pub fn set_piece_length(self, piece_length: i64) -> (res: TorrentBuilder)
        ensures
            res@ == (BuilderView { piece_length, ..self@ }),
    {
        TorrentBuilder { piece_length, ..self }
    }

    /// Maps `key` to `val` among the extra fields of the top level.
    pub fn add_extra_field(self, key: String, val: BencodeElem) -> (res: TorrentBuilder)
        ensures
            res@ == (BuilderView {
                extra_fields: Some(put(entries_of(self@.extra_fields), key@, val@)),
                ..self@
            }),
    {
        let mut this = self;
        let mut fields = match this.extra_fields.take() {
            Some(fields) => fields,
            None => Dictionary::new(),
        };
        fields.insert(key, val);
        this.extra_fields = Some(fields);
        this
    }

    /// Maps `key` to `val` among the extra fields of `info`.
    pub fn add_extra_info_field(self, key: String, val: BencodeElem) -> (res: TorrentBuilder)
        ensures
            res@ == (BuilderView {
                extra_info_fields: Some(put(entries_of(self@.extra_info_fields), key@, val@)),
                ..self@
            }),
    {
        let mut this = self;
        let mut fields = match this.extra_info_fields.take() {
            Some(fields) => fields,
            None => Dictionary::new(),
        };
        fields.insert(key, val);
        this.extra_info_fields = Some(fields);
        this
    }

    /// Chooses whether the torrent is marked private.
    pub fn set_privacy(self, is_private: bool) -> (res: TorrentBuilder)
        ensures
            res@ == (BuilderView { is_private, ..self@ }),
    {
        TorrentBuilder { is_private, ..self }
    }

    /// Sets the number of threads that hash the pieces.
    pub fn set_num_threads(self, num_threads: usize) -> (res: TorrentBuilder)
        ensures
            res@ == (BuilderView { num_threads: Some(num_threads), ..self@ }),
    {
        TorrentBuilder { num_threads: Some(num_threads), ..self }
    }

    /// The path of what the torrent is built from.
    pub fn path(&self) -> (res: &PathBuf)
        ensures
            *res == self@.path,
    {
        &self.path
    }

    /// The piece length.
    pub fn piece_length(&self) -> (res: i64)
        ensures
            res == self@.piece_length,
    {
        self.piece_length
    }

    /// The number of threads that was set, if one was.
    pub fn num_threads(&self) -> (res: Option<usize>)
        ensures
            res == self@.num_threads,
    {
        self.num_threads
    }

    /// Checks the choices, and says why no torrent can be built from them
    /// if none can.
    pub fn validate(&self) -> (res: Result<(), LavaTorrentError>)
        ensures
            match refusal(self@) {
                Some(reason) => res matches Err(e) && e@ == Failure::InvalidArgument(reason),
                None => res is Ok,
            },
    {
        if self.piece_length <= 0 {
            return Err(
                LavaTorrentError::invalid_argument("TorrentBuilder has `piece_length` <= 0."),
            );
        }
        match self.num_threads {
            Some(n) => {
                if n == 0 {
                    return Err(
                        LavaTorrentError::invalid_argument(
                            "TorrentBuilder has `num_threads` == 0.",
                        ),
                    );
                }
            },
            None => {},
        }
        match &self.name {
            Some(name) => {
                if name.as_str().is_empty() {
                    return Err(
                        LavaTorrentError::invalid_argument(
                            "TorrentBuilder has `name` but its length is 0.",
                        ),
                    );
                }
                if contains_separator(name.as_str()) {
                    return Err(
                        LavaTorrentError::invalid_argument(
                            "TorrentBuilder has `name` but it contains a path separator.",
                        ),
                    );
                }
            },
            None => {},
        }
        match &self.extra_fields {
            Some(fields) => {
                if fields.contains_key("announce") || fields.contains_key("announce-list")
                    || fields.contains_key("info") {
                    return Err(
                        LavaTorrentError::invalid_argument(
                            "TorrentBuilder has `extra_fields` with a key that it sets itself.",
                        ),
                    );
                }
            },
            None => {},
        }
        match &self.extra_info_fields {
            Some(fields) => {
                let reserved = self.is_private && fields.contains_key("private");
                if fields.contains_key("files") || fields.contains_key("length")
                    || fields.contains_key("name") || fields.contains_key("piece length")
                    || fields.contains_key("pieces") || reserved {
                    return Err(
                        LavaTorrentError::invalid_argument(
                            "TorrentBuilder has `extra_info_fields` with a key that it sets itself.",
                        ),
                    );
                }
            },
            None => {},
        }
        Ok(())
    }
}

/// What marking a torrent private adds to the extra fields of `info`.
pub open spec fn info_fields(b: BuilderView) -> Option<Seq<(Seq<char>, Value)>> {
    if b.is_private {
        Some(put(entries_of(b.extra_info_fields), "private"@, Value::Integer(1)))
    } else {
        b.extra_info_fields
    }
}

/// The name of the torrent: the one that was set, and else the given one.
pub open spec fn chosen_name(b: BuilderView, default_name: Seq<char>) -> Seq<char> {
    match b.name {
        Some(name) => name,
        None => default_name,
    }
}

/// The torrent of one file of `length` bytes, or the reason why there is
/// none.
pub open spec fn assembled_file(
    b: BuilderView,
    default_name: Seq<char>,
    length: i64,
    pieces: Seq<Seq<u8>>,
) -> Result<TorrentView, Seq<char>> {
    match refusal(b) {
        Some(reason) => Err(reason),
        None => Ok(
            TorrentView {
                announce: b.announce,
                announce_list: b.announce_list,
                length,
                files: None,
                name: chosen_name(b, default_name),
                piece_length: b.piece_length,
                pieces,
                extra_fields: b.extra_fields,
                extra_info_fields: info_fields(b),
            },
        ),
    }
}

/// The torrent of a directory that holds `files`, or the reason why there is
/// none: the choices are refused, no file is left, or the sizes add up to
/// more than 64 bits hold.
pub open spec fn assembled_directory(
    b: BuilderView,
    default_name: Seq<char>,
    files: Seq<FileView>,
    pieces: Seq<Seq<u8>>,
) -> Result<TorrentView, Seq<char>> {
    match refusal(b) {
        Some(reason) => Err(reason),
        None => if files.len() == 0 {
            Err("TorrentBuilder has `path` that points to a directory without files."@)
        } else {
            match sum_lengths(files, 0) {
                Err(_) => Err("Torrent's length overflowed in i64."@),
                Ok(length) => Ok(
                    TorrentView {
                        announce: b.announce,
                        announce_list: b.announce_list,
                        length,
                        files: Some(files),
                        name: chosen_name(b, default_name),
                        piece_length: b.piece_length,
                        pieces,
                        extra_fields: b.extra_fields,
                        extra_info_fields: info_fields(b),
                    },
                ),
            }
        },
    }
}

/// The sum of the sizes of `files`, unless a sum on the way leaves 64 bits.
pub fn total_length(files: &Vec<File>) -> (res: Option<i64>)
    ensures
        match sum_lengths(files_of(files@), 0) {
            Ok(length) => res == Some(length),
            Err(_) => res is None,
        },
{
    let ghost all = files_of(files@);
    let mut length: i64 = 0;
    let mut i: usize = 0;
    assert(all.skip(0) =~= all);
    while i < files.len()
        invariant
            i <= files.len(),
            all == files_of(files@),
            sum_lengths(all, 0) == sum_lengths(all.skip(i as int), length as int),
        decreases files.len() - i,
    {
        assert(all.skip(i as int).drop_first() =~= all.skip(i + 1));
        assert(all.skip(i as int)[0].length == files[i as int].length);
        match length.checked_add(files[i].length) {
            Some(sum) => {
                length = sum;
            },
            None => {
                return None;
            },
        }
        i += 1;
    }
    Some(length)
}

impl TorrentBuilder {
    /// The parts that the choices give to every torrent: the trackers, the
    /// name, the piece length and the extra fields.
    fn into_torrent(
        self,
        default_name: String,
        length: i64,
        files: Option<Vec<File>>,
        pieces: Vec<Vec<u8>>,
    ) -> (res: Torrent)
        ensures
            res@ == (TorrentView {
                announce: self@.announce,
                announce_list: self@.announce_list,
                length,
                files: match files {
                    Some(f) => Some(files_of(f@)),
                    None => None,
                },
                name: chosen_name(self@, default_name@),
                piece_length: self@.piece_length,
                pieces: hashes_of(pieces@),
                extra_fields: self@.extra_fields,
                extra_info_fields: info_fields(self@),
            }),
    {
        let extra_info_fields = if self.is_private {
            let mut fields = match self.extra_info_fields {
                Some(fields) => fields,
                None => Dictionary::new(),
            };
            fields.insert("private".to_owned(), BencodeElem::Integer(1));
            Some(fields)
        } else {
            self.extra_info_fields
        };
        Torrent {
            announce: self.announce,
            announce_list: self.announce_list,
            length,
            files,
            name: match self.name {
                Some(name) => name,
                None => default_name,
            },
            piece_length: self.piece_length,
            pieces,
            extra_fields: self.extra_fields,
            extra_info_fields,
        }
    }

    /// The torrent of one file of `length` bytes whose pieces hash to
    /// `pieces`. `default_name` is the name of the file.
    pub fn assemble_file(self, default_name: String, length: i64, pieces: Vec<Vec<u8>>) -> (res:
        Result<Torrent, LavaTorrentError>)
        ensures
            match assembled_file(self@, default_name@, length, hashes_of(pieces@)) {
                Ok(torrent) => res matches Ok(t) && t@ == torrent,
                Err(reason) => res matches Err(e) && e@ == Failure::InvalidArgument(reason),
            },
    {
        match self.validate() {
            Err(e) => {
                return Err(e);
            },
            Ok(_) => {},
        }
        Ok(self.into_torrent(default_name, length, None, pieces))
    }

    /// The torrent of a directory that holds `files`, in this order, whose
    /// pieces hash to `pieces`. `default_name` is the name of the directory.
    pub fn assemble_directory(
        self,
        default_name: String,
        files: Vec<File>,
        pieces: Vec<Vec<u8>>,
    ) -> (res: Result<Torrent, LavaTorrentError>)
        ensures
            match assembled_directory(
                self@,
                default_name@,
                files_of(files@),
                hashes_of(pieces@),
            ) {
                Ok(torrent) => res matches Ok(t) && t@ == torrent,
                Err(reason) => res matches Err(e) && e@ == Failure::InvalidArgument(reason),
            },
    {
        match self.validate() {
            Err(e) => {
                return Err(e);
            },
            Ok(_) => {},
        }
        if files.len() == 0 {
            return Err(
                LavaTorrentError::invalid_argument(
                    "TorrentBuilder has `path` that points to a directory without files.",
                ),
            );
        }
        let length = match total_length(&files) {
            Some(length) => length,
            None => {
                return Err(
                    LavaTorrentError::invalid_argument("Torrent's length overflowed in i64."),
                );
            },
        };
        Ok(self.into_torrent(default_name, length, Some(files), pieces))
    }
}

/// Whether a build goes on: it ends, without a torrent, once it is
/// canceled.
pub fn proceed(canceled: bool) -> (res: Result<(), LavaTorrentError>)
    ensures
        canceled ==> (res matches Err(e) && e@ == Failure::BuildCanceled),
        !canceled ==> res is Ok,
{
    if canceled {
        Err(LavaTorrentError::BuildCanceled)
    } else {
        Ok(())
    }
}

} // verus!
