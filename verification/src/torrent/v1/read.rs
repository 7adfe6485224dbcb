//! Reading: from decoded bencode to a torrent that has been checked.

use std::borrow::Cow;
use vstd::prelude::*;
use vstd::slice::{slice_subrange, slice_to_vec};
use vstd::string::StringExecFns;
use crate::bencode::elem::{lemma_list_view, same_text, values_of, BencodeElem, Dictionary};
use crate::bencode::entries::{lemma_lookup_without, lookup, without};
use crate::bencode::model::{decode_all, ReadLimit, Value};
use crate::bencode::read::refusal_failure;
use crate::error::{Failure, LavaTorrentError};
use crate::text::{append_int, append_nat, ascii_chars, int_text, nat_text, texts_of};
use crate::torrent::v1::{
    fields_of, files_of, hashes_of, tiers_of, File, FileView, Torrent, TorrentView,
    PIECE_STRING_LENGTH,
};

verus! {

/// What was gathered so far, before what the rest yields.
pub open spec fn then<T>(done: Seq<T>, rest: Result<Seq<T>, Seq<char>>) -> Result<
    Seq<T>,
    Seq<char>,
> {
    match rest {
        Ok(more) => Ok(done + more),
        Err(e) => Err(e),
    }
}

/// The texts that `items` hold, or the reason why one of them is no text.
pub open spec fn urls_of(items: Seq<Value>) -> Result<Seq<Seq<char>>, Seq<char>>
    decreases items.len(),
{
    if items.len() == 0 {
        Ok(Seq::empty())
    } else {
        match items[0] {
            Value::Text(url) => then(seq![url], urls_of(items.drop_first())),
            _ => Err("A tier within \"announce-list\" contains a non-string element."@),
        }
    }
}

/// What a value says as one tier of trackers: a list of URLs, or the reason
/// why it is none.
pub open spec fn tier_of(v: Value) -> Result<Seq<Seq<char>>, Seq<char>> {
    match v {
        Value::List(urls) => urls_of(urls),
        _ => Err("\"announce-list\" contains a non-list element."@),
    }
}

/// The tiers that `items` hold, or the reason why the first that is none is
/// none.
pub open spec fn tiers_from(items: Seq<Value>) -> Result<Seq<Seq<Seq<char>>>, Seq<char>>
    decreases items.len(),
{
    if items.len() == 0 {
        Ok(Seq::empty())
    } else {
        match tier_of(items[0]) {
            Ok(tier) => then(seq![tier], tiers_from(items.drop_first())),
            Err(e) => Err(e),
        }
    }
}

/// The tracker that a top-level dictionary names, if any.
pub open spec fn announce_of(top: Seq<(Seq<char>, Value)>) -> Result<
    Option<Seq<char>>,
    Seq<char>,
> {
    match lookup(top, "announce"@) {
        Some(Value::Text(url)) => Ok(Some(url)),
        Some(_) => Err("\"announce\" does not map to a string (or maps to invalid UTF8)."@),
        None => Ok(None),
    }
}

/// The tiers of trackers that a top-level dictionary names, if any.
pub open spec fn announce_list_of(top: Seq<(Seq<char>, Value)>) -> Result<
    Option<Seq<Seq<Seq<char>>>>,
    Seq<char>,
> {
    match lookup(top, "announce-list"@) {
        Some(Value::List(tiers)) => match tiers_from(tiers) {
            Ok(list) => Ok(Some(list)),
            Err(e) => Err(e),
        },
        Some(_) => Err("\"announce-list\" does not map to a list."@),
        None => Ok(None),
    }
}

/// The size that a file's dictionary gives.
pub open spec fn file_length_of(file: Seq<(Seq<char>, Value)>) -> Result<i64, Seq<char>> {
    match lookup(file, "length"@) {
        Some(Value::Integer(len)) => if len >= 0 {
            Ok(len)
        } else {
            Err("\"length\" < 0."@)
        },
        Some(_) => Err("\"length\" does not map to an integer."@),
        None => Err("\"length\" does not exist."@),
    }
}

/// The path components that `items` hold, or the reason why the first that
/// is none is none: it is no text, or it is `.` or `..`.
pub open spec fn components_of(items: Seq<Value>) -> Result<Seq<Seq<char>>, Seq<char>>
    decreases items.len(),
{
    if items.len() == 0 {
        Ok(Seq::empty())
    } else {
        match items[0] {
            Value::Text(component) => if component == "."@ || component == ".."@ {
                Err("\"path\" contains \".\" or \"..\"."@)
            } else {
                then(seq![component], components_of(items.drop_first()))
            },
            _ => Err("\"path\" contains a non-string element."@),
        }
    }
}

/// The path that a file's dictionary gives.
pub open spec fn file_path_of(file: Seq<(Seq<char>, Value)>) -> Result<
    Seq<Seq<char>>,
    Seq<char>,
> {
    match lookup(file, "path"@) {
        Some(Value::List(items)) => if items.len() == 0 {
            Err("\"path\" maps to a 0-length list."@)
        } else {
            components_of(items)
        },
        Some(_) => Err("\"path\" does not map to a list."@),
        None => Err("\"path\" does not exist."@),
    }
}

/// The entries that are left over, or nothing where none is.
pub open spec fn extra_of(entries: Seq<(Seq<char>, Value)>) -> Option<Seq<(Seq<char>, Value)>> {
    if entries.len() == 0 {
        None
    } else {
        Some(entries)
    }
}

/// What a value says as a file of a torrent.
pub open spec fn file_of(v: Value) -> Result<FileView, Seq<char>> {
    match v {
        Value::Dict(file) => match file_length_of(file) {
            Err(e) => Err(e),
            Ok(length) => match file_path_of(file) {
                Err(e) => Err(e),
                Ok(path) => Ok(
                    FileView {
                        length,
                        path,
                        extra_fields: extra_of(without(without(file, "length"@), "path"@)),
                    },
                ),
            },
        },
        _ => Err("\"files\" contains a non-dictionary element."@),
    }
}

/// The files that `items` hold, or the reason why the first that is none is
/// none.
pub open spec fn files_from(items: Seq<Value>) -> Result<Seq<FileView>, Seq<char>>
    decreases items.len(),
{
    if items.len() == 0 {
        Ok(Seq::empty())
    } else {
        match file_of(items[0]) {
            Ok(file) => then(seq![file], files_from(items.drop_first())),
            Err(e) => Err(e),
        }
    }
}

/// The files that an `info` dictionary lists, if it lists any.
pub open spec fn files_in(info: Seq<(Seq<char>, Value)>) -> Result<
    Option<Seq<FileView>>,
    Seq<char>,
> {
    match lookup(info, "files"@) {
        Some(Value::List(items)) => if items.len() == 0 {
            Err("\"files\" maps to an empty list."@)
        } else {
            match files_from(items) {
                Ok(files) => Ok(Some(files)),
                Err(e) => Err(e),
            }
        },
        Some(_) => Err("\"files\" does not map to a list."@),
        None => Ok(None),
    }
}

/// The sizes of `files` added to `sum`, one after the other, unless a sum on
/// the way leaves 64 bits.
pub open spec fn sum_lengths(files: Seq<FileView>, sum: int) -> Result<i64, Seq<char>>
    decreases files.len(),
{
    if files.len() == 0 {
        Ok(sum as i64)
    } else if sum + files[0].length > i64::MAX || sum + files[0].length < i64::MIN {
        Err("Torrent's length overflowed in i64."@)
    } else {
        sum_lengths(files.drop_first(), sum + files[0].length)
    }
}

/// The size of the content: what `length` gives where there are no files,
/// and else the sum of the sizes of the files.
pub open spec fn length_of(info: Seq<(Seq<char>, Value)>, files: Option<Seq<FileView>>) -> Result<
    i64,
    Seq<char>,
> {
    match lookup(info, "length"@) {
        Some(Value::Integer(len)) => if files is Some {
            Err("Both \"length\" and \"files\" exist."@)
        } else {
            Ok(len)
        },
        Some(_) => Err("\"length\" does not map to an integer."@),
        None => match files {
            Some(listed) => sum_lengths(listed, 0),
            None => Err("Neither \"length\" nor \"files\" exists."@),
        },
    }
}

/// The name that an `info` dictionary gives.
pub open spec fn name_of(info: Seq<(Seq<char>, Value)>) -> Result<Seq<char>, Seq<char>> {
    match lookup(info, "name"@) {
        Some(Value::Text(name)) => Ok(name),
        Some(_) => Err("\"name\" does not map to a string (or maps to invalid UTF8)."@),
        None => Err("\"name\" does not exist."@),
    }
}

/// The size of a piece that an `info` dictionary gives.
pub open spec fn piece_length_of(info: Seq<(Seq<char>, Value)>) -> Result<i64, Seq<char>> {
    match lookup(info, "piece length"@) {
        Some(Value::Integer(len)) => if len > 0 {
            Ok(len)
        } else {
            Err("\"piece length\" <= 0."@)
        },
        Some(_) => Err("\"piece length\" does not map to an integer."@),
        None => Err("\"piece length\" does not exist."@),
    }
}

/// `bytes` cut into hashes of 20 bytes each.
pub open spec fn hashes_in(bytes: Seq<u8>) -> Seq<Seq<u8>> {
    Seq::new((bytes.len() / 20) as nat, |i: int| bytes.subrange(20 * i, 20 * i + 20))
}

/// The hashes that an `info` dictionary gives.
pub open spec fn pieces_in(info: Seq<(Seq<char>, Value)>) -> Result<Seq<Seq<u8>>, Seq<char>> {
    match lookup(info, "pieces"@) {
        Some(Value::Bytes(bytes)) => if bytes.len() == 0 {
            Err("\"pieces\" maps to an empty sequence."@)
        } else if bytes.len() % 20 != 0 {
            Err("\"pieces\"' length is not a multiple of 20."@)
        } else {
            Ok(hashes_in(bytes))
        },
        Some(_) => Err("\"pieces\" does not map to a sequence of bytes."@),
        None => Err("\"pieces\" does not exist."@),
    }
}

/// The entries of an `info` dictionary that no known key names.
pub open spec fn info_rest(info: Seq<(Seq<char>, Value)>) -> Seq<(Seq<char>, Value)> {
    without(
        without(
            without(without(without(info, "files"@), "length"@), "name"@),
            "piece length"@,
        ),
        "pieces"@,
    )
}

/// The entries of a top-level dictionary that no known key names.
pub open spec fn top_rest(top: Seq<(Seq<char>, Value)>) -> Seq<(Seq<char>, Value)> {
    without(without(without(top, "announce"@), "announce-list"@), "info"@)
}

/// The torrent that a top-level dictionary describes, or the reason why it
/// describes none. Of several reasons, the one that is met first counts:
/// trackers come before `info`, and within `info` the files, the length, the
/// name, the piece length and the pieces come in this order.
pub open spec fn torrent_of(top: Seq<(Seq<char>, Value)>) -> Result<TorrentView, Seq<char>> {
    match announce_of(top) {
        Err(e) => Err(e),
        Ok(announce) => match announce_list_of(top) {
            Err(e) => Err(e),
            Ok(announce_list) => match lookup(top, "info"@) {
                Some(Value::Dict(info)) => match files_in(info) {
                    Err(e) => Err(e),
                    Ok(files) => match length_of(info, files) {
                        Err(e) => Err(e),
                        Ok(length) => match name_of(info) {
                            Err(e) => Err(e),
                            Ok(name) => match piece_length_of(info) {
                                Err(e) => Err(e),
                                Ok(piece_length) => match pieces_in(info) {
                                    Err(e) => Err(e),
                                    Ok(pieces) => Ok(
                                        TorrentView {
                                            announce,
                                            announce_list,
                                            length,
                                            files,
                                            name,
                                            piece_length,
                                            pieces,
                                            extra_fields: extra_of(top_rest(top)),
                                            extra_info_fields: extra_of(info_rest(info)),
                                        },
                                    ),
                                },
                            },
                        },
                    },
                },
                Some(_) => Err("\"info\" is not a dictionary."@),
                None => Err("\"info\" does not exist."@),
            },
        },
    }
}

/// The reason that is given where the input does not hold one element.
pub open spec fn count_text(n: nat) -> Seq<char> {
    "Torrent should contain 1 and only 1 top-level element, "@ + ascii_chars(nat_text(n))
        + " found."@
}

/// The torrent that decoded input describes: the input has to hold one
/// element, and that a dictionary.
pub open spec fn parsed_torrent(parsed: Seq<Value>) -> Result<TorrentView, Seq<char>> {
    if parsed.len() != 1 {
        Err(count_text(parsed.len()))
    } else {
        match parsed[0] {
            Value::Dict(top) => torrent_of(top),
            _ => Err("Torrent's top-level element is not a dictionary."@),
        }
    }
}

/// The reason that is given where the pieces cover less than the content.
pub open spec fn mismatch_text(total: int, length: int) -> Seq<char> {
    "Total piece length "@ + ascii_chars(nat_text(total as nat)) + " < torrent's length "@
        + ascii_chars(int_text(length)) + "."@
}

/// Whether a torrent is consistent, and if not, why not: the pieces have to
/// cover the content, their total size has to fit in the machine's word, and
/// the content has to have a size.
pub open spec fn checked(t: TorrentView) -> Result<(), Seq<char>> {
    if t.piece_length < 0 {
        Err("\"piece length\" < 0."@)
    } else if t.piece_length * t.pieces.len() > usize::MAX || t.piece_length > usize::MAX {
        Err("Torrent's total piece length overflowed in usize."@)
    } else if t.piece_length * t.pieces.len() < t.length {
        Err(mismatch_text(t.piece_length * t.pieces.len(), t.length as int))
    } else if t.length <= 0 {
        Err("\"length\" <= 0."@)
    } else {
        Ok(())
    }
}

/// What reading `bytes` as a torrent yields: they are decoded, the element
/// is taken apart, and the torrent is checked.
pub open spec fn read(bytes: Seq<u8>) -> Result<TorrentView, Failure> {
    match decode_all(bytes, ReadLimit::NoLimit) {
        Err(r) => Err(refusal_failure(r)),
        Ok(parsed) => match parsed_torrent(parsed) {
            Err(reason) => Err(Failure::MalformedTorrent(reason)),
            Ok(t) => match checked(t) {
                Err(reason) => Err(Failure::MalformedTorrent(reason)),
                Ok(_) => Ok(t),
            },
        },
    }
}

/// The known keys of a file's dictionary differ.
pub proof fn lemma_file_keys()
    ensures
        "length"@ != "path"@,
{
    reveal_strlit("length");
    reveal_strlit("path");
    assert("length"@.len() == 6 && "path"@.len() == 4);
}

/// The known keys of a top-level dictionary differ.
pub proof fn lemma_top_keys()
    ensures
        "announce"@ != "announce-list"@,
        "announce"@ != "info"@,
        "announce-list"@ != "info"@,
{
    reveal_strlit("announce");
    reveal_strlit("announce-list");
    reveal_strlit("info");
    assert("announce"@.len() == 8 && "announce-list"@.len() == 13 && "info"@.len() == 4);
}

/// The known keys of an `info` dictionary differ.
pub proof fn lemma_info_keys()
    ensures
        "files"@ != "length"@,
        "files"@ != "name"@,
        "files"@ != "piece length"@,
        "files"@ != "pieces"@,
        "length"@ != "name"@,
        "length"@ != "piece length"@,
        "length"@ != "pieces"@,
        "name"@ != "piece length"@,
        "name"@ != "pieces"@,
        "piece length"@ != "pieces"@,
{
    reveal_strlit("files");
    reveal_strlit("length");
    reveal_strlit("name");
    reveal_strlit("piece length");
    reveal_strlit("pieces");
    assert("files"@.len() == 5 && "length"@.len() == 6 && "name"@.len() == 4);
    assert("piece length"@.len() == 12 && "pieces"@.len() == 6);
    assert("length"@[0] != "pieces"@[0]);
}

impl File {
    /// Takes a file's dictionary apart.
    pub fn extract_file(elem: BencodeElem) -> (res: Result<File, LavaTorrentError>)
        ensures
            match file_of(elem@) {
                Ok(file) => res matches Ok(f) && f@ == file,
                Err(reason) => res matches Err(e) && e@ == Failure::MalformedTorrent(reason),
            },
    {
        match elem {
            BencodeElem::Dictionary(mut dict) => {
                let ghost file = dict@;
                proof {
                    lemma_file_keys();
                    lemma_lookup_without(file, "length"@, "path"@);
                }
                let length = match File::extract_file_length(&mut dict) {
                    Ok(length) => length,
                    Err(e) => {
                        return Err(e);
                    },
                };
                let path = match File::extract_file_path(&mut dict) {
                    Ok(path) => path,
                    Err(e) => {
                        return Err(e);
                    },
                };
                Ok(File { length, path, extra_fields: File::extract_file_extra_fields(dict) })
            },
            _ => Err(
                LavaTorrentError::malformed_torrent("\"files\" contains a non-dictionary element."),
            ),
        }
    }

    /// Takes the size out of a file's dictionary.
    pub fn extract_file_length(dict: &mut Dictionary) -> (res: Result<i64, LavaTorrentError>)
        ensures
            final(dict)@ == without(old(dict)@, "length"@),
            match file_length_of(old(dict)@) {
                Ok(length) => res matches Ok(l) && l == length,
                Err(reason) => res matches Err(e) && e@ == Failure::MalformedTorrent(reason),
            },
    {
        match dict.remove("length") {
            Some(BencodeElem::Integer(len)) => {
                if len >= 0 {
                    Ok(len)
                } else {
                    Err(LavaTorrentError::malformed_torrent("\"length\" < 0."))
                }
            },
            Some(_) => Err(
                LavaTorrentError::malformed_torrent("\"length\" does not map to an integer."),
            ),
            None => Err(LavaTorrentError::malformed_torrent("\"length\" does not exist.")),
        }
    }

    /// Takes the path out of a file's dictionary.
    pub fn extract_file_path(dict: &mut Dictionary) -> (res: Result<
        Vec<String>,
        LavaTorrentError,
    >)
        ensures
            final(dict)@ == without(old(dict)@, "path"@),
            match file_path_of(old(dict)@) {
                Ok(path) => res matches Ok(p) && texts_of(p@) == path,
                Err(reason) => res matches Err(e) && e@ == Failure::MalformedTorrent(reason),
            },
    {
        match dict.remove("path") {
            Some(BencodeElem::List(list)) => {
                if list.len() == 0 {
                    return Err(
                        LavaTorrentError::malformed_torrent("\"path\" maps to a 0-length list."),
                    );
                }
                let mut path: Vec<String> = Vec::new();
                let ghost all = values_of(list@);
                proof {
                    lemma_list_view(list);
                    assert(all.skip(0) =~= all);
                    assert(texts_of(path@) =~= Seq::<Seq<char>>::empty());
                }
                for component in it: list
                    invariant
                        all == values_of(it.seq()),
                        all.len() > 0,
                        lookup(old(dict)@, "path"@) == Some(Value::List(all)),
                        dict@ == without(old(dict)@, "path"@),
                        components_of(all) == then(
                            texts_of(path@),
                            components_of(all.skip(it.index() as int)),
                        ),
                {
                    proof {
                        let i = it.index() as int;
                        assert(all.skip(i).drop_first() =~= all.skip(i + 1));
                        assert(all.skip(i)[0] == component@);
                        if let Value::Text(text) = component@ {
                            if let Ok(rest) = components_of(all.skip(i + 1)) {
                                assert(texts_of(path@) + (seq![text] + rest) =~= texts_of(
                                    path@,
                                ).push(text) + rest);
                            }
                        }
                    }
                    let ghost before = path@;
                    match component {
                        BencodeElem::String(component) => {
                            if same_text(component.as_str(), ".") || same_text(
                                component.as_str(),
                                "..",
                            ) {
                                return Err(
                                    LavaTorrentError::malformed_torrent(
                                        "\"path\" contains \".\" or \"..\".",
                                    ),
                                );
                            }
                            path.push(component);
                            assert(texts_of(path@) =~= texts_of(before).push(component@));
                        },
                        _ => {
                            return Err(
                                LavaTorrentError::malformed_torrent(
                                    "\"path\" contains a non-string element.",
                                ),
                            );
                        },
                    }
                }
                proof {
                    assert(all.skip(all.len() as int) =~= Seq::<Value>::empty());
                    assert(texts_of(path@) + Seq::<Seq<char>>::empty() =~= texts_of(path@));
                }
                Ok(path)
            },
            Some(_) => Err(LavaTorrentError::malformed_torrent("\"path\" does not map to a list.")),
            None => Err(LavaTorrentError::malformed_torrent("\"path\" does not exist.")),
        }
    }

    /// What is left of a file's dictionary, unless nothing is.
    pub fn extract_file_extra_fields(dict: Dictionary) -> (res: Option<Dictionary>)
        ensures
            fields_of(res) == extra_of(dict@),
    {
        if dict.is_empty() {
            None
        } else {
            Some(dict)
        }
    }
}

impl Torrent {
    /// Reads a torrent from the bytes of a torrent file.
    pub fn read_from_bytes(bytes: &[u8]) -> (res: Result<Torrent, LavaTorrentError>)
        ensures
            match read(bytes@) {
                Ok(torrent) => res matches Ok(t) && t@ == torrent,
                Err(failure) => res matches Err(e) && e@ == failure,
            },
    {
        let parsed = match BencodeElem::from_bytes(bytes, ReadLimit::NoLimit) {
            Ok(parsed) => parsed,
            Err(e) => {
                return Err(e);
            },
        };
        let torrent = match Torrent::from_parsed(parsed) {
            Ok(torrent) => torrent,
            Err(e) => {
                return Err(e);
            },
        };
        torrent.validate()
    }

    /// Checks that the torrent is consistent, and hands it back if it is.
    pub fn validate(self) -> (res: Result<Torrent, LavaTorrentError>)
        ensures
            match checked(self@) {
                Ok(_) => res == Ok::<Torrent, LavaTorrentError>(self),
                Err(reason) => res matches Err(e) && e@ == Failure::MalformedTorrent(reason),
            },
    {
        if self.piece_length < 0 {
            return Err(LavaTorrentError::malformed_torrent("\"piece length\" < 0."));
        }
        let count = self.pieces.len();
        let ghost n = self.piece_length * count;
        assert(hashes_of(self.pieces@).len() == count);
        assert(0 <= n <= 0x7fff_ffff_ffff_ffff * 0xffff_ffff_ffff_ffff) by (nonlinear_arith)
            requires
                n == self.piece_length * count,
                0 <= self.piece_length <= 0x7fff_ffff_ffff_ffff,
                0 <= count <= 0xffff_ffff_ffff_ffff,
        ;
        let total: u128 = (self.piece_length as u128) * (count as u128);
        if total > usize::MAX as u128 || self.piece_length as u128 > usize::MAX as u128 {
            return Err(
                LavaTorrentError::malformed_torrent(
                    "Torrent's total piece length overflowed in usize.",
                ),
            );
        }
        if (total as i128) < self.length as i128 {
            let mut reason = "Total piece length ".to_owned();
            append_nat(&mut reason, total as u64);
            reason.append(" < torrent's length ");
            append_int(&mut reason, self.length);
            reason.append(".");
            assert(reason@ =~= mismatch_text(n, self.length as int));
            return Err(LavaTorrentError::MalformedTorrent(Cow::Owned(reason)));
        }
        if self.length <= 0 {
            return Err(LavaTorrentError::malformed_torrent("\"length\" <= 0."));
        }
        Ok(self)
    }

    /// Takes decoded input apart into a torrent.
    #[verifier::rlimit(50)]
    pub fn from_parsed(parsed: Vec<BencodeElem>) -> (res: Result<Torrent, LavaTorrentError>)
        ensures
            match parsed_torrent(values_of(parsed@)) {
                Ok(torrent) => res matches Ok(t) && t@ == torrent,
                Err(reason) => res matches Err(e) && e@ == Failure::MalformedTorrent(reason),
            },
    {
        let mut parsed = parsed;
        if parsed.len() != 1 {
            let mut reason = "Torrent should contain 1 and only 1 top-level element, ".to_owned();
            append_nat(&mut reason, parsed.len() as u64);
            reason.append(" found.");
            assert(reason@ =~= count_text(parsed@.len()));
            return Err(LavaTorrentError::MalformedTorrent(Cow::Owned(reason)));
        }
        let first = parsed.remove(0);
        match first {
            BencodeElem::Dictionary(mut top) => {
                let ghost whole = top@;
                proof {
                    lemma_top_keys();
                    lemma_lookup_without(whole, "announce"@, "announce-list"@);
                    lemma_lookup_without(whole, "announce"@, "info"@);
                    lemma_lookup_without(without(whole, "announce"@), "announce-list"@, "info"@);
                }
                let announce = match Torrent::extract_announce(&mut top) {
                    Ok(announce) => announce,
                    Err(e) => {
                        return Err(e);
                    },
                };
                let announce_list = match Torrent::extract_announce_list(&mut top) {
                    Ok(list) => list,
                    Err(e) => {
                        return Err(e);
                    },
                };
                let info = top.remove("info");
                let extra_fields = Torrent::extract_extra_fields(top);
                match info {
                    Some(BencodeElem::Dictionary(mut info)) => {
                        let ghost all = info@;
                        proof {
                            lemma_info_keys();
                            let a = without(all, "files"@);
                            let b = without(a, "length"@);
                            let c = without(b, "name"@);
                            let d = without(c, "piece length"@);
                            lemma_lookup_without(all, "files"@, "length"@);
                            lemma_lookup_without(all, "files"@, "name"@);
                            lemma_lookup_without(all, "files"@, "piece length"@);
                            lemma_lookup_without(all, "files"@, "pieces"@);
                            lemma_lookup_without(a, "length"@, "name"@);
                            lemma_lookup_without(a, "length"@, "piece length"@);
                            lemma_lookup_without(a, "length"@, "pieces"@);
                            lemma_lookup_without(b, "name"@, "piece length"@);
                            lemma_lookup_without(b, "name"@, "pieces"@);
                            lemma_lookup_without(c, "piece length"@, "pieces"@);
                        }
                        let files = match Torrent::extract_files(&mut info) {
                            Ok(files) => files,
                            Err(e) => {
                                return Err(e);
                            },
                        };
                        let length = match Torrent::extract_length(&mut info, &files) {
                            Ok(length) => length,
                            Err(e) => {
                                return Err(e);
                            },
                        };
                        let name = match Torrent::extract_name(&mut info) {
                            Ok(name) => name,
                            Err(e) => {
                                return Err(e);
                            },
                        };
                        let piece_length = match Torrent::extract_piece_length(&mut info) {
                            Ok(piece_length) => piece_length,
                            Err(e) => {
                                return Err(e);
                            },
                        };
                        let pieces = match Torrent::extract_pieces(&mut info) {
                            Ok(pieces) => pieces,
                            Err(e) => {
                                return Err(e);
                            },
                        };
                        Ok(
                            Torrent {
                                announce,
                                announce_list,
                                length,
                                files,
                                name,
                                piece_length,
                                pieces,
                                extra_fields,
                                extra_info_fields: Torrent::extract_extra_fields(info),
                            },
                        )
                    },
                    Some(_) => Err(
                        LavaTorrentError::malformed_torrent("\"info\" is not a dictionary."),
                    ),
                    None => Err(LavaTorrentError::malformed_torrent("\"info\" does not exist.")),
                }
            },
            _ => Err(
                LavaTorrentError::malformed_torrent(
                    "Torrent's top-level element is not a dictionary.",
                ),
            ),
        }
    }

    /// Takes the tracker out of a top-level dictionary.
    pub fn extract_announce(dict: &mut Dictionary) -> (res: Result<
        Option<String>,
        LavaTorrentError,
    >)
        ensures
            final(dict)@ == without(old(dict)@, "announce"@),
            match announce_of(old(dict)@) {
                Ok(Some(url)) => res matches Ok(Some(u)) && u@ == url,
                Ok(None) => res matches Ok(None),
                Err(reason) => res matches Err(e) && e@ == Failure::MalformedTorrent(reason),
            },
    {
        match dict.remove("announce") {
            Some(BencodeElem::String(url)) => Ok(Some(url)),
            Some(_) => Err(
                LavaTorrentError::malformed_torrent(
                    "\"announce\" does not map to a string (or maps to invalid UTF8).",
                ),
            ),
            None => Ok(None),
        }
    }

    /// Takes the tiers of trackers out of a top-level dictionary.
    pub fn extract_announce_list(dict: &mut Dictionary) -> (res: Result<
        Option<Vec<Vec<String>>>,
        LavaTorrentError,
    >)
        ensures
            final(dict)@ == without(old(dict)@, "announce-list"@),
            match announce_list_of(old(dict)@) {
                Ok(Some(list)) => res matches Ok(Some(l)) && tiers_of(l@) == list,
                Ok(None) => res matches Ok(None),
                Err(reason) => res matches Err(e) && e@ == Failure::MalformedTorrent(reason),
            },
    {
        match dict.remove("announce-list") {
            Some(BencodeElem::List(tiers)) => {
                let mut list: Vec<Vec<String>> = Vec::new();
                let ghost all = values_of(tiers@);
                proof {
                    lemma_list_view(tiers);
                    assert(all.skip(0) =~= all);
                    assert(tiers_of(list@) =~= Seq::<Seq<Seq<char>>>::empty());
                }
                for tier in it: tiers
                    invariant
                        all == values_of(it.seq()),
                        lookup(old(dict)@, "announce-list"@) == Some(Value::List(all)),
                        dict@ == without(old(dict)@, "announce-list"@),
                        tiers_from(all) == then(
                            tiers_of(list@),
                            tiers_from(all.skip(it.index() as int)),
                        ),
                {
                    proof {
                        let i = it.index() as int;
                        assert(all.skip(i).drop_first() =~= all.skip(i + 1));
                        assert(all.skip(i)[0] == tier@);
                        if let Ok(urls) = tier_of(tier@) {
                            if let Ok(rest) = tiers_from(all.skip(i + 1)) {
                                assert(tiers_of(list@) + (seq![urls] + rest) =~= tiers_of(
                                    list@,
                                ).push(urls) + rest);
                            }
                        }
                    }
                    let ghost before = list@;
                    match Torrent::extract_announce_list_tier(tier) {
                        Ok(urls) => {
                            list.push(urls);
                            assert(tiers_of(list@) =~= tiers_of(before).push(texts_of(urls@)));
                        },
                        Err(e) => {
                            return Err(e);
                        },
                    }
                }
                proof {
                    assert(all.skip(all.len() as int) =~= Seq::<Value>::empty());
                    assert(tiers_of(list@) + Seq::<Seq<Seq<char>>>::empty() =~= tiers_of(list@));
                }
                Ok(Some(list))
            },
            Some(_) => Err(
                LavaTorrentError::malformed_torrent("\"announce-list\" does not map to a list."),
            ),
            None => Ok(None),
        }
    }

    /// Takes one tier of trackers apart.
    pub fn extract_announce_list_tier(elem: BencodeElem) -> (res: Result<
        Vec<String>,
        LavaTorrentError,
    >)
        ensures
            match tier_of(elem@) {
                Ok(urls) => res matches Ok(tier) && texts_of(tier@) == urls,
                Err(reason) => res matches Err(e) && e@ == Failure::MalformedTorrent(reason),
            },
    {
        match elem {
            BencodeElem::List(urls) => {
                let mut tier: Vec<String> = Vec::new();
                let ghost all = values_of(urls@);
                proof {
                    lemma_list_view(urls);
                    assert(all.skip(0) =~= all);
                    assert(texts_of(tier@) =~= Seq::<Seq<char>>::empty());
                }
                for url in it: urls
                    invariant
                        elem@ == Value::List(all),
                        all == values_of(it.seq()),
                        urls_of(all) == then(
                            texts_of(tier@),
                            urls_of(all.skip(it.index() as int)),
                        ),
                {
                    proof {
                        let i = it.index() as int;
                        assert(all.skip(i).drop_first() =~= all.skip(i + 1));
                        assert(all.skip(i)[0] == url@);
                        if let Value::Text(text) = url@ {
                            if let Ok(rest) = urls_of(all.skip(i + 1)) {
                                assert(texts_of(tier@) + (seq![text] + rest) =~= texts_of(
                                    tier@,
                                ).push(text) + rest);
                            }
                        }
                    }
                    let ghost before = tier@;
                    match url {
                        BencodeElem::String(url) => {
                            tier.push(url);
                            assert(texts_of(tier@) =~= texts_of(before).push(url@));
                        },
                        _ => {
                            return Err(
                                LavaTorrentError::malformed_torrent(
                                    "A tier within \"announce-list\" contains a non-string element.",
                                ),
                            );
                        },
                    }
                }
                proof {
                    assert(all.skip(all.len() as int) =~= Seq::<Value>::empty());
                    assert(texts_of(tier@) + Seq::<Seq<char>>::empty() =~= texts_of(tier@));
                }
                Ok(tier)
            },
            _ => Err(
                LavaTorrentError::malformed_torrent(
                    "\"announce-list\" contains a non-list element.",
                ),
            ),
        }
    }

    /// Takes the files out of an `info` dictionary.
    pub fn extract_files(dict: &mut Dictionary) -> (res: Result<
        Option<Vec<File>>,
        LavaTorrentError,
    >)
        ensures
            final(dict)@ == without(old(dict)@, "files"@),
            match files_in(old(dict)@) {
                Ok(Some(files)) => res matches Ok(Some(f)) && files_of(f@) == files,
                Ok(None) => res matches Ok(None),
                Err(reason) => res matches Err(e) && e@ == Failure::MalformedTorrent(reason),
            },
    {
        match dict.remove("files") {
            Some(BencodeElem::List(list)) => {
                if list.len() == 0 {
                    return Err(
                        LavaTorrentError::malformed_torrent("\"files\" maps to an empty list."),
                    );
                }
                let mut files: Vec<File> = Vec::new();
                let ghost all = values_of(list@);
                proof {
                    lemma_list_view(list);
                    assert(all.skip(0) =~= all);
                    assert(files_of(files@) =~= Seq::<FileView>::empty());
                }
                for file in it: list
                    invariant
                        all == values_of(it.seq()),
                        all.len() > 0,
                        lookup(old(dict)@, "files"@) == Some(Value::List(all)),
                        dict@ == without(old(dict)@, "files"@),
                        files_from(all) == then(
                            files_of(files@),
                            files_from(all.skip(it.index() as int)),
                        ),
                {
                    proof {
                        let i = it.index() as int;
                        assert(all.skip(i).drop_first() =~= all.skip(i + 1));
                        assert(all.skip(i)[0] == file@);
                        if let Ok(one) = file_of(file@) {
                            if let Ok(rest) = files_from(all.skip(i + 1)) {
                                assert(files_of(files@) + (seq![one] + rest) =~= files_of(
                                    files@,
                                ).push(one) + rest);
                            }
                        }
                    }
                    let ghost before = files@;
                    match File::extract_file(file) {
                        Ok(one) => {
                            files.push(one);
                            assert(files_of(files@) =~= files_of(before).push(one@));
                        },
                        Err(e) => {
                            return Err(e);
                        },
                    }
                }
                proof {
                    assert(all.skip(all.len() as int) =~= Seq::<Value>::empty());
                    assert(files_of(files@) + Seq::<FileView>::empty() =~= files_of(files@));
                }
                Ok(Some(files))
            },
            Some(_) => Err(
                LavaTorrentError::malformed_torrent("\"files\" does not map to a list."),
            ),
            None => Ok(None),
        }
    }

    /// Takes the size of the content out of an `info` dictionary, or adds up
    /// the sizes of the files where it gives none.
    pub fn extract_length(dict: &mut Dictionary, files: &Option<Vec<File>>) -> (res: Result<
        i64,
        LavaTorrentError,
    >)
        ensures
            final(dict)@ == without(old(dict)@, "length"@),
            match length_of(
                old(dict)@,
                match files {
                    Some(f) => Some(files_of(f@)),
                    None => None,
                },
            ) {
                Ok(length) => res matches Ok(l) && l == length,
                Err(reason) => res matches Err(e) && e@ == Failure::MalformedTorrent(reason),
            },
    {
        match dict.remove("length") {
            Some(BencodeElem::Integer(len)) => {
                if files.is_some() {
                    Err(LavaTorrentError::malformed_torrent("Both \"length\" and \"files\" exist."))
                } else {
                    Ok(len)
                }
            },
            Some(_) => Err(
                LavaTorrentError::malformed_torrent("\"length\" does not map to an integer."),
            ),
            None => {
                match files {
                    Some(listed) => {
                        let ghost all = files_of(listed@);
                        let mut length: i64 = 0;
                        let mut i: usize = 0;
                        assert(all.skip(0) =~= all);
                        while i < listed.len()
                            invariant
                                i <= listed.len(),
                                *files == Some(*listed),
                                all == files_of(listed@),
                                dict@ == without(old(dict)@, "length"@),
                                lookup(old(dict)@, "length"@) is None,
                                sum_lengths(all, 0) == sum_lengths(
                                    all.skip(i as int),
                                    length as int,
                                ),
                            decreases listed.len() - i,
                        {
                            assert(all.skip(i as int).drop_first() =~= all.skip(i + 1));
                            assert(all.skip(i as int)[0].length == listed[i as int].length);
                            match length.checked_add(listed[i].length) {
                                Some(sum) => {
                                    length = sum;
                                },
                                None => {
                                    return Err(
                                        LavaTorrentError::malformed_torrent(
                                            "Torrent's length overflowed in i64.",
                                        ),
                                    );
                                },
                            }
                            i += 1;
                        }
                        Ok(length)
                    },
                    None => Err(
                        LavaTorrentError::malformed_torrent(
                            "Neither \"length\" nor \"files\" exists.",
                        ),
                    ),
                }
            },
        }
    }

    /// Takes the name out of an `info` dictionary.
    pub fn extract_name(dict: &mut Dictionary) -> (res: Result<String, LavaTorrentError>)
        ensures
            final(dict)@ == without(old(dict)@, "name"@),
            match name_of(old(dict)@) {
                Ok(name) => res matches Ok(n) && n@ == name,
                Err(reason) => res matches Err(e) && e@ == Failure::MalformedTorrent(reason),
            },
    {
        match dict.remove("name") {
            Some(BencodeElem::String(name)) => Ok(name),
            Some(_) => Err(
                LavaTorrentError::malformed_torrent(
                    "\"name\" does not map to a string (or maps to invalid UTF8).",
                ),
            ),
            None => Err(LavaTorrentError::malformed_torrent("\"name\" does not exist.")),
        }
    }

    /// Takes the size of a piece out of an `info` dictionary.
    pub fn extract_piece_length(dict: &mut Dictionary) -> (res: Result<i64, LavaTorrentError>)
        ensures
            final(dict)@ == without(old(dict)@, "piece length"@),
            match piece_length_of(old(dict)@) {
                Ok(length) => res matches Ok(l) && l == length,
                Err(reason) => res matches Err(e) && e@ == Failure::MalformedTorrent(reason),
            },
    {
        match dict.remove("piece length") {
            Some(BencodeElem::Integer(len)) => {
                if len > 0 {
                    Ok(len)
                } else {
                    Err(LavaTorrentError::malformed_torrent("\"piece length\" <= 0."))
                }
            },
            Some(_) => Err(
                LavaTorrentError::malformed_torrent("\"piece length\" does not map to an integer."),
            ),
            None => Err(LavaTorrentError::malformed_torrent("\"piece length\" does not exist.")),
        }
    }

    /// Takes the hashes of the pieces out of an `info` dictionary.
    pub fn extract_pieces(dict: &mut Dictionary) -> (res: Result<Vec<Vec<u8>>, LavaTorrentError>)
        ensures
            final(dict)@ == without(old(dict)@, "pieces"@),
            match pieces_in(old(dict)@) {
                Ok(pieces) => res matches Ok(p) && hashes_of(p@) == pieces,
                Err(reason) => res matches Err(e) && e@ == Failure::MalformedTorrent(reason),
            },
    {
        match dict.remove("pieces") {
            Some(BencodeElem::Bytes(bytes)) => {
                if bytes.len() == 0 {
                    Err(
                        LavaTorrentError::malformed_torrent(
                            "\"pieces\" maps to an empty sequence.",
                        ),
                    )
                } else if bytes.len() % PIECE_STRING_LENGTH != 0 {
                    Err(
                        LavaTorrentError::malformed_torrent(
                            "\"pieces\"' length is not a multiple of 20.",
                        ),
                    )
                } else {
                    let mut pieces: Vec<Vec<u8>> = Vec::new();
                    let count = bytes.len() / PIECE_STRING_LENGTH;
                    let mut i: usize = 0;
                    while i < count
                        invariant
                            i <= count,
                            count == bytes.len() / 20,
                            bytes.len() % 20 == 0,
                            pieces.len() == i,
                            forall|j: int|
                                0 <= j < i ==> (#[trigger] pieces[j])@ == bytes@.subrange(
                                    20 * j,
                                    20 * j + 20,
                                ),
                        decreases count - i,
                    {
                        let from = PIECE_STRING_LENGTH * i;
                        let chunk = slice_subrange(
                            bytes.as_slice(),
                            from,
                            from + PIECE_STRING_LENGTH,
                        );
                        pieces.push(slice_to_vec(chunk));
                        i += 1;
                    }
                    assert(hashes_of(pieces@) =~= hashes_in(bytes@));
                    Ok(pieces)
                }
            },
            Some(_) => Err(
                LavaTorrentError::malformed_torrent(
                    "\"pieces\" does not map to a sequence of bytes.",
                ),
            ),
            None => Err(LavaTorrentError::malformed_torrent("\"pieces\" does not exist.")),
        }
    }

    /// What is left of a dictionary, unless nothing is.
    pub fn extract_extra_fields(dict: Dictionary) -> (res: Option<Dictionary>)
        ensures
            fields_of(res) == extra_of(dict@),
    {
        if dict.is_empty() {
            None
        } else {
            Some(dict)
        }
    }
}

} // verus!
