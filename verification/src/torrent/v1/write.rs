//! Writing: from a torrent to the bencode that stands for it, and to bytes.

use vstd::prelude::*;
use crate::bencode::elem::{lemma_list_view, values_of, BencodeElem, Dictionary};
use crate::bencode::entries::put;
use crate::bencode::model::{encode, Value};
use crate::text::texts_of;
use crate::torrent::v1::{
    concat_all, file_value, file_values, files_of, hashes_of, info_of, merged, text_values,
    tiers_of, File, Torrent, TorrentView,
};

verus! {

/// Each tier of `tiers` as a list of texts.
pub open spec fn tier_values(tiers: Seq<Seq<Seq<char>>>) -> Seq<Value> {
    Seq::new(tiers.len(), |i: int| Value::List(text_values(tiers[i])))
}

/// The top-level dictionary of a torrent: the trackers where there are any,
/// `info`, and over them the extra fields.
pub open spec fn outer_of(t: TorrentView) -> Value {
    let first: Seq<(Seq<char>, Value)> = match t.announce {
        Some(url) => put(Seq::empty(), "announce"@, Value::Text(url)),
        None => Seq::empty(),
    };
    let second = match t.announce_list {
        Some(tiers) => put(first, "announce-list"@, Value::List(tier_values(tiers))),
        None => first,
    };
    Value::Dict(merged(put(second, "info"@, info_of(t)), t.extra_fields))
}

/// The bytes of the torrent file that holds `t`.
pub open spec fn written(t: TorrentView) -> Seq<u8> {
    encode(outer_of(t))
}

/// The texts of `strings` as a list of bencode strings.
pub(crate) fn texts_elem(strings: &Vec<String>) -> (res: BencodeElem)
    ensures
        res@ == Value::List(text_values(texts_of(strings@))),
{
    let mut items: Vec<BencodeElem> = Vec::new();
    let mut i: usize = 0;
    while i < strings.len()
        invariant
            i <= strings.len(),
            items.len() == i,
            forall|j: int| 0 <= j < i ==> (#[trigger] items[j])@ == Value::Text(strings[j]@),
        decreases strings.len() - i,
    {
        items.push(BencodeElem::String(strings[i].clone()));
        i += 1;
    }
    proof {
        lemma_list_view(items);
        assert(values_of(items@) =~= text_values(texts_of(strings@)));
    }
    BencodeElem::List(items)
}

/// The tiers of `tiers` as a list of lists of bencode strings.
pub(crate) fn tiers_elem(tiers: &Vec<Vec<String>>) -> (res: BencodeElem)
    ensures
        res@ == Value::List(tier_values(tiers_of(tiers@))),
{
    let mut items: Vec<BencodeElem> = Vec::new();
    let mut i: usize = 0;
    while i < tiers.len()
        invariant
            i <= tiers.len(),
            items.len() == i,
            forall|j: int|
                0 <= j < i ==> (#[trigger] items[j])@ == Value::List(
                    text_values(texts_of(tiers[j]@)),
                ),
        decreases tiers.len() - i,
    {
        items.push(texts_elem(&tiers[i]));
        i += 1;
    }
    proof {
        lemma_list_view(items);
        assert(values_of(items@) =~= tier_values(tiers_of(tiers@)));
    }
    BencodeElem::List(items)
}

/// The files of `files` as a list of dictionaries.
pub(crate) fn files_elem(files: &Vec<File>) -> (res: BencodeElem)
    ensures
        res@ == Value::List(file_values(files_of(files@))),
{
    let mut items: Vec<BencodeElem> = Vec::new();
    let mut i: usize = 0;
    while i < files.len()
        invariant
            i <= files.len(),
            items.len() == i,
            forall|j: int| 0 <= j < i ==> (#[trigger] items[j])@ == file_value(files[j]@),
        decreases files.len() - i,
    {
        items.push(files[i].clone().into_bencode_elem());
        i += 1;
    }
    proof {
        lemma_list_view(items);
        assert(values_of(items@) =~= file_values(files_of(files@)));
    }
    BencodeElem::List(items)
}

/// The hashes of `pieces` in one run of bytes.
pub(crate) fn flatten(pieces: &Vec<Vec<u8>>) -> (res: Vec<u8>)
    ensures
        res@ == concat_all(hashes_of(pieces@)),
{
    let mut out: Vec<u8> = Vec::new();
    let mut i: usize = 0;
    let ghost all = hashes_of(pieces@);
    assert(all.take(0) =~= Seq::<Seq<u8>>::empty());
    while i < pieces.len()
        invariant
            i <= pieces.len(),
            all == hashes_of(pieces@),
            out@ == concat_all(all.take(i as int)),
        decreases pieces.len() - i,
    {
        let ghost before = out@;
        out.extend_from_slice(pieces[i].as_slice());
        proof {
            assert(all.take(i + 1).drop_last() =~= all.take(i as int));
            assert(out@ =~= before + pieces[i as int]@);
        }
        i += 1;
    }
    assert(all.take(pieces.len() as int) =~= all);
    out
}

impl File {
    /// The dictionary that stands for the file in a torrent file.
    pub fn into_bencode_elem(self) -> (res: BencodeElem)
        ensures
            res@ == file_value(self@),
    {
        let mut dict = Dictionary::new();
        dict.insert("length".to_owned(), BencodeElem::Integer(self.length));
        dict.insert("path".to_owned(), texts_elem(&self.path));
        match &self.extra_fields {
            Some(extras) => {
                dict.extend(extras);
            },
            None => {},
        }
        BencodeElem::Dictionary(dict)
    }
}

impl Torrent {
    /// The top-level dictionary that stands for the torrent in a torrent
    /// file.
    pub fn to_bencode_elem(&self) -> (res: BencodeElem)
        ensures
            res@ == outer_of(self@),
    {
        let mut top = Dictionary::new();
        match &self.announce {
            Some(url) => {
                top.insert("announce".to_owned(), BencodeElem::String(url.clone()));
            },
            None => {},
        }
        match &self.announce_list {
            Some(tiers) => {
                top.insert("announce-list".to_owned(), tiers_elem(tiers));
            },
            None => {},
        }
        top.insert("info".to_owned(), self.construct_info());
        match &self.extra_fields {
            Some(extras) => {
                top.extend(extras);
            },
            None => {},
        }
        BencodeElem::Dictionary(top)
    }

    /// The bytes of the torrent file that holds the torrent.
    pub fn write_into_bytes(&self) -> (res: Vec<u8>)
        ensures
            res@ == written(self@),
    {
        self.to_bencode_elem().encode()
    }
}

} // verus!
