//! What holds between reading, writing and the info hash.
//!
//! The laws come first, behind what it means for a torrent to be in order:
//! the info hash of a torrent that was read is the digest of the `info`
//! dictionary in the bytes (`lemma_info_hash_stable`), a torrent that was
//! read is written as the bytes it was read from (`lemma_write_read`), a
//! torrent in order is read again from what it is written as
//! (`lemma_read_valid`), and every torrent that is read is in order
//! (`lemma_read_is_valid`). The lemmas that carry them follow.

use vstd::prelude::*;
use vstd::utf8::{encode_utf8, is_ascii_chars, is_ascii_chars_encode_utf8, valid_utf8};
use crate::bencode::entries::{
    key_lt, lemma_lookup_put, lemma_lookup_put_all, lemma_lookup_removed, lemma_lookup_stands,
    lemma_lookup_without, lemma_put_all_sorted, lemma_put_sorted, lemma_sorted_same,
    lemma_without_sorted, lookup, put, put_all, sorted, without,
};
use crate::bencode::laws::{lemma_decode_encoded_one, lemma_encode_decoded};
use crate::bencode::model::{
    bounded, canonical, decode_all, encode, encode_items, ReadLimit, Value,
};
use crate::digest::sha1;
use crate::error::Failure;
use crate::torrent::v1::{
    concat_all, file_value, file_values, info_hash_of, info_of, merged, text_values, FileView,
    TorrentView,
};
use crate::torrent::v1::read::{
    announce_list_of, announce_of, checked, components_of, extra_of, file_of, files_from, files_in,
    hashes_in, info_rest, lemma_file_keys, lemma_info_keys, lemma_top_keys, length_of, name_of,
    piece_length_of, pieces_in, read, sum_lengths, tier_of, tiers_from, top_rest, torrent_of,
    urls_of,
};
use crate::torrent::v1::write::{outer_of, tier_values, written};

verus! {

/// The encoding of `s` is short enough for the machine to hold.
pub open spec fn text_fits(s: Seq<char>) -> bool {
    encode_utf8(s).len() <= usize::MAX
}

/// `v` is what decoding yields, and the machine can hold it.
pub open spec fn plain(v: Value) -> bool {
    canonical(v) && bounded(v)
}

/// Every key of `entries` fits and every value is plain.
pub open spec fn plain_entries(entries: Seq<(Seq<char>, Value)>) -> bool {
    forall|i: int|
        0 <= i < entries.len() ==> text_fits((#[trigger] entries[i]).0) && plain(entries[i].1)
}

/// Extra fields are in order: where there are any, there is at least one,
/// the keys ascend, and the values are plain.
pub open spec fn extras_valid(fields: Option<Seq<(Seq<char>, Value)>>) -> bool {
    match fields {
        Some(entries) => entries.len() > 0 && sorted(entries) && plain_entries(entries),
        None => true,
    }
}

/// None of `keys` maps to anything in `fields`.
pub open spec fn lacks(fields: Option<Seq<(Seq<char>, Value)>>, keys: Seq<Seq<char>>) -> bool {
    match fields {
        Some(entries) => forall|i: int|
            0 <= i < keys.len() ==> lookup(entries, #[trigger] keys[i]) is None,
        None => true,
    }
}

/// A file is in order: its size is not negative, its path has components,
/// none of them `.` or `..`, and its extra fields are in order and hold
/// neither `length` nor `path`.
pub open spec fn file_valid(f: FileView) -> bool {
    &&& f.length >= 0
    &&& f.path.len() > 0
    &&& forall|i: int|
        0 <= i < f.path.len() ==> text_fits(#[trigger] f.path[i]) && f.path[i] != "."@
            && f.path[i] != ".."@
    &&& extras_valid(f.extra_fields)
    &&& lacks(f.extra_fields, seq!["length"@, "path"@])
}

/// A torrent is in order: it is consistent, its pieces have 20 bytes each
/// and are not text when put together, its texts fit, its files are in
/// order and add up to its length, and its extra fields are in order and
/// hold no key that the torrent itself writes.
pub open spec fn valid(t: TorrentView) -> bool {
    &&& checked(t) is Ok
    &&& t.piece_length > 0
    &&& t.pieces.len() > 0
    &&& forall|i: int| 0 <= i < t.pieces.len() ==> (#[trigger] t.pieces[i]).len() == 20
    &&& !valid_utf8(concat_all(t.pieces))
    &&& concat_all(t.pieces).len() <= usize::MAX
    &&& text_fits(t.name)
    &&& (t.announce is Some ==> text_fits(t.announce->0))
    &&& (t.announce_list is Some ==> forall|i: int, j: int|
        0 <= i < t.announce_list->0.len() && 0 <= j < t.announce_list->0[i].len() ==> text_fits(
            #[trigger] t.announce_list->0[i][j],
        ))
    &&& match t.files {
        Some(files) => files.len() > 0 && (forall|i: int|
            0 <= i < files.len() ==> file_valid(#[trigger] files[i])) && sum_lengths(files, 0)
            == Ok::<i64, Seq<char>>(t.length),
        None => true,
    }
    &&& extras_valid(t.extra_fields)
    &&& lacks(t.extra_fields, seq!["announce"@, "announce-list"@, "info"@])
    &&& extras_valid(t.extra_info_fields)
    &&& lacks(
        t.extra_info_fields,
        seq!["files"@, "length"@, "name"@, "piece length"@, "pieces"@],
    )
}

/// The info hash is stable: a torrent that was read from bytes has for its
/// `info` the dictionary that the bytes hold under `info`, so its info hash
/// is the digest of the encoding of that dictionary, which stands in the
/// bytes.
pub proof fn lemma_info_hash_stable(bytes: Seq<u8>)
    requires
        read(bytes) is Ok,
    ensures
        decode_all(bytes, ReadLimit::NoLimit) is Ok,
        decode_all(bytes, ReadLimit::NoLimit)->Ok_0.len() == 1,
        decode_all(bytes, ReadLimit::NoLimit)->Ok_0[0] is Dict,
        lookup(decode_all(bytes, ReadLimit::NoLimit)->Ok_0[0]->Dict_0, "info"@) is Some,
        info_of(read(bytes)->Ok_0) == lookup(
            decode_all(bytes, ReadLimit::NoLimit)->Ok_0[0]->Dict_0,
            "info"@,
        )->Some_0,
        info_hash_of(read(bytes)->Ok_0) == sha1(
            encode(
                lookup(decode_all(bytes, ReadLimit::NoLimit)->Ok_0[0]->Dict_0, "info"@)->Some_0,
            ),
        ),
{
    let parsed = decode_all(bytes, ReadLimit::NoLimit)->Ok_0;
    lemma_encode_decoded(bytes, ReadLimit::NoLimit);
    let top = parsed[0]->Dict_0;
    assert(canonical(parsed[0]));
    let t = read(bytes)->Ok_0;
    assert(torrent_of(top) == Ok::<TorrentView, Seq<char>>(t));
    let info = lookup(top, "info"@)->Some_0->Dict_0;
    lemma_lookup_stands(top, "info"@);
    let at = choose|i: int|
        0 <= i < top.len() && #[trigger] top[i] == ("info"@, lookup(top, "info"@)->0);
    assert(canonical(top[at].1));
    lemma_info_kept(info, t);
}

/// Writing what was read yields the bytes that were read: a torrent that
/// was read from bytes is written as those bytes.
pub proof fn lemma_write_read(bytes: Seq<u8>)
    requires
        read(bytes) is Ok,
    ensures
        written(read(bytes)->Ok_0) == bytes,
{
    let parsed = decode_all(bytes, ReadLimit::NoLimit)->Ok_0;
    lemma_encode_decoded(bytes, ReadLimit::NoLimit);
    assert(canonical(parsed[0]));
    lemma_outer_kept(parsed[0]->Dict_0);
    assert(parsed.drop_first() =~= Seq::<Value>::empty());
    assert(encode_items(parsed.drop_first()) =~= Seq::<u8>::empty());
    assert(encode_items(parsed) =~= encode(parsed[0]));
}

/// Reading what was written yields what was written: for every torrent
/// that can be read from any bytes at all, reading the bytes that it is
/// written as yields the torrent again.
pub proof fn lemma_read_written(t: TorrentView)
    requires
        exists|bytes: Seq<u8>| read(bytes) == Ok::<TorrentView, Failure>(t),
    ensures
        read(written(t)) == Ok::<TorrentView, Failure>(t),
{
    let bytes = choose|bytes: Seq<u8>| read(bytes) == Ok::<TorrentView, Failure>(t);
    lemma_write_read(bytes);
}

/// Reading what was written yields what was written: for every torrent in
/// order, reading the bytes that it is written as yields the torrent
/// again.
pub proof fn lemma_read_valid(t: TorrentView)
    requires
        valid(t),
    ensures
        read(written(t)) == Ok::<TorrentView, Failure>(t),
{
    lemma_outer_made(t);
    lemma_decode_encoded_one(outer_of(t));
    let parsed = seq![outer_of(t)];
    assert(parsed[0] == outer_of(t));
}

/// What was read is in order: every torrent that is read from bytes is in
/// order. With `lemma_read_valid`, the torrents in order are exactly those
/// that can be read.
pub proof fn lemma_read_is_valid(bytes: Seq<u8>)
    requires
        read(bytes) is Ok,
    ensures
        valid(read(bytes)->Ok_0),
{
    let parsed = decode_all(bytes, ReadLimit::NoLimit)->Ok_0;
    lemma_encode_decoded(bytes, ReadLimit::NoLimit);
    assert(plain(parsed[0]));
    lemma_torrent_valid(parsed[0]->Dict_0);
}

/// After a key is removed from a sorted sequence, the sequence is sorted,
/// the key maps to nothing, and every other key to what it mapped to
/// before.
pub proof fn lemma_removed(entries: Seq<(Seq<char>, Value)>, key: Seq<char>, other: Seq<char>)
    requires
        sorted(entries),
    ensures
        sorted(without(entries, key)),
        lookup(without(entries, key), other) == if other == key {
            None
        } else {
            lookup(entries, other)
        },
{
    lemma_without_sorted(entries, key);
    if other == key {
        lemma_lookup_removed(entries, key);
    } else {
        lemma_lookup_without(entries, key, other);
    }
}

/// Sorted entries put onto sorted entries: the result is sorted, and a key
/// maps to what it maps to in the extras, and else to what it mapped to
/// before.
pub proof fn lemma_merged(
    base: Seq<(Seq<char>, Value)>,
    extras: Seq<(Seq<char>, Value)>,
    key: Seq<char>,
)
    requires
        sorted(base),
        sorted(extras),
    ensures
        sorted(merged(base, extra_of(extras))),
        lookup(merged(base, extra_of(extras)), key) == match lookup(extras, key) {
            Some(v) => Some(v),
            None => lookup(base, key),
        },
{
    if extras.len() > 0 {
        lemma_put_all_sorted(base, extras);
        lemma_lookup_put_all(base, extras, key);
    }
}

/// Hashes that were cut from bytes, put one after the other, are the bytes.
pub proof fn lemma_concat_hashes(bytes: Seq<u8>, count: int)
    requires
        0 <= count <= bytes.len() / 20,
    ensures
        concat_all(hashes_in(bytes).take(count)) == bytes.take(20 * count),
    decreases count,
{
    let hashes = hashes_in(bytes);
    if count == 0 {
        assert(concat_all(hashes.take(0)) =~= bytes.take(0));
    } else {
        lemma_concat_hashes(bytes, count - 1);
        assert(hashes.take(count).drop_last() =~= hashes.take(count - 1));
        assert(hashes.take(count).last() == bytes.subrange(20 * (count - 1), 20 * count));
        assert(bytes.take(20 * (count - 1)) + bytes.subrange(20 * (count - 1), 20 * count)
            =~= bytes.take(20 * count));
    }
}

/// Path components that were taken from a list of texts are that list.
pub proof fn lemma_components_kept(items: Seq<Value>)
    requires
        components_of(items) is Ok,
    ensures
        text_values(components_of(items)->Ok_0) == items,
    decreases items.len(),
{
    if items.len() == 0 {
        assert(text_values(components_of(items)->Ok_0) =~= items);
    } else {
        let rest = items.drop_first();
        lemma_components_kept(rest);
        let path = components_of(items)->Ok_0;
        assert(path =~= seq![items[0]->Text_0] + components_of(rest)->Ok_0);
        assert(text_values(path) =~= seq![items[0]] + text_values(components_of(rest)->Ok_0));
        assert(items =~= seq![items[0]] + rest);
    }
}

/// A file that was read from a dictionary is written as that dictionary.
#[verifier::rlimit(50)]
pub proof fn lemma_file_kept(item: Value)
    requires
        item is Dict ==> sorted(item->Dict_0),
        file_of(item) is Ok,
    ensures
        file_value(file_of(item)->Ok_0) == item,
{
    let file = item->Dict_0;
    let f = file_of(item)->Ok_0;
    let items = lookup(file, "path"@)->Some_0->List_0;
    lemma_components_kept(items);
    lemma_file_keys();
    let base = put(
        put(Seq::empty(), "length"@, Value::Integer(f.length)),
        "path"@,
        Value::List(text_values(f.path)),
    );
    let rest = without(without(file, "length"@), "path"@);
    lemma_put_sorted(Seq::empty(), "length"@, Value::Integer(f.length));
    lemma_put_sorted(
        put(Seq::empty(), "length"@, Value::Integer(f.length)),
        "path"@,
        Value::List(text_values(f.path)),
    );
    lemma_without_sorted(file, "length"@);
    lemma_without_sorted(without(file, "length"@), "path"@);
    let out = merged(base, f.extra_fields);
    assert forall|key: Seq<char>| lookup(out, key) == lookup(file, key) by {
        lemma_merged(base, rest, key);
        lemma_removed(file, "length"@, key);
        lemma_removed(without(file, "length"@), "path"@, key);
        lemma_lookup_put(
            put(Seq::empty(), "length"@, Value::Integer(f.length)),
            "path"@,
            Value::List(text_values(f.path)),
            key,
        );
        lemma_lookup_put(Seq::empty(), "length"@, Value::Integer(f.length), key);
    }
    lemma_merged(base, rest, "length"@);
    lemma_sorted_same(out, file);
}

/// Files that were read from a list of dictionaries are written as that
/// list.
pub proof fn lemma_files_kept(items: Seq<Value>)
    requires
        forall|i: int| 0 <= i < items.len() ==> canonical(#[trigger] items[i]),
        files_from(items) is Ok,
    ensures
        file_values(files_from(items)->Ok_0) == items,
    decreases items.len(),
{
    if items.len() == 0 {
        assert(file_values(files_from(items)->Ok_0) =~= items);
    } else {
        let rest = items.drop_first();
        assert forall|i: int| 0 <= i < rest.len() implies canonical(#[trigger] rest[i]) by {
            assert(rest[i] == items[i + 1]);
        }
        lemma_files_kept(rest);
        assert(canonical(items[0]));
        lemma_file_kept(items[0]);
        let files = files_from(items)->Ok_0;
        assert(files =~= seq![file_of(items[0])->Ok_0] + files_from(rest)->Ok_0);
        assert(file_values(files) =~= seq![items[0]] + file_values(files_from(rest)->Ok_0));
        assert(items =~= seq![items[0]] + rest);
    }
}

/// The parts of a torrent that its `info` dictionary gives.
pub open spec fn info_parts(info: Seq<(Seq<char>, Value)>, t: TorrentView) -> bool {
    &&& files_in(info) == Ok::<Option<Seq<FileView>>, Seq<char>>(t.files)
    &&& length_of(info, t.files) == Ok::<i64, Seq<char>>(t.length)
    &&& name_of(info) == Ok::<Seq<char>, Seq<char>>(t.name)
    &&& piece_length_of(info) == Ok::<i64, Seq<char>>(t.piece_length)
    &&& pieces_in(info) == Ok::<Seq<Seq<u8>>, Seq<char>>(t.pieces)
    &&& t.extra_info_fields == extra_of(info_rest(info))
}

/// A torrent whose parts were read from an `info` dictionary has that
/// dictionary for its `info`.
#[verifier::rlimit(50)]
pub proof fn lemma_info_kept(info: Seq<(Seq<char>, Value)>, t: TorrentView)
    requires
        canonical(Value::Dict(info)),
        info_parts(info, t),
    ensures
        info_of(t) == Value::Dict(info),
{
    lemma_info_keys();
    let first = match t.files {
        Some(files) => put(Seq::empty(), "files"@, Value::List(file_values(files))),
        None => put(Seq::empty(), "length"@, Value::Integer(t.length)),
    };
    let second = put(first, "name"@, Value::Text(t.name));
    let third = put(second, "piece length"@, Value::Integer(t.piece_length));
    let base = put(third, "pieces"@, Value::Bytes(concat_all(t.pieces)));
    match t.files {
        Some(files) => {
            lemma_put_sorted(Seq::empty(), "files"@, Value::List(file_values(files)));
            let items = lookup(info, "files"@)->Some_0->List_0;
            lemma_lookup_stands(info, "files"@);
            let at = choose|i: int|
                0 <= i < info.len() && #[trigger] info[i] == (
                    "files"@,
                    lookup(info, "files"@)->0,
                );
            assert(canonical(info[at].1));
            lemma_files_kept(items);
        },
        None => {
            lemma_put_sorted(Seq::empty(), "length"@, Value::Integer(t.length));
        },
    }
    lemma_put_sorted(first, "name"@, Value::Text(t.name));
    lemma_put_sorted(second, "piece length"@, Value::Integer(t.piece_length));
    lemma_put_sorted(third, "pieces"@, Value::Bytes(concat_all(t.pieces)));
    let bytes = lookup(info, "pieces"@)->Some_0->Bytes_0;
    lemma_concat_hashes(bytes, bytes.len() as int / 20);
    assert(hashes_in(bytes).take(bytes.len() as int / 20) =~= hashes_in(bytes));
    assert(bytes.take(20 * (bytes.len() as int / 20)) =~= bytes);
    let a = without(info, "files"@);
    let b = without(a, "length"@);
    let c = without(b, "name"@);
    let d = without(c, "piece length"@);
    let rest = without(d, "pieces"@);
    lemma_without_sorted(info, "files"@);
    lemma_without_sorted(a, "length"@);
    lemma_without_sorted(b, "name"@);
    lemma_without_sorted(c, "piece length"@);
    lemma_without_sorted(d, "pieces"@);
    let out = merged(base, t.extra_info_fields);
    assert forall|key: Seq<char>| lookup(out, key) == lookup(info, key) by {
        lemma_merged(base, rest, key);
        lemma_removed(info, "files"@, key);
        lemma_removed(a, "length"@, key);
        lemma_removed(b, "name"@, key);
        lemma_removed(c, "piece length"@, key);
        lemma_removed(d, "pieces"@, key);
        lemma_lookup_put(third, "pieces"@, Value::Bytes(concat_all(t.pieces)), key);
        lemma_lookup_put(second, "piece length"@, Value::Integer(t.piece_length), key);
        lemma_lookup_put(first, "name"@, Value::Text(t.name), key);
        match t.files {
            Some(files) => {
                lemma_lookup_put(Seq::empty(), "files"@, Value::List(file_values(files)), key);
            },
            None => {
                lemma_lookup_put(Seq::empty(), "length"@, Value::Integer(t.length), key);
            },
        }
    }
    lemma_merged(base, rest, "name"@);
    lemma_sorted_same(out, info);
}

/// URLs that were taken from a list of texts are that list.
pub proof fn lemma_urls_kept(items: Seq<Value>)
    requires
        urls_of(items) is Ok,
    ensures
        text_values(urls_of(items)->Ok_0) == items,
    decreases items.len(),
{
    if items.len() == 0 {
        assert(text_values(urls_of(items)->Ok_0) =~= items);
    } else {
        let rest = items.drop_first();
        lemma_urls_kept(rest);
        let urls = urls_of(items)->Ok_0;
        assert(urls =~= seq![items[0]->Text_0] + urls_of(rest)->Ok_0);
        assert(text_values(urls) =~= seq![items[0]] + text_values(urls_of(rest)->Ok_0));
        assert(items =~= seq![items[0]] + rest);
    }
}

/// Tiers that were taken from a list of lists of texts are that list.
pub proof fn lemma_tiers_kept(items: Seq<Value>)
    requires
        tiers_from(items) is Ok,
    ensures
        tier_values(tiers_from(items)->Ok_0) == items,
    decreases items.len(),
{
    if items.len() == 0 {
        assert(tier_values(tiers_from(items)->Ok_0) =~= items);
    } else {
        let rest = items.drop_first();
        lemma_tiers_kept(rest);
        lemma_urls_kept(items[0]->List_0);
        let tiers = tiers_from(items)->Ok_0;
        assert(tiers =~= seq![tier_of(items[0])->Ok_0] + tiers_from(rest)->Ok_0);
        assert(tier_values(tiers) =~= seq![items[0]] + tier_values(tiers_from(rest)->Ok_0));
        assert(items =~= seq![items[0]] + rest);
    }
}

/// A torrent that was read from a top-level dictionary is written as that
/// dictionary.
#[verifier::rlimit(50)]
pub proof fn lemma_outer_kept(top: Seq<(Seq<char>, Value)>)
    requires
        canonical(Value::Dict(top)),
        torrent_of(top) is Ok,
    ensures
        outer_of(torrent_of(top)->Ok_0) == Value::Dict(top),
{
    let t = torrent_of(top)->Ok_0;
    lemma_top_keys();
    lemma_lookup_stands(top, "info"@);
    let at = choose|i: int|
        0 <= i < top.len() && #[trigger] top[i] == ("info"@, lookup(top, "info"@)->0);
    assert(canonical(top[at].1));
    let info = lookup(top, "info"@)->Some_0->Dict_0;
    lemma_info_kept(info, t);
    let first: Seq<(Seq<char>, Value)> = match t.announce {
        Some(url) => put(Seq::empty(), "announce"@, Value::Text(url)),
        None => Seq::empty(),
    };
    let second = match t.announce_list {
        Some(tiers) => put(first, "announce-list"@, Value::List(tier_values(tiers))),
        None => first,
    };
    let base = put(second, "info"@, info_of(t));
    match t.announce {
        Some(url) => {
            lemma_put_sorted(Seq::empty(), "announce"@, Value::Text(url));
        },
        None => {},
    }
    match t.announce_list {
        Some(tiers) => {
            lemma_put_sorted(first, "announce-list"@, Value::List(tier_values(tiers)));
            lemma_tiers_kept(lookup(top, "announce-list"@)->Some_0->List_0);
        },
        None => {},
    }
    lemma_put_sorted(second, "info"@, info_of(t));
    let a = without(top, "announce"@);
    let b = without(a, "announce-list"@);
    let rest = without(b, "info"@);
    lemma_without_sorted(top, "announce"@);
    lemma_without_sorted(a, "announce-list"@);
    lemma_without_sorted(b, "info"@);
    let out = merged(base, t.extra_fields);
    assert forall|key: Seq<char>| lookup(out, key) == lookup(top, key) by {
        lemma_merged(base, rest, key);
        lemma_removed(top, "announce"@, key);
        lemma_removed(a, "announce-list"@, key);
        lemma_removed(b, "info"@, key);
        lemma_lookup_put(second, "info"@, info_of(t), key);
        match t.announce_list {
            Some(tiers) => {
                lemma_lookup_put(first, "announce-list"@, Value::List(tier_values(tiers)), key);
            },
            None => {},
        }
        match t.announce {
            Some(url) => {
                lemma_lookup_put(Seq::empty(), "announce"@, Value::Text(url), key);
            },
            None => {},
        }
    }
    lemma_merged(base, rest, "info"@);
    lemma_sorted_same(out, top);
}

/// A put keeps the entries plain.
pub proof fn lemma_put_plain(entries: Seq<(Seq<char>, Value)>, key: Seq<char>, value: Value)
    requires
        plain_entries(entries),
        text_fits(key),
        plain(value),
    ensures
        plain_entries(put(entries, key, value)),
    decreases entries.len(),
{
    let out = put(entries, key, value);
    if entries.len() == 0 {
    } else if entries[0].0 == key {
        assert forall|i: int| 0 <= i < out.len() implies text_fits((#[trigger] out[i]).0)
            && plain(out[i].1) by {
            if i > 0 {
                assert(out[i] == entries[i]);
            }
        }
    } else if key_lt(key, entries[0].0) {
        assert forall|i: int| 0 <= i < out.len() implies text_fits((#[trigger] out[i]).0)
            && plain(out[i].1) by {
            if i > 0 {
                assert(out[i] == entries[i - 1]);
            }
        }
    } else {
        let rest = entries.drop_first();
        assert forall|i: int| 0 <= i < rest.len() implies text_fits((#[trigger] rest[i]).0)
            && plain(rest[i].1) by {
            assert(rest[i] == entries[i + 1]);
        }
        lemma_put_plain(rest, key, value);
        let tail = put(rest, key, value);
        assert forall|i: int| 0 <= i < out.len() implies text_fits((#[trigger] out[i]).0)
            && plain(out[i].1) by {
            if i > 0 {
                assert(out[i] == tail[i - 1]);
            } else {
                assert(out[0] == entries[0]);
            }
        }
    }
}

/// Putting plain extras keeps the entries plain.
pub proof fn lemma_merged_plain(
    base: Seq<(Seq<char>, Value)>,
    extras: Option<Seq<(Seq<char>, Value)>>,
)
    requires
        plain_entries(base),
        sorted(base),
        extras_valid(extras),
    ensures
        plain_entries(merged(base, extras)),
        sorted(merged(base, extras)),
{
    match extras {
        Some(more) => {
            lemma_put_all_plain(base, more);
            lemma_put_all_sorted(base, more);
        },
        None => {},
    }
}

/// Putting plain entries keeps the entries plain.
pub proof fn lemma_put_all_plain(base: Seq<(Seq<char>, Value)>, extras: Seq<(Seq<char>, Value)>)
    requires
        plain_entries(base),
        plain_entries(extras),
    ensures
        plain_entries(put_all(base, extras)),
    decreases extras.len(),
{
    if extras.len() > 0 {
        let rest = extras.drop_first();
        assert forall|i: int| 0 <= i < rest.len() implies text_fits((#[trigger] rest[i]).0)
            && plain(rest[i].1) by {
            assert(rest[i] == extras[i + 1]);
        }
        assert(text_fits(extras[0].0) && plain(extras[0].1));
        lemma_put_plain(base, extras[0].0, extras[0].1);
        lemma_put_all_plain(put(base, extras[0].0, extras[0].1), rest);
    }
}

/// Plain entries in order make a plain dictionary.
pub proof fn lemma_plain_dict(entries: Seq<(Seq<char>, Value)>)
    requires
        sorted(entries),
        plain_entries(entries),
    ensures
        plain(Value::Dict(entries)),
{
    assert forall|i: int| 0 <= i < entries.len() implies canonical((#[trigger] entries[i]).1)
        && bounded(entries[i].1) && encode_utf8(entries[i].0).len() <= usize::MAX by {
        assert(text_fits(entries[i].0) && plain(entries[i].1));
    }
}

/// The keys that a torrent writes fit.
pub proof fn lemma_keys_fit()
    ensures
        text_fits("announce"@),
        text_fits("announce-list"@),
        text_fits("info"@),
        text_fits("files"@),
        text_fits("length"@),
        text_fits("name"@),
        text_fits("piece length"@),
        text_fits("pieces"@),
        text_fits("path"@),
{
    assert(text_fits("announce"@)) by {
        reveal_strlit("announce");
        lemma_ascii_fits("announce"@, 8);
    }
    assert(text_fits("announce-list"@)) by {
        reveal_strlit("announce-list");
        lemma_ascii_fits("announce-list"@, 13);
    }
    assert(text_fits("info"@)) by {
        reveal_strlit("info");
        lemma_ascii_fits("info"@, 4);
    }
    assert(text_fits("files"@)) by {
        reveal_strlit("files");
        lemma_ascii_fits("files"@, 5);
    }
    assert(text_fits("length"@)) by {
        reveal_strlit("length");
        lemma_ascii_fits("length"@, 6);
    }
    assert(text_fits("name"@)) by {
        reveal_strlit("name");
        lemma_ascii_fits("name"@, 4);
    }
    assert(text_fits("piece length"@)) by {
        reveal_strlit("piece length");
        lemma_ascii_fits("piece length"@, 12);
    }
    assert(text_fits("pieces"@)) by {
        reveal_strlit("pieces");
        lemma_ascii_fits("pieces"@, 6);
    }
    assert(text_fits("path"@)) by {
        reveal_strlit("path");
        lemma_ascii_fits("path"@, 4);
    }
}

/// A short text of ASCII characters fits.
pub proof fn lemma_ascii_fits(s: Seq<char>, len: nat)
    requires
        s.len() == len,
        len <= 0xffff,
        is_ascii_chars(s),
    ensures
        text_fits(s),
{
    is_ascii_chars_encode_utf8(s);
}

/// Texts written as a list are read as those texts.
pub proof fn lemma_urls_made(urls: Seq<Seq<char>>)
    ensures
        urls_of(text_values(urls)) == Ok::<Seq<Seq<char>>, Seq<char>>(urls),
    decreases urls.len(),
{
    let items = text_values(urls);
    if urls.len() == 0 {
        assert(urls =~= Seq::<Seq<char>>::empty());
    } else {
        lemma_urls_made(urls.drop_first());
        assert(items.drop_first() =~= text_values(urls.drop_first()));
        assert(seq![urls[0]] + urls.drop_first() =~= urls);
    }
}

/// Tiers written as a list of lists are read as those tiers.
pub proof fn lemma_tiers_made(tiers: Seq<Seq<Seq<char>>>)
    ensures
        tiers_from(tier_values(tiers)) == Ok::<Seq<Seq<Seq<char>>>, Seq<char>>(tiers),
    decreases tiers.len(),
{
    let items = tier_values(tiers);
    if tiers.len() == 0 {
        assert(tiers =~= Seq::<Seq<Seq<char>>>::empty());
    } else {
        lemma_tiers_made(tiers.drop_first());
        lemma_urls_made(tiers[0]);
        assert(items.drop_first() =~= tier_values(tiers.drop_first()));
        assert(seq![tiers[0]] + tiers.drop_first() =~= tiers);
    }
}

/// Path components written as a list are read as those components.
pub proof fn lemma_components_made(path: Seq<Seq<char>>)
    requires
        forall|i: int| 0 <= i < path.len() ==> #[trigger] path[i] != "."@ && path[i] != ".."@,
    ensures
        components_of(text_values(path)) == Ok::<Seq<Seq<char>>, Seq<char>>(path),
    decreases path.len(),
{
    let items = text_values(path);
    if path.len() == 0 {
        assert(path =~= Seq::<Seq<char>>::empty());
    } else {
        let rest = path.drop_first();
        assert forall|i: int| 0 <= i < rest.len() implies #[trigger] rest[i] != "."@ && rest[i]
            != ".."@ by {
            assert(rest[i] == path[i + 1]);
        }
        lemma_components_made(rest);
        assert(path[0] != "."@ && path[0] != ".."@);
        assert(items.drop_first() =~= text_values(rest));
        assert(seq![path[0]] + rest =~= path);
    }
}

/// A list of texts that fit is plain.
pub proof fn lemma_texts_plain(texts: Seq<Seq<char>>)
    requires
        forall|i: int| 0 <= i < texts.len() ==> text_fits(#[trigger] texts[i]),
    ensures
        plain(Value::List(text_values(texts))),
{
    let items = text_values(texts);
    assert forall|i: int| 0 <= i < items.len() implies canonical(#[trigger] items[i]) && bounded(
        items[i],
    ) by {
        assert(text_fits(texts[i]));
    }
}

/// What is left of a merged dictionary once its own keys are removed is
/// the extras: a key maps to what it maps to in the extras.
pub proof fn lemma_rest_lookup(
    rest: Seq<(Seq<char>, Value)>,
    extras: Option<Seq<(Seq<char>, Value)>>,
)
    requires
        sorted(rest),
        extras_valid(extras),
        forall|key: Seq<char>|
            lookup(rest, key) == match extras {
                Some(more) => lookup(more, key),
                None => None,
            },
    ensures
        extra_of(rest) == extras,
{
    match extras {
        Some(more) => {
            lemma_sorted_same(rest, more);
        },
        None => {
            let none = Seq::<(Seq<char>, Value)>::empty();
            lemma_sorted_same(rest, none);
        },
    }
}

/// A file in order is written as a plain dictionary from which it is read
/// again.
#[verifier::rlimit(50)]
pub proof fn lemma_file_made(f: FileView)
    requires
        file_valid(f),
    ensures
        file_of(file_value(f)) == Ok::<FileView, Seq<char>>(f),
        plain(file_value(f)),
{
    lemma_file_keys();
    lemma_keys_fit();
    let none = Seq::<(Seq<char>, Value)>::empty();
    let one = put(none, "length"@, Value::Integer(f.length));
    let base = put(one, "path"@, Value::List(text_values(f.path)));
    let file = merged(base, f.extra_fields);
    lemma_put_sorted(none, "length"@, Value::Integer(f.length));
    lemma_put_sorted(one, "path"@, Value::List(text_values(f.path)));
    lemma_texts_plain(f.path);
    lemma_put_plain(none, "length"@, Value::Integer(f.length));
    lemma_put_plain(one, "path"@, Value::List(text_values(f.path)));
    lemma_merged_plain(base, f.extra_fields);
    lemma_plain_dict(file);
    lemma_components_made(f.path);
    let extras = match f.extra_fields {
        Some(more) => more,
        None => none,
    };
    assert(lookup(extras, seq!["length"@, "path"@][0]) is None);
    assert(lookup(extras, seq!["length"@, "path"@][1]) is None);
    let a = without(file, "length"@);
    let rest = without(a, "path"@);
    lemma_without_sorted(file, "length"@);
    lemma_without_sorted(a, "path"@);
    assert forall|key: Seq<char>|
        lookup(file, key) == match lookup(extras, key) {
            Some(v) => Some(v),
            None => lookup(base, key),
        } && lookup(base, key) == (if key == "path"@ {
            Some(Value::List(text_values(f.path)))
        } else if key == "length"@ {
            Some(Value::Integer(f.length))
        } else {
            None
        }) && lookup(rest, key) == (if key == "path"@ || key == "length"@ {
            None
        } else {
            lookup(file, key)
        }) by {
        if f.extra_fields is Some {
            lemma_lookup_put_all(base, extras, key);
        }
        lemma_lookup_put(one, "path"@, Value::List(text_values(f.path)), key);
        lemma_lookup_put(none, "length"@, Value::Integer(f.length), key);
        lemma_removed(file, "length"@, key);
        lemma_removed(a, "path"@, key);
    }
    assert(lookup(file, "length"@) == Some(Value::Integer(f.length)));
    assert(lookup(file, "path"@) == Some(Value::List(text_values(f.path))));
    lemma_rest_lookup(rest, f.extra_fields);
    assert(text_values(f.path).len() == f.path.len());
}

/// Files in order are written as a list of plain dictionaries from which
/// they are read again.
pub proof fn lemma_files_made(files: Seq<FileView>)
    requires
        forall|i: int| 0 <= i < files.len() ==> file_valid(#[trigger] files[i]),
    ensures
        files_from(file_values(files)) == Ok::<Seq<FileView>, Seq<char>>(files),
        plain(Value::List(file_values(files))),
    decreases files.len(),
{
    let items = file_values(files);
    if files.len() == 0 {
        assert(files =~= Seq::<FileView>::empty());
    } else {
        let rest = files.drop_first();
        assert forall|i: int| 0 <= i < rest.len() implies file_valid(#[trigger] rest[i]) by {
            assert(rest[i] == files[i + 1]);
        }
        lemma_files_made(rest);
        assert(file_valid(files[0]));
        lemma_file_made(files[0]);
        assert(items.drop_first() =~= file_values(rest));
        assert(seq![files[0]] + rest =~= files);
    }
    assert forall|i: int| 0 <= i < items.len() implies canonical(#[trigger] items[i]) && bounded(
        items[i],
    ) by {
        assert(file_valid(files[i]));
        lemma_file_made(files[i]);
    }
}

/// Hashes of 20 bytes each, put one after the other, are cut into the same
/// hashes again.
pub proof fn lemma_hashes_made(pieces: Seq<Seq<u8>>)
    requires
        forall|i: int| 0 <= i < pieces.len() ==> (#[trigger] pieces[i]).len() == 20,
    ensures
        concat_all(pieces).len() == 20 * pieces.len(),
        hashes_in(concat_all(pieces)) == pieces,
    decreases pieces.len(),
{
    if pieces.len() == 0 {
        assert(hashes_in(concat_all(pieces)) =~= pieces);
    } else {
        let front = pieces.drop_last();
        assert forall|i: int| 0 <= i < front.len() implies (#[trigger] front[i]).len() == 20 by {
            assert(front[i] == pieces[i]);
        }
        lemma_hashes_made(front);
        assert(pieces.last().len() == 20);
        let all = concat_all(pieces);
        let cut = hashes_in(all);
        assert(cut.len() == pieces.len());
        assert forall|i: int| 0 <= i < cut.len() implies cut[i] == pieces[i] by {
            if i < front.len() {
                assert(hashes_in(concat_all(front))[i] == front[i]);
                assert(all.subrange(20 * i, 20 * i + 20) =~= concat_all(front).subrange(
                    20 * i,
                    20 * i + 20,
                ));
            } else {
                assert(all.subrange(20 * i, 20 * i + 20) =~= pieces.last());
            }
        }
        assert(cut =~= pieces);
    }
}

/// The `info` dictionary of a torrent in order is plain, and the parts of
/// the torrent are read from it again.
#[verifier::rlimit(50)]
pub proof fn lemma_info_made(t: TorrentView)
    requires
        valid(t),
    ensures
        info_of(t) is Dict,
        info_parts(info_of(t)->Dict_0, t),
        plain(info_of(t)),
{
    lemma_info_keys();
    lemma_keys_fit();
    let none = Seq::<(Seq<char>, Value)>::empty();
    let first = match t.files {
        Some(files) => put(none, "files"@, Value::List(file_values(files))),
        None => put(none, "length"@, Value::Integer(t.length)),
    };
    let second = put(first, "name"@, Value::Text(t.name));
    let third = put(second, "piece length"@, Value::Integer(t.piece_length));
    let base = put(third, "pieces"@, Value::Bytes(concat_all(t.pieces)));
    let info = merged(base, t.extra_info_fields);
    match t.files {
        Some(files) => {
            lemma_files_made(files);
            lemma_put_sorted(none, "files"@, Value::List(file_values(files)));
            lemma_put_plain(none, "files"@, Value::List(file_values(files)));
        },
        None => {
            lemma_put_sorted(none, "length"@, Value::Integer(t.length));
            lemma_put_plain(none, "length"@, Value::Integer(t.length));
        },
    }
    lemma_put_sorted(first, "name"@, Value::Text(t.name));
    lemma_put_plain(first, "name"@, Value::Text(t.name));
    lemma_put_sorted(second, "piece length"@, Value::Integer(t.piece_length));
    lemma_put_plain(second, "piece length"@, Value::Integer(t.piece_length));
    lemma_put_sorted(third, "pieces"@, Value::Bytes(concat_all(t.pieces)));
    lemma_put_plain(third, "pieces"@, Value::Bytes(concat_all(t.pieces)));
    lemma_merged_plain(base, t.extra_info_fields);
    lemma_plain_dict(info);
    lemma_hashes_made(t.pieces);
    let extras = match t.extra_info_fields {
        Some(more) => more,
        None => none,
    };
    let keys = seq!["files"@, "length"@, "name"@, "piece length"@, "pieces"@];
    assert(lookup(extras, keys[0]) is None);
    assert(lookup(extras, keys[1]) is None);
    assert(lookup(extras, keys[2]) is None);
    assert(lookup(extras, keys[3]) is None);
    assert(lookup(extras, keys[4]) is None);
    let a = without(info, "files"@);
    let b = without(a, "length"@);
    let c = without(b, "name"@);
    let d = without(c, "piece length"@);
    let rest = without(d, "pieces"@);
    lemma_without_sorted(info, "files"@);
    lemma_without_sorted(a, "length"@);
    lemma_without_sorted(b, "name"@);
    lemma_without_sorted(c, "piece length"@);
    lemma_without_sorted(d, "pieces"@);
    assert forall|key: Seq<char>|
        lookup(info, key) == match lookup(extras, key) {
            Some(v) => Some(v),
            None => lookup(base, key),
        } && lookup(base, key) == (if key == "pieces"@ {
            Some(Value::Bytes(concat_all(t.pieces)))
        } else if key == "piece length"@ {
            Some(Value::Integer(t.piece_length))
        } else if key == "name"@ {
            Some(Value::Text(t.name))
        } else {
            lookup(first, key)
        }) && lookup(first, key) == (match t.files {
            Some(files) => if key == "files"@ {
                Some(Value::List(file_values(files)))
            } else {
                None
            },
            None => if key == "length"@ {
                Some(Value::Integer(t.length))
            } else {
                None
            },
        }) && lookup(rest, key) == (if key == "files"@ || key == "length"@ || key == "name"@
            || key == "piece length"@ || key == "pieces"@ {
            None
        } else {
            lookup(info, key)
        }) by {
        if t.extra_info_fields is Some {
            lemma_lookup_put_all(base, extras, key);
        }
        lemma_lookup_put(third, "pieces"@, Value::Bytes(concat_all(t.pieces)), key);
        lemma_lookup_put(second, "piece length"@, Value::Integer(t.piece_length), key);
        lemma_lookup_put(first, "name"@, Value::Text(t.name), key);
        match t.files {
            Some(files) => {
                lemma_lookup_put(none, "files"@, Value::List(file_values(files)), key);
            },
            None => {
                lemma_lookup_put(none, "length"@, Value::Integer(t.length), key);
            },
        }
        lemma_removed(info, "files"@, key);
        lemma_removed(a, "length"@, key);
        lemma_removed(b, "name"@, key);
        lemma_removed(c, "piece length"@, key);
        lemma_removed(d, "pieces"@, key);
    }
    assert(lookup(info, "pieces"@) == Some(Value::Bytes(concat_all(t.pieces))));
    assert(lookup(info, "piece length"@) == Some(Value::Integer(t.piece_length)));
    assert(lookup(info, "name"@) == Some(Value::Text(t.name)));
    match t.files {
        Some(files) => {
            assert(lookup(info, "files"@) == Some(Value::List(file_values(files))));
            assert(lookup(info, "length"@) is None);
            assert(file_values(files).len() == files.len());
        },
        None => {
            assert(lookup(info, "files"@) is None);
            assert(lookup(info, "length"@) == Some(Value::Integer(t.length)));
        },
    }
    lemma_rest_lookup(rest, t.extra_info_fields);
}

/// The entries that a torrent itself writes at the top level.
pub open spec fn outer_base(t: TorrentView) -> Seq<(Seq<char>, Value)> {
    let first: Seq<(Seq<char>, Value)> = match t.announce {
        Some(url) => put(Seq::empty(), "announce"@, Value::Text(url)),
        None => Seq::empty(),
    };
    let second = match t.announce_list {
        Some(tiers) => put(first, "announce-list"@, Value::List(tier_values(tiers))),
        None => first,
    };
    put(second, "info"@, info_of(t))
}

/// What a key maps to among the entries that a torrent itself writes at the
/// top level.
pub open spec fn outer_base_lookup(t: TorrentView, key: Seq<char>) -> Option<Value> {
    if key == "info"@ {
        Some(info_of(t))
    } else if key == "announce-list"@ && t.announce_list is Some {
        Some(Value::List(tier_values(t.announce_list->0)))
    } else if key == "announce"@ && t.announce is Some {
        Some(Value::Text(t.announce->0))
    } else {
        None
    }
}

/// The tiers of a torrent in order are written as a plain list.
pub proof fn lemma_tiers_plain(tiers: Seq<Seq<Seq<char>>>)
    requires
        forall|i: int, j: int|
            0 <= i < tiers.len() && 0 <= j < tiers[i].len() ==> text_fits(
                #[trigger] tiers[i][j],
            ),
    ensures
        plain(Value::List(tier_values(tiers))),
{
    let items = tier_values(tiers);
    assert forall|i: int| 0 <= i < items.len() implies canonical(#[trigger] items[i]) && bounded(
        items[i],
    ) by {
        assert forall|j: int| 0 <= j < tiers[i].len() implies text_fits(
            #[trigger] tiers[i][j],
        ) by {}
        lemma_texts_plain(tiers[i]);
    }
}

/// The entries that a torrent in order itself writes at the top level are
/// sorted and plain, and hold its trackers and its `info`.
#[verifier::rlimit(50)]
pub proof fn lemma_outer_base(t: TorrentView)
    requires
        valid(t),
    ensures
        sorted(outer_base(t)),
        plain_entries(outer_base(t)),
        forall|key: Seq<char>| lookup(outer_base(t), key) == outer_base_lookup(t, key),
{
    lemma_top_keys();
    lemma_keys_fit();
    lemma_info_made(t);
    let none = Seq::<(Seq<char>, Value)>::empty();
    let first: Seq<(Seq<char>, Value)> = match t.announce {
        Some(url) => put(none, "announce"@, Value::Text(url)),
        None => none,
    };
    let second = match t.announce_list {
        Some(tiers) => put(first, "announce-list"@, Value::List(tier_values(tiers))),
        None => first,
    };
    match t.announce {
        Some(url) => {
            lemma_put_sorted(none, "announce"@, Value::Text(url));
            lemma_put_plain(none, "announce"@, Value::Text(url));
        },
        None => {},
    }
    match t.announce_list {
        Some(tiers) => {
            lemma_tiers_plain(tiers);
            lemma_put_sorted(first, "announce-list"@, Value::List(tier_values(tiers)));
            lemma_put_plain(first, "announce-list"@, Value::List(tier_values(tiers)));
        },
        None => {},
    }
    lemma_put_sorted(second, "info"@, info_of(t));
    lemma_put_plain(second, "info"@, info_of(t));
    assert forall|key: Seq<char>| lookup(outer_base(t), key) == outer_base_lookup(t, key) by {
        lemma_lookup_put(second, "info"@, info_of(t), key);
        match t.announce_list {
            Some(tiers) => {
                lemma_lookup_put(first, "announce-list"@, Value::List(tier_values(tiers)), key);
            },
            None => {},
        }
        match t.announce {
            Some(url) => {
                lemma_lookup_put(none, "announce"@, Value::Text(url), key);
            },
            None => {},
        }
    }
}

/// In the top-level dictionary of a torrent in order, the keys that the
/// torrent itself writes map to its trackers and its `info`, and what is
/// left without them is the extra fields.
#[verifier::rlimit(50)]
pub proof fn lemma_outer_lookups(t: TorrentView)
    requires
        valid(t),
    ensures
        outer_of(t) == Value::Dict(merged(outer_base(t), t.extra_fields)),
        plain(outer_of(t)),
        lookup(outer_of(t)->Dict_0, "info"@) == Some(info_of(t)),
        lookup(outer_of(t)->Dict_0, "announce"@) == outer_base_lookup(t, "announce"@),
        lookup(outer_of(t)->Dict_0, "announce-list"@) == outer_base_lookup(t, "announce-list"@),
        extra_of(top_rest(outer_of(t)->Dict_0)) == t.extra_fields,
{
    lemma_top_keys();
    lemma_outer_base(t);
    let none = Seq::<(Seq<char>, Value)>::empty();
    let base = outer_base(t);
    let top = merged(base, t.extra_fields);
    lemma_merged_plain(base, t.extra_fields);
    lemma_plain_dict(top);
    let extras = match t.extra_fields {
        Some(more) => more,
        None => none,
    };
    let keys = seq!["announce"@, "announce-list"@, "info"@];
    assert(lookup(extras, keys[0]) is None);
    assert(lookup(extras, keys[1]) is None);
    assert(lookup(extras, keys[2]) is None);
    let a = without(top, "announce"@);
    let b = without(a, "announce-list"@);
    let rest = without(b, "info"@);
    lemma_without_sorted(top, "announce"@);
    lemma_without_sorted(a, "announce-list"@);
    lemma_without_sorted(b, "info"@);
    assert forall|key: Seq<char>|
        lookup(top, key) == match lookup(extras, key) {
            Some(v) => Some(v),
            None => lookup(base, key),
        } && lookup(rest, key) == (if key == "announce"@ || key == "announce-list"@ || key
            == "info"@ {
            None
        } else {
            lookup(top, key)
        }) by {
        if t.extra_fields is Some {
            lemma_lookup_put_all(base, extras, key);
        }
        lemma_removed(top, "announce"@, key);
        lemma_removed(a, "announce-list"@, key);
        lemma_removed(b, "info"@, key);
    }
    assert(lookup(base, "info"@) == outer_base_lookup(t, "info"@));
    assert(lookup(base, "announce"@) == outer_base_lookup(t, "announce"@));
    assert(lookup(base, "announce-list"@) == outer_base_lookup(t, "announce-list"@));
    assert(lookup(top, "info"@) == Some(info_of(t)));
    assert(lookup(top, "announce"@) == outer_base_lookup(t, "announce"@));
    assert(lookup(top, "announce-list"@) == outer_base_lookup(t, "announce-list"@));
    assert forall|key: Seq<char>|
        lookup(rest, key) == match t.extra_fields {
            Some(more) => lookup(more, key),
            None => None,
        } by {
        assert(lookup(base, key) == outer_base_lookup(t, key));
    }
    lemma_rest_lookup(rest, t.extra_fields);
}

/// A torrent in order is written as a plain dictionary from which it is
/// read again.
#[verifier::rlimit(50)]
pub proof fn lemma_outer_made(t: TorrentView)
    requires
        valid(t),
    ensures
        outer_of(t) is Dict,
        torrent_of(outer_of(t)->Dict_0) == Ok::<TorrentView, Seq<char>>(t),
        plain(outer_of(t)),
{
    lemma_top_keys();
    lemma_outer_lookups(t);
    lemma_info_made(t);
    let top = outer_of(t)->Dict_0;
    match t.announce_list {
        Some(tiers) => {
            lemma_tiers_made(tiers);
        },
        None => {},
    }
    assert(announce_of(top) == Ok::<Option<Seq<char>>, Seq<char>>(t.announce));
    assert(announce_list_of(top) == Ok::<Option<Seq<Seq<Seq<char>>>>, Seq<char>>(
        t.announce_list,
    ));
    let back = torrent_of(top)->Ok_0;
    assert(torrent_of(top) is Ok);
    assert(back == t);
}

/// The entries of a plain dictionary are plain.
pub proof fn lemma_dict_plain(entries: Seq<(Seq<char>, Value)>)
    requires
        plain(Value::Dict(entries)),
    ensures
        sorted(entries),
        plain_entries(entries),
{
    assert forall|i: int| 0 <= i < entries.len() implies text_fits((#[trigger] entries[i]).0)
        && plain(entries[i].1) by {
        assert(canonical(entries[i].1) && bounded(entries[i].1));
    }
}

/// What a key maps to in plain entries is plain.
pub proof fn lemma_lookup_plain(entries: Seq<(Seq<char>, Value)>, key: Seq<char>)
    requires
        plain_entries(entries),
        lookup(entries, key) is Some,
    ensures
        plain(lookup(entries, key)->0),
{
    lemma_lookup_stands(entries, key);
    let i = choose|i: int|
        0 <= i < entries.len() && #[trigger] entries[i] == (key, lookup(entries, key)->0);
    assert(text_fits(entries[i].0) && plain(entries[i].1));
}

/// Removing a key keeps sorted entries plain.
pub proof fn lemma_without_plain(entries: Seq<(Seq<char>, Value)>, key: Seq<char>)
    requires
        sorted(entries),
        plain_entries(entries),
    ensures
        sorted(without(entries, key)),
        plain_entries(without(entries, key)),
{
    lemma_without_sorted(entries, key);
    let out = without(entries, key);
    assert forall|i: int| 0 <= i < out.len() implies text_fits((#[trigger] out[i]).0) && plain(
        out[i].1,
    ) by {
        let k = choose|k: int| 0 <= k < entries.len() && entries[k] == out[i];
        assert(text_fits(entries[k].0) && plain(entries[k].1));
    }
}

/// What is left of plain entries in order is extra fields in order.
pub proof fn lemma_rest_valid(rest: Seq<(Seq<char>, Value)>)
    requires
        sorted(rest),
        plain_entries(rest),
    ensures
        extras_valid(extra_of(rest)),
{
}

/// Path components that were read from a plain list fit, and none of them
/// is `.` or `..`.
pub proof fn lemma_components_valid(items: Seq<Value>)
    requires
        forall|i: int| 0 <= i < items.len() ==> plain(#[trigger] items[i]),
        components_of(items) is Ok,
    ensures
        components_of(items)->Ok_0.len() == items.len(),
        forall|i: int|
            0 <= i < items.len() ==> text_fits(#[trigger] components_of(items)->Ok_0[i])
                && components_of(items)->Ok_0[i] != "."@ && components_of(items)->Ok_0[i] != ".."@,
    decreases items.len(),
{
    if items.len() > 0 {
        let rest = items.drop_first();
        assert forall|i: int| 0 <= i < rest.len() implies plain(#[trigger] rest[i]) by {
            assert(rest[i] == items[i + 1]);
        }
        lemma_components_valid(rest);
        let path = components_of(items)->Ok_0;
        let tail = components_of(rest)->Ok_0;
        assert(path =~= seq![items[0]->Text_0] + tail);
        assert(plain(items[0]));
        assert forall|i: int| 0 <= i < items.len() implies text_fits(#[trigger] path[i])
            && path[i] != "."@ && path[i] != ".."@ by {
            if i > 0 {
                assert(path[i] == tail[i - 1]);
            }
        }
    }
}

/// A file that was read from a plain dictionary is in order.
#[verifier::rlimit(50)]
pub proof fn lemma_file_valid(item: Value)
    requires
        plain(item),
        file_of(item) is Ok,
    ensures
        file_valid(file_of(item)->Ok_0),
{
    let file = item->Dict_0;
    let f = file_of(item)->Ok_0;
    lemma_file_keys();
    lemma_dict_plain(file);
    lemma_lookup_plain(file, "path"@);
    let items = lookup(file, "path"@)->Some_0->List_0;
    assert forall|i: int| 0 <= i < items.len() implies plain(#[trigger] items[i]) by {
        assert(canonical(items[i]) && bounded(items[i]));
    }
    lemma_components_valid(items);
    let a = without(file, "length"@);
    let rest = without(a, "path"@);
    lemma_without_plain(file, "length"@);
    lemma_without_plain(a, "path"@);
    lemma_rest_valid(rest);
    lemma_removed(file, "length"@, "length"@);
    lemma_removed(a, "path"@, "length"@);
    lemma_removed(a, "path"@, "path"@);
    let keys = seq!["length"@, "path"@];
    assert forall|i: int| 0 <= i < keys.len() implies lookup(rest, #[trigger] keys[i])
        is None by {
        assert(i == 0 || i == 1);
    }
}

/// Files that were read from a list of plain dictionaries are in order.
pub proof fn lemma_files_valid(items: Seq<Value>)
    requires
        forall|i: int| 0 <= i < items.len() ==> plain(#[trigger] items[i]),
        files_from(items) is Ok,
    ensures
        files_from(items)->Ok_0.len() == items.len(),
        forall|i: int| 0 <= i < items.len() ==> file_valid(#[trigger] files_from(items)->Ok_0[i]),
    decreases items.len(),
{
    if items.len() > 0 {
        let rest = items.drop_first();
        assert forall|i: int| 0 <= i < rest.len() implies plain(#[trigger] rest[i]) by {
            assert(rest[i] == items[i + 1]);
        }
        lemma_files_valid(rest);
        assert(plain(items[0]));
        lemma_file_valid(items[0]);
        let files = files_from(items)->Ok_0;
        let tail = files_from(rest)->Ok_0;
        assert(files =~= seq![file_of(items[0])->Ok_0] + tail);
        assert forall|i: int| 0 <= i < items.len() implies file_valid(#[trigger] files[i]) by {
            if i > 0 {
                assert(files[i] == tail[i - 1]);
            }
        }
    }
}

/// URLs that were read from a plain list fit.
pub proof fn lemma_urls_fit(items: Seq<Value>)
    requires
        forall|i: int| 0 <= i < items.len() ==> plain(#[trigger] items[i]),
        urls_of(items) is Ok,
    ensures
        urls_of(items)->Ok_0.len() == items.len(),
        forall|i: int| 0 <= i < items.len() ==> text_fits(#[trigger] urls_of(items)->Ok_0[i]),
    decreases items.len(),
{
    if items.len() > 0 {
        let rest = items.drop_first();
        assert forall|i: int| 0 <= i < rest.len() implies plain(#[trigger] rest[i]) by {
            assert(rest[i] == items[i + 1]);
        }
        lemma_urls_fit(rest);
        let urls = urls_of(items)->Ok_0;
        let tail = urls_of(rest)->Ok_0;
        assert(urls =~= seq![items[0]->Text_0] + tail);
        assert(plain(items[0]));
        assert forall|i: int| 0 <= i < items.len() implies text_fits(#[trigger] urls[i]) by {
            if i > 0 {
                assert(urls[i] == tail[i - 1]);
            }
        }
    }
}

/// The URLs of tiers that were read from a plain list fit.
pub proof fn lemma_tiers_fit(items: Seq<Value>)
    requires
        forall|i: int| 0 <= i < items.len() ==> plain(#[trigger] items[i]),
        tiers_from(items) is Ok,
    ensures
        tiers_from(items)->Ok_0.len() == items.len(),
        forall|i: int, j: int|
            0 <= i < items.len() && 0 <= j < tiers_from(items)->Ok_0[i].len() ==> text_fits(
                #[trigger] tiers_from(items)->Ok_0[i][j],
            ),
    decreases items.len(),
{
    if items.len() > 0 {
        let rest = items.drop_first();
        assert forall|i: int| 0 <= i < rest.len() implies plain(#[trigger] rest[i]) by {
            assert(rest[i] == items[i + 1]);
        }
        lemma_tiers_fit(rest);
        assert(plain(items[0]));
        let urls = items[0]->List_0;
        assert forall|i: int| 0 <= i < urls.len() implies plain(#[trigger] urls[i]) by {
            assert(canonical(urls[i]) && bounded(urls[i]));
        }
        lemma_urls_fit(urls);
        let tiers = tiers_from(items)->Ok_0;
        let tail = tiers_from(rest)->Ok_0;
        assert(tiers =~= seq![tier_of(items[0])->Ok_0] + tail);
        assert forall|i: int, j: int|
            0 <= i < items.len() && 0 <= j < tiers[i].len() implies text_fits(
            #[trigger] tiers[i][j],
        ) by {
            if i > 0 {
                assert(tiers[i] == tail[i - 1]);
            }
        }
    }
}

/// The parts that were read from a plain `info` dictionary are in order.
#[verifier::rlimit(50)]
pub proof fn lemma_info_valid(info: Seq<(Seq<char>, Value)>, t: TorrentView)
    requires
        plain(Value::Dict(info)),
        info_parts(info, t),
    ensures
        t.piece_length > 0,
        t.pieces.len() > 0,
        forall|i: int| 0 <= i < t.pieces.len() ==> (#[trigger] t.pieces[i]).len() == 20,
        !valid_utf8(concat_all(t.pieces)),
        concat_all(t.pieces).len() <= usize::MAX,
        text_fits(t.name),
        match t.files {
            Some(files) => files.len() > 0 && (forall|i: int|
                0 <= i < files.len() ==> file_valid(#[trigger] files[i])) && sum_lengths(files, 0)
                == Ok::<i64, Seq<char>>(t.length),
            None => true,
        },
        extras_valid(t.extra_info_fields),
        lacks(t.extra_info_fields, seq!["files"@, "length"@, "name"@, "piece length"@, "pieces"@]),
{
    lemma_info_keys();
    lemma_dict_plain(info);
    lemma_lookup_plain(info, "pieces"@);
    lemma_lookup_plain(info, "name"@);
    let bytes = lookup(info, "pieces"@)->Some_0->Bytes_0;
    lemma_concat_hashes(bytes, bytes.len() as int / 20);
    assert(hashes_in(bytes).take(bytes.len() as int / 20) =~= hashes_in(bytes));
    assert(bytes.take(20 * (bytes.len() as int / 20)) =~= bytes);
    match t.files {
        Some(files) => {
            lemma_lookup_plain(info, "files"@);
            let items = lookup(info, "files"@)->Some_0->List_0;
            assert forall|i: int| 0 <= i < items.len() implies plain(#[trigger] items[i]) by {
                assert(canonical(items[i]) && bounded(items[i]));
            }
            lemma_files_valid(items);
        },
        None => {},
    }
    let a = without(info, "files"@);
    let b = without(a, "length"@);
    let c = without(b, "name"@);
    let d = without(c, "piece length"@);
    let rest = without(d, "pieces"@);
    lemma_without_plain(info, "files"@);
    lemma_without_plain(a, "length"@);
    lemma_without_plain(b, "name"@);
    lemma_without_plain(c, "piece length"@);
    lemma_without_plain(d, "pieces"@);
    lemma_rest_valid(rest);
    let keys = seq!["files"@, "length"@, "name"@, "piece length"@, "pieces"@];
    assert forall|i: int| 0 <= i < keys.len() implies lookup(rest, #[trigger] keys[i])
        is None by {
        lemma_removed(info, "files"@, keys[i]);
        lemma_removed(a, "length"@, keys[i]);
        lemma_removed(b, "name"@, keys[i]);
        lemma_removed(c, "piece length"@, keys[i]);
        lemma_removed(d, "pieces"@, keys[i]);
    }
}

/// A torrent that was read from a plain top-level dictionary and is
/// consistent is in order.
#[verifier::rlimit(50)]
pub proof fn lemma_torrent_valid(top: Seq<(Seq<char>, Value)>)
    requires
        plain(Value::Dict(top)),
        torrent_of(top) is Ok,
        checked(torrent_of(top)->Ok_0) is Ok,
    ensures
        valid(torrent_of(top)->Ok_0),
{
    let t = torrent_of(top)->Ok_0;
    lemma_top_keys();
    lemma_dict_plain(top);
    lemma_lookup_plain(top, "info"@);
    let info = lookup(top, "info"@)->Some_0->Dict_0;
    lemma_info_valid(info, t);
    if t.announce is Some {
        lemma_lookup_plain(top, "announce"@);
    }
    if t.announce_list is Some {
        lemma_lookup_plain(top, "announce-list"@);
        let items = lookup(top, "announce-list"@)->Some_0->List_0;
        assert forall|i: int| 0 <= i < items.len() implies plain(#[trigger] items[i]) by {
            assert(canonical(items[i]) && bounded(items[i]));
        }
        lemma_tiers_fit(items);
    }
    let a = without(top, "announce"@);
    let b = without(a, "announce-list"@);
    let rest = without(b, "info"@);
    lemma_without_plain(top, "announce"@);
    lemma_without_plain(a, "announce-list"@);
    lemma_without_plain(b, "info"@);
    lemma_rest_valid(rest);
    let keys = seq!["announce"@, "announce-list"@, "info"@];
    assert forall|i: int| 0 <= i < keys.len() implies lookup(rest, #[trigger] keys[i])
        is None by {
        lemma_removed(top, "announce"@, keys[i]);
        lemma_removed(a, "announce-list"@, keys[i]);
        lemma_removed(b, "info"@, keys[i]);
    }
}

} // verus!
