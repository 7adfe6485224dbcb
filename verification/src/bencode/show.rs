//! Elements as text for people to read.

use vstd::prelude::*;
use vstd::string::StringExecFns;
use crate::bencode::elem::{lemma_list_values, pairs_of, values_of, BencodeElem, Entry};
use crate::bencode::model::Value;
use crate::text::{
    append_int, ascii_chars, ascii_text, hex_digit, hex_lower, int_text, join_texts, joined,
    texts_of,
};

verus! {

/// A byte in hexadecimal behind `0x`, with as many digits as it needs.
pub open spec fn byte_text(b: u8) -> Seq<u8> {
    if b < 16 {
        seq![48u8, 120u8, hex_lower(b as int)]
    } else {
        seq![48u8, 120u8, hex_lower(b as int / 16), hex_lower(b as int % 16)]
    }
}

/// Each byte of `bytes` as text.
pub open spec fn bytes_texts(bytes: Seq<u8>) -> Seq<Seq<char>> {
    Seq::new(bytes.len(), |i: int| ascii_chars(byte_text(bytes[i])))
}

/// An element as text: text between quotes, bytes and lists between square
/// brackets, and the entries of a dictionary as pairs between braces.
pub open spec fn shown(v: Value) -> Seq<char>
    decreases v,
{
    match v {
        Value::Text(s) => "\""@ + s + "\""@,
        Value::Bytes(b) => "["@ + joined(bytes_texts(b), ", "@) + "]"@,
        Value::Integer(i) => ascii_chars(int_text(i as int)),
        Value::List(items) => "["@ + joined(shown_items(items), ", "@) + "]"@,
        Value::Dict(entries) => "{ "@ + joined(shown_entries(entries), ", "@) + " }"@,
    }
}

/// Each of `items` as text.
pub open spec fn shown_items(items: Seq<Value>) -> Seq<Seq<char>>
    decreases items,
{
    if items.len() == 0 {
        Seq::empty()
    } else {
        shown_items(items.drop_last()).push(shown(items.last()))
    }
}

/// Each of `entries` as text: the key between quotes and the value, as a
/// pair.
pub open spec fn shown_entries(entries: Seq<(Seq<char>, Value)>) -> Seq<Seq<char>>
    decreases entries,
{
    if entries.len() == 0 {
        Seq::empty()
    } else {
        shown_entries(entries.drop_last()).push(
            "(\""@ + entries.last().0 + "\", "@ + shown(entries.last().1) + ")"@,
        )
    }
}

/// A byte as text.
fn show_byte(b: u8) -> (res: String)
    ensures
        res@ == ascii_chars(byte_text(b)),
{
    let mut out: Vec<u8> = Vec::new();
    out.push(48);
    out.push(120);
    if b >= 16 {
        out.push(hex_digit(b / 16));
    }
    out.push(hex_digit(b % 16));
    assert(out@ =~= byte_text(b));
    ascii_text(out.as_slice())
}

impl BencodeElem {
    /// The element as text.
    pub fn to_string(&self) -> (res: String)
        ensures
            res@ == shown(self@),
        decreases self,
    {
        match self {
            BencodeElem::String(s) => {
                let mut out = "\"".to_owned();
                out.append(s.as_str());
                out.append("\"");
                out
            },
            BencodeElem::Bytes(bytes) => {
                let mut parts: Vec<String> = Vec::new();
                let mut i: usize = 0;
                while i < bytes.len()
                    invariant
                        i <= bytes.len(),
                        parts.len() == i,
                        forall|j: int|
                            0 <= j < i ==> (#[trigger] parts[j])@ == ascii_chars(
                                byte_text(bytes[j]),
                            ),
                    decreases bytes.len() - i,
                {
                    parts.push(show_byte(bytes[i]));
                    i += 1;
                }
                assert(texts_of(parts@) =~= bytes_texts(bytes@));
                let mut out = "[".to_owned();
                out.append(join_texts(&parts, ", ").as_str());
                out.append("]");
                out
            },
            BencodeElem::Integer(i) => {
                let mut out = String::new();
                append_int(&mut out, *i);
                assert(out@ =~= shown(self@));
                out
            },
            BencodeElem::List(items) => {
                let ghost values = values_of(items@);
                proof {
                    lemma_list_values(items@);
                    assert(values.take(0) =~= Seq::<Value>::empty());
                }
                let mut parts: Vec<String> = Vec::new();
                let mut i: usize = 0;
                while i < items.len()
                    invariant
                        i <= items.len(),
                        self is List,
                        self->List_0 == *items,
                        values == values_of(items@),
                        texts_of(parts@) == shown_items(values.take(i as int)),
                    decreases items.len() - i,
                {
                    proof {
                        assert(decreases_to!(self => self->List_0));
                        assert(decreases_to!(items => items[i as int]));
                        assert(values.take(i + 1).drop_last() =~= values.take(i as int));
                    }
                    let ghost before = texts_of(parts@);
                    let part = items[i].to_string();
                    parts.push(part);
                    assert(texts_of(parts@) =~= before.push(part@));
                    i += 1;
                }
                assert(values.take(items.len() as int) =~= values);
                let mut out = "[".to_owned();
                out.append(join_texts(&parts, ", ").as_str());
                out.append("]");
                out
            },
            BencodeElem::Dictionary(dict) => {
                let entries = dict.entries();
                let ghost pairs = pairs_of(entries@);
                assert(pairs.take(0) =~= Seq::<(Seq<char>, Value)>::empty());
                let mut parts: Vec<String> = Vec::new();
                let mut i: usize = 0;
                while i < entries.len()
                    invariant
                        i <= entries.len(),
                        self is Dictionary,
                        self->Dictionary_0 == *dict,
                        decreases_to!(dict => entries),
                        pairs == pairs_of(entries@),
                        pairs == dict@,
                        texts_of(parts@) == shown_entries(pairs.take(i as int)),
                    decreases entries.len() - i,
                {
                    proof {
                        assert(decreases_to!(self => self->Dictionary_0));
                        assert(decreases_to!(entries => entries[i as int]));
                        assert(decreases_to!(entries[i as int] => entries[i as int].value));
                        assert(pairs.take(i + 1).drop_last() =~= pairs.take(i as int));
                    }
                    let ghost before = texts_of(parts@);
                    let entry: &Entry = &entries[i];
                    let mut part = "(\"".to_owned();
                    part.append(entry.key.as_str());
                    part.append("\", ");
                    part.append(entry.value.to_string().as_str());
                    part.append(")");
                    parts.push(part);
                    assert(texts_of(parts@) =~= before.push(part@));
                    i += 1;
                }
                assert(pairs.take(entries.len() as int) =~= pairs);
                let mut out = "{ ".to_owned();
                out.append(join_texts(&parts, ", ").as_str());
                out.append(" }");
                out
            },
        }
    }
}

} // verus!
