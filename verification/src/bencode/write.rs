//! Encoding: from an element to its bytes.

use vstd::prelude::*;
use crate::bencode::elem::{lemma_list_values, pairs_of, values_of, BencodeElem, Dictionary, Entry};
use crate::bencode::entries::key_bytes;
use crate::bencode::model::{
    encode, encode_bytes, encode_entries, encode_items, ordered, COLON, DICTIONARY, END, INTEGER,
    LIST,
};
use crate::text::{push_int, push_nat};

verus! {

/// Appends the encoding of the byte string `bytes` to `buf`.
pub fn write_bytes(bytes: &[u8], buf: &mut Vec<u8>)
    ensures
        final(buf)@ == old(buf)@ + encode_bytes(bytes@),
{
    push_nat(buf, bytes.len() as u64);
    buf.push(COLON);
    buf.extend_from_slice(bytes);
    assert(buf@ =~= old(buf)@ + encode_bytes(bytes@));
}

impl BencodeElem {
    /// The encoding of the element.
    ///
    /// The bytes depend on nothing but what the element stands for, and the
    /// keys of every dictionary come out in ascending order.
    pub fn encode(&self) -> (res: Vec<u8>)
        ensures
            res@ == encode(self@),
            ordered(self@),
    {
        let mut buf: Vec<u8> = Vec::new();
        self.write_into(&mut buf);
        assert(buf@ =~= encode(self@));
        buf
    }

    /// Appends the encoding of the element to `buf`.
    pub fn write_into(&self, buf: &mut Vec<u8>)
        ensures
            final(buf)@ == old(buf)@ + encode(self@),
            ordered(self@),
        decreases self,
    {
        match self {
            BencodeElem::String(s) => {
                write_bytes(s.as_str().as_bytes(), buf);
            },
            BencodeElem::Bytes(b) => {
                write_bytes(b.as_slice(), buf);
            },
            BencodeElem::Integer(i) => {
                buf.push(INTEGER);
                push_int(buf, *i);
                buf.push(END);
                assert(buf@ =~= old(buf)@ + encode(self@));
            },
            BencodeElem::List(items) => {
                buf.push(LIST);
                let ghost values = values_of(items@);
                proof {
                    lemma_list_values(items@);
                    assert(values.skip(0) =~= values);
                }
                let mut i: usize = 0;
                while i < items.len()
                    invariant
                        i <= items.len(),
                        self is List,
                        self->List_0 == *items,
                        values == values_of(items@),
                        buf@ + encode_items(values.skip(i as int)) == old(buf)@ + seq![LIST]
                            + encode_items(values),
                        forall|j: int| 0 <= j < i ==> ordered(#[trigger] values[j]),
                    decreases items.len() - i,
                {
                    proof {
                        assert(decreases_to!(self => self->List_0));
                        assert(decreases_to!(items => items[i as int]));
                        assert(values.skip(i as int).drop_first() =~= values.skip(i + 1));
                    }
                    let ghost before = buf@;
                    items[i].write_into(buf);
                    proof {
                        let rest = encode_items(values.skip(i + 1));
                        assert(buf@ + rest =~= before + (encode(values[i as int]) + rest));
                    }
                    i += 1;
                }
                buf.push(END);
                assert(encode_items(values.skip(items.len() as int)) =~= Seq::<u8>::empty());
                assert(buf@ =~= old(buf)@ + encode(self@));
            },
            BencodeElem::Dictionary(dict) => {
                buf.push(DICTIONARY);
                let entries = dict.entries();
                let ghost pairs = pairs_of(entries@);
                assert(pairs.skip(0) =~= pairs);
                let mut i: usize = 0;
                while i < entries.len()
                    invariant
                        i <= entries.len(),
                        self is Dictionary,
                        self->Dictionary_0 == *dict,
                        pairs == pairs_of(entries@),
                        pairs == dict@,
                        decreases_to!(dict => entries),
                        buf@ + encode_entries(pairs.skip(i as int)) == old(buf)@ + seq![DICTIONARY]
                            + encode_entries(pairs),
                        forall|j: int| 0 <= j < i ==> ordered((#[trigger] pairs[j]).1),
                    decreases entries.len() - i,
                {
                    proof {
                        assert(decreases_to!(self => self->Dictionary_0));
                        assert(decreases_to!(entries => entries[i as int]));
                        assert(decreases_to!(entries[i as int] => entries[i as int].value));
                        assert(pairs.skip(i as int).drop_first() =~= pairs.skip(i + 1));
                    }
                    let ghost before = buf@;
                    let entry: &Entry = &entries[i];
                    write_bytes(entry.key.as_str().as_bytes(), buf);
                    entry.value.write_into(buf);
                    proof {
                        let rest = encode_entries(pairs.skip(i + 1));
                        assert(buf@ + rest =~= before + (encode_bytes(key_bytes(pairs[i as int].0))
                            + encode(pairs[i as int].1) + rest));
                    }
                    i += 1;
                }
                buf.push(END);
                assert(encode_entries(pairs.skip(entries.len() as int)) =~= Seq::<u8>::empty());
                assert(buf@ =~= old(buf)@ + encode(self@));
            },
        }
    }
}

} // verus!
