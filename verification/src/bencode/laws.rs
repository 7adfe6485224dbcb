//! What holds between encoding and decoding.
//!
//! The laws come first: decoding what was encoded yields what was encoded
//! (`lemma_decode_encoded`), and what decoding yields encodes to the bytes
//! that were decoded (`lemma_encode_decoded`). The lemmas that carry them
//! follow: first those on what was parsed, then those on what is encoded.

use vstd::prelude::*;
use vstd::utf8::{
    decode_utf8, decode_utf8_encode_utf8, encode_utf8, encode_utf8_decode_utf8,
    encode_utf8_valid_utf8, valid_utf8,
};
use crate::bencode::entries::{key_bytes, key_lt, lemma_lex_transitive, lex_lt, sorted};
use crate::bencode::model::{
    bounded, canonical, decode_all, digits_end, encode, encode_bytes, encode_entries, encode_items,
    parse_bytes, parse_elem, parse_entries, parse_integer, parse_items, text_or_bytes, window,
    Parsed, ReadLimit, Refusal, Value, COLON, DICTIONARY, END, INTEGER, LIST,
};
use crate::bencode::read::lemma_digits_end;
use crate::text::{
    all_digits, digits_value, int_text, is_digit, lemma_digits_positive, lemma_digits_text,
    lemma_nat_text, nat_text, MINUS, ZERO,
};

verus! {

/// Whether an encoding of `len` bytes can be read within `limit`.
pub open spec fn within(len: int, limit: ReadLimit) -> bool {
    match limit {
        ReadLimit::NoLimit => true,
        ReadLimit::Limit(n) => len <= n,
    }
}

/// Decoding what was encoded yields what was encoded: for all elements
/// that are what decoding yields, that the machine can hold, and whose
/// encodings can each be read within the limit, decoding their encodings,
/// one after the other, yields the elements.
pub proof fn lemma_decode_encoded(values: Seq<Value>, limit: ReadLimit)
    requires
        forall|i: int|
            0 <= i < values.len() ==> canonical(#[trigger] values[i]) && bounded(values[i])
                && within(encode(values[i]).len() as int, limit),
    ensures
        decode_all(encode_items(values), limit) == Ok::<Seq<Value>, Refusal>(values),
    decreases values.len(),
{
    let s = encode_items(values);
    if values.len() == 0 {
        assert(values =~= Seq::<Value>::empty());
    } else {
        let first = values[0];
        let rest = values.drop_first();
        lemma_encode_head(first);
        let w = window(s, limit);
        assert(w.subrange(0, encode(first).len() as int) =~= encode(first));
        lemma_parse_encoded(w, 0, first);
        assert(s.skip(encode(first).len() as int) =~= encode_items(rest));
        assert forall|i: int| 0 <= i < rest.len() implies canonical(#[trigger] rest[i])
            && bounded(rest[i]) && within(encode(rest[i]).len() as int, limit) by {
            assert(rest[i] == values[i + 1]);
        }
        lemma_decode_encoded(rest, limit);
        assert(seq![first] + rest =~= values);
    }
}

/// Decoding the encoding of one element yields that element.
pub proof fn lemma_decode_encoded_one(v: Value)
    requires
        canonical(v),
        bounded(v),
    ensures
        decode_all(encode(v), ReadLimit::NoLimit) == Ok::<Seq<Value>, Refusal>(seq![v]),
{
    let values = seq![v];
    assert(values.drop_first() =~= Seq::<Value>::empty());
    assert(encode_items(values.drop_first()) =~= Seq::<u8>::empty());
    assert(encode_items(values) =~= encode(v));
    lemma_decode_encoded(values, ReadLimit::NoLimit);
}

/// What decoding yields encodes to the bytes that were decoded: with every
/// limit, the encodings of the decoded elements, one after the other, are
/// the input.
pub proof fn lemma_encode_decoded(s: Seq<u8>, limit: ReadLimit)
    requires
        decode_all(s, limit) is Ok,
    ensures
        encode_items(decode_all(s, limit)->Ok_0) == s,
        forall|i: int|
            0 <= i < decode_all(s, limit)->Ok_0.len() ==> canonical(
                #[trigger] decode_all(s, limit)->Ok_0[i],
            ) && bounded(decode_all(s, limit)->Ok_0[i]),
    decreases s.len(),
{
    let values = decode_all(s, limit)->Ok_0;
    if s.len() == 0 {
        assert(encode_items(values) =~= s);
    } else {
        let w = window(s, limit);
        lemma_elem_parsed(w, 0);
        let first = parse_elem(w, 0)->Done_0;
        let end = parse_elem(w, 0)->Done_1;
        lemma_encode_decoded(s.skip(end), limit);
        let rest = decode_all(s.skip(end), limit)->Ok_0;
        assert(values == seq![first] + rest);
        assert(values.drop_first() =~= rest);
        assert(w.subrange(0, end) =~= s.subrange(0, end));
        assert(s =~= s.subrange(0, end) + s.skip(end));
        assert forall|i: int| 0 <= i < values.len() implies canonical(#[trigger] values[i])
            && bounded(values[i]) by {
            if i > 0 {
                assert(values[i] == rest[i - 1]);
            } else {
                assert(values[0] == first);
            }
        }
    }
}

/// An integer that was parsed stood there as its decimal text and an `e`.
pub proof fn lemma_integer_parsed(s: Seq<u8>, pos: int)
    requires
        0 <= pos <= s.len(),
        parse_integer(s, pos) is Done,
    ensures
        pos < parse_integer(s, pos)->Done_1 <= s.len(),
        s.subrange(pos, parse_integer(s, pos)->Done_1) == int_text(
            parse_integer(s, pos)->Done_0 as int,
        ) + seq![END],
{
    let negative = pos < s.len() && s[pos] == MINUS;
    let start = if negative {
        pos + 1
    } else {
        pos
    };
    lemma_digits_end(s, start);
    let end = digits_end(s, start);
    let digits = s.subrange(start, end);
    lemma_digits_text(digits);
    lemma_digits_positive(digits);
    let value = parse_integer(s, pos)->Done_0;
    if negative {
        assert(s.subrange(pos, end + 1) =~= seq![MINUS] + digits + seq![END]);
    } else {
        assert(s.subrange(pos, end + 1) =~= digits + seq![END]);
    }
}

/// A byte string that was parsed stood there as its encoding, and is no
/// longer than the machine's word holds.
pub proof fn lemma_bytes_parsed(s: Seq<u8>, pos: int)
    requires
        0 <= pos <= s.len(),
        parse_bytes(s, pos) is Done,
    ensures
        pos < parse_bytes(s, pos)->Done_1 <= s.len(),
        s.subrange(pos, parse_bytes(s, pos)->Done_1) == encode_bytes(parse_bytes(s, pos)->Done_0),
        parse_bytes(s, pos)->Done_0.len() <= usize::MAX,
{
    lemma_digits_end(s, pos);
    let end = digits_end(s, pos);
    let digits = s.subrange(pos, end);
    lemma_digits_text(digits);
    let n = digits_value(digits) as int;
    let payload = s.subrange(end + 1, end + 1 + n);
    assert(s.subrange(pos, end + 1 + n) =~= digits + seq![COLON] + payload);
}

/// What is held for a decoded byte string encodes to that byte string.
pub proof fn lemma_text_or_bytes(b: Seq<u8>)
    requires
        b.len() <= usize::MAX,
    ensures
        encode(text_or_bytes(b)) == encode_bytes(b),
        canonical(text_or_bytes(b)),
        bounded(text_or_bytes(b)),
{
    if valid_utf8(b) {
        decode_utf8_encode_utf8(b);
    }
}

/// An element that was parsed stood there as its encoding, and is what
/// decoding yields.
pub proof fn lemma_elem_parsed(s: Seq<u8>, pos: int)
    requires
        parse_elem(s, pos) is Done,
    ensures
        0 <= pos < parse_elem(s, pos)->Done_1 <= s.len(),
        s.subrange(pos, parse_elem(s, pos)->Done_1) == encode(parse_elem(s, pos)->Done_0),
        canonical(parse_elem(s, pos)->Done_0),
        bounded(parse_elem(s, pos)->Done_0),
    decreases s.len() - pos, 0nat,
{
    let end = parse_elem(s, pos)->Done_1;
    if s[pos] == INTEGER {
        lemma_integer_parsed(s, pos + 1);
        assert(s.subrange(pos, end) =~= seq![INTEGER] + s.subrange(pos + 1, end));
    } else if s[pos] == LIST {
        lemma_items_parsed(s, pos + 1);
        let items = parse_items(s, pos + 1)->Done_0;
        assert(s.subrange(pos, end) =~= seq![LIST] + s.subrange(pos + 1, end));
    } else if s[pos] == DICTIONARY {
        lemma_entries_parsed(s, pos + 1, None);
        assert(s.subrange(pos, end) =~= seq![DICTIONARY] + s.subrange(pos + 1, end));
    } else {
        lemma_bytes_parsed(s, pos);
        lemma_text_or_bytes(parse_bytes(s, pos)->Done_0);
    }
}

/// The items of a list that were parsed stood there as their encodings and
/// an `e`.
pub proof fn lemma_items_parsed(s: Seq<u8>, pos: int)
    requires
        parse_items(s, pos) is Done,
    ensures
        0 <= pos < parse_items(s, pos)->Done_1 <= s.len(),
        s.subrange(pos, parse_items(s, pos)->Done_1) == encode_items(parse_items(s, pos)->Done_0)
            + seq![END],
        forall|i: int|
            0 <= i < parse_items(s, pos)->Done_0.len() ==> canonical(
                #[trigger] parse_items(s, pos)->Done_0[i],
            ) && bounded(parse_items(s, pos)->Done_0[i]),
    decreases s.len() - pos, 1nat,
{
    let items = parse_items(s, pos)->Done_0;
    let end = parse_items(s, pos)->Done_1;
    if s[pos] == END {
        assert(s.subrange(pos, pos + 1) =~= seq![END]);
        assert(encode_items(items) + seq![END] =~= seq![END]);
    } else {
        lemma_elem_parsed(s, pos);
        let first = parse_elem(s, pos)->Done_0;
        let next = parse_elem(s, pos)->Done_1;
        lemma_items_parsed(s, next);
        let rest = parse_items(s, next)->Done_0;
        assert(items == seq![first] + rest);
        assert(items.drop_first() =~= rest);
        assert(s.subrange(pos, end) =~= s.subrange(pos, next) + s.subrange(next, end));
        assert(encode_items(items) + seq![END] =~= encode(first) + (encode_items(rest)
            + seq![END]));
        assert forall|i: int| 0 <= i < items.len() implies canonical(#[trigger] items[i])
            && bounded(items[i]) by {
            if i > 0 {
                assert(items[i] == rest[i - 1]);
            } else {
                assert(items[0] == first);
            }
        }
    }
}

/// The entries of a dictionary that were parsed stood there as their
/// encodings and an `e`, in ascending order of their keys and behind the
/// key before them.
#[verifier::rlimit(50)]
pub proof fn lemma_entries_parsed(s: Seq<u8>, pos: int, prev: Option<Seq<u8>>)
    requires
        parse_entries(s, pos, prev) is Done,
    ensures
        0 <= pos < parse_entries(s, pos, prev)->Done_1 <= s.len(),
        s.subrange(pos, parse_entries(s, pos, prev)->Done_1) == encode_entries(
            parse_entries(s, pos, prev)->Done_0,
        ) + seq![END],
        canonical(Value::Dict(parse_entries(s, pos, prev)->Done_0)),
        bounded(Value::Dict(parse_entries(s, pos, prev)->Done_0)),
        prev is Some && parse_entries(s, pos, prev)->Done_0.len() > 0 ==> lex_lt(
            prev->0,
            key_bytes(parse_entries(s, pos, prev)->Done_0[0].0),
        ),
    decreases s.len() - pos, 1nat,
{
    let entries = parse_entries(s, pos, prev)->Done_0;
    let end = parse_entries(s, pos, prev)->Done_1;
    if s[pos] == END {
        assert(s.subrange(pos, pos + 1) =~= seq![END]);
        assert(encode_entries(entries) + seq![END] =~= seq![END]);
    } else {
        lemma_bytes_parsed(s, pos);
        let key = parse_bytes(s, pos)->Done_0;
        let mid = parse_bytes(s, pos)->Done_1;
        decode_utf8_encode_utf8(key);
        lemma_elem_parsed(s, mid);
        let value = parse_elem(s, mid)->Done_0;
        let next = parse_elem(s, mid)->Done_1;
        lemma_entries_parsed(s, next, Some(key));
        let rest = parse_entries(s, next, Some(key))->Done_0;
        let first = (decode_utf8(key), value);
        assert(entries == seq![first] + rest);
        assert(entries.drop_first() =~= rest);
        assert(s.subrange(pos, end) =~= s.subrange(pos, mid) + s.subrange(mid, next)
            + s.subrange(next, end));
        assert(encode_entries(entries) + seq![END] =~= encode_bytes(key) + encode(value) + (
        encode_entries(rest) + seq![END]));
        assert forall|i: int| 0 <= i < entries.len() implies canonical(
            (#[trigger] entries[i]).1,
        ) && bounded(entries[i].1) && encode_utf8(entries[i].0).len() <= usize::MAX by {
            if i > 0 {
                assert(entries[i] == rest[i - 1]);
            }
        }
        assert forall|i: int, j: int| 0 <= i < j < entries.len() implies key_lt(
            #[trigger] entries[i].0,
            #[trigger] entries[j].0,
        ) by {
            assert(entries[j] == rest[j - 1]);
            if i > 0 {
                assert(entries[i] == rest[i - 1]);
            } else if j > 1 {
                assert(key_lt(rest[0].0, rest[j - 1].0));
                lemma_lex_transitive(key, key_bytes(rest[0].0), key_bytes(rest[j - 1].0));
            }
        }
    }
}

/// `t` stands in `s` at `pos`.
pub open spec fn stands_at(s: Seq<u8>, pos: int, t: Seq<u8>) -> bool {
    0 <= pos && pos + t.len() <= s.len() && s.subrange(pos, pos + t.len()) == t
}

/// Where two texts stand one behind the other, each of them stands.
pub proof fn lemma_stands_split(s: Seq<u8>, pos: int, a: Seq<u8>, b: Seq<u8>)
    requires
        stands_at(s, pos, a + b),
    ensures
        stands_at(s, pos, a),
        stands_at(s, pos + a.len(), b),
{
    let whole = s.subrange(pos, pos + (a + b).len());
    assert(s.subrange(pos, pos + a.len()) =~= whole.subrange(0, a.len() as int));
    assert((a + b).subrange(0, a.len() as int) =~= a);
    assert(s.subrange(pos + a.len(), pos + a.len() + b.len()) =~= whole.subrange(
        a.len() as int,
        (a + b).len() as int,
    ));
    assert((a + b).subrange(a.len() as int, (a + b).len() as int) =~= b);
}

/// Digits that stand before a byte that is no digit end at that byte.
pub proof fn lemma_digits_end_at(s: Seq<u8>, pos: int, digits: Seq<u8>)
    requires
        stands_at(s, pos, digits),
        all_digits(digits),
        pos + digits.len() < s.len(),
        !is_digit(s[pos + digits.len()]),
    ensures
        digits_end(s, pos) == pos + digits.len(),
    decreases digits.len(),
{
    if digits.len() > 0 {
        assert(s[pos] == s.subrange(pos, pos + digits.len())[0]);
        assert(is_digit(digits[0]));
        let rest = digits.drop_first();
        assert(s.subrange(pos + 1, pos + 1 + rest.len()) =~= s.subrange(
            pos,
            pos + digits.len(),
        ).drop_first());
        assert forall|i: int| 0 <= i < rest.len() implies is_digit(#[trigger] rest[i]) by {
            assert(rest[i] == digits[i + 1]);
        }
        lemma_digits_end_at(s, pos + 1, rest);
    }
}

/// The text of a number that is not zero does not start with a zero.
pub proof fn lemma_nat_text_head(n: nat)
    ensures
        nat_text(n).len() > 0,
        is_digit(nat_text(n)[0]),
        n >= 1 ==> nat_text(n)[0] != ZERO,
{
    lemma_nat_text(n);
    assert(is_digit(nat_text(n)[0]));
}

/// The text of an integer and an `e` parse to that integer.
pub proof fn lemma_parse_integer_text(s: Seq<u8>, pos: int, i: i64)
    requires
        stands_at(s, pos, int_text(i as int) + seq![END]),
    ensures
        parse_integer(s, pos) == Parsed::Done(i, pos + int_text(i as int).len() + 1),
{
    let text = int_text(i as int);
    lemma_stands_split(s, pos, text, seq![END]);
    assert(s[pos + text.len()] == s.subrange(pos + text.len(), pos + text.len() + 1)[0]);
    if i < 0 {
        let digits = nat_text((-i) as nat);
        lemma_nat_text((-i) as nat);
        lemma_nat_text_head((-i) as nat);
        lemma_stands_split(s, pos, seq![MINUS], digits);
        assert(text =~= seq![MINUS] + digits);
        assert(s[pos] == s.subrange(pos, pos + 1)[0]);
        lemma_digits_end_at(s, pos + 1, digits);
    } else {
        let digits = nat_text(i as nat);
        lemma_nat_text(i as nat);
        lemma_nat_text_head(i as nat);
        assert(s[pos] == s.subrange(pos, pos + digits.len())[0]);
        lemma_digits_end_at(s, pos, digits);
    }
}

/// The encoding of a byte string parses to that byte string.
pub proof fn lemma_parse_bytes_text(s: Seq<u8>, pos: int, b: Seq<u8>)
    requires
        stands_at(s, pos, encode_bytes(b)),
        b.len() <= usize::MAX,
    ensures
        parse_bytes(s, pos) == Parsed::Done(b, pos + encode_bytes(b).len()),
        is_digit(s[pos]),
{
    let digits = nat_text(b.len());
    lemma_nat_text(b.len());
    lemma_nat_text_head(b.len());
    assert(encode_bytes(b) =~= digits + (seq![COLON] + b));
    lemma_stands_split(s, pos, digits, seq![COLON] + b);
    lemma_stands_split(s, pos + digits.len(), seq![COLON], b);
    assert(s[pos + digits.len()] == s.subrange(pos + digits.len(), pos + digits.len() + 1)[0]);
    assert(s[pos] == s.subrange(pos, pos + digits.len())[0]);
    lemma_digits_end_at(s, pos, digits);
}

/// Every encoding starts with the byte that tells what it encodes, and
/// never with an `e`.
pub proof fn lemma_encode_head(v: Value)
    ensures
        encode(v).len() > 0,
        match v {
            Value::Integer(_) => encode(v)[0] == INTEGER,
            Value::List(_) => encode(v)[0] == LIST,
            Value::Dict(_) => encode(v)[0] == DICTIONARY,
            _ => is_digit(encode(v)[0]),
        },
{
    match v {
        Value::Text(t) => {
            lemma_nat_text_head(encode_utf8(t).len());
        },
        Value::Bytes(b) => {
            lemma_nat_text_head(b.len());
        },
        _ => {},
    }
}

/// Where the encoding of an element stands, parsing yields the element and
/// ends behind the encoding.
pub proof fn lemma_parse_encoded(s: Seq<u8>, pos: int, v: Value)
    requires
        canonical(v),
        bounded(v),
        stands_at(s, pos, encode(v)),
    ensures
        parse_elem(s, pos) == Parsed::Done(v, pos + encode(v).len()),
    decreases v,
{
    lemma_encode_head(v);
    assert(s[pos] == s.subrange(pos, pos + encode(v).len())[0]);
    match v {
        Value::Integer(i) => {
            let body = int_text(i as int) + seq![END];
            assert(encode(v) =~= seq![INTEGER] + body);
            lemma_stands_split(s, pos, seq![INTEGER], body);
            lemma_parse_integer_text(s, pos + 1, i);
        },
        Value::Text(t) => {
            lemma_parse_bytes_text(s, pos, encode_utf8(t));
            encode_utf8_valid_utf8(t);
            encode_utf8_decode_utf8(t);
        },
        Value::Bytes(b) => {
            lemma_parse_bytes_text(s, pos, b);
        },
        Value::List(items) => {
            let body = encode_items(items) + seq![END];
            assert(encode(v) =~= seq![LIST] + body);
            lemma_stands_split(s, pos, seq![LIST], body);
            lemma_parse_encoded_items(s, pos + 1, items);
        },
        Value::Dict(entries) => {
            let body = encode_entries(entries) + seq![END];
            assert(encode(v) =~= seq![DICTIONARY] + body);
            lemma_stands_split(s, pos, seq![DICTIONARY], body);
            lemma_parse_encoded_entries(s, pos + 1, entries, None);
        },
    }
}

/// Where the encodings of items and an `e` stand, parsing yields the items.
pub proof fn lemma_parse_encoded_items(s: Seq<u8>, pos: int, items: Seq<Value>)
    requires
        forall|i: int| 0 <= i < items.len() ==> canonical(#[trigger] items[i]) && bounded(items[i]),
        stands_at(s, pos, encode_items(items) + seq![END]),
    ensures
        parse_items(s, pos) == Parsed::Done(items, pos + encode_items(items).len() + 1),
    decreases items,
{
    let text = encode_items(items) + seq![END];
    assert(s[pos] == s.subrange(pos, pos + text.len())[0]);
    if items.len() == 0 {
        assert(items =~= Seq::<Value>::empty());
    } else {
        let first = items[0];
        let rest = items.drop_first();
        lemma_encode_head(first);
        let tail = encode_items(rest) + seq![END];
        assert(text =~= encode(first) + tail);
        assert(text[0] == encode(first)[0]);
        lemma_stands_split(s, pos, encode(first), tail);
        lemma_parse_encoded(s, pos, first);
        assert forall|i: int| 0 <= i < rest.len() implies canonical(#[trigger] rest[i])
            && bounded(rest[i]) by {
            assert(rest[i] == items[i + 1]);
        }
        lemma_parse_encoded_items(s, pos + encode(first).len(), rest);
        assert(seq![first] + rest =~= items);
    }
}

/// Where the encodings of entries in ascending order and an `e` stand,
/// parsing yields the entries.
#[verifier::rlimit(50)]
pub proof fn lemma_parse_encoded_entries(
    s: Seq<u8>,
    pos: int,
    entries: Seq<(Seq<char>, Value)>,
    prev: Option<Seq<u8>>,
)
    requires
        sorted(entries),
        forall|i: int|
            0 <= i < entries.len() ==> canonical((#[trigger] entries[i]).1) && bounded(
                entries[i].1,
            ) && encode_utf8(entries[i].0).len() <= usize::MAX,
        stands_at(s, pos, encode_entries(entries) + seq![END]),
        prev is Some && entries.len() > 0 ==> lex_lt(prev->0, key_bytes(entries[0].0)),
    ensures
        parse_entries(s, pos, prev) == Parsed::Done(
            entries,
            pos + encode_entries(entries).len() + 1,
        ),
    decreases entries,
{
    let text = encode_entries(entries) + seq![END];
    assert(s[pos] == s.subrange(pos, pos + text.len())[0]);
    if entries.len() == 0 {
        assert(entries =~= Seq::<(Seq<char>, Value)>::empty());
    } else {
        let key = entries[0].0;
        let value = entries[0].1;
        let rest = entries.drop_first();
        let head = encode_bytes(key_bytes(key));
        let tail = encode_entries(rest) + seq![END];
        lemma_nat_text_head(key_bytes(key).len());
        assert(text =~= head + (encode(value) + tail));
        assert(text[0] == head[0]);
        lemma_stands_split(s, pos, head, encode(value) + tail);
        lemma_stands_split(s, pos + head.len(), encode(value), tail);
        lemma_parse_bytes_text(s, pos, key_bytes(key));
        encode_utf8_valid_utf8(key);
        encode_utf8_decode_utf8(key);
        lemma_encode_head(value);
        lemma_parse_encoded(s, pos + head.len(), value);
        assert forall|i: int| 0 <= i < rest.len() implies canonical((#[trigger] rest[i]).1)
            && bounded(rest[i].1) && encode_utf8(rest[i].0).len() <= usize::MAX by {
            assert(rest[i] == entries[i + 1]);
        }
        assert(sorted(rest)) by {
            assert forall|a: int, b: int| 0 <= a < b < rest.len() implies key_lt(
                #[trigger] rest[a].0,
                #[trigger] rest[b].0,
            ) by {
                assert(rest[a] == entries[a + 1]);
                assert(rest[b] == entries[b + 1]);
            }
        }
        if rest.len() > 0 {
            assert(rest[0] == entries[1]);
            assert(key_lt(entries[0].0, entries[1].0));
        }
        lemma_parse_encoded_entries(
            s,
            pos + head.len() + encode(value).len(),
            rest,
            Some(key_bytes(key)),
        );
        assert(seq![(key, value)] + rest =~= entries);
    }
}

} // verus!
