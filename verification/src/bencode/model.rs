//! The mathematical model of bencode: what an element is, which bytes encode
//! it, and what a byte sequence decodes to.

use vstd::prelude::*;
use vstd::utf8::{decode_utf8, encode_utf8, valid_utf8};
use crate::bencode::entries::{key_bytes, lex_lt, sorted};
use crate::text::{digits_value, int_text, is_digit, is_nat_text, nat_text, MINUS, ZERO};

verus! {

/// The byte `i`, with which an integer starts.
pub const INTEGER: u8 = 105;

/// The byte `l`, with which a list starts.
pub const LIST: u8 = 108;

/// The byte `d`, with which a dictionary starts.
pub const DICTIONARY: u8 = 100;

/// The byte `e`, with which an integer, a list and a dictionary end.
pub const END: u8 = 101;

/// The byte `:`, which stands between the length of a byte string and its
/// bytes.
pub const COLON: u8 = 58;

/// What a bencode element stands for.
///
/// A dictionary is the sequence of its entries, in the order in which they
/// are held.
pub enum Value {
    /// An integer of 64 bits.
    Integer(i64),
    /// A byte string that is text, as its characters.
    Text(Seq<char>),
    /// A byte string as it is.
    Bytes(Seq<u8>),
    /// Values in order.
    List(Seq<Value>),
    /// Keys with the values they map to.
    Dict(Seq<(Seq<char>, Value)>),
}

/// Every dictionary in `v`, at any depth, holds its keys in ascending order.
pub open spec fn ordered(v: Value) -> bool
    decreases v,
{
    match v {
        Value::List(items) => forall|i: int|
            0 <= i < items.len() ==> ordered(#[trigger] items[i]),
        Value::Dict(entries) => sorted(entries) && forall|i: int|
            0 <= i < entries.len() ==> ordered((#[trigger] entries[i]).1),
        _ => true,
    }
}

/// `v` is what decoding yields: its dictionaries are ordered, and a byte
/// string that is valid UTF-8 is held as text.
pub open spec fn canonical(v: Value) -> bool
    decreases v,
{
    match v {
        Value::Bytes(b) => !valid_utf8(b),
        Value::List(items) => forall|i: int|
            0 <= i < items.len() ==> canonical(#[trigger] items[i]),
        Value::Dict(entries) => sorted(entries) && forall|i: int|
            0 <= i < entries.len() ==> canonical((#[trigger] entries[i]).1),
        _ => true,
    }
}

/// Every byte string in `v`, at any depth, is short enough for the machine
/// to hold: its length fits in the machine's word.
pub open spec fn bounded(v: Value) -> bool
    decreases v,
{
    match v {
        Value::Integer(_) => true,
        Value::Text(s) => encode_utf8(s).len() <= usize::MAX,
        Value::Bytes(b) => b.len() <= usize::MAX,
        Value::List(items) => forall|i: int|
            0 <= i < items.len() ==> bounded(#[trigger] items[i]),
        Value::Dict(entries) => forall|i: int|
            0 <= i < entries.len() ==> encode_utf8((#[trigger] entries[i]).0).len() <= usize::MAX
                && bounded(entries[i].1),
    }
}

/// The encoding of a byte string: its length in decimal, a colon, the bytes.
pub open spec fn encode_bytes(b: Seq<u8>) -> Seq<u8> {
    nat_text(b.len()) + seq![COLON] + b
}

/// The encoding of `v`.
pub open spec fn encode(v: Value) -> Seq<u8>
    decreases v,
{
    match v {
        Value::Integer(i) => seq![INTEGER] + int_text(i as int) + seq![END],
        Value::Text(s) => encode_bytes(encode_utf8(s)),
        Value::Bytes(b) => encode_bytes(b),
        Value::List(items) => seq![LIST] + encode_items(items) + seq![END],
        Value::Dict(entries) => seq![DICTIONARY] + encode_entries(entries) + seq![END],
    }
}

/// The encodings of `items`, one after the other.
pub open spec fn encode_items(items: Seq<Value>) -> Seq<u8>
    decreases items,
{
    if items.len() == 0 {
        Seq::empty()
    } else {
        encode(items[0]) + encode_items(items.drop_first())
    }
}

/// The encodings of `entries`, one after the other: each key as a byte
/// string, then its value.
pub open spec fn encode_entries(entries: Seq<(Seq<char>, Value)>) -> Seq<u8>
    decreases entries,
{
    if entries.len() == 0 {
        Seq::empty()
    } else {
        encode_bytes(key_bytes(entries[0].0)) + encode(entries[0].1) + encode_entries(
            entries.drop_first(),
        )
    }
}

/// Why a byte sequence is not bencode.
#[derive(Clone, Copy, Debug, PartialEq, Eq, Structural)]
pub enum Fault {
    /// The input ends inside an element.
    Truncated,
    /// An integer is not `0` or an optional minus sign and digits without a
    /// leading zero, closed by `e`.
    BadInteger,
    /// An integer does not fit in 64 bits.
    IntegerOverflow,
    /// A length is not digits without a leading zero, closed by a colon.
    BadLength,
    /// A length does not fit in the machine's word.
    LengthOverflow,
    /// A dictionary key is not a byte string.
    KeyNotString,
    /// A dictionary key is not valid UTF-8.
    KeyNotText,
    /// A dictionary key does not come after the key before it.
    KeyOrder,
    /// No element starts with this byte.
    UnknownTag,
}

/// What parsing at some position yields: a value and the position after it,
/// or the fault met first.
pub enum Parsed<T> {
    /// What was parsed, and the position behind it.
    Done(T, int),
    /// Why nothing was parsed.
    Failed(Fault),
}

/// The first position at or after `pos` that holds no digit.
pub open spec fn digits_end(s: Seq<u8>, pos: int) -> int
    decreases s.len() - pos,
{
    if 0 <= pos < s.len() && is_digit(s[pos]) {
        digits_end(s, pos + 1)
    } else {
        pos
    }
}

/// Parses the body of an integer, which starts at `pos`, after the `i`.
pub open spec fn parse_integer(s: Seq<u8>, pos: int) -> Parsed<i64> {
    let negative = pos < s.len() && s[pos] == MINUS;
    let start = if negative {
        pos + 1
    } else {
        pos
    };
    let end = digits_end(s, start);
    let digits = s.subrange(start, end);
    if end >= s.len() {
        Parsed::Failed(Fault::Truncated)
    } else if s[end] != END || !is_nat_text(digits) || (negative && digits[0] == ZERO) {
        Parsed::Failed(Fault::BadInteger)
    } else {
        let value = if negative {
            -(digits_value(digits) as int)
        } else {
            digits_value(digits) as int
        };
        if value < i64::MIN || value > i64::MAX {
            Parsed::Failed(Fault::IntegerOverflow)
        } else {
            Parsed::Done(value as i64, end + 1)
        }
    }
}

/// Parses a byte string, whose length starts at `pos`.
pub open spec fn parse_bytes(s: Seq<u8>, pos: int) -> Parsed<Seq<u8>> {
    let end = digits_end(s, pos);
    let digits = s.subrange(pos, end);
    if end >= s.len() {
        Parsed::Failed(Fault::Truncated)
    } else if s[end] != COLON || !is_nat_text(digits) {
        Parsed::Failed(Fault::BadLength)
    } else if digits_value(digits) > usize::MAX {
        Parsed::Failed(Fault::LengthOverflow)
    } else if end + 1 + digits_value(digits) > s.len() {
        Parsed::Failed(Fault::Truncated)
    } else {
        Parsed::Done(
            s.subrange(end + 1, end + 1 + digits_value(digits)),
            end + 1 + digits_value(digits),
        )
    }
}

/// What a decoded byte string is held as: text where it is valid UTF-8,
/// bytes where it is not.
pub open spec fn text_or_bytes(b: Seq<u8>) -> Value {
    if valid_utf8(b) {
        Value::Text(decode_utf8(b))
    } else {
        Value::Bytes(b)
    }
}

/// Parses the element that starts at `pos`.
pub open spec fn parse_elem(s: Seq<u8>, pos: int) -> Parsed<Value>
    decreases s.len() - pos, 0nat,
{
    if pos < 0 || pos >= s.len() {
        Parsed::Failed(Fault::Truncated)
    } else if s[pos] == INTEGER {
        match parse_integer(s, pos + 1) {
            Parsed::Done(i, end) => Parsed::Done(Value::Integer(i), end),
            Parsed::Failed(f) => Parsed::Failed(f),
        }
    } else if s[pos] == LIST {
        match parse_items(s, pos + 1) {
            Parsed::Done(items, end) => Parsed::Done(Value::List(items), end),
            Parsed::Failed(f) => Parsed::Failed(f),
        }
    } else if s[pos] == DICTIONARY {
        match parse_entries(s, pos + 1, None) {
            Parsed::Done(entries, end) => Parsed::Done(Value::Dict(entries), end),
            Parsed::Failed(f) => Parsed::Failed(f),
        }
    } else if is_digit(s[pos]) {
        match parse_bytes(s, pos) {
            Parsed::Done(b, end) => Parsed::Done(text_or_bytes(b), end),
            Parsed::Failed(f) => Parsed::Failed(f),
        }
    } else {
        Parsed::Failed(Fault::UnknownTag)
    }
}

/// Parses the items of a list from `pos` up to and including the closing `e`.
///
/// An element that is parsed ends behind where it starts and within the
/// input (`lemma_elem_parsed`), so the test on `next` never fails; it is
/// there for the recursion to end.
pub open spec fn parse_items(s: Seq<u8>, pos: int) -> Parsed<Seq<Value>>
    decreases s.len() - pos, 1nat,
{
    if pos < 0 || pos >= s.len() {
        Parsed::Failed(Fault::Truncated)
    } else if s[pos] == END {
        Parsed::Done(Seq::empty(), pos + 1)
    } else {
        match parse_elem(s, pos) {
            Parsed::Failed(f) => Parsed::Failed(f),
            Parsed::Done(first, next) => if next <= pos || next > s.len() {
                Parsed::Failed(Fault::Truncated)
            } else {
                match parse_items(s, next) {
                    Parsed::Failed(f) => Parsed::Failed(f),
                    Parsed::Done(rest, end) => Parsed::Done(seq![first] + rest, end),
                }
            },
        }
    }
}

/// Parses the entries of a dictionary from `pos` up to and including the
/// closing `e`. `prev` is the key of the entry before `pos`, if there is one:
/// the next key has to come after it.
///
/// As with the items of a list, the tests on `mid` and `next` never fail.
pub open spec fn parse_entries(s: Seq<u8>, pos: int, prev: Option<Seq<u8>>) -> Parsed<
    Seq<(Seq<char>, Value)>,
>
    decreases s.len() - pos, 1nat,
{
    if pos < 0 || pos >= s.len() {
        Parsed::Failed(Fault::Truncated)
    } else if s[pos] == END {
        Parsed::Done(Seq::empty(), pos + 1)
    } else if !is_digit(s[pos]) {
        Parsed::Failed(Fault::KeyNotString)
    } else {
        match parse_bytes(s, pos) {
            Parsed::Failed(f) => Parsed::Failed(f),
            Parsed::Done(key, mid) => if !valid_utf8(key) {
                Parsed::Failed(Fault::KeyNotText)
            } else if prev is Some && !lex_lt(prev->0, key) {
                Parsed::Failed(Fault::KeyOrder)
            } else if mid <= pos || mid > s.len() {
                Parsed::Failed(Fault::Truncated)
            } else {
                match parse_elem(s, mid) {
                    Parsed::Failed(f) => Parsed::Failed(f),
                    Parsed::Done(value, next) => if next <= mid || next > s.len() {
                        Parsed::Failed(Fault::Truncated)
                    } else {
                        match parse_entries(s, next, Some(key)) {
                            Parsed::Failed(f) => Parsed::Failed(f),
                            Parsed::Done(rest, end) => Parsed::Done(
                                seq![(decode_utf8(key), value)] + rest,
                                end,
                            ),
                        }
                    },
                }
            },
        }
    }
}

/// How much of the input one top-level element may take up.
#[derive(Clone, Copy, Debug, PartialEq, Eq, Structural)]
pub enum ReadLimit {
    /// As much as there is.
    NoLimit,
    /// At most this many bytes.
    Limit(usize),
}

/// Why decoding refused its input.
pub enum Refusal {
    /// The bytes are not bencode.
    Malformed(Fault),
    /// An element does not end within the read limit.
    LimitExceeded,
}

/// The part of `s` that the decoder may read for the element at its start.
pub open spec fn window(s: Seq<u8>, limit: ReadLimit) -> Seq<u8> {
    match limit {
        ReadLimit::NoLimit => s,
        ReadLimit::Limit(n) => if n < s.len() {
            s.take(n as int)
        } else {
            s
        },
    }
}

/// Decodes all of `s` as a run of elements, each read within the limit.
///
/// Where an element runs into the end of its window and the input goes on
/// behind it, the limit is exceeded; every other fault is the input's own.
/// The test on `end` never fails (`lemma_elem_parsed`).
pub open spec fn decode_all(s: Seq<u8>, limit: ReadLimit) -> Result<Seq<Value>, Refusal>
    decreases s.len(),
{
    if s.len() == 0 {
        Ok(Seq::empty())
    } else {
        match parse_elem(window(s, limit), 0) {
            Parsed::Done(first, end) => if end <= 0 || end > s.len() {
                Err(Refusal::Malformed(Fault::Truncated))
            } else {
                match decode_all(s.skip(end), limit) {
                    Ok(rest) => Ok(seq![first] + rest),
                    Err(r) => Err(r),
                }
            },
            Parsed::Failed(f) => if f == Fault::Truncated && window(s, limit).len() < s.len() {
                Err(Refusal::LimitExceeded)
            } else {
                Err(Refusal::Malformed(f))
            },
        }
    }
}

/// The reason that is given for a fault.
pub open spec fn fault_text(f: Fault) -> Seq<char> {
    match f {
        Fault::Truncated => "Unexpected end of input."@,
        Fault::BadInteger => "Malformed integer."@,
        Fault::IntegerOverflow => "Integer does not fit in 64 bits."@,
        Fault::BadLength => "Malformed string length."@,
        Fault::LengthOverflow => "String length overflowed."@,
        Fault::KeyNotString => "Dictionary key is not a string."@,
        Fault::KeyNotText => "Dictionary key is not valid UTF8."@,
        Fault::KeyOrder => "Dictionary keys are not sorted or not unique."@,
        Fault::UnknownTag => "Unknown element type."@,
    }
}

/// The reason that is given when the read limit is exceeded.
pub open spec fn limit_text() -> Seq<char> {
    "Element exceeds the read limit."@
}

} // verus!
