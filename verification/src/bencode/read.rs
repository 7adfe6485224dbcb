//! Decoding: from bytes to elements.

use std::borrow::Cow;
use vstd::prelude::*;
use vstd::slice::{slice_subrange, slice_to_vec};
use vstd::utf8::decode_utf8_encode_utf8;
use crate::bencode::elem::{bytes_before, lemma_list_view, values_of, BencodeElem, Dictionary};
use crate::bencode::entries::key_bytes;
use crate::bencode::model::{
    decode_all, digits_end, fault_text, limit_text, parse_bytes, parse_elem, parse_entries,
    parse_integer, parse_items, window, Fault, Parsed, ReadLimit, Refusal, Value, COLON, DICTIONARY,
    END, INTEGER, LIST,
};
use crate::error::{Failure, LavaTorrentError};
use crate::text::{all_digits, digits_value, is_digit, is_nat_text, text_of, MINUS, NINE, ZERO};

verus! {

/// From `pos` on, digits stand up to `digits_end` and not at it.
pub proof fn lemma_digits_end(s: Seq<u8>, pos: int)
    requires
        0 <= pos <= s.len(),
    ensures
        pos <= digits_end(s, pos) <= s.len(),
        all_digits(s.subrange(pos, digits_end(s, pos))),
        digits_end(s, pos) < s.len() ==> !is_digit(s[digits_end(s, pos)]),
    decreases s.len() - pos,
{
    if pos < s.len() && is_digit(s[pos]) {
        lemma_digits_end(s, pos + 1);
        let end = digits_end(s, pos);
        assert forall|i: int| 0 <= i < end - pos implies is_digit(
            #[trigger] s.subrange(pos, end)[i],
        ) by {
            if i > 0 {
                assert(s.subrange(pos, end)[i] == s.subrange(pos + 1, end)[i - 1]);
            }
        }
    }
}

/// Digits spell no less than the digits before the last.
pub proof fn lemma_digits_grow(s: Seq<u8>, k: int)
    requires
        all_digits(s),
        0 <= k <= s.len(),
    ensures
        digits_value(s.take(k)) <= digits_value(s),
    decreases s.len() - k,
{
    if k < s.len() {
        let front = s.drop_last();
        assert(all_digits(front)) by {
            assert forall|i: int| 0 <= i < front.len() implies is_digit(#[trigger] front[i]) by {
                assert(front[i] == s[i]);
            }
        }
        assert(is_digit(s.last()));
        lemma_digits_grow(front, k);
        assert(front.take(k) =~= s.take(k));
    } else {
        assert(s.take(k) =~= s);
    }
}

/// The position of the first byte at or after `pos` that is no digit.
fn scan_digits(input: &[u8], pos: usize) -> (end: usize)
    requires
        pos <= input.len(),
    ensures
        end == digits_end(input@, pos as int),
        pos <= end <= input.len(),
{
    let mut end = pos;
    while end < input.len() && ZERO <= input[end] && input[end] <= NINE
        invariant
            pos <= end <= input.len(),
            digits_end(input@, pos as int) == digits_end(input@, end as int),
        decreases input.len() - end,
    {
        end += 1;
    }
    end
}

/// The number that the digits from `start` to `end` spell, if it is at most
/// `cap`.
fn digits_number(input: &[u8], start: usize, end: usize, cap: u64) -> (res: Option<u64>)
    requires
        start <= end <= input.len(),
        all_digits(input@.subrange(start as int, end as int)),
    ensures
        match res {
            Some(n) => n == digits_value(input@.subrange(start as int, end as int)) && n <= cap,
            None => digits_value(input@.subrange(start as int, end as int)) > cap,
        },
{
    let ghost digits = input@.subrange(start as int, end as int);
    let mut acc: u64 = 0;
    let mut i = start;
    assert(digits.take(0) =~= Seq::<u8>::empty());
    while i < end
        invariant
            start <= i <= end <= input.len(),
            digits == input@.subrange(start as int, end as int),
            all_digits(digits),
            acc == digits_value(digits.take(i - start)),
            acc <= cap,
        decreases end - i,
    {
        assert(is_digit(digits[i - start]));
        let d: u64 = (input[i] - ZERO) as u64;
        proof {
            let next = digits.take(i - start + 1);
            assert(next.drop_last() =~= digits.take(i - start));
            assert(digits_value(next) == acc * 10 + d);
            lemma_digits_grow(digits, i - start + 1);
        }
        if d > cap || acc > (cap - d) / 10 {
            return None;
        }
        acc = acc * 10 + d;
        i += 1;
    }
    assert(digits.take(end - start) =~= digits);
    Some(acc)
}

/// Decodes the body of an integer, which starts at `pos`, after the `i`.
fn decode_integer(input: &[u8], pos: usize) -> (res: Result<(i64, usize), Fault>)
    requires
        pos <= input.len(),
    ensures
        match parse_integer(input@, pos as int) {
            Parsed::Done(i, end) => res == Ok::<(i64, usize), Fault>((i, end as usize)) && pos
                < end <= input.len(),
            Parsed::Failed(f) => res == Err::<(i64, usize), Fault>(f),
        },
{
    let negative = pos < input.len() && input[pos] == MINUS;
    let start = if negative {
        pos + 1
    } else {
        pos
    };
    let end = scan_digits(input, start);
    proof {
        lemma_digits_end(input@, start as int);
    }
    if end >= input.len() {
        return Err(Fault::Truncated);
    }
    if input[end] != END || end == start || (input[start] == ZERO && (negative || end - start
        > 1)) {
        return Err(Fault::BadInteger);
    }
    let ghost digits = input@.subrange(start as int, end as int);
    assert(digits[0] == input@[start as int]);
    assert(is_nat_text(digits));
    if negative {
        match digits_number(input, start, end, 9223372036854775808u64) {
            Some(n) => Ok(((-(n as i128)) as i64, end + 1)),
            None => Err(Fault::IntegerOverflow),
        }
    } else {
        match digits_number(input, start, end, 9223372036854775807u64) {
            Some(n) => Ok((n as i64, end + 1)),
            None => Err(Fault::IntegerOverflow),
        }
    }
}

/// Decodes the byte string whose length starts at `pos`, and returns where
/// its bytes start and end.
fn decode_bytes(input: &[u8], pos: usize) -> (res: Result<(usize, usize), Fault>)
    requires
        pos <= input.len(),
    ensures
        match parse_bytes(input@, pos as int) {
            Parsed::Done(b, end) => res matches Ok((from, to)) && to == end && pos < from <= to
                <= input.len() && b == input@.subrange(from as int, to as int),
            Parsed::Failed(f) => res == Err::<(usize, usize), Fault>(f),
        },
{
    let end = scan_digits(input, pos);
    proof {
        lemma_digits_end(input@, pos as int);
    }
    if end >= input.len() {
        return Err(Fault::Truncated);
    }
    if input[end] != COLON || end == pos || (input[pos] == ZERO && end - pos > 1) {
        return Err(Fault::BadLength);
    }
    let ghost digits = input@.subrange(pos as int, end as int);
    assert(digits[0] == input@[pos as int]);
    assert(is_nat_text(digits));
    let n = match digits_number(input, pos, end, usize::MAX as u64) {
        Some(n) => n as usize,
        None => {
            return Err(Fault::LengthOverflow);
        },
    };
    if n > input.len() - (end + 1) {
        return Err(Fault::Truncated);
    }
    Ok((end + 1, end + 1 + n))
}

/// The items parsed so far, before what parsing the rest yields.
pub open spec fn items_then(done: Seq<Value>, rest: Parsed<Seq<Value>>) -> Parsed<Seq<Value>> {
    match rest {
        Parsed::Done(items, end) => Parsed::Done(done + items, end),
        Parsed::Failed(f) => Parsed::Failed(f),
    }
}

/// The entries parsed so far, before what parsing the rest yields.
pub open spec fn entries_then(
    done: Seq<(Seq<char>, Value)>,
    rest: Parsed<Seq<(Seq<char>, Value)>>,
) -> Parsed<Seq<(Seq<char>, Value)>> {
    match rest {
        Parsed::Done(entries, end) => Parsed::Done(done + entries, end),
        Parsed::Failed(f) => Parsed::Failed(f),
    }
}

/// The bytes of the last key of `entries`, if there is an entry.
pub open spec fn last_key_bytes(entries: Seq<(Seq<char>, Value)>) -> Option<Seq<u8>> {
    if entries.len() == 0 {
        None
    } else {
        Some(key_bytes(entries.last().0))
    }
}

/// Decodes the element that starts at `pos`, and returns it with the position
/// after it.
#[verifier::rlimit(50)]
pub fn decode_elem(input: &[u8], pos: usize) -> (res: Result<(BencodeElem, usize), Fault>)
    ensures
        match parse_elem(input@, pos as int) {
            Parsed::Done(v, end) => res matches Ok((elem, next)) && elem@ == v && next == end
                && pos < next <= input.len(),
            Parsed::Failed(f) => res matches Err(g) && g == f,
        },
    decreases input.len() - pos,
{
    if pos >= input.len() {
        return Err(Fault::Truncated);
    }
    let tag = input[pos];
    if tag == INTEGER {
        match decode_integer(input, pos + 1) {
            Ok((i, next)) => Ok((BencodeElem::Integer(i), next)),
            Err(f) => Err(f),
        }
    } else if tag == LIST {
        let mut items: Vec<BencodeElem> = Vec::new();
        let mut at = pos + 1;
        assert(values_of(items@) + Seq::<Value>::empty() =~= Seq::<Value>::empty());
        loop
            invariant
                pos < at <= input.len(),
                input@[pos as int] == LIST,
                parse_items(input@, pos + 1) == items_then(
                    values_of(items@),
                    parse_items(input@, at as int),
                ),
            decreases input.len() - at,
        {
            if at >= input.len() {
                return Err(Fault::Truncated);
            }
            if input[at] == END {
                proof {
                    lemma_list_view(items);
                    assert(values_of(items@) + Seq::<Value>::empty() =~= values_of(items@));
                }
                return Ok((BencodeElem::List(items), at + 1));
            }
            match decode_elem(input, at) {
                Err(f) => {
                    return Err(f);
                },
                Ok((elem, next)) => {
                    proof {
                        let rest = parse_items(input@, next as int);
                        if let Parsed::Done(more, end) = rest {
                            assert(values_of(items@) + (seq![elem@] + more) =~= values_of(
                                items@.push(elem),
                            ) + more);
                        }
                    }
                    items.push(elem);
                    at = next;
                },
            }
        }
    } else if tag == DICTIONARY {
        let mut dict = Dictionary::new();
        let mut at = pos + 1;
        assert(dict@ + Seq::<(Seq<char>, Value)>::empty() =~= dict@);
        loop
            invariant
                pos < at <= input.len(),
                input@[pos as int] == DICTIONARY,
                parse_entries(input@, pos + 1, None) == entries_then(
                    dict@,
                    parse_entries(input@, at as int, last_key_bytes(dict@)),
                ),
            decreases input.len() - at,
        {
            if at >= input.len() {
                return Err(Fault::Truncated);
            }
            if input[at] == END {
                assert(dict@ + Seq::<(Seq<char>, Value)>::empty() =~= dict@);
                return Ok((BencodeElem::Dictionary(dict), at + 1));
            }
            if !(ZERO <= input[at] && input[at] <= NINE) {
                return Err(Fault::KeyNotString);
            }
            let (from, to) = match decode_bytes(input, at) {
                Err(f) => {
                    return Err(f);
                },
                Ok(range) => range,
            };
            let payload = slice_subrange(input, from, to);
            let key = match text_of(payload) {
                None => {
                    return Err(Fault::KeyNotText);
                },
                Some(text) => text,
            };
            proof {
                decode_utf8_encode_utf8(payload@);
            }
            let in_order = match dict.last_key() {
                Some(last) => bytes_before(last.as_str().as_bytes(), payload),
                None => true,
            };
            if !in_order {
                return Err(Fault::KeyOrder);
            }
            match decode_elem(input, to) {
                Err(f) => {
                    return Err(f);
                },
                Ok((elem, next)) => {
                    proof {
                        let rest = parse_entries(input@, next as int, Some(payload@));
                        if let Parsed::Done(more, end) = rest {
                            assert(dict@ + (seq![(key@, elem@)] + more) =~= dict@.push(
                                (key@, elem@),
                            ) + more);
                        }
                    }
                    dict.push_last(key.to_owned(), elem);
                    at = next;
                },
            }
        }
    } else if ZERO <= tag && tag <= NINE {
        match decode_bytes(input, pos) {
            Err(f) => Err(f),
            Ok((from, to)) => {
                let payload = slice_subrange(input, from, to);
                match text_of(payload) {
                    Some(text) => Ok((BencodeElem::String(text.to_owned()), to)),
                    None => Ok((BencodeElem::Bytes(slice_to_vec(payload)), to)),
                }
            },
        }
    } else {
        Err(Fault::UnknownTag)
    }
}

/// The elements decoded so far, before what decoding the rest yields.
pub open spec fn values_then(done: Seq<Value>, rest: Result<Seq<Value>, Refusal>) -> Result<
    Seq<Value>,
    Refusal,
> {
    match rest {
        Ok(values) => Ok(done + values),
        Err(r) => Err(r),
    }
}

/// What an error stands for when decoding refuses its input.
pub open spec fn refusal_failure(r: Refusal) -> Failure {
    match r {
        Refusal::Malformed(f) => Failure::MalformedBencode(fault_text(f)),
        Refusal::LimitExceeded => Failure::InvalidArgument(limit_text()),
    }
}

/// The reason that is given for a fault.
pub fn fault_message(f: Fault) -> (res: &'static str)
    ensures
        res@ == fault_text(f),
{
    match f {
        Fault::Truncated => "Unexpected end of input.",
        Fault::BadInteger => "Malformed integer.",
        Fault::IntegerOverflow => "Integer does not fit in 64 bits.",
        Fault::BadLength => "Malformed string length.",
        Fault::LengthOverflow => "String length overflowed.",
        Fault::KeyNotString => "Dictionary key is not a string.",
        Fault::KeyNotText => "Dictionary key is not valid UTF8.",
        Fault::KeyOrder => "Dictionary keys are not sorted or not unique.",
        Fault::UnknownTag => "Unknown element type.",
    }
}

impl BencodeElem {
    /// Decodes `bytes` as a run of elements, one after the other.
    ///
    /// Each element is read within `limit`. No input yields no element.
    pub fn from_bytes(bytes: &[u8], limit: ReadLimit) -> (res: Result<
        Vec<BencodeElem>,
        LavaTorrentError,
    >)
        ensures
            match decode_all(bytes@, limit) {
                Ok(values) => res matches Ok(elems) && values_of(elems@) == values,
                Err(r) => res matches Err(e) && e@ == refusal_failure(r),
            },
    {
        let mut elems: Vec<BencodeElem> = Vec::new();
        let mut pos: usize = 0;
        assert(bytes@.skip(0) =~= bytes@);
        assert(values_of(elems@) =~= Seq::<Value>::empty());
        while pos < bytes.len()
            invariant
                pos <= bytes.len(),
                decode_all(bytes@, limit) == values_then(
                    values_of(elems@),
                    decode_all(bytes@.skip(pos as int), limit),
                ),
            decreases bytes.len() - pos,
        {
            let left = bytes.len() - pos;
            let take = match limit {
                ReadLimit::NoLimit => left,
                ReadLimit::Limit(n) => if n < left {
                    n
                } else {
                    left
                },
            };
            let view = slice_subrange(bytes, pos, pos + take);
            assert(view@ =~= window(bytes@.skip(pos as int), limit));
            match decode_elem(view, 0) {
                Err(f) => {
                    if take < left && matches!(f, Fault::Truncated) {
                        return Err(
                            LavaTorrentError::invalid_argument("Element exceeds the read limit."),
                        );
                    }
                    return Err(
                        LavaTorrentError::MalformedBencode(Cow::Borrowed(fault_message(f))),
                    );
                },
                Ok((elem, next)) => {
                    proof {
                        assert(bytes@.skip(pos as int).skip(next as int) =~= bytes@.skip(
                            pos + next,
                        ));
                        let rest = decode_all(bytes@.skip(pos + next), limit);
                        if let Ok(more) = rest {
                            assert(values_of(elems@) + (seq![elem@] + more) =~= values_of(
                                elems@.push(elem),
                            ) + more);
                        }
                    }
                    elems.push(elem);
                    pos = pos + next;
                },
            }
        }
        assert(values_of(elems@) + Seq::<Value>::empty() =~= values_of(elems@));
        Ok(elems)
    }
}

/// Whether a file of `size` bytes can be held in memory to be decoded: it
/// is too large if the machine's word cannot count its bytes.
pub fn check_file_size(size: u64) -> (res: Result<usize, LavaTorrentError>)
    ensures
        size <= usize::MAX ==> (res matches Ok(n) && n == size),
        size > usize::MAX ==> (res matches Err(e) && e@ == Failure::FileTooLarge(
            "File is too large to be held in memory."@,
        )),
{
    if size > usize::MAX as u64 {
        Err(
            LavaTorrentError::FileTooLarge(
                Cow::Borrowed("File is too large to be held in memory."),
            ),
        )
    } else {
        Ok(size as usize)
    }
}

} // verus!
