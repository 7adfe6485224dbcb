//! Decimal and hexadecimal text, as bytes and as characters.

use itertools::join;
use vstd::prelude::*;
use vstd::string::StringExecFns;
use vstd::utf8::{
    decode_utf8, encode_utf8, encode_utf8_decode_utf8, encode_utf8_valid_utf8, is_ascii_chars,
    is_ascii_chars_encode_utf8, valid_utf8,
};

verus! {

/// The byte `-`, with which the text of a negative number starts.
pub const MINUS: u8 = 45;

/// The byte `0`, the first of the ten digits.
pub const ZERO: u8 = 48;

/// The byte `9`, the last of the ten digits.
pub const NINE: u8 = 57;

/// The ASCII digit for `d`, where `0 <= d <= 9`.
pub open spec fn digit_byte(d: int) -> u8 {
    (ZERO + d) as u8
}

/// `b` is one of the ASCII digits `0` to `9`.
pub open spec fn is_digit(b: u8) -> bool {
    ZERO <= b <= NINE
}

/// The decimal text of `n`, with no leading zero.
pub open spec fn nat_text(n: nat) -> Seq<u8>
    decreases n,
{
    if n < 10 {
        seq![digit_byte(n as int)]
    } else {
        nat_text(n / 10).push(digit_byte((n % 10) as int))
    }
}

/// The decimal text of `i`: a minus sign before the digits of a negative
/// number, and nothing before those of the others.
pub open spec fn int_text(i: int) -> Seq<u8> {
    if i < 0 {
        seq![MINUS] + nat_text((-i) as nat)
    } else {
        nat_text(i as nat)
    }
}

/// The number that the digits of `s` spell, read as decimal.
pub open spec fn digits_value(s: Seq<u8>) -> nat
    decreases s.len(),
{
    if s.len() == 0 {
        0
    } else {
        (digits_value(s.drop_last()) * 10 + (s.last() - ZERO)) as nat
    }
}

/// Every byte of `s` is an ASCII digit.
pub open spec fn all_digits(s: Seq<u8>) -> bool {
    forall|i: int| 0 <= i < s.len() ==> is_digit(#[trigger] s[i])
}

/// `s` is the decimal text of a natural number: digits only, at least one,
/// and no leading zero unless it is the single digit `0`.
pub open spec fn is_nat_text(s: Seq<u8>) -> bool {
    &&& s.len() > 0
    &&& all_digits(s)
    &&& (s.len() > 1 ==> s[0] != ZERO)
}

/// The bytes of `s` as characters, one for one.
pub open spec fn ascii_chars(s: Seq<u8>) -> Seq<char> {
    Seq::new(s.len(), |i: int| s[i] as char)
}

/// The text of a number is made of digits, has no leading zero, and spells
/// the number.
pub proof fn lemma_nat_text(n: nat)
    ensures
        is_nat_text(nat_text(n)),
        digits_value(nat_text(n)) == n,
        n < 10 <==> nat_text(n).len() == 1,
    decreases n,
{
    if n < 10 {
        let s = nat_text(n);
        assert(s.drop_last() =~= Seq::<u8>::empty());
        assert(digits_value(s.drop_last()) == 0);
    } else {
        lemma_nat_text(n / 10);
        let s = nat_text(n);
        assert(s.drop_last() =~= nat_text(n / 10));
        assert(s[0] == nat_text(n / 10)[0]);
        if n / 10 < 10 {
            assert(nat_text(n / 10)[0] == digit_byte((n / 10) as int));
        }
    }
}

/// Digits without a leading zero are the text of the number they spell.
pub proof fn lemma_digits_text(s: Seq<u8>)
    requires
        is_nat_text(s),
    ensures
        nat_text(digits_value(s)) == s,
    decreases s.len(),
{
    if s.len() == 1 {
        assert(s.drop_last() =~= Seq::<u8>::empty());
        assert(digits_value(s.drop_last()) == 0);
        assert(is_digit(s[0]));
        assert(nat_text(digits_value(s)) =~= s);
    } else {
        let front = s.drop_last();
        assert(is_digit(s.last()));
        assert(is_nat_text(front)) by {
            assert forall|i: int| 0 <= i < front.len() implies is_digit(#[trigger] front[i]) by {
                assert(front[i] == s[i]);
            }
        }
        lemma_digits_text(front);
        lemma_digits_positive(front);
        let v = digits_value(front);
        let n = digits_value(s);
        assert(n == v * 10 + (s.last() - ZERO));
        assert(n >= 10) by {
            if front.len() == 1 {
                assert(front[0] == s[0]);
                assert(front.drop_last() =~= Seq::<u8>::empty());
                assert(digits_value(front.drop_last()) == 0);
                assert(v >= 1);
            }
        }
        assert(n / 10 == v && n % 10 == s.last() - ZERO);
        assert(nat_text(n) =~= s);
    }
}

/// Digits that do not start with zero spell a positive number, unless there
/// is a single digit.
pub proof fn lemma_digits_positive(s: Seq<u8>)
    requires
        is_nat_text(s),
    ensures
        s.len() > 1 ==> digits_value(s) >= 10,
        s[0] != ZERO ==> digits_value(s) >= 1,
    decreases s.len(),
{
    if s.len() == 1 {
        assert(s.drop_last() =~= Seq::<u8>::empty());
        assert(digits_value(s.drop_last()) == 0);
        assert(is_digit(s[0]));
    } else {
        let front = s.drop_last();
        assert(is_digit(s.last()));
        assert(front[0] == s[0]);
        assert(is_nat_text(front)) by {
            assert forall|i: int| 0 <= i < front.len() implies is_digit(#[trigger] front[i]) by {
                assert(front[i] == s[i]);
            }
        }
        lemma_digits_positive(front);
    }
}

/// Appends the decimal text of `n` to `buf`.
pub fn push_nat(buf: &mut Vec<u8>, n: u64)
    ensures
        final(buf)@ == old(buf)@ + nat_text(n as nat),
    decreases n,
{
    if n >= 10 {
        push_nat(buf, n / 10);
    }
    let d: u8 = (n % 10) as u8;
    buf.push(ZERO + d);
    assert(buf@ =~= old(buf)@ + nat_text(n as nat));
}

/// Appends the decimal text of `i` to `buf`.
pub fn push_int(buf: &mut Vec<u8>, i: i64)
    ensures
        final(buf)@ == old(buf)@ + int_text(i as int),
{
    if i < 0 {
        buf.push(MINUS);
        let magnitude: u64 = (-(i as i128)) as u64;
        push_nat(buf, magnitude);
        assert(buf@ =~= old(buf)@ + int_text(i as int));
    } else {
        push_nat(buf, i as u64);
    }
}

/// The text that `bytes` encode, if they are valid UTF-8.
///
/// Trusted: `core::str::from_utf8` succeeds exactly on valid UTF-8, and the
/// string slice it returns holds the characters that the bytes encode.
#[verifier::external_body]
pub(crate) fn text_of(bytes: &[u8]) -> (res: Option<&str>)
    ensures
        match res {
            Some(s) => valid_utf8(bytes@) && s@ == decode_utf8(bytes@),
            None => !valid_utf8(bytes@),
        },
{
    core::str::from_utf8(bytes).ok()
}

/// Every byte of `s` is below 128.
pub open spec fn is_ascii_bytes(s: Seq<u8>) -> bool {
    forall|i: int| 0 <= i < s.len() ==> #[trigger] s[i] < 128
}

/// ASCII bytes are the UTF-8 encoding of their characters.
pub proof fn lemma_ascii_bytes(s: Seq<u8>)
    requires
        is_ascii_bytes(s),
    ensures
        valid_utf8(s),
        decode_utf8(s) == ascii_chars(s),
        encode_utf8(ascii_chars(s)) == s,
{
    let chars = ascii_chars(s);
    assert(is_ascii_chars(chars)) by {
        assert forall|i: int| 0 <= i < chars.len() implies '\0' <= #[trigger] chars[i]
            <= '\u{7f}' by {
            assert(s[i] < 128);
        }
    }
    is_ascii_chars_encode_utf8(chars);
    assert(encode_utf8(chars) =~= s) by {
        assert forall|i: int| 0 <= i < s.len() implies encode_utf8(chars)[i] == s[i] by {
            assert(chars[i] as u8 == encode_utf8(chars)[i]);
            assert(s[i] < 128);
        }
    }
    encode_utf8_valid_utf8(chars);
    encode_utf8_decode_utf8(chars);
}

/// Decimal text is ASCII.
pub proof fn lemma_decimal_ascii(i: int)
    ensures
        is_ascii_bytes(int_text(i)),
        i >= 0 ==> is_ascii_bytes(nat_text(i as nat)),
{
    if i < 0 {
        lemma_nat_text((-i) as nat);
        let digits = nat_text((-i) as nat);
        assert forall|k: int| 0 <= k < int_text(i).len() implies #[trigger] int_text(i)[k]
            < 128 by {
            if k > 0 {
                assert(int_text(i)[k] == digits[k - 1]);
                assert(is_digit(digits[k - 1]));
            }
        }
    } else {
        lemma_nat_text(i as nat);
        let digits = nat_text(i as nat);
        assert forall|k: int| 0 <= k < digits.len() implies #[trigger] digits[k] < 128 by {
            assert(is_digit(digits[k]));
        }
    }
}

/// The string whose characters are the ASCII bytes `bytes`.
pub(crate) fn ascii_text(bytes: &[u8]) -> (res: String)
    requires
        is_ascii_bytes(bytes@),
    ensures
        res@ == ascii_chars(bytes@),
{
    proof {
        lemma_ascii_bytes(bytes@);
    }
    match text_of(bytes) {
        Some(s) => s.to_owned(),
        None => String::new(),
    }
}

/// Appends the decimal text of `i` to `s`.
pub fn append_int(s: &mut String, i: i64)
    ensures
        final(s)@ == old(s)@ + ascii_chars(int_text(i as int)),
{
    let mut digits: Vec<u8> = Vec::new();
    push_int(&mut digits, i);
    proof {
        lemma_decimal_ascii(i as int);
        assert(digits@ =~= int_text(i as int));
    }
    let text = ascii_text(digits.as_slice());
    s.append(text.as_str());
}

/// Appends the decimal text of `n` to `s`.
pub fn append_nat(s: &mut String, n: u64)
    ensures
        final(s)@ == old(s)@ + ascii_chars(nat_text(n as nat)),
{
    let mut digits: Vec<u8> = Vec::new();
    push_nat(&mut digits, n);
    proof {
        lemma_decimal_ascii(n as int);
        assert(digits@ =~= nat_text(n as nat));
    }
    let text = ascii_text(digits.as_slice());
    s.append(text.as_str());
}

/// The lower-case hexadecimal digit for `d`, where `0 <= d <= 15`.
pub open spec fn hex_lower(d: int) -> u8 {
    if d < 10 {
        (48 + d) as u8
    } else {
        (87 + d) as u8
    }
}

/// The two lower-case hexadecimal digits of each byte of `bytes`.
pub open spec fn hex_text(bytes: Seq<u8>) -> Seq<u8>
    decreases bytes.len(),
{
    if bytes.len() == 0 {
        Seq::empty()
    } else {
        hex_text(bytes.drop_last()).push(hex_lower(bytes.last() as int / 16)).push(
            hex_lower(bytes.last() as int % 16),
        )
    }
}

/// The lower-case hexadecimal digit for `d`.
pub(crate) fn hex_digit(d: u8) -> (res: u8)
    requires
        d < 16,
    ensures
        res == hex_lower(d as int),
        res < 128,
{
    if d < 10 {
        48 + d
    } else {
        87 + d
    }
}

/// The bytes of `bytes` in lower-case hexadecimal, two digits each.
pub fn to_hex(bytes: &[u8]) -> (res: String)
    ensures
        res@ == ascii_chars(hex_text(bytes@)),
{
    let mut out: Vec<u8> = Vec::new();
    let mut i: usize = 0;
    assert(bytes@.take(0) =~= Seq::<u8>::empty());
    while i < bytes.len()
        invariant
            i <= bytes.len(),
            out@ == hex_text(bytes@.take(i as int)),
            is_ascii_bytes(out@),
        decreases bytes.len() - i,
    {
        assert(bytes@.take(i + 1).drop_last() =~= bytes@.take(i as int));
        out.push(hex_digit(bytes[i] / 16));
        out.push(hex_digit(bytes[i] % 16));
        i += 1;
    }
    assert(bytes@.take(bytes.len() as int) =~= bytes@);
    ascii_text(out.as_slice())
}

/// The texts of `parts`, with `sep` between each two.
pub open spec fn joined(parts: Seq<Seq<char>>, sep: Seq<char>) -> Seq<char>
    decreases parts.len(),
{
    if parts.len() == 0 {
        Seq::empty()
    } else if parts.len() == 1 {
        parts[0]
    } else {
        joined(parts.drop_last(), sep) + sep + parts.last()
    }
}

/// The characters of each string of `strings`.
pub open spec fn texts_of(strings: Seq<String>) -> Seq<Seq<char>> {
    Seq::new(strings.len(), |i: int| strings[i]@)
}

/// The strings of `parts` in one, with `sep` between each two.
///
/// Trusted: `join` of the `itertools` crate writes the first item, and
/// before every further item the separator; a string is written as its
/// characters.
#[verifier::external_body]
pub(crate) fn join_texts(parts: &Vec<String>, sep: &str) -> (res: String)
    ensures
        res@ == joined(texts_of(parts@), sep@),
{
    join(parts, sep)
}

} // verus!
