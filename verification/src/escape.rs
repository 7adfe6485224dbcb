//! Escaping of text that goes into a magnet link.

use percent_encoding::{utf8_percent_encode, CONTROLS};
use vstd::prelude::*;
use vstd::utf8::encode_utf8;
use crate::text::{ascii_chars, ascii_text, is_ascii_bytes, lemma_ascii_bytes};

verus! {

/// The upper-case hexadecimal digit for `d`, where `0 <= d <= 15`.
pub open spec fn hex_upper(d: int) -> u8 {
    if d < 10 {
        (48 + d) as u8
    } else {
        (55 + d) as u8
    }
}

/// A percent sign and the two hexadecimal digits of `b`.
pub open spec fn percent_byte(b: u8) -> Seq<u8> {
    seq![37u8, hex_upper(b as int / 16), hex_upper(b as int % 16)]
}

/// `b` is an ASCII control: below the space, or the delete character.
pub open spec fn is_control(b: u8) -> bool {
    b < 0x20 || b == 0x7f
}

/// `bytes` with every byte that is a control or not ASCII replaced by its
/// percent escape.
pub open spec fn escape_controls(bytes: Seq<u8>) -> Seq<u8>
    decreases bytes.len(),
{
    if bytes.len() == 0 {
        Seq::empty()
    } else {
        (if bytes[0] >= 0x80 || is_control(bytes[0]) {
            percent_byte(bytes[0])
        } else {
            seq![bytes[0]]
        }) + escape_controls(bytes.drop_first())
    }
}

/// What stands for one byte of a component of a magnet link: the escape of
/// a control, of a byte that is not ASCII, of `&` and of `+`; a `+` for a
/// space; and every other byte itself.
pub open spec fn magnet_byte(b: u8) -> Seq<u8> {
    if b >= 0x80 || is_control(b) || b == 38 || b == 43 {
        percent_byte(b)
    } else if b == 32 {
        seq![43u8]
    } else {
        seq![b]
    }
}

/// What stands for `bytes` in a magnet link, byte by byte.
pub open spec fn magnet_bytes(bytes: Seq<u8>) -> Seq<u8>
    decreases bytes.len(),
{
    if bytes.len() == 0 {
        Seq::empty()
    } else {
        magnet_byte(bytes[0]) + magnet_bytes(bytes.drop_first())
    }
}

/// What stands for the text `s` as a component of a magnet link.
pub open spec fn magnet_component(s: Seq<char>) -> Seq<char> {
    ascii_chars(magnet_bytes(encode_utf8(s)))
}

/// `s` with its controls and the characters that are not ASCII escaped.
///
/// Trusted: `utf8_percent_encode` of the `percent_encoding` crate, with the
/// set `CONTROLS`, replaces every byte of the UTF-8 encoding that is not
/// ASCII, is below 0x20 or is 0x7F by `%` and its two upper-case hexadecimal
/// digits, and keeps every other byte.
#[verifier::external_body]
fn percent_encode_controls(s: &str) -> (res: String)
    ensures
        res@ == ascii_chars(escape_controls(encode_utf8(s@))),
{
    utf8_percent_encode(s, CONTROLS).to_string()
}

/// What escaping controls yields is ASCII.
pub proof fn lemma_escape_controls_ascii(bytes: Seq<u8>)
    ensures
        is_ascii_bytes(escape_controls(bytes)),
    decreases bytes.len(),
{
    if bytes.len() > 0 {
        lemma_escape_controls_ascii(bytes.drop_first());
        let head = if bytes[0] >= 0x80 || is_control(bytes[0]) {
            percent_byte(bytes[0])
        } else {
            seq![bytes[0]]
        };
        let tail = escape_controls(bytes.drop_first());
        assert forall|i: int| 0 <= i < (head + tail).len() implies #[trigger] (head + tail)[i]
            < 128 by {
            if i >= head.len() {
                assert((head + tail)[i] == tail[i - head.len()]);
            }
        }
    }
}

/// What stands for `bytes` in a magnet link is ASCII.
pub proof fn lemma_magnet_bytes_ascii(bytes: Seq<u8>)
    ensures
        is_ascii_bytes(magnet_bytes(bytes)),
    decreases bytes.len(),
{
    if bytes.len() > 0 {
        lemma_magnet_bytes_ascii(bytes.drop_first());
        let head = magnet_byte(bytes[0]);
        let tail = magnet_bytes(bytes.drop_first());
        assert forall|i: int| 0 <= i < (head + tail).len() implies #[trigger] (head + tail)[i]
            < 128 by {
            if i >= head.len() {
                assert((head + tail)[i] == tail[i - head.len()]);
            }
        }
    }
}

/// What stands for one byte of escaped text once `&`, `+` and the space are
/// dealt with.
pub open spec fn finish_byte(b: u8) -> Seq<u8> {
    if b == 38 || b == 43 {
        percent_byte(b)
    } else if b == 32 {
        seq![43u8]
    } else {
        seq![b]
    }
}

/// Escaped text with `&`, `+` and the space dealt with, byte by byte.
pub open spec fn finish(bytes: Seq<u8>) -> Seq<u8>
    decreases bytes.len(),
{
    if bytes.len() == 0 {
        Seq::empty()
    } else {
        finish_byte(bytes[0]) + finish(bytes.drop_first())
    }
}

/// Finishing goes through what is put together.
pub proof fn lemma_finish_concat(a: Seq<u8>, b: Seq<u8>)
    ensures
        finish(a + b) == finish(a) + finish(b),
    decreases a.len(),
{
    if a.len() == 0 {
        assert(a + b =~= b);
        assert(finish(a) + finish(b) =~= finish(b));
    } else {
        lemma_finish_concat(a.drop_first(), b);
        assert((a + b).drop_first() =~= a.drop_first() + b);
        assert(finish(a + b) =~= finish(a) + finish(b));
    }
}

/// Escaping the controls first and dealing with `&`, `+` and the space after
/// it yields what stands for the bytes in a magnet link.
pub proof fn lemma_finish_escape(bytes: Seq<u8>)
    ensures
        finish(escape_controls(bytes)) == magnet_bytes(bytes),
    decreases bytes.len(),
{
    if bytes.len() > 0 {
        let b = bytes[0];
        let head = if b >= 0x80 || is_control(b) {
            percent_byte(b)
        } else {
            seq![b]
        };
        lemma_finish_escape(bytes.drop_first());
        lemma_finish_concat(head, escape_controls(bytes.drop_first()));
        assert(finish(head) =~= magnet_byte(b)) by {
            reveal_with_fuel(finish, 4);
            if b >= 0x80 || is_control(b) {
                let p = percent_byte(b);
                assert(p.drop_first() =~= seq![p[1], p[2]]);
                assert(p.drop_first().drop_first() =~= seq![p[2]]);
                assert(p.drop_first().drop_first().drop_first() =~= Seq::<u8>::empty());
            } else {
                assert(head.drop_first() =~= Seq::<u8>::empty());
            }
        }
    }
}

/// What stands for the text `s` as a component of a magnet link.
pub fn encode_component(s: &str) -> (res: String)
    ensures
        res@ == magnet_component(s@),
{
    let escaped = percent_encode_controls(s);
    let ghost source = escape_controls(encode_utf8(s@));
    proof {
        lemma_escape_controls_ascii(encode_utf8(s@));
        lemma_ascii_bytes(source);
        lemma_finish_escape(encode_utf8(s@));
        lemma_magnet_bytes_ascii(encode_utf8(s@));
    }
    let bytes = escaped.as_str().as_bytes();
    assert(bytes@ == source);
    let mut out: Vec<u8> = Vec::new();
    let mut i: usize = 0;
    assert(source.skip(0) =~= source);
    while i < bytes.len()
        invariant
            i <= bytes.len(),
            bytes@ == source,
            out@ + finish(source.skip(i as int)) == finish(source),
        decreases bytes.len() - i,
    {
        let ghost before = out@;
        let b = bytes[i];
        assert(source.skip(i as int).drop_first() =~= source.skip(i + 1));
        if b == 38 {
            out.push(37);
            out.push(50);
            out.push(54);
        } else if b == 43 {
            out.push(37);
            out.push(50);
            out.push(66);
        } else if b == 32 {
            out.push(43);
        } else {
            out.push(b);
        }
        assert(out@ =~= before + finish_byte(b));
        assert(out@ + finish(source.skip(i + 1)) =~= before + (finish_byte(b) + finish(
            source.skip(i + 1),
        )));
        i += 1;
    }
    assert(finish(source.skip(bytes.len() as int)) =~= Seq::<u8>::empty());
    assert(out@ =~= magnet_bytes(encode_utf8(s@)));
    ascii_text(out.as_slice())
}

} // verus!
