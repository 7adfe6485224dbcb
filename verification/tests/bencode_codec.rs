use lava_torrent::bencode::{BencodeElem, Dictionary, ReadLimit};
use lava_torrent::error::LavaTorrentError;

fn dictionary(pairs: Vec<(&str, BencodeElem)>) -> Dictionary {
    let mut dict = Dictionary::new();
    for (key, value) in pairs {
        dict.insert(key.to_owned(), value);
    }
    dict
}

#[test]
fn decode_dictionary_and_encode_again() {
    let bytes = b"d3:cow3:moo4:spami42ee";
    let decoded = BencodeElem::from_bytes(bytes, ReadLimit::NoLimit).unwrap();
    assert_eq!(
        decoded,
        vec![BencodeElem::Dictionary(dictionary(vec![
            ("spam", BencodeElem::Integer(42)),
            ("cow", BencodeElem::String("moo".to_owned())),
        ]))]
    );
    assert_eq!(decoded[0].encode(), bytes.to_vec());
}

#[test]
fn decode_negative_zero_is_malformed() {
    match BencodeElem::from_bytes(b"i-0e", ReadLimit::NoLimit) {
        Err(LavaTorrentError::MalformedBencode(m)) => assert_eq!(m, "Malformed integer."),
        _ => panic!(),
    }
}

#[test]
fn decode_leading_zero_is_malformed() {
    match BencodeElem::from_bytes(b"i03e", ReadLimit::NoLimit) {
        Err(LavaTorrentError::MalformedBencode(m)) => assert_eq!(m, "Malformed integer."),
        _ => panic!(),
    }
}

#[test]
fn decode_two_top_level_strings() {
    assert_eq!(
        BencodeElem::from_bytes(b"2:ab3:xyz", ReadLimit::NoLimit).unwrap(),
        vec![
            BencodeElem::String("ab".to_owned()),
            BencodeElem::String("xyz".to_owned()),
        ]
    );
}

fn malformed(bytes: &[u8], limit: ReadLimit) -> String {
    match BencodeElem::from_bytes(bytes, limit) {
        Err(LavaTorrentError::MalformedBencode(m)) => m.into_owned(),
        _ => panic!(),
    }
}

fn text(s: &str) -> BencodeElem {
    BencodeElem::String(s.to_owned())
}

#[test]
fn decode_nothing() {
    assert_eq!(
        BencodeElem::from_bytes(b"", ReadLimit::NoLimit).unwrap(),
        Vec::<BencodeElem>::new()
    );
    assert_eq!(
        BencodeElem::from_bytes(b"", ReadLimit::Limit(0)).unwrap(),
        Vec::<BencodeElem>::new()
    );
}

#[test]
fn decode_integers() {
    let decode = |bytes: &[u8]| BencodeElem::from_bytes(bytes, ReadLimit::NoLimit).unwrap();
    assert_eq!(decode(b"i0e"), vec![BencodeElem::Integer(0)]);
    assert_eq!(decode(b"i-1e"), vec![BencodeElem::Integer(-1)]);
    assert_eq!(
        decode(b"i9223372036854775807e"),
        vec![BencodeElem::Integer(i64::MAX)]
    );
    assert_eq!(
        decode(b"i-9223372036854775808e"),
        vec![BencodeElem::Integer(i64::MIN)]
    );
}

#[test]
fn decode_integer_faults() {
    assert_eq!(malformed(b"ie", ReadLimit::NoLimit), "Malformed integer.");
    assert_eq!(malformed(b"i-e", ReadLimit::NoLimit), "Malformed integer.");
    assert_eq!(malformed(b"i+1e", ReadLimit::NoLimit), "Malformed integer.");
    assert_eq!(malformed(b"i1x", ReadLimit::NoLimit), "Malformed integer.");
    assert_eq!(malformed(b"i00e", ReadLimit::NoLimit), "Malformed integer.");
    assert_eq!(malformed(b"i-01e", ReadLimit::NoLimit), "Malformed integer.");
    assert_eq!(malformed(b"i12", ReadLimit::NoLimit), "Unexpected end of input.");
    assert_eq!(malformed(b"i", ReadLimit::NoLimit), "Unexpected end of input.");
    assert_eq!(
        malformed(b"i9223372036854775808e", ReadLimit::NoLimit),
        "Integer does not fit in 64 bits."
    );
    assert_eq!(
        malformed(b"i-9223372036854775809e", ReadLimit::NoLimit),
        "Integer does not fit in 64 bits."
    );
    assert_eq!(
        malformed(b"i99999999999999999999999999e", ReadLimit::NoLimit),
        "Integer does not fit in 64 bits."
    );
}

#[test]
fn decode_strings_and_bytes() {
    let decode = |bytes: &[u8]| BencodeElem::from_bytes(bytes, ReadLimit::NoLimit).unwrap();
    assert_eq!(decode(b"0:"), vec![text("")]);
    assert_eq!(decode(b"4:spam"), vec![text("spam")]);
    assert_eq!(decode("2:\u{e9}".as_bytes()), vec![text("\u{e9}")]);
    assert_eq!(
        decode(b"4:\xff\xfe\xfd\xfc"),
        vec![BencodeElem::Bytes(vec![0xff, 0xfe, 0xfd, 0xfc])]
    );
}

#[test]
fn decode_string_faults() {
    assert_eq!(malformed(b"4:spa", ReadLimit::NoLimit), "Unexpected end of input.");
    assert_eq!(malformed(b"4", ReadLimit::NoLimit), "Unexpected end of input.");
    assert_eq!(malformed(b"04:spam", ReadLimit::NoLimit), "Malformed string length.");
    assert_eq!(malformed(b"4spam", ReadLimit::NoLimit), "Malformed string length.");
    assert_eq!(malformed(b"-1:", ReadLimit::NoLimit), "Unknown element type.");
    assert_eq!(
        malformed(b"99999999999999999999999:", ReadLimit::NoLimit),
        "String length overflowed."
    );
    assert_eq!(malformed(b"x", ReadLimit::NoLimit), "Unknown element type.");
}

#[test]
fn decode_lists() {
    let decode = |bytes: &[u8]| BencodeElem::from_bytes(bytes, ReadLimit::NoLimit).unwrap();
    assert_eq!(decode(b"le"), vec![BencodeElem::List(vec![])]);
    assert_eq!(
        decode(b"l4:spami42elee"),
        vec![BencodeElem::List(vec![
            text("spam"),
            BencodeElem::Integer(42),
            BencodeElem::List(vec![]),
        ])]
    );
    assert_eq!(malformed(b"li1e", ReadLimit::NoLimit), "Unexpected end of input.");
    assert_eq!(malformed(b"li1exe", ReadLimit::NoLimit), "Unknown element type.");
}

#[test]
fn decode_dictionary_faults() {
    assert_eq!(
        malformed(b"d3:cow3:moo", ReadLimit::NoLimit),
        "Unexpected end of input."
    );
    assert_eq!(
        malformed(b"di1e3:mooe", ReadLimit::NoLimit),
        "Dictionary key is not a string."
    );
    assert_eq!(
        malformed(b"d1:\xffi1ee", ReadLimit::NoLimit),
        "Dictionary key is not valid UTF8."
    );
    assert_eq!(
        malformed(b"d4:spami42e3:cow3:mooe", ReadLimit::NoLimit),
        "Dictionary keys are not sorted or not unique."
    );
    assert_eq!(
        malformed(b"d3:cowi1e3:cowi2ee", ReadLimit::NoLimit),
        "Dictionary keys are not sorted or not unique."
    );
    assert_eq!(
        malformed(b"d3:cowe", ReadLimit::NoLimit),
        "Unknown element type."
    );
}

#[test]
fn decode_within_a_limit() {
    assert_eq!(
        BencodeElem::from_bytes(b"i42e4:spam", ReadLimit::Limit(6)).unwrap(),
        vec![BencodeElem::Integer(42), text("spam")]
    );
    match BencodeElem::from_bytes(b"i42e4:spam", ReadLimit::Limit(5)) {
        Err(LavaTorrentError::InvalidArgument(m)) => {
            assert_eq!(m, "Element exceeds the read limit.")
        }
        _ => panic!(),
    }
    match BencodeElem::from_bytes(b"i42e", ReadLimit::Limit(0)) {
        Err(LavaTorrentError::InvalidArgument(m)) => {
            assert_eq!(m, "Element exceeds the read limit.")
        }
        _ => panic!(),
    }
    assert_eq!(malformed(b"i4", ReadLimit::Limit(2)), "Unexpected end of input.");
    assert_eq!(malformed(b"ixe4:spam", ReadLimit::Limit(2)), "Malformed integer.");
}

#[test]
fn encode_elements() {
    assert_eq!(BencodeElem::Integer(0).encode(), b"i0e".to_vec());
    assert_eq!(BencodeElem::Integer(-42).encode(), b"i-42e".to_vec());
    assert_eq!(
        BencodeElem::Integer(i64::MIN).encode(),
        b"i-9223372036854775808e".to_vec()
    );
    assert_eq!(text("spam").encode(), b"4:spam".to_vec());
    assert_eq!(text("").encode(), b"0:".to_vec());
    assert_eq!(text("\u{e9}").encode(), "2:\u{e9}".as_bytes().to_vec());
    assert_eq!(
        BencodeElem::Bytes(vec![0xff, 0x00]).encode(),
        b"2:\xff\x00".to_vec()
    );
    assert_eq!(
        BencodeElem::List(vec![BencodeElem::Integer(1), text("a")]).encode(),
        b"li1e1:ae".to_vec()
    );
    assert_eq!(
        BencodeElem::Dictionary(Dictionary::new()).encode(),
        b"de".to_vec()
    );
}

#[test]
fn encode_sorts_keys_by_their_bytes() {
    let dict = dictionary(vec![
        ("b", BencodeElem::Integer(1)),
        ("\u{e9}", BencodeElem::Integer(2)),
        ("B", BencodeElem::Integer(3)),
        ("ab", BencodeElem::Integer(4)),
        ("a", BencodeElem::Integer(5)),
    ]);
    assert_eq!(
        BencodeElem::Dictionary(dict).encode(),
        "d1:Bi3e1:ai5e2:abi4e1:bi1e2:\u{e9}i2ee".as_bytes().to_vec()
    );
}

#[test]
fn decode_what_was_encoded() {
    let elem = BencodeElem::Dictionary(dictionary(vec![
        ("list", BencodeElem::List(vec![BencodeElem::Integer(-7), text("x")])),
        ("bytes", BencodeElem::Bytes(vec![0xff, 0xfe])),
        (
            "dict",
            BencodeElem::Dictionary(dictionary(vec![("k", text("v"))])),
        ),
    ]));
    assert_eq!(
        BencodeElem::from_bytes(&elem.encode(), ReadLimit::NoLimit).unwrap(),
        vec![elem.clone()]
    );
    let mut buf = b"i1e".to_vec();
    elem.write_into(&mut buf);
    assert_eq!(
        BencodeElem::from_bytes(&buf, ReadLimit::NoLimit).unwrap(),
        vec![BencodeElem::Integer(1), elem]
    );
}

#[test]
fn dictionary_maps_each_key_once() {
    let mut dict = Dictionary::new();
    assert!(dict.is_empty());
    assert_eq!(dict.insert("b".to_owned(), BencodeElem::Integer(1)), None);
    assert_eq!(dict.insert("a".to_owned(), BencodeElem::Integer(2)), None);
    assert_eq!(
        dict.insert("b".to_owned(), BencodeElem::Integer(3)),
        Some(BencodeElem::Integer(1))
    );
    assert_eq!(dict.len(), 2);
    assert_eq!(dict.get("b"), Some(&BencodeElem::Integer(3)));
    assert_eq!(dict.get("c"), None);
    assert!(dict.contains_key("a"));
    assert_eq!(dict.entries()[0].key, "a");
    assert_eq!(dict.entries()[1].key, "b");
    assert_eq!(dict.remove("a"), Some(BencodeElem::Integer(2)));
    assert_eq!(dict.remove("a"), None);
    assert_eq!(dict.len(), 1);
    assert_eq!(dict.clone(), dict);
}

#[test]
fn files_that_the_machine_can_hold_are_read() {
    assert_eq!(
        lava_torrent::bencode::read::check_file_size(0).unwrap(),
        0usize
    );
    assert_eq!(
        lava_torrent::bencode::read::check_file_size(1 << 20).unwrap(),
        1usize << 20
    );
    if usize::MAX as u128 >= u64::MAX as u128 {
        assert_eq!(
            lava_torrent::bencode::read::check_file_size(u64::MAX).unwrap(),
            usize::MAX
        );
    } else {
        match lava_torrent::bencode::read::check_file_size(u64::MAX) {
            Err(LavaTorrentError::FileTooLarge(m)) => {
                assert_eq!(m, "File is too large to be held in memory.")
            }
            _ => panic!(),
        }
    }
}
