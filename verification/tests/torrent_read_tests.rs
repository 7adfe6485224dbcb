use lava_torrent::bencode::{BencodeElem, Dictionary};
use lava_torrent::error::LavaTorrentError;
use lava_torrent::torrent::v1::{File, Torrent, PIECE_STRING_LENGTH};

fn dict(pairs: Vec<(&str, BencodeElem)>) -> Dictionary {
    let mut dict = Dictionary::new();
    for (key, value) in pairs {
        dict.insert(key.to_owned(), value);
    }
    dict
}

fn elem_dict(pairs: Vec<(&str, BencodeElem)>) -> BencodeElem {
    BencodeElem::Dictionary(dict(pairs))
}

fn elem_text(s: &str) -> BencodeElem {
    BencodeElem::String(s.to_owned())
}

fn elem_int(i: i64) -> BencodeElem {
    BencodeElem::Integer(i)
}

fn elem_list(items: Vec<BencodeElem>) -> BencodeElem {
    BencodeElem::List(items)
}

fn path(components: &[&str]) -> Vec<String> {
    components.iter().map(|c| c.to_string()).collect()
}

#[test]
fn extract_file_ok() {
    let file = elem_dict(vec![
        ("length", elem_int(42)),
        ("path", elem_list(vec![elem_text("root"), elem_text(".bashrc")])),
        ("comment", elem_text("no comment")),
    ]);

    assert_eq!(
        File::extract_file(file).unwrap(),
        File {
            length: 42,
            path: path(&["root", ".bashrc"]),
            extra_fields: Some(dict(vec![("comment", elem_text("no comment"))])),
        }
    );
}

#[test]
fn extract_file_not_dictionary() {
    let file = elem_list(vec![]);

    match File::extract_file(file) {
        Err(LavaTorrentError::MalformedTorrent(m)) => {
            assert_eq!(m, r#""files" contains a non-dictionary element."#);
        }
        _ => panic!(),
    }
}

#[test]
fn extract_file_length_ok() {
    let mut dict = dict(vec![("length", elem_int(42))]);
    assert_eq!(File::extract_file_length(&mut dict).unwrap(), 42);
}

#[test]
fn extract_file_length_is_negative() {
    let mut dict = dict(vec![("length", elem_int(-1))]);

    match File::extract_file_length(&mut dict) {
        Err(LavaTorrentError::MalformedTorrent(m)) => assert_eq!(m, r#""length" < 0."#),
        _ => panic!(),
    }
}

#[test]
fn extract_file_length_not_integer() {
    let mut dict = dict(vec![("length", elem_text("42"))]);

    match File::extract_file_length(&mut dict) {
        Err(LavaTorrentError::MalformedTorrent(m)) => {
            assert_eq!(m, r#""length" does not map to an integer."#);
        }
        _ => panic!(),
    }
}

#[test]
fn extract_file_length_missing() {
    let mut dict = Dictionary::new();

    match File::extract_file_length(&mut dict) {
        Err(LavaTorrentError::MalformedTorrent(m)) => {
            assert_eq!(m, r#""length" does not exist."#);
        }
        _ => panic!(),
    }
}

#[test]
fn extract_file_path_ok() {
    let mut dict = dict(vec![(
        "path",
        elem_list(vec![elem_text("root"), elem_text(".bashrc")]),
    )]);

    assert_eq!(
        File::extract_file_path(&mut dict).unwrap(),
        path(&["root", ".bashrc"])
    );
}

#[test]
fn extract_file_path_not_list() {
    let mut dict = dict(vec![("path", elem_text("root/.bashrc"))]);

    match File::extract_file_path(&mut dict) {
        Err(LavaTorrentError::MalformedTorrent(m)) => {
            assert_eq!(m, r#""path" does not map to a list."#);
        }
        _ => panic!(),
    }
}

#[test]
fn extract_file_path_missing() {
    let mut dict = Dictionary::new();

    match File::extract_file_path(&mut dict) {
        Err(LavaTorrentError::MalformedTorrent(m)) => {
            assert_eq!(m, r#""path" does not exist."#);
        }
        _ => panic!(),
    }
}

#[test]
fn extract_file_path_empty_list() {
    let mut dict = dict(vec![("path", elem_list(vec![]))]);

    match File::extract_file_path(&mut dict) {
        Err(LavaTorrentError::MalformedTorrent(m)) => {
            assert_eq!(m, r#""path" maps to a 0-length list."#);
        }
        _ => panic!(),
    }
}

#[test]
fn extract_file_path_component_not_string() {
    let mut dict = dict(vec![(
        "path",
        BencodeElem::List(vec![
            BencodeElem::String("root".to_owned()),
            BencodeElem::Bytes(".bashrc".as_bytes().to_vec()),
        ]),
    )]);

    match File::extract_file_path(&mut dict) {
        Err(LavaTorrentError::MalformedTorrent(m)) => {
            assert_eq!(m, r#""path" contains a non-string element."#);
        }
        _ => panic!(),
    }
}

#[test]
fn extract_file_path_component_invalid() {
    let mut dict = dict(vec![(
        "path",
        BencodeElem::List(vec![
            BencodeElem::String("root".to_owned()),
            BencodeElem::String(".".to_owned()),
        ]),
    )]);

    match File::extract_file_path(&mut dict) {
        Err(LavaTorrentError::MalformedTorrent(m)) => {
            assert_eq!(m, r#""path" contains "." or ".."."#);
        }
        _ => panic!(),
    }
}

#[test]
fn extract_file_path_component_invalid_2() {
    let mut dict = dict(vec![(
        "path",
        BencodeElem::List(vec![
            BencodeElem::String("root".to_owned()),
            BencodeElem::String("..".to_owned()),
        ]),
    )]);

    match File::extract_file_path(&mut dict) {
        Err(LavaTorrentError::MalformedTorrent(m)) => {
            assert_eq!(m, r#""path" contains "." or ".."."#);
        }
        _ => panic!(),
    }
}

#[test]
fn extract_file_extra_fields_ok() {
    assert_eq!(
        File::extract_file_extra_fields(dict(vec![("comment", elem_text("none"))])),
        Some(dict(vec![("comment", elem_text("none"))]))
    )
}

#[test]
fn extract_file_extra_fields_none() {
    assert_eq!(File::extract_file_extra_fields(Dictionary::new()), None)
}

#[test]
fn validate_ok() {
    // torrent is actually invalid (incorrect pieces' length)
    // keeping things simple for the sake of solely testing `validate()`
    let torrent = Torrent {
        announce: Some("url".to_owned()),
        announce_list: None,
        length: 4,
        files: None,
        name: "sample".to_owned(),
        piece_length: 2,
        pieces: vec![vec![1, 2], vec![3, 4]],
        extra_fields: None,
        extra_info_fields: None,
    };

    // use `clone()` here so we can test that `torrent` is not modified
    // accidentally by `validate()`
    assert_eq!(torrent.clone().validate().unwrap(), torrent);
}

#[test]
fn validate_length_mismatch() {
    let torrent = Torrent {
        announce: Some("url".to_owned()),
        announce_list: None,
        length: 6,
        files: None,
        name: "sample".to_owned(),
        piece_length: 2,
        pieces: vec![vec![1, 2], vec![3, 4]],
        extra_fields: None,
        extra_info_fields: None,
    };

    match torrent.validate() {
        Err(LavaTorrentError::MalformedTorrent(m)) => {
            assert_eq!(m, "Total piece length 4 < torrent's length 6.");
        }
        _ => panic!(),
    }
}

#[test]
fn validate_length_not_positive() {
    let torrent = Torrent {
        announce: Some("url".to_owned()),
        announce_list: None,
        length: 0,
        files: None,
        name: "sample".to_owned(),
        piece_length: 2,
        pieces: vec![vec![1, 2], vec![3, 4]],
        extra_fields: None,
        extra_info_fields: None,
    };

    match torrent.validate() {
        Err(LavaTorrentError::MalformedTorrent(m)) => assert_eq!(m, r#""length" <= 0."#),
        _ => panic!(),
    }
}

#[test]
fn validate_length_overflow() {
    let torrent = Torrent {
        announce: Some("url".to_owned()),
        announce_list: None,
        length: 1,
        files: None,
        name: "sample".to_owned(),
        piece_length: i64::max_value(),
        pieces: vec![vec![1, 2], vec![3, 4], vec![5, 6]],
        extra_fields: None,
        extra_info_fields: None,
    };

    match torrent.validate() {
        Err(LavaTorrentError::MalformedTorrent(m)) => {
            assert_eq!(m, "Torrent's total piece length overflowed in usize.");
        }
        _ => panic!(),
    }
}

#[test]
fn validate_negative_length_and_piece_length() {
    let mut torrent = Torrent {
        announce: None,
        announce_list: None,
        length: -1,
        files: None,
        name: "sample".to_owned(),
        piece_length: 2,
        pieces: vec![vec![1, 2]],
        extra_fields: None,
        extra_info_fields: None,
    };
    match torrent.clone().validate() {
        Err(LavaTorrentError::MalformedTorrent(m)) => assert_eq!(m, r#""length" <= 0."#),
        _ => panic!(),
    }
    torrent.piece_length = -2;
    match torrent.validate() {
        Err(LavaTorrentError::MalformedTorrent(m)) => assert_eq!(m, r#""piece length" < 0."#),
        _ => panic!(),
    }
}

#[test]
fn validate_piece_length_zero() {
    let torrent = Torrent {
        announce: None,
        announce_list: None,
        length: 1,
        files: None,
        name: "sample".to_owned(),
        piece_length: 0,
        pieces: vec![vec![1, 2]],
        extra_fields: None,
        extra_info_fields: None,
    };
    match torrent.validate() {
        Err(LavaTorrentError::MalformedTorrent(m)) => {
            assert_eq!(m, "Total piece length 0 < torrent's length 1.");
        }
        _ => panic!(),
    }
}

#[test]
fn from_parsed_ok() {
    let dict = vec![elem_dict(vec![
        ("announce", elem_text("url")),
        (
            "info",
            elem_dict(vec![
                ("name", elem_text("??")),
                ("length", elem_int(2)),
                ("piece length", elem_int(2)),
                (
                    "pieces",
                    BencodeElem::Bytes(vec![
                        0x00, 0x01, 0x02, 0x03, 0x04, 0x05, 0x06, 0x07, 0x08, 0x09, 0x0a, 0x0b,
                        0x0c, 0x0d, 0x0e, 0x0f, 0x10, 0x11, 0x12, 0x13,
                    ]),
                ),
            ]),
        ),
    ])];

    assert_eq!(
        Torrent::from_parsed(dict).unwrap(),
        Torrent {
            announce: Some("url".to_owned()),
            announce_list: None,
            length: 2,
            files: None,
            name: "??".to_owned(),
            piece_length: 2,
            pieces: vec![vec![
                0x00, 0x01, 0x02, 0x03, 0x04, 0x05, 0x06, 0x07, 0x08, 0x09, 0x0a, 0x0b, 0x0c,
                0x0d, 0x0e, 0x0f, 0x10, 0x11, 0x12, 0x13,
            ]],
            extra_fields: None,
            extra_info_fields: None,
        }
    );
}

#[test]
fn from_parsed_top_level_multiple_elem() {
    let dict = vec![elem_dict(vec![]), elem_list(vec![])];

    match Torrent::from_parsed(dict) {
        Err(LavaTorrentError::MalformedTorrent(m)) => assert_eq!(
            m,
            "Torrent should contain 1 and only 1 top-level element, 2 found."
        ),
        _ => panic!(),
    }
}

#[test]
fn from_parsed_top_level_no_elem() {
    let dict = Vec::new();

    match Torrent::from_parsed(dict) {
        Err(LavaTorrentError::MalformedTorrent(m)) => assert_eq!(
            m,
            "Torrent should contain 1 and only 1 top-level element, 0 found."
        ),
        _ => panic!(),
    }
}

#[test]
fn from_parsed_top_level_not_dict() {
    let dict = vec![elem_list(vec![])];

    match Torrent::from_parsed(dict) {
        Err(LavaTorrentError::MalformedTorrent(m)) => {
            assert_eq!(m, "Torrent's top-level element is not a dictionary.");
        }
        _ => panic!(),
    }
}

#[test]
fn from_parsed_info_missing() {
    // "announce" is needed here because it is parsed before "info"
    // missing "announce-list" is fine as that won't trigger an error
    let dict = vec![elem_dict(vec![("announce", elem_text("url"))])];

    match Torrent::from_parsed(dict) {
        Err(LavaTorrentError::MalformedTorrent(m)) => {
            assert_eq!(m, r#""info" does not exist."#);
        }
        _ => panic!(),
    }
}

#[test]
fn from_parsed_info_not_dict() {
    // "announce" is needed here because it is parsed before "info"
    // missing "announce-list" is fine as that won't trigger an error
    let parsed = vec![elem_dict(vec![
        ("announce", elem_text("url")),
        ("info", elem_list(vec![])),
    ])];

    match Torrent::from_parsed(parsed) {
        Err(LavaTorrentError::MalformedTorrent(m)) => {
            assert_eq!(m, r#""info" is not a dictionary."#);
        }
        _ => panic!(),
    }
}

#[test]
fn from_parsed_keeps_unknown_keys() {
    let parsed = vec![elem_dict(vec![
        ("comment", elem_text("top")),
        (
            "info",
            elem_dict(vec![
                ("name", elem_text("n")),
                ("length", elem_int(2)),
                ("piece length", elem_int(2)),
                ("pieces", BencodeElem::Bytes(vec![0xff; 20])),
                ("private", elem_int(1)),
            ]),
        ),
    ])];
    let torrent = Torrent::from_parsed(parsed).unwrap();
    assert_eq!(
        torrent.extra_fields,
        Some(dict(vec![("comment", elem_text("top"))]))
    );
    assert_eq!(
        torrent.extra_info_fields,
        Some(dict(vec![("private", elem_int(1))]))
    );
    assert!(torrent.is_private());
}

#[test]
fn extract_announce_ok() {
    let mut dict = dict(vec![("announce", elem_text("url"))]);

    assert_eq!(
        Torrent::extract_announce(&mut dict).unwrap(),
        Some("url".to_owned()),
    );
}

#[test]
fn extract_announce_missing() {
    let mut dict = Dictionary::new();

    assert_eq!(Torrent::extract_announce(&mut dict).unwrap(), None,);
}

#[test]
fn extract_announce_not_string() {
    let mut dict = dict(vec![(
        "announce",
        BencodeElem::Bytes("url".as_bytes().to_vec()),
    )]);

    match Torrent::extract_announce(&mut dict) {
        Err(LavaTorrentError::MalformedTorrent(m)) => assert_eq!(
            m,
            r#""announce" does not map to a string (or maps to invalid UTF8)."#
        ),
        _ => panic!(),
    }
}

#[test]
fn extract_announce_list_tier_ok() {
    let tier = elem_list(vec![elem_text("url1"), elem_text("url2")]);

    assert_eq!(
        Torrent::extract_announce_list_tier(tier).unwrap(),
        vec!["url1".to_owned(), "url2".to_owned()]
    );
}

#[test]
fn extract_announce_list_tier_not_list() {
    let tier = elem_dict(vec![]);
    match Torrent::extract_announce_list_tier(tier) {
        Err(LavaTorrentError::MalformedTorrent(m)) => {
            assert_eq!(m, r#""announce-list" contains a non-list element."#);
        }
        _ => panic!(),
    }
}

#[test]
fn extract_announce_list_tier_url_not_string() {
    let tier = BencodeElem::List(vec![
        elem_text("url1"),
        BencodeElem::Bytes("url2".as_bytes().to_vec()),
    ]);

    match Torrent::extract_announce_list_tier(tier) {
        Err(LavaTorrentError::MalformedTorrent(m)) => assert_eq!(
            m,
            r#"A tier within "announce-list" contains a non-string element."#
        ),
        _ => panic!(),
    }
}

#[test]
fn extract_announce_list_ok() {
    let mut dict = dict(vec![(
        "announce-list",
        elem_list(vec![
            elem_list(vec![elem_text("url1"), elem_text("url2")]),
            elem_list(vec![elem_text("url3"), elem_text("url4")]),
        ]),
    )]);

    assert_eq!(
        Torrent::extract_announce_list(&mut dict).unwrap(),
        Some(vec![
            vec!["url1".to_owned(), "url2".to_owned()],
            vec!["url3".to_owned(), "url4".to_owned()],
        ])
    );
}

#[test]
fn extract_announce_list_missing() {
    let mut dict = Dictionary::new();
    assert_eq!(Torrent::extract_announce_list(&mut dict).unwrap(), None);
}

#[test]
fn extract_announce_list_not_list() {
    let mut dict = dict(vec![("announce-list", elem_dict(vec![]))]);

    match Torrent::extract_announce_list(&mut dict) {
        Err(LavaTorrentError::MalformedTorrent(m)) => {
            assert_eq!(m, r#""announce-list" does not map to a list."#);
        }
        _ => panic!(),
    }
}

#[test]
fn extract_files_ok() {
    let mut dict = dict(vec![(
        "files",
        elem_list(vec![elem_dict(vec![
            ("length", elem_int(42)),
            ("path", elem_list(vec![elem_text("root"), elem_text(".bashrc")])),
            ("comment", elem_text("no comment")),
        ])]),
    )]);

    let files = Torrent::extract_files(&mut dict).unwrap().unwrap();
    assert_eq!(files.len(), 1);
    assert_eq!(
        files[0],
        File {
            length: 42,
            path: path(&["root", ".bashrc"]),
            extra_fields: Some(self::dict(vec![("comment", elem_text("no comment"))])),
        }
    );
}

#[test]
fn extract_files_not_list() {
    let mut dict = dict(vec![("files", elem_dict(vec![]))]);

    match Torrent::extract_files(&mut dict) {
        Err(LavaTorrentError::MalformedTorrent(m)) => {
            assert_eq!(m, r#""files" does not map to a list."#);
        }
        _ => panic!(),
    }
}

#[test]
fn extract_files_missing() {
    let mut dict = Dictionary::new();
    assert_eq!(Torrent::extract_files(&mut dict).unwrap(), None);
}

#[test]
fn extract_files_empty_list() {
    let mut dict = dict(vec![("files", elem_list(vec![]))]);

    match Torrent::extract_files(&mut dict) {
        Err(LavaTorrentError::MalformedTorrent(m)) => {
            assert_eq!(m, r#""files" maps to an empty list."#);
        }
        _ => panic!(),
    }
}

#[test]
fn extract_length_ok() {
    let mut dict = dict(vec![("length", elem_int(42))]);
    assert_eq!(Torrent::extract_length(&mut dict, &None).unwrap(), 42);
}

#[test]
fn extract_length_conflict_with_files() {
    let mut dict = dict(vec![("length", elem_int(42))]);
    let files = Some(vec![File {
        length: 100,
        path: Vec::new(),
        extra_fields: None,
    }]);

    match Torrent::extract_length(&mut dict, &files) {
        Err(LavaTorrentError::MalformedTorrent(m)) => {
            assert_eq!(m, r#"Both "length" and "files" exist."#);
        }
        _ => panic!(),
    }
}

#[test]
fn extract_length_not_integer() {
    let mut dict = dict(vec![("length", elem_text("42"))]);

    match Torrent::extract_length(&mut dict, &None) {
        Err(LavaTorrentError::MalformedTorrent(m)) => {
            assert_eq!(m, r#""length" does not map to an integer."#);
        }
        _ => panic!(),
    }
}

#[test]
fn extract_length_missing_no_files() {
    let mut dict = Dictionary::new();

    match Torrent::extract_length(&mut dict, &None) {
        Err(LavaTorrentError::MalformedTorrent(m)) => {
            assert_eq!(m, r#"Neither "length" nor "files" exists."#);
        }
        _ => panic!(),
    }
}

#[test]
fn extract_length_missing_have_files() {
    let mut dict = Dictionary::new();
    let files = Some(vec![File {
        length: 100,
        path: Vec::new(),
        extra_fields: None,
    }]);

    assert_eq!(Torrent::extract_length(&mut dict, &files).unwrap(), 100);
}

#[test]
fn extract_length_missing_have_files_overflow() {
    let mut dict = Dictionary::new();
    let files = Some(vec![
        File {
            length: 1,
            path: Vec::new(),
            extra_fields: None,
        },
        File {
            length: i64::max_value(),
            path: Vec::new(),
            extra_fields: None,
        },
    ]);

    match Torrent::extract_length(&mut dict, &files) {
        Err(LavaTorrentError::MalformedTorrent(m)) => {
            assert_eq!(m, r#"Torrent's length overflowed in i64."#);
        }
        _ => panic!(),
    }
}

#[test]
fn extract_name_ok() {
    let mut dict = dict(vec![("name", elem_text("not name"))]);

    assert_eq!(
        Torrent::extract_name(&mut dict).unwrap(),
        "not name".to_owned()
    );
}

#[test]
fn extract_name_not_string() {
    let mut dict = dict(vec![(
        "name",
        BencodeElem::Bytes("not name".as_bytes().to_vec()),
    )]);

    match Torrent::extract_name(&mut dict) {
        Err(LavaTorrentError::MalformedTorrent(m)) => assert_eq!(
            m,
            r#""name" does not map to a string (or maps to invalid UTF8)."#
        ),
        _ => panic!(),
    }
}

#[test]
fn extract_name_missing() {
    let mut dict = Dictionary::new();

    match Torrent::extract_name(&mut dict) {
        Err(LavaTorrentError::MalformedTorrent(m)) => {
            assert_eq!(m, r#""name" does not exist."#);
        }
        _ => panic!(),
    }
}

#[test]
fn extract_piece_length_ok() {
    let mut dict = dict(vec![("piece length", elem_int(1))]);
    assert_eq!(Torrent::extract_piece_length(&mut dict).unwrap(), 1);
}

#[test]
fn extract_piece_length_not_integer() {
    let mut dict = dict(vec![("piece length", elem_text("1"))]);

    match Torrent::extract_piece_length(&mut dict) {
        Err(LavaTorrentError::MalformedTorrent(m)) => {
            assert_eq!(m, r#""piece length" does not map to an integer."#);
        }
        _ => panic!(),
    }
}

#[test]
fn extract_piece_length_missing() {
    let mut dict = Dictionary::new();

    match Torrent::extract_piece_length(&mut dict) {
        Err(LavaTorrentError::MalformedTorrent(m)) => {
            assert_eq!(m, r#""piece length" does not exist."#);
        }
        _ => panic!(),
    }
}

#[test]
fn extract_piece_length_not_positive() {
    let mut dict = dict(vec![("piece length", elem_int(0))]);

    match Torrent::extract_piece_length(&mut dict) {
        Err(LavaTorrentError::MalformedTorrent(m)) => {
            assert_eq!(m, r#""piece length" <= 0."#);
        }
        _ => panic!(),
    }
}

#[test]
fn extract_pieces_ok() {
    let mut dict = dict(vec![(
        "pieces",
        BencodeElem::Bytes(vec![
            0x00, 0x01, 0x02, 0x03, 0x04, 0x05, 0x06, 0x07, 0x08, 0x09, 0x0a, 0x0b, 0x0c, 0x0d,
            0x0e, 0x0f, 0x10, 0x11, 0x12, 0x13,
        ]),
    )]);

    let pieces = Torrent::extract_pieces(&mut dict).unwrap();
    assert_eq!(pieces.len(), 1);
    assert_eq!(pieces[0].len(), PIECE_STRING_LENGTH);
    assert_eq!(
        pieces[0],
        vec![
            0x00, 0x01, 0x02, 0x03, 0x04, 0x05, 0x06, 0x07, 0x08, 0x09, 0x0a, 0x0b, 0x0c, 0x0d,
            0x0e, 0x0f, 0x10, 0x11, 0x12, 0x13,
        ]
    );
}

#[test]
fn extract_pieces_cuts_every_twenty_bytes() {
    let mut bytes = vec![1u8; 20];
    bytes.extend_from_slice(&[2u8; 20]);
    let mut dict = dict(vec![("pieces", BencodeElem::Bytes(bytes)), ("other", elem_int(1))]);

    assert_eq!(
        Torrent::extract_pieces(&mut dict).unwrap(),
        vec![vec![1u8; 20], vec![2u8; 20]]
    );
    assert_eq!(dict, self::dict(vec![("other", elem_int(1))]));
}

#[test]
fn extract_pieces_not_bytes() {
    let mut dict = dict(vec![("pieces", elem_text("???"))]);

    match Torrent::extract_pieces(&mut dict) {
        Err(LavaTorrentError::MalformedTorrent(m)) => {
            assert_eq!(m, r#""pieces" does not map to a sequence of bytes."#);
        }
        _ => panic!(),
    }
}

#[test]
fn extract_pieces_missing() {
    let mut dict = Dictionary::new();

    match Torrent::extract_pieces(&mut dict) {
        Err(LavaTorrentError::MalformedTorrent(m)) => {
            assert_eq!(m, r#""pieces" does not exist."#);
        }
        _ => panic!(),
    }
}

#[test]
fn extract_pieces_empty() {
    let mut dict = dict(vec![("pieces", BencodeElem::Bytes(vec![]))]);

    match Torrent::extract_pieces(&mut dict) {
        Err(LavaTorrentError::MalformedTorrent(m)) => {
            assert_eq!(m, r#""pieces" maps to an empty sequence."#);
        }
        _ => panic!(),
    }
}

#[test]
fn extract_pieces_invalid_length() {
    let mut dict = dict(vec![(
        "pieces",
        BencodeElem::Bytes(vec![
            0x00, 0x01, 0x02, 0x03, 0x04, 0x05, 0x06, 0x07, 0x08, 0x09, 0x0a, 0x0b, 0x0c, 0x0d,
            0x0e, 0x0f, 0x10, 0x11, 0x12,
        ]),
    )]);

    match Torrent::extract_pieces(&mut dict) {
        Err(LavaTorrentError::MalformedTorrent(m)) => assert_eq!(
            m,
            format!(
                r#""pieces"' length is not a multiple of {}."#,
                PIECE_STRING_LENGTH,
            )
        ),
        _ => panic!(),
    }
}

#[test]
fn extract_extra_fields_ok() {
    assert_eq!(
        Torrent::extract_extra_fields(dict(vec![("comment", elem_text("none"))])),
        Some(dict(vec![("comment", elem_text("none"))]))
    )
}

#[test]
fn extract_extra_fields_none() {
    assert_eq!(Torrent::extract_extra_fields(Dictionary::new()), None)
}

#[test]
fn read_from_bytes_single_file() {
    let mut bytes =
        b"d8:announce3:url4:infod6:lengthi4e4:name6:sample12:piece lengthi4e6:pieces20:".to_vec();
    bytes.extend_from_slice(&[0xff; 20]);
    bytes.extend_from_slice(b"ee");

    let torrent = Torrent::read_from_bytes(&bytes).unwrap();
    assert_eq!(
        torrent,
        Torrent {
            announce: Some("url".to_owned()),
            announce_list: None,
            length: 4,
            files: None,
            name: "sample".to_owned(),
            piece_length: 4,
            pieces: vec![vec![0xff; 20]],
            extra_fields: None,
            extra_info_fields: None,
        }
    );
    assert_eq!(torrent.write_into_bytes(), bytes);
}

#[test]
fn read_from_bytes_many_files() {
    let mut bytes = b"d4:infod5:filesld6:lengthi3e4:pathl1:a5:1.txteed6:lengthi3e4:pathl1:b5:2.txteee4:name3:dir12:piece lengthi4e6:pieces40:".to_vec();
    bytes.extend_from_slice(&[0xfe; 40]);
    bytes.extend_from_slice(b"ee");

    let torrent = Torrent::read_from_bytes(&bytes).unwrap();
    assert_eq!(torrent.length, 6);
    assert_eq!(
        torrent.files,
        Some(vec![
            File {
                length: 3,
                path: path(&["a", "1.txt"]),
                extra_fields: None,
            },
            File {
                length: 3,
                path: path(&["b", "2.txt"]),
                extra_fields: None,
            },
        ])
    );
    assert_eq!(torrent.write_into_bytes(), bytes);
}

#[test]
fn read_from_bytes_refuses_two_elements() {
    let mut bytes =
        b"d4:infod6:lengthi4e4:name6:sample12:piece lengthi4e6:pieces20:".to_vec();
    bytes.extend_from_slice(&[0xff; 20]);
    bytes.extend_from_slice(b"eei1e");
    match Torrent::read_from_bytes(&bytes) {
        Err(LavaTorrentError::MalformedTorrent(m)) => assert_eq!(
            m,
            "Torrent should contain 1 and only 1 top-level element, 2 found."
        ),
        _ => panic!(),
    }
}

#[test]
fn read_from_bytes_refuses_what_is_no_bencode() {
    match Torrent::read_from_bytes(b"d4:info") {
        Err(LavaTorrentError::MalformedBencode(m)) => assert_eq!(m, "Unexpected end of input."),
        _ => panic!(),
    }
}

#[test]
fn read_from_bytes_refuses_pieces_that_cover_too_little() {
    let mut bytes =
        b"d4:infod6:lengthi5e4:name6:sample12:piece lengthi4e6:pieces20:".to_vec();
    bytes.extend_from_slice(&[0xff; 20]);
    bytes.extend_from_slice(b"ee");
    match Torrent::read_from_bytes(&bytes) {
        Err(LavaTorrentError::MalformedTorrent(m)) => {
            assert_eq!(m, "Total piece length 4 < torrent's length 5.")
        }
        _ => panic!(),
    }
}

#[test]
fn read_from_bytes_refuses_length_beside_files() {
    let mut bytes = b"d4:infod5:filesld6:lengthi3e4:pathl1:aeee6:lengthi3e4:name3:dir12:piece lengthi4e6:pieces20:".to_vec();
    bytes.extend_from_slice(&[0xfe; 20]);
    bytes.extend_from_slice(b"ee");
    match Torrent::read_from_bytes(&bytes) {
        Err(LavaTorrentError::MalformedTorrent(m)) => {
            assert_eq!(m, r#"Both "length" and "files" exist."#)
        }
        _ => panic!(),
    }
}
