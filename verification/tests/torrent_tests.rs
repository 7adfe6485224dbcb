use lava_torrent::bencode::{BencodeElem, Dictionary};
use lava_torrent::error::LavaTorrentError;
use lava_torrent::torrent::v1::{File, Torrent};
use std::path::PathBuf;

fn fields(pairs: Vec<(&str, BencodeElem)>) -> Dictionary {
    let mut dict = Dictionary::new();
    for (key, value) in pairs {
        dict.insert(key.to_owned(), value);
    }
    dict
}

fn text(s: &str) -> BencodeElem {
    BencodeElem::String(s.to_owned())
}

fn sample() -> Torrent {
    Torrent {
        announce: Some("url".to_owned()),
        announce_list: None,
        length: 4,
        files: None,
        name: "sample".to_owned(),
        piece_length: 2,
        pieces: vec![vec![1, 2], vec![3, 4]],
        extra_fields: None,
        extra_info_fields: None,
    }
}

#[test]
fn absolute_path_ok() {
    let file = File {
        length: 42,
        path: vec!["dir1".to_owned(), "file".to_owned()],
        extra_fields: None,
    };

    assert_eq!(
        file.absolute_path("/root").unwrap(),
        PathBuf::from("/root/dir1/file")
    );
}

#[test]
fn absolute_path_not_absolute() {
    let file = File {
        length: 42,
        path: vec!["dir1".to_owned(), "file".to_owned()],
        extra_fields: None,
    };

    match file.absolute_path("root") {
        Err(LavaTorrentError::InvalidArgument(m)) => {
            assert_eq!(m, "Joined path is not absolute.");
        }
        _ => panic!(),
    }
}

#[test]
fn absolute_or_refused_follows_the_answer() {
    let joined = PathBuf::from("anything");
    assert_eq!(
        File::absolute_or_refused(joined.clone(), true).unwrap(),
        joined
    );
    match File::absolute_or_refused(joined, false) {
        Err(LavaTorrentError::InvalidArgument(m)) => {
            assert_eq!(m, "Joined path is not absolute.");
        }
        _ => panic!(),
    }
}

#[test]
fn construct_info_ok() {
    let torrent = Torrent {
        announce: Some("url".to_owned()),
        announce_list: None,
        length: 4,
        files: None,
        name: "sample".to_owned(),
        piece_length: 2,
        pieces: vec![vec![1, 2], vec![3, 4]],
        extra_fields: None,
        extra_info_fields: Some(fields(vec![("key", text("val"))])),
    };

    assert_eq!(
        torrent.construct_info(),
        BencodeElem::Dictionary(fields(vec![
            ("length", BencodeElem::Integer(4)),
            ("name", text("sample")),
            ("piece length", BencodeElem::Integer(2)),
            ("pieces", BencodeElem::Bytes(vec![1, 2, 3, 4])),
            ("key", text("val")),
        ])),
    );
}

#[test]
fn construct_info_lists_files_in_place_of_length() {
    let torrent = Torrent {
        announce: None,
        announce_list: None,
        length: 4,
        files: Some(vec![File {
            length: 4,
            path: vec!["dir".to_owned(), "file".to_owned()],
            extra_fields: Some(fields(vec![("comment", text("none"))])),
        }]),
        name: "sample".to_owned(),
        piece_length: 2,
        pieces: vec![vec![1, 2], vec![3, 4]],
        extra_fields: None,
        extra_info_fields: None,
    };

    assert_eq!(
        torrent.construct_info(),
        BencodeElem::Dictionary(fields(vec![
            (
                "files",
                BencodeElem::List(vec![BencodeElem::Dictionary(fields(vec![
                    ("length", BencodeElem::Integer(4)),
                    ("path", BencodeElem::List(vec![text("dir"), text("file")])),
                    ("comment", text("none")),
                ]))])
            ),
            ("name", text("sample")),
            ("piece length", BencodeElem::Integer(2)),
            ("pieces", BencodeElem::Bytes(vec![1, 2, 3, 4])),
        ])),
    );
}

#[test]
fn extra_info_fields_override_known_keys() {
    let mut torrent = sample();
    torrent.extra_info_fields = Some(fields(vec![("name", text("other"))]));
    match torrent.construct_info() {
        BencodeElem::Dictionary(info) => {
            assert_eq!(info.get("name"), Some(&text("other")));
            assert_eq!(info.len(), 4);
        }
        _ => panic!(),
    }
}

#[test]
fn info_hash_ok() {
    let torrent = sample();

    assert_eq!(
        torrent.info_hash(),
        "074f42efaf8267f137f114f722d4e7d1dcbfbda5".to_owned(),
    );
}

#[test]
fn info_hash_bytes_are_the_digits_of_info_hash() {
    let torrent = sample();
    assert_eq!(
        torrent.info_hash_bytes(),
        vec![
            0x07, 0x4f, 0x42, 0xef, 0xaf, 0x82, 0x67, 0xf1, 0x37, 0xf1, 0x14, 0xf7, 0x22, 0xd4,
            0xe7, 0xd1, 0xdc, 0xbf, 0xbd, 0xa5,
        ]
    );
}

#[test]
fn info_hash_is_stable_across_reading() {
    let bytes = sample_file_bytes();
    let torrent = Torrent::read_from_bytes(&bytes).unwrap();
    assert_eq!(
        torrent.info_hash(),
        Torrent::read_from_bytes(&torrent.write_into_bytes())
            .unwrap()
            .info_hash()
    );
}

fn sample_file_bytes() -> Vec<u8> {
    let mut bytes = b"d8:announce3:url4:infod6:lengthi4e4:name6:sample12:piece lengthi4e6:pieces20:".to_vec();
    bytes.extend_from_slice(&[0xff; 20]);
    bytes.extend_from_slice(b"ee");
    bytes
}

#[test]
fn magnet_link_ok() {
    let torrent = sample();

    assert_eq!(
        torrent.magnet_link().unwrap(),
        "magnet:?xt=urn:btih:074f42efaf8267f137f114f722d4e7d1dcbfbda5\
         &dn=sample&tr=url"
            .to_owned()
    );
}

#[test]
fn magnet_link_with_announce_list() {
    let torrent = Torrent {
        announce: Some("url".to_owned()),
        announce_list: Some(vec![
            vec!["url1".to_owned()],
            vec!["url2".to_owned(), "url3".to_owned()],
        ]),
        length: 4,
        files: None,
        name: "sample".to_owned(),
        piece_length: 2,
        pieces: vec![vec![1, 2], vec![3, 4]],
        extra_fields: None,
        extra_info_fields: None,
    };

    assert_eq!(
        torrent.magnet_link().unwrap(),
        "magnet:?xt=urn:btih:074f42efaf8267f137f114f722d4e7d1dcbfbda5\
         &dn=sample&tr=url1&tr=url2&tr=url3"
            .to_owned()
    );
}

#[test]
fn magnet_link_with_web_seed() {
    let torrent = Torrent {
        announce: None,
        announce_list: None,
        length: 4,
        files: None,
        name: "sample".to_owned(),
        piece_length: 2,
        pieces: vec![vec![1, 2], vec![3, 4]],
        extra_fields: Some(fields(vec![(
            "url-list",
            BencodeElem::String("https://example.org/path".to_owned()),
        )])),
        extra_info_fields: None,
    };

    assert_eq!(
        torrent.magnet_link().unwrap(),
        "magnet:?xt=urn:btih:074f42efaf8267f137f114f722d4e7d1dcbfbda5\
         &dn=sample&ws=https://example.org/path"
            .to_owned()
    );
}

#[test]
fn magnet_link_with_web_seeds() {
    let torrent = Torrent {
        announce: None,
        announce_list: None,
        length: 4,
        files: None,
        name: "sample".to_owned(),
        piece_length: 2,
        pieces: vec![vec![1, 2], vec![3, 4]],
        extra_fields: Some(fields(vec![(
            "url-list",
            BencodeElem::List(vec![
                BencodeElem::String("https://example.org/path1".to_owned()),
                BencodeElem::String("https://example.org/path2".to_owned()),
            ]),
        )])),
        extra_info_fields: None,
    };

    assert_eq!(
        torrent.magnet_link().unwrap(),
        "magnet:?xt=urn:btih:074f42efaf8267f137f114f722d4e7d1dcbfbda5\
         &dn=sample&ws=https://example.org/path1&ws=https://example.org/path2"
            .to_owned()
    );
}

#[test]
fn magnet_link_escape() {
    let torrent = Torrent {
        announce: Some("https://example.org/path?a=1&b=hello world".to_owned()),
        announce_list: None,
        length: 4,
        files: None,
        name: "sample".to_owned(),
        piece_length: 2,
        pieces: vec![vec![1, 2], vec![3, 4]],
        extra_fields: Some(fields(vec![(
            "url-list",
            BencodeElem::String("https://example.org/path?a=1&b=hello world".to_owned()),
        )])),
        extra_info_fields: None,
    };

    assert_eq!(
        torrent.magnet_link().unwrap(),
        "magnet:?xt=urn:btih:074f42efaf8267f137f114f722d4e7d1dcbfbda5\
         &dn=sample&tr=https://example.org/path?a=1%26b=hello+world\
         &ws=https://example.org/path?a=1%26b=hello+world"
            .to_owned()
    );
}

#[test]
fn magnet_link_escapes_plus_controls_and_other_scripts() {
    let mut torrent = sample();
    torrent.announce = Some("a+b\tc\u{e9}%".to_owned());
    assert_eq!(
        torrent.magnet_link().unwrap(),
        "magnet:?xt=urn:btih:074f42efaf8267f137f114f722d4e7d1dcbfbda5\
         &dn=sample&tr=a%2Bb%09c%C3%A9%"
            .to_owned()
    );
}

#[test]
fn magnet_link_leaves_the_name_as_it_is() {
    let mut torrent = sample();
    torrent.name = "a b&c".to_owned();
    let link = torrent.magnet_link().unwrap();
    assert!(link.contains("&dn=a b&c&tr=url"));
}

#[test]
fn magnet_link_web_seed_not_text() {
    let mut torrent = sample();
    torrent.extra_fields = Some(fields(vec![(
        "url-list",
        BencodeElem::List(vec![text("https://example.org"), BencodeElem::Integer(1)]),
    )]));
    match torrent.magnet_link() {
        Err(LavaTorrentError::MalformedTorrent(m)) => {
            assert_eq!(m, r#""url-list" is a list but contains a non-string element."#);
        }
        _ => panic!(),
    }
}

#[test]
fn magnet_link_web_seed_neither_text_nor_list() {
    let mut torrent = sample();
    torrent.extra_fields = Some(fields(vec![("url-list", BencodeElem::Integer(1))]));
    match torrent.magnet_link() {
        Err(LavaTorrentError::MalformedTorrent(m)) => {
            assert_eq!(m, r#""url-list" is neither a string nor a list."#);
        }
        _ => panic!(),
    }
}

#[test]
fn is_private_ok() {
    let torrent = Torrent {
        announce: Some("url".to_owned()),
        announce_list: None,
        length: 4,
        files: None,
        name: "sample".to_owned(),
        piece_length: 2,
        pieces: vec![vec![1, 2], vec![3, 4]],
        extra_fields: None,
        extra_info_fields: Some(fields(vec![("private", BencodeElem::Integer(1))])),
    };

    assert!(torrent.is_private());
}

#[test]
fn is_private_no_extra_fields() {
    let torrent = sample();

    assert!(!torrent.is_private());
}

#[test]
fn is_private_no_key() {
    let torrent = Torrent {
        announce: Some("url".to_owned()),
        announce_list: None,
        length: 4,
        files: None,
        name: "sample".to_owned(),
        piece_length: 2,
        pieces: vec![vec![1, 2], vec![3, 4]],
        extra_fields: None,
        extra_info_fields: Some(fields(vec![("", BencodeElem::Integer(1))])),
    };

    assert!(!torrent.is_private());
}

#[test]
fn is_private_incorrect_val_type() {
    let torrent = Torrent {
        announce: Some("url".to_owned()),
        announce_list: None,
        length: 4,
        files: None,
        name: "sample".to_owned(),
        piece_length: 2,
        pieces: vec![vec![1, 2], vec![3, 4]],
        extra_fields: None,
        extra_info_fields: Some(fields(vec![("private", text("1"))])),
    };

    assert!(!torrent.is_private());
}

#[test]
fn is_private_incorrect_val() {
    let torrent = Torrent {
        announce: Some("url".to_owned()),
        announce_list: None,
        length: 4,
        files: None,
        name: "sample".to_owned(),
        piece_length: 2,
        pieces: vec![vec![1, 2], vec![3, 4]],
        extra_fields: None,
        extra_info_fields: Some(fields(vec![("private", BencodeElem::Integer(2))])),
    };

    assert!(!torrent.is_private());
}

#[test]
fn clone_keeps_every_field() {
    let torrent = Torrent {
        announce: Some("url".to_owned()),
        announce_list: Some(vec![vec!["url1".to_owned()]]),
        length: 4,
        files: Some(vec![File {
            length: 4,
            path: vec!["a".to_owned()],
            extra_fields: Some(fields(vec![("k", text("v"))])),
        }]),
        name: "sample".to_owned(),
        piece_length: 2,
        pieces: vec![vec![1, 2], vec![3, 4]],
        extra_fields: Some(fields(vec![("x", BencodeElem::Integer(1))])),
        extra_info_fields: Some(fields(vec![("private", BencodeElem::Integer(1))])),
    };
    assert_eq!(torrent.clone(), torrent);
}
