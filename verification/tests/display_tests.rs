use lava_torrent::bencode::{BencodeElem, Dictionary};
use lava_torrent::torrent::v1::{File, Torrent};

fn extras(pairs: Vec<(&str, BencodeElem)>) -> Dictionary {
    let mut dict = Dictionary::new();
    for (key, value) in pairs {
        dict.insert(key.to_owned(), value);
    }
    dict
}

fn quoted(s: &str) -> BencodeElem {
    BencodeElem::String(s.to_owned())
}

fn components(list: &[&str]) -> Vec<String> {
    list.iter().map(|s| s.to_string()).collect()
}

#[test]
fn file_display_ok() {
    let file = File {
        length: 42,
        path: components(&["dir1", "file"]),
        extra_fields: None,
    };

    assert_eq!(
        file.to_string(),
        "dir1/file\n\
         -size: 42 bytes\n\
         ========================================\n"
    );
}

#[test]
fn file_display_with_extra_fields() {
    let file = File {
        length: 42,
        path: components(&["dir1", "file"]),
        extra_fields: Some(extras(vec![
            ("comment2", quoted("no comment")),
            ("comment1", quoted("no comment")),
        ])),
    };

    assert_eq!(
        file.to_string(),
        "dir1/file\n\
         -size: 42 bytes\n\
         -comment1: \"no comment\"\n\
         -comment2: \"no comment\"\n\
         ========================================\n"
    );
}

#[test]
fn file_show_takes_the_path_as_given() {
    let file = File {
        length: -7,
        path: components(&["dir1", "file"]),
        extra_fields: None,
    };

    assert_eq!(
        file.show("any path"),
        "any path\n\
         -size: -7 bytes\n\
         ========================================\n"
    );
}

#[test]
fn torrent_display_ok() {
    let torrent = Torrent {
        announce: Some("url".to_owned()),
        announce_list: None,
        length: 4,
        files: None,
        name: "sample".to_owned(),
        piece_length: 2,
        pieces: vec![vec![1, 2], vec![3, 4]],
        extra_fields: None,
        extra_info_fields: None,
    };

    assert_eq!(
        torrent.to_string(),
        "sample.torrent\n\
         -announce: url\n\
         -size: 4 bytes\n\
         -piece length: 2 bytes\n\
         -pieces: [[0102], [0304]]\n"
    );
}

#[test]
fn torrent_display_with_announce_list() {
    let torrent = Torrent {
        announce: Some("url".to_owned()),
        announce_list: Some(vec![
            vec!["url1".to_owned(), "url2".to_owned()],
            vec!["url3".to_owned(), "url4".to_owned()],
        ]),
        length: 4,
        files: None,
        name: "sample".to_owned(),
        piece_length: 2,
        pieces: vec![vec![1, 2], vec![3, 4]],
        extra_fields: None,
        extra_info_fields: None,
    };

    assert_eq!(
        torrent.to_string(),
        "sample.torrent\n\
         -announce: url\n\
         -announce-list: [[url1, url2], [url3, url4]]\n\
         -size: 4 bytes\n\
         -piece length: 2 bytes\n\
         -pieces: [[0102], [0304]]\n"
    );
}

#[test]
fn torrent_display_with_extra_fields() {
    let torrent = Torrent {
        announce: Some("url".to_owned()),
        announce_list: None,
        length: 4,
        files: None,
        name: "sample".to_owned(),
        piece_length: 2,
        pieces: vec![vec![1, 2], vec![3, 4]],
        extra_fields: Some(extras(vec![
            ("comment2", quoted("no comment")),
            ("comment1", quoted("no comment")),
        ])),
        extra_info_fields: None,
    };

    assert_eq!(
        torrent.to_string(),
        "sample.torrent\n\
         -announce: url\n\
         -size: 4 bytes\n\
         -piece length: 2 bytes\n\
         -comment1: \"no comment\"\n\
         -comment2: \"no comment\"\n\
         -pieces: [[0102], [0304]]\n"
    );
}

#[test]
fn torrent_display_with_extra_info_fields() {
    let torrent = Torrent {
        announce: Some("url".to_owned()),
        announce_list: None,
        length: 4,
        files: None,
        name: "sample".to_owned(),
        piece_length: 2,
        pieces: vec![vec![1, 2], vec![3, 4]],
        extra_fields: None,
        extra_info_fields: Some(extras(vec![
            ("comment2", quoted("no comment")),
            ("comment1", quoted("no comment")),
        ])),
    };

    assert_eq!(
        torrent.to_string(),
        "sample.torrent\n\
         -announce: url\n\
         -size: 4 bytes\n\
         -piece length: 2 bytes\n\
         -comment1: \"no comment\"\n\
         -comment2: \"no comment\"\n\
         -pieces: [[0102], [0304]]\n"
    );
}

#[test]
fn torrent_display_with_multiple_files() {
    let torrent = Torrent {
        announce: Some("url".to_owned()),
        announce_list: None,
        length: 4,
        files: Some(vec![
            File {
                length: 2,
                path: components(&["dir1", "dir2", "file1"]),
                extra_fields: None,
            },
            File {
                length: 2,
                path: components(&["dir1", "dir2", "file2"]),
                extra_fields: None,
            },
        ]),
        name: "sample".to_owned(),
        piece_length: 2,
        pieces: vec![vec![1, 2], vec![3, 4]],
        extra_fields: None,
        extra_info_fields: None,
    };

    assert_eq!(
        torrent.to_string(),
        "sample.torrent\n\
         -announce: url\n\
         -size: 4 bytes\n\
         -piece length: 2 bytes\n\
         -files:\n\
         [1] dir1/dir2/file1\n\
         -size: 2 bytes\n\
         ========================================\n\
         \n\
         [2] dir1/dir2/file2\n\
         -size: 2 bytes\n\
         ========================================\n\
         \n\
         -pieces: [[0102], [0304]]\n"
    );
}

#[test]
fn torrent_show_takes_the_paths_as_given() {
    let torrent = Torrent {
        announce: None,
        announce_list: None,
        length: 4,
        files: Some(vec![
            File {
                length: 2,
                path: components(&["a"]),
                extra_fields: None,
            },
            File {
                length: 2,
                path: components(&["b"]),
                extra_fields: None,
            },
        ]),
        name: "sample".to_owned(),
        piece_length: 2,
        pieces: vec![vec![0xab, 0x0c]],
        extra_fields: None,
        extra_info_fields: None,
    };

    assert_eq!(
        torrent.show(&vec!["first".to_owned()]),
        "sample.torrent\n\
         -size: 4 bytes\n\
         -piece length: 2 bytes\n\
         -files:\n\
         [1] first\n\
         -size: 2 bytes\n\
         ========================================\n\
         \n\
         [2] \n\
         -size: 2 bytes\n\
         ========================================\n\
         \n\
         -pieces: [[ab0c]]\n"
    );
}

#[test]
fn elements_as_text() {
    assert_eq!(quoted("spam").to_string(), "\"spam\"");
    assert_eq!(BencodeElem::Integer(-42).to_string(), "-42");
    assert_eq!(
        BencodeElem::Bytes(vec![0x00, 0x0f, 0x10, 0xff]).to_string(),
        "[0x0, 0xf, 0x10, 0xff]"
    );
    assert_eq!(
        BencodeElem::List(vec![BencodeElem::Integer(1), quoted("a")]).to_string(),
        "[1, \"a\"]"
    );
    assert_eq!(BencodeElem::List(vec![]).to_string(), "[]");
    assert_eq!(
        BencodeElem::Dictionary(extras(vec![
            ("b", BencodeElem::Integer(2)),
            ("a", BencodeElem::List(vec![])),
        ]))
        .to_string(),
        "{ (\"a\", []), (\"b\", 2) }"
    );
    assert_eq!(
        BencodeElem::Dictionary(Dictionary::new()).to_string(),
        "{  }"
    );
}
