use lava_torrent::bencode::{BencodeElem, Dictionary};
use lava_torrent::error::LavaTorrentError;
use lava_torrent::torrent::v1::builder::{
    contains_separator, proceed, total_length, TorrentBuilder,
};
use lava_torrent::torrent::v1::content::{locate, segments, Segment};
use lava_torrent::torrent::v1::pieces::{hash_piece, piece_span, share, PieceHasher};
use lava_torrent::torrent::v1::walk::{is_hidden, walk_order};
use lava_torrent::torrent::v1::{File, Torrent};
use sha1::{Digest, Sha1};
use std::path::PathBuf;

fn digest(bytes: &[u8]) -> Vec<u8> {
    Sha1::digest(bytes).to_vec()
}

fn names(list: &[&str]) -> Vec<String> {
    list.iter().map(|s| s.to_string()).collect()
}

fn builder(piece_length: i64) -> TorrentBuilder {
    TorrentBuilder::new(PathBuf::from("dir"), piece_length)
}

fn expect_invalid(result: Result<Torrent, LavaTorrentError>, reason: &str) {
    match result {
        Err(LavaTorrentError::InvalidArgument(m)) => assert_eq!(m, reason),
        _ => panic!(),
    }
}

#[test]
fn build_directory_of_two_files() {
    let hasher = PieceHasher::new(4).unwrap();
    let hasher = hasher.update(b"abc", false).unwrap();
    assert_eq!(hasher.n_piece_processed(), 0);
    let hasher = hasher.update(b"def", false).unwrap();
    assert_eq!(hasher.n_piece_processed(), 1);
    assert_eq!(hasher.n_piece_total(6), 2);
    let pieces = hasher.finish();
    assert_eq!(pieces, vec![digest(b"abcd"), digest(b"ef")]);

    let files = vec![
        File {
            length: 3,
            path: names(&["a", "1.txt"]),
            extra_fields: None,
        },
        File {
            length: 3,
            path: names(&["b", "2.txt"]),
            extra_fields: None,
        },
    ];
    let torrent = builder(4)
        .assemble_directory("dir".to_owned(), files.clone(), pieces)
        .unwrap();
    assert_eq!(
        torrent,
        Torrent {
            announce: None,
            announce_list: None,
            length: 6,
            files: Some(files),
            name: "dir".to_owned(),
            piece_length: 4,
            pieces: vec![digest(b"abcd"), digest(b"ef")],
            extra_fields: None,
            extra_info_fields: None,
        }
    );
    assert_eq!(
        Torrent::read_from_bytes(&torrent.write_into_bytes()).unwrap(),
        torrent
    );
}

#[test]
fn build_single_file() {
    let hasher = PieceHasher::new(2).unwrap();
    let pieces = hasher.update(b"hello", false).unwrap().finish();
    assert_eq!(pieces, vec![digest(b"he"), digest(b"ll"), digest(b"o")]);

    let torrent = TorrentBuilder::new(PathBuf::from("hello.txt"), 2)
        .assemble_file("hello.txt".to_owned(), 5, pieces)
        .unwrap();
    assert_eq!(torrent.files, None);
    assert_eq!(torrent.name, "hello.txt");
    assert_eq!(torrent.length, 5);
    assert_eq!(torrent.piece_length, 2);
    assert_eq!(
        torrent.pieces,
        vec![digest(b"he"), digest(b"ll"), digest(b"o")]
    );
}

#[test]
fn canceled_build_yields_no_torrent() {
    let hasher = PieceHasher::new(2).unwrap();
    let hasher = hasher.update(b"hel", false).unwrap();
    assert!(hasher.n_piece_processed() > 0);
    match hasher.update(b"lo", true) {
        Err(LavaTorrentError::BuildCanceled) => {}
        _ => panic!(),
    }
}

#[test]
fn pieces_do_not_depend_on_how_the_content_is_fed() {
    let content = b"the quick brown fox jumps over the lazy dog";
    let whole = PieceHasher::new(7)
        .unwrap()
        .update(content, false)
        .unwrap()
        .finish();
    let mut hasher = PieceHasher::new(7).unwrap();
    for byte in content.iter() {
        hasher = hasher.update(&[*byte], false).unwrap();
    }
    let bytewise = hasher.finish();
    assert_eq!(whole, bytewise);
    assert_eq!(whole.len(), 7);
    for (i, piece) in whole.iter().enumerate() {
        let (from, to) = piece_span(i as u64, 7, content.len() as u64).unwrap();
        assert_eq!(piece, &hash_piece(&content[from as usize..to as usize]));
    }
}

#[test]
fn hasher_without_content_has_no_piece() {
    let hasher = PieceHasher::new(4).unwrap();
    assert_eq!(hasher.n_piece_total(0), 0);
    assert_eq!(hasher.finish(), Vec::<Vec<u8>>::new());
}

#[test]
fn hasher_refuses_piece_length_that_is_not_positive() {
    match PieceHasher::new(0) {
        Err(LavaTorrentError::InvalidArgument(m)) => {
            assert_eq!(m, "TorrentBuilder has `piece_length` <= 0.")
        }
        _ => panic!(),
    }
    assert!(PieceHasher::new(-1).is_err());
}

#[test]
fn hash_piece_is_sha1() {
    assert_eq!(
        hash_piece(b"abc"),
        vec![
            0xa9, 0x99, 0x3e, 0x36, 0x47, 0x06, 0x81, 0x6a, 0xba, 0x3e, 0x25, 0x71, 0x78, 0x50,
            0xc2, 0x6c, 0x9c, 0xd0, 0xd8, 0x9d,
        ]
    );
}

#[test]
fn builder_refuses_piece_length_zero() {
    expect_invalid(
        builder(0).assemble_file("f".to_owned(), 1, vec![vec![0; 20]]),
        "TorrentBuilder has `piece_length` <= 0.",
    );
    assert!(builder(-16).validate().is_err());
    assert!(builder(16).validate().is_ok());
}

#[test]
fn builder_refuses_no_threads() {
    expect_invalid(
        builder(4)
            .set_num_threads(0)
            .assemble_file("f".to_owned(), 1, vec![vec![0; 20]]),
        "TorrentBuilder has `num_threads` == 0.",
    );
    assert!(builder(4).set_num_threads(1).validate().is_ok());
    assert_eq!(builder(4).num_threads(), None);
    assert_eq!(builder(4).set_num_threads(3).num_threads(), Some(3));
}

#[test]
fn builder_refuses_bad_names() {
    expect_invalid(
        builder(4)
            .set_name("".to_owned())
            .assemble_file("f".to_owned(), 1, vec![vec![0; 20]]),
        "TorrentBuilder has `name` but its length is 0.",
    );
    expect_invalid(
        builder(4)
            .set_name("a/b".to_owned())
            .assemble_file("f".to_owned(), 1, vec![vec![0; 20]]),
        "TorrentBuilder has `name` but it contains a path separator.",
    );
    assert!(contains_separator("a\\b"));
    assert!(!contains_separator("a.b"));
}

#[test]
fn builder_refuses_extra_fields_that_collide() {
    expect_invalid(
        builder(4)
            .add_extra_field("info".to_owned(), BencodeElem::Integer(1))
            .assemble_file("f".to_owned(), 1, vec![vec![0; 20]]),
        "TorrentBuilder has `extra_fields` with a key that it sets itself.",
    );
    expect_invalid(
        builder(4)
            .add_extra_info_field("pieces".to_owned(), BencodeElem::Integer(1))
            .assemble_file("f".to_owned(), 1, vec![vec![0; 20]]),
        "TorrentBuilder has `extra_info_fields` with a key that it sets itself.",
    );
    expect_invalid(
        builder(4)
            .add_extra_info_field("private".to_owned(), BencodeElem::Integer(0))
            .set_privacy(true)
            .assemble_file("f".to_owned(), 1, vec![vec![0; 20]]),
        "TorrentBuilder has `extra_info_fields` with a key that it sets itself.",
    );
    assert!(builder(4)
        .add_extra_info_field("private".to_owned(), BencodeElem::Integer(0))
        .validate()
        .is_ok());
}

#[test]
fn builder_refuses_directory_without_files() {
    expect_invalid(
        builder(4).assemble_directory("dir".to_owned(), Vec::new(), Vec::new()),
        "TorrentBuilder has `path` that points to a directory without files.",
    );
}

#[test]
fn builder_carries_its_choices_into_the_torrent() {
    let torrent = builder(4)
        .set_announce(Some("url".to_owned()))
        .set_announce_list(vec![names(&["url1"]), names(&["url2", "url3"])])
        .set_name("other".to_owned())
        .set_privacy(true)
        .add_extra_field("comment".to_owned(), BencodeElem::String("c".to_owned()))
        .add_extra_info_field("source".to_owned(), BencodeElem::String("s".to_owned()))
        .assemble_file("f".to_owned(), 3, vec![digest(b"abc")])
        .unwrap();

    let mut extra = Dictionary::new();
    extra.insert("comment".to_owned(), BencodeElem::String("c".to_owned()));
    let mut extra_info = Dictionary::new();
    extra_info.insert("source".to_owned(), BencodeElem::String("s".to_owned()));
    extra_info.insert("private".to_owned(), BencodeElem::Integer(1));
    assert_eq!(
        torrent,
        Torrent {
            announce: Some("url".to_owned()),
            announce_list: Some(vec![names(&["url1"]), names(&["url2", "url3"])]),
            length: 3,
            files: None,
            name: "other".to_owned(),
            piece_length: 4,
            pieces: vec![digest(b"abc")],
            extra_fields: Some(extra),
            extra_info_fields: Some(extra_info),
        }
    );
    assert!(torrent.is_private());
}

#[test]
fn builder_setters_replace_path_and_piece_length() {
    let b = builder(4)
        .set_path(PathBuf::from("elsewhere"))
        .set_piece_length(8);
    assert_eq!(b.path(), &PathBuf::from("elsewhere"));
    assert_eq!(b.piece_length(), 8);
    assert_eq!(b, TorrentBuilder::new(PathBuf::from("elsewhere"), 8));
}

#[test]
fn hidden_entries_start_with_a_dot() {
    assert!(is_hidden(".bashrc"));
    assert!(is_hidden("."));
    assert!(!is_hidden("a.txt"));
    assert!(!is_hidden(""));
}

#[test]
fn walk_order_drops_hidden_entries_and_sorts_by_bytes() {
    assert_eq!(
        walk_order(names(&["b", ".git", "a", "B", "ab", ".x", "\u{e9}", "a"])),
        names(&["B", "a", "a", "ab", "b", "\u{e9}"])
    );
    assert_eq!(walk_order(names(&[".a", ".b"])), Vec::<String>::new());
}

#[test]
fn piece_span_cuts_the_content() {
    assert_eq!(piece_span(0, 4, 6), Some((0, 4)));
    assert_eq!(piece_span(1, 4, 6), Some((4, 6)));
    assert_eq!(piece_span(2, 4, 6), None);
    assert_eq!(piece_span(1, 4, 8), Some((4, 8)));
    assert_eq!(piece_span(0, 0, 8), None);
    assert_eq!(piece_span(u64::MAX, 2, 8), None);
}

#[test]
fn locate_finds_the_file_of_a_position() {
    let sizes = vec![3, 0, 3];
    assert_eq!(locate(&sizes, 0), Some((0, 0)));
    assert_eq!(locate(&sizes, 2), Some((0, 2)));
    assert_eq!(locate(&sizes, 3), Some((2, 0)));
    assert_eq!(locate(&sizes, 5), Some((2, 2)));
    assert_eq!(locate(&sizes, 6), None);
}

#[test]
fn shares_follow_one_another() {
    assert_eq!(share(10, 3, 0), (0, 4));
    assert_eq!(share(10, 3, 1), (4, 7));
    assert_eq!(share(10, 3, 2), (7, 10));
    assert_eq!(share(2, 4, 0), (0, 1));
    assert_eq!(share(2, 4, 1), (1, 2));
    assert_eq!(share(2, 4, 2), (2, 2));
    assert_eq!(share(2, 4, 3), (2, 2));
    assert_eq!(share(0, 1, 0), (0, 0));
    assert_eq!(share(5, 2, 2), (5, 5));
    assert_eq!(share(5, 0, 0), (5, 5));
}

#[test]
fn segments_hold_a_span_of_the_content() {
    let sizes = vec![3, 0, 3, 2];
    assert_eq!(
        segments(&sizes, 0, 4),
        Some(vec![
            Segment { file: 0, offset: 0, len: 3 },
            Segment { file: 2, offset: 0, len: 1 },
        ])
    );
    assert_eq!(
        segments(&sizes, 4, 8),
        Some(vec![
            Segment { file: 2, offset: 1, len: 2 },
            Segment { file: 3, offset: 0, len: 2 },
        ])
    );
    assert_eq!(segments(&sizes, 2, 2), Some(vec![]));
    assert_eq!(segments(&sizes, 9, 9), Some(vec![]));
    assert_eq!(segments(&sizes, 4, 9), None);
    assert_eq!(segments(&sizes, 5, 4), None);
}

#[test]
fn pieces_gathered_from_segments_are_the_pieces_hashed_in_order() {
    let contents: Vec<&[u8]> = vec![b"abc", b"", b"defgh", b"ij"];
    let sizes: Vec<u64> = contents.iter().map(|c| c.len() as u64).collect();
    let mut hasher = PieceHasher::new(4).unwrap();
    for content in &contents {
        hasher = hasher.update(content, false).unwrap();
    }
    let in_order = hasher.finish();
    let mut by_span = Vec::new();
    let mut index = 0;
    while let Some((from, to)) = piece_span(index, 4, 10) {
        let mut bytes = Vec::new();
        for part in segments(&sizes, from, to).unwrap() {
            let start = part.offset as usize;
            bytes.extend_from_slice(&contents[part.file][start..start + part.len as usize]);
        }
        by_span.push(hash_piece(&bytes));
        index += 1;
    }
    assert_eq!(by_span, in_order);
    assert_eq!(in_order, vec![digest(b"abcd"), digest(b"efgh"), digest(b"ij")]);
}

#[test]
fn total_length_adds_up_the_sizes() {
    let file = |length: i64| File {
        length,
        path: names(&["f"]),
        extra_fields: None,
    };
    assert_eq!(total_length(&vec![]), Some(0));
    assert_eq!(total_length(&vec![file(3), file(4)]), Some(7));
    assert_eq!(total_length(&vec![file(i64::MAX), file(1)]), None);
}

#[test]
fn a_build_goes_on_until_it_is_canceled() {
    assert!(proceed(false).is_ok());
    match proceed(true) {
        Err(LavaTorrentError::BuildCanceled) => {}
        _ => panic!(),
    }
}

#[test]
fn builder_copies_and_default() {
    let b = builder(4)
        .set_name("n".to_owned())
        .add_extra_field("k".to_owned(), BencodeElem::Integer(1));
    assert_eq!(b.clone(), b);
    let d = TorrentBuilder::default();
    assert_eq!(d.piece_length(), 0);
    assert_eq!(d.num_threads(), None);
    assert!(d.validate().is_err());
}
