use lava_torrent::bencode::{BencodeElem, Dictionary, ReadLimit};

// Each element is written to bytes and read back from them; putting the
// bytes into a file and taking them out again is left to the caller.
fn written_and_read(original: &BencodeElem) -> Vec<BencodeElem> {
    BencodeElem::from_bytes(&original.encode(), ReadLimit::NoLimit).unwrap()
}

#[test]
fn bencode_elem_write_string_to_file_ok() {
    let original = BencodeElem::String("spam".to_owned());

    let duplicate = written_and_read(&original);
    assert_eq!(duplicate.len(), 1);
    assert_eq!(original, duplicate[0]);
}

#[test]
fn bencode_elem_write_bytes_to_file_ok() {
    let original = BencodeElem::Bytes(vec![0xff, 0xfe, 0xfd, 0xfc]);

    let duplicate = written_and_read(&original);
    assert_eq!(duplicate.len(), 1);
    assert_eq!(original, duplicate[0]);
}

#[test]
fn bencode_elem_write_integer_to_file_ok() {
    let original = BencodeElem::Integer(42);

    let duplicate = written_and_read(&original);
    assert_eq!(duplicate.len(), 1);
    assert_eq!(original, duplicate[0]);
}

#[test]
fn bencode_elem_write_list_to_file_ok() {
    let original = BencodeElem::List(vec![
        BencodeElem::Integer(42),
        BencodeElem::String("spam".to_owned()),
    ]);

    let duplicate = written_and_read(&original);
    assert_eq!(duplicate.len(), 1);
    assert_eq!(original, duplicate[0]);
}

#[test]
fn bencode_elem_write_dictionary_to_file_ok() {
    let mut entries = Dictionary::new();
    entries.insert("spam".to_owned(), BencodeElem::Integer(42));
    entries.insert("cow".to_owned(), BencodeElem::String("moo".to_owned()));
    let original = BencodeElem::Dictionary(entries);

    let duplicate = written_and_read(&original);
    assert_eq!(duplicate.len(), 1);
    assert_eq!(original, duplicate[0]);
}
