//! Files and torrents as text for people to read.

use vstd::prelude::*;
use vstd::string::StringExecFns;
use crate::bencode::elem::{pairs_of, Dictionary, Entry};
use crate::bencode::model::Value;
use crate::bencode::show::shown;
use crate::path::{path_from, path_push, path_text};
use crate::text::{
    append_int, append_nat, ascii_chars, hex_text, int_text, join_texts, joined, nat_text, texts_of,
    to_hex,
};
use crate::torrent::v1::{
    fields_of, files_of, hashes_of, tiers_of, File, FileView, Torrent, TorrentView,
};

verus! {

/// One line for each entry: a dash, the key, a colon and the value.
pub open spec fn field_lines(entries: Seq<(Seq<char>, Value)>) -> Seq<Seq<char>> {
    Seq::new(
        entries.len(),
        |i: int| "-"@ + entries[i].0 + ": "@ + shown(entries[i].1) + "\n"@,
    )
}

/// The lines for the entries of a dictionary that may be absent, in one
/// text.
pub open spec fn fields_text(fields: Option<Seq<(Seq<char>, Value)>>) -> Seq<char> {
    match fields {
        Some(entries) => joined(field_lines(entries), Seq::empty()),
        None => Seq::empty(),
    }
}

/// A file as text: its path as `path` gives it, its size, its extra fields
/// in the order of their keys, and a rule.
pub open spec fn file_text(f: FileView, path: Seq<char>) -> Seq<char> {
    path + "\n-size: "@ + ascii_chars(int_text(f.length as int)) + " bytes\n"@ + fields_text(
        f.extra_fields,
    ) + "========================================\n"@
}

/// A tier as text: its URLs between square brackets.
pub open spec fn tier_line(urls: Seq<Seq<char>>) -> Seq<char> {
    "["@ + joined(urls, ", "@) + "]"@
}

/// The line of the tiers, where there are any.
pub open spec fn tiers_text(tiers: Option<Seq<Seq<Seq<char>>>>) -> Seq<char> {
    match tiers {
        Some(tiers) => "-announce-list: ["@ + joined(
            Seq::new(tiers.len(), |i: int| tier_line(tiers[i])),
            ", "@,
        ) + "]\n"@,
        None => Seq::empty(),
    }
}

/// The line of the tracker, where there is one.
pub open spec fn announce_text(announce: Option<Seq<char>>) -> Seq<char> {
    match announce {
        Some(url) => "-announce: "@ + url + "\n"@,
        None => Seq::empty(),
    }
}

/// The path that stands for file `i`: the one of `paths` at its place, and
/// nothing where `paths` is too short.
pub open spec fn path_at(paths: Seq<Seq<char>>, i: int) -> Seq<char> {
    if 0 <= i < paths.len() {
        paths[i]
    } else {
        Seq::empty()
    }
}

/// Each file behind its number, which counts from 1.
pub open spec fn file_lines(files: Seq<FileView>, paths: Seq<Seq<char>>) -> Seq<Seq<char>> {
    Seq::new(
        files.len(),
        |i: int|
            "["@ + ascii_chars(nat_text((i + 1) as nat)) + "] "@ + file_text(
                files[i],
                path_at(paths, i),
            ) + "\n"@,
    )
}

/// The files of a torrent as text, where it has any.
pub open spec fn files_text(files: Option<Seq<FileView>>, paths: Seq<Seq<char>>) -> Seq<char> {
    match files {
        Some(files) => "-files:\n"@ + joined(file_lines(files, paths), Seq::empty()),
        None => Seq::empty(),
    }
}

/// The line of the hashes: each in hexadecimal between square brackets.
pub open spec fn pieces_text(pieces: Seq<Seq<u8>>) -> Seq<char> {
    "-pieces: ["@ + joined(
        Seq::new(pieces.len(), |i: int| "["@ + ascii_chars(hex_text(pieces[i])) + "]"@),
        ", "@,
    ) + "]\n"@
}

/// The first lines of a torrent: its name and its trackers.
pub open spec fn head_text(t: TorrentView) -> Seq<char> {
    t.name + ".torrent\n"@ + announce_text(t.announce) + tiers_text(t.announce_list)
}

/// The lines of the size and of the piece length.
pub open spec fn sizes_text(t: TorrentView) -> Seq<char> {
    "-size: "@ + ascii_chars(int_text(t.length as int)) + " bytes\n-piece length: "@
        + ascii_chars(int_text(t.piece_length as int)) + " bytes\n"@
}

/// A torrent as text: its name, its trackers, its size and piece length,
/// its extra fields and those of `info`, its files with their paths as
/// `paths` gives them, and its hashes.
pub open spec fn torrent_text(t: TorrentView, paths: Seq<Seq<char>>) -> Seq<char> {
    head_text(t) + sizes_text(t) + fields_text(t.extra_fields) + fields_text(
        t.extra_info_fields,
    ) + files_text(t.files, paths) + pieces_text(t.pieces)
}

/// The lines for the entries of a dictionary that may be absent.
fn show_fields(fields: &Option<Dictionary>) -> (res: String)
    ensures
        res@ == fields_text(fields_of(*fields)),
{
    match fields {
        Some(dict) => {
            let entries = dict.entries();
            let mut lines: Vec<String> = Vec::new();
            let mut i: usize = 0;
            while i < entries.len()
                invariant
                    i <= entries.len(),
                    lines.len() == i,
                    pairs_of(entries@) == dict@,
                    forall|j: int|
                        0 <= j < i ==> (#[trigger] lines[j])@ == field_lines(dict@)[j],
                decreases entries.len() - i,
            {
                let entry: &Entry = &entries[i];
                let mut line = "-".to_owned();
                line.append(entry.key.as_str());
                line.append(": ");
                line.append(entry.value.to_string().as_str());
                line.append("\n");
                assert(pairs_of(entries@)[i as int] == (entry.key@, entry.value@));
                lines.push(line);
                i += 1;
            }
            assert(texts_of(lines@) =~= field_lines(dict@));
            proof {
                reveal_strlit("");
                assert(""@ =~= Seq::<char>::empty());
            }
            join_texts(&lines, "")
        },
        None => String::new(),
    }
}

/// A tier as text.
fn show_tier(urls: &Vec<String>) -> (res: String)
    ensures
        res@ == tier_line(texts_of(urls@)),
{
    let mut out = "[".to_owned();
    out.append(join_texts(urls, ", ").as_str());
    out.append("]");
    out
}

impl File {
    /// The path of the file as the platform shows it.
    fn path_text(&self) -> String {
        let mut path = path_from("");
        let mut i: usize = 0;
        while i < self.path.len()
            invariant
                i <= self.path.len(),
            decreases self.path.len() - i,
        {
            path_push(&mut path, self.path[i].as_str());
            i += 1;
        }
        path_text(&path)
    }

    /// The file as text, with `path` for its path.
    pub fn show(&self, path: &str) -> (res: String)
        ensures
            res@ == file_text(self@, path@),
    {
        let mut out = path.to_owned();
        out.append("\n-size: ");
        append_int(&mut out, self.length);
        out.append(" bytes\n");
        out.append(show_fields(&self.extra_fields).as_str());
        out.append("========================================\n");
        out
    }

    /// The file as text, with its path as the platform shows it.
    pub fn to_string(&self) -> (res: String)
        ensures
            exists|path: Seq<char>| res@ == file_text(self@, path),
    {
        let path = self.path_text();
        self.show(path.as_str())
    }
}

impl Torrent {
    /// The paths of the files as the platform shows them.
    fn path_texts(&self) -> (res: Vec<String>)
        ensures
            match self.files {
                Some(files) => res.len() == files.len(),
                None => res.len() == 0,
            },
    {
        let mut paths: Vec<String> = Vec::new();
        match &self.files {
            Some(files) => {
                let mut i: usize = 0;
                while i < files.len()
                    invariant
                        i <= files.len(),
                        paths.len() == i,
                    decreases files.len() - i,
                {
                    paths.push(files[i].path_text());
                    i += 1;
                }
            },
            None => {},
        }
        paths
    }

    /// The first lines: the name and the trackers.
    fn show_head(&self) -> (res: String)
        ensures
            res@ == head_text(self@),
    {
        let mut out = self.name.clone();
        out.append(".torrent\n");
        match &self.announce {
            Some(url) => {
                let mut line = "-announce: ".to_owned();
                line.append(url.as_str());
                line.append("\n");
                out.append(line.as_str());
            },
            None => {
                assert(out@ + Seq::<char>::empty() =~= out@);
            },
        }
        match &self.announce_list {
            Some(tiers) => {
                let mut lines: Vec<String> = Vec::new();
                let mut i: usize = 0;
                while i < tiers.len()
                    invariant
                        i <= tiers.len(),
                        lines.len() == i,
                        forall|j: int|
                            0 <= j < i ==> (#[trigger] lines[j])@ == tier_line(
                                texts_of(tiers[j]@),
                            ),
                    decreases tiers.len() - i,
                {
                    lines.push(show_tier(&tiers[i]));
                    i += 1;
                }
                assert(texts_of(lines@) =~= Seq::new(
                    tiers@.len(),
                    |i: int| tier_line(tiers_of(tiers@)[i]),
                ));
                let mut line = "-announce-list: [".to_owned();
                line.append(join_texts(&lines, ", ").as_str());
                line.append("]\n");
                out.append(line.as_str());
            },
            None => {
                assert(out@ + Seq::<char>::empty() =~= out@);
            },
        }
        out
    }

    /// The lines of the size and of the piece length.
    fn show_sizes(&self) -> (res: String)
        ensures
            res@ == sizes_text(self@),
    {
        let mut out = "-size: ".to_owned();
        append_int(&mut out, self.length);
        out.append(" bytes\n-piece length: ");
        append_int(&mut out, self.piece_length);
        out.append(" bytes\n");
        out
    }

    /// The files, where there are any.
    fn show_files(&self, paths: &Vec<String>) -> (res: String)
        ensures
            res@ == files_text(self@.files, texts_of(paths@)),
    {
        match &self.files {
            Some(files) => {
                let mut lines: Vec<String> = Vec::new();
                let mut i: usize = 0;
                while i < files.len()
                    invariant
                        i <= files.len(),
                        lines.len() == i,
                        forall|j: int|
                            0 <= j < i ==> (#[trigger] lines[j])@ == file_lines(
                                files_of(files@),
                                texts_of(paths@),
                            )[j],
                    decreases files.len() - i,
                {
                    let mut line = "[".to_owned();
                    append_nat(&mut line, i as u64 + 1);
                    line.append("] ");
                    let text = if i < paths.len() {
                        files[i].show(paths[i].as_str())
                    } else {
                        proof {
                            reveal_strlit("");
                            assert(""@ =~= Seq::<char>::empty());
                        }
                        files[i].show("")
                    };
                    line.append(text.as_str());
                    line.append("\n");
                    lines.push(line);
                    i += 1;
                }
                assert(texts_of(lines@) =~= file_lines(files_of(files@), texts_of(paths@)));
                proof {
                    reveal_strlit("");
                    assert(""@ =~= Seq::<char>::empty());
                }
                let mut out = "-files:\n".to_owned();
                out.append(join_texts(&lines, "").as_str());
                out
            },
            None => String::new(),
        }
    }

    /// The line of the hashes.
    fn show_pieces(&self) -> (res: String)
        ensures
            res@ == pieces_text(self@.pieces),
    {
        let mut hashes: Vec<String> = Vec::new();
        let mut i: usize = 0;
        while i < self.pieces.len()
            invariant
                i <= self.pieces.len(),
                hashes.len() == i,
                forall|j: int|
                    0 <= j < i ==> (#[trigger] hashes[j])@ == "["@ + ascii_chars(
                        hex_text(self.pieces[j]@),
                    ) + "]"@,
            decreases self.pieces.len() - i,
        {
            let mut hash = "[".to_owned();
            hash.append(to_hex(self.pieces[i].as_slice()).as_str());
            hash.append("]");
            hashes.push(hash);
            i += 1;
        }
        assert(texts_of(hashes@) =~= Seq::new(
            self.pieces@.len(),
            |i: int| "["@ + ascii_chars(hex_text(hashes_of(self.pieces@)[i])) + "]"@,
        ));
        let mut out = "-pieces: [".to_owned();
        out.append(join_texts(&hashes, ", ").as_str());
        out.append("]\n");
        out
    }

    /// The torrent as text, with `paths` for the paths of its files.
    pub fn show(&self, paths: &Vec<String>) -> (res: String)
        ensures
            res@ == torrent_text(self@, texts_of(paths@)),
    {
        let mut out = self.show_head();
        out.append(self.show_sizes().as_str());
        out.append(show_fields(&self.extra_fields).as_str());
        out.append(show_fields(&self.extra_info_fields).as_str());
        out.append(self.show_files(paths).as_str());
        out.append(self.show_pieces().as_str());
        out
    }

    /// The torrent as text, with the paths of its files as the platform
    /// shows them.
    pub fn to_string(&self) -> (res: String)
        ensures
            exists|paths: Seq<Seq<char>>| res@ == torrent_text(self@, paths),
    {
        let paths = self.path_texts();
        self.show(&paths)
    }
}

} // verus!
