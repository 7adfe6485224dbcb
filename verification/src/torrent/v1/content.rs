//! The content of a torrent as the files one after the other: where a
//! position of the content lies in the files, and which parts of the files
//! hold a span of it.

use vstd::prelude::*;
use crate::torrent::v1::concat_all;

verus! {

/// The sizes of the first `count` files added up.
pub open spec fn offset_of(sizes: Seq<u64>, count: int) -> int
    decreases count,
{
    if count <= 0 {
        0
    } else {
        offset_of(sizes, count - 1) + sizes[count - 1]
    }
}

/// The file that holds position `pos` of the content, and where in the file
/// the position lies. The content is the files one after the other; files
/// without bytes hold no position.
pub fn locate(sizes: &Vec<u64>, pos: u64) -> (res: Option<(usize, u64)>)
    ensures
        match res {
            Some((file, within)) => file < sizes.len() && within < sizes[file as int]
                && offset_of(sizes@, file as int) + within == pos,
            None => offset_of(sizes@, sizes.len() as int) <= pos,
        },
{
    let mut file: usize = 0;
    let mut left = pos;
    while file < sizes.len()
        invariant
            file <= sizes.len(),
            offset_of(sizes@, file as int) + left == pos,
        decreases sizes.len() - file,
    {
        if left < sizes[file] {
            return Some((file, left));
        }
        left = left - sizes[file];
        file += 1;
    }
    None
}

/// A run of bytes within one file.
#[derive(Clone, Copy, Debug, PartialEq, Eq)]
pub struct Segment {
    /// Which file, counted from 0.
    pub file: usize,
    /// Where in the file the run starts.
    pub offset: u64,
    /// How many bytes the run has.
    pub len: u64,
}

/// `parts` hold the content from `at` up to `to`, without a gap: each part
/// lies within its file, has a byte at least, and starts where the part
/// before it ends.
pub open spec fn covered(sizes: Seq<u64>, parts: Seq<Segment>, at: int, to: int) -> bool
    decreases parts.len(),
{
    if parts.len() == 0 {
        at == to
    } else {
        &&& parts[0].file < sizes.len()
        &&& parts[0].len > 0
        &&& parts[0].offset + parts[0].len <= sizes[parts[0].file as int]
        &&& offset_of(sizes, parts[0].file as int) + parts[0].offset == at
        &&& covered(sizes, parts.drop_first(), at + parts[0].len, to)
    }
}

/// The bytes that `parts` hold, one part after the other.
pub open spec fn gathered(contents: Seq<Seq<u8>>, parts: Seq<Segment>) -> Seq<u8>
    decreases parts.len(),
{
    if parts.len() == 0 {
        Seq::empty()
    } else {
        contents[parts[0].file as int].subrange(
            parts[0].offset as int,
            parts[0].offset + parts[0].len,
        ) + gathered(contents, parts.drop_first())
    }
}

/// The parts of the files that hold the content from `from` up to `to`, in
/// order; none where the content does not reach that far.
pub fn segments(sizes: &Vec<u64>, from: u64, to: u64) -> (res: Option<Vec<Segment>>)
    ensures
        res is Some <==> from <= to && (from == to || to <= offset_of(
            sizes@,
            sizes.len() as int,
        )),
        res matches Some(parts) ==> covered(sizes@, parts@, from as int, to as int),
{
    if from > to {
        return None;
    }
    let mut parts: Vec<Segment> = Vec::new();
    let mut at = from;
    while at < to
        invariant
            from <= at <= to,
            covered(sizes@, parts@, from as int, at as int),
            at == from || at <= offset_of(sizes@, sizes.len() as int),
        decreases to - at,
    {
        let (file, within) = match locate(sizes, at) {
            Some(place) => place,
            None => {
                return None;
            },
        };
        let room = sizes[file] - within;
        let left = to - at;
        let len = if left < room {
            left
        } else {
            room
        };
        let part = Segment { file, offset: within, len };
        proof {
            lemma_covered_push(sizes@, parts@, from as int, at as int, part);
            lemma_offset_grows(sizes@, file + 1, sizes.len() as int);
        }
        parts.push(part);
        at = at + len;
    }
    Some(parts)
}

/// Reading part by part yields the content: the bytes that the parts hold
/// are the bytes of the content from where the parts start up to where they
/// end.
pub proof fn lemma_gathered(
    contents: Seq<Seq<u8>>,
    sizes: Seq<u64>,
    parts: Seq<Segment>,
    from: int,
    to: int,
)
    requires
        sizes.len() == contents.len(),
        forall|i: int| 0 <= i < contents.len() ==> (#[trigger] contents[i]).len() == sizes[i],
        covered(sizes, parts, from, to),
        parts.len() > 0,
    ensures
        0 <= from < to <= concat_all(contents).len(),
        gathered(contents, parts) == concat_all(contents).subrange(from, to),
    decreases parts.len(),
{
    let first = parts[0];
    let rest = parts.drop_first();
    let whole = concat_all(contents);
    let next = from + first.len;
    lemma_offset_grows(sizes, first.file as int, first.file as int);
    lemma_located_run(contents, sizes, first.file as int, first.offset as int, first.len as int);
    let run = contents[first.file as int].subrange(
        first.offset as int,
        first.offset + first.len,
    );
    assert(run == whole.subrange(from, next));
    assert(covered(sizes, rest, next, to));
    assert(gathered(contents, parts) == run + gathered(contents, rest));
    if rest.len() == 0 {
        assert(next == to);
        assert(gathered(contents, rest) =~= Seq::<u8>::empty());
        assert(run + gathered(contents, rest) =~= run);
    } else {
        lemma_gathered(contents, sizes, rest, next, to);
        assert(whole.subrange(from, next) + whole.subrange(next, to) =~= whole.subrange(from, to));
    }
}

/// A position that is located in a file holds the byte of that file: in
/// the content, which is the files one after the other, the byte at the
/// offset of the file plus the place within is the byte at that place of
/// the file.
pub proof fn lemma_located(contents: Seq<Seq<u8>>, sizes: Seq<u64>, file: int, within: int)
    requires
        sizes.len() == contents.len(),
        forall|i: int| 0 <= i < contents.len() ==> (#[trigger] contents[i]).len() == sizes[i],
        0 <= file < contents.len(),
        0 <= within < sizes[file],
    ensures
        offset_of(sizes, file) + within < concat_all(contents).len(),
        concat_all(contents)[offset_of(sizes, file) + within] == contents[file][within],
    decreases contents.len(),
{
    let front = contents.drop_last();
    let whole = concat_all(contents);
    lemma_offset(contents, sizes, contents.len() - 1);
    lemma_offset(contents, sizes, file);
    assert(contents.take(contents.len() - 1) =~= front);
    assert(whole == concat_all(front) + contents.last());
    let at = offset_of(sizes, file) + within;
    if file == contents.len() - 1 {
        assert(whole[at] == contents.last()[within]);
    } else {
        let fewer = sizes.drop_last();
        assert forall|i: int| 0 <= i < front.len() implies (#[trigger] front[i]).len()
            == fewer[i] by {
            assert(front[i] == contents[i]);
        }
        lemma_located(front, fewer, file, within);
        lemma_offset_prefix(sizes, file);
        assert(front[file] == contents[file]);
        assert(whole[at] == concat_all(front)[at]);
    }
}

/// A run within a file is a run of the content: the bytes of the file from
/// `within` on, `len` of them, stand in the content at the offset of the
/// file plus `within`.
pub proof fn lemma_located_run(
    contents: Seq<Seq<u8>>,
    sizes: Seq<u64>,
    file: int,
    within: int,
    len: int,
)
    requires
        sizes.len() == contents.len(),
        forall|i: int| 0 <= i < contents.len() ==> (#[trigger] contents[i]).len() == sizes[i],
        0 <= file < contents.len(),
        0 <= within,
        0 < len,
        within + len <= sizes[file],
    ensures
        offset_of(sizes, file) + within + len <= concat_all(contents).len(),
        concat_all(contents).subrange(
            offset_of(sizes, file) + within,
            offset_of(sizes, file) + within + len,
        ) == contents[file].subrange(within, within + len),
{
    let whole = concat_all(contents);
    let start = offset_of(sizes, file) + within;
    lemma_offset_grows(sizes, file, file);
    lemma_located(contents, sizes, file, within + len - 1);
    let run = whole.subrange(start, start + len);
    let held = contents[file].subrange(within, within + len);
    assert forall|k: int| 0 <= k < len implies #[trigger] run[k] == held[k] by {
        lemma_located(contents, sizes, file, within + k);
    }
    assert(run =~= held);
}

/// The content up to file `count` has as many bytes as the sizes of the
/// files before it add up to.
pub proof fn lemma_offset(contents: Seq<Seq<u8>>, sizes: Seq<u64>, count: int)
    requires
        sizes.len() == contents.len(),
        forall|i: int| 0 <= i < contents.len() ==> (#[trigger] contents[i]).len() == sizes[i],
        0 <= count <= contents.len(),
    ensures
        concat_all(contents.take(count)).len() == offset_of(sizes, count),
    decreases count,
{
    if count > 0 {
        lemma_offset(contents, sizes, count - 1);
        assert(contents.take(count).drop_last() =~= contents.take(count - 1));
        assert(contents.take(count).last() == contents[count - 1]);
    }
}

/// The offset of a file does not depend on the files behind it.
pub proof fn lemma_offset_prefix(sizes: Seq<u64>, count: int)
    requires
        0 <= count < sizes.len(),
    ensures
        offset_of(sizes.drop_last(), count) == offset_of(sizes, count),
    decreases count,
{
    if count > 0 {
        lemma_offset_prefix(sizes, count - 1);
        assert(sizes.drop_last()[count - 1] == sizes[count - 1]);
    }
}

/// The sizes of more files add up to no less.
pub proof fn lemma_offset_grows(sizes: Seq<u64>, fewer: int, more: int)
    requires
        0 <= fewer <= more <= sizes.len(),
    ensures
        0 <= offset_of(sizes, fewer) <= offset_of(sizes, more),
    decreases more,
{
    if fewer < more {
        lemma_offset_grows(sizes, fewer, more - 1);
    } else if fewer > 0 {
        lemma_offset_grows(sizes, fewer - 1, fewer - 1);
    }
}

/// Parts that hold the content up to some place still do so with one more
/// part that starts at that place.
pub proof fn lemma_covered_push(
    sizes: Seq<u64>,
    parts: Seq<Segment>,
    from: int,
    at: int,
    part: Segment,
)
    requires
        covered(sizes, parts, from, at),
        part.file < sizes.len(),
        part.len > 0,
        part.offset + part.len <= sizes[part.file as int],
        offset_of(sizes, part.file as int) + part.offset == at,
    ensures
        covered(sizes, parts.push(part), from, at + part.len),
    decreases parts.len(),
{
    let more = parts.push(part);
    if parts.len() == 0 {
        assert(more[0] == part);
        assert(more.drop_first() =~= parts);
        assert(covered(sizes, more.drop_first(), from + part.len, at + part.len));
    } else {
        lemma_covered_push(sizes, parts.drop_first(), from + parts[0].len, at, part);
        assert(more[0] == parts[0]);
        assert(more.drop_first() =~= parts.drop_first().push(part));
        assert(covered(sizes, more.drop_first(), from + parts[0].len, at + part.len));
    }
}

} // verus!
