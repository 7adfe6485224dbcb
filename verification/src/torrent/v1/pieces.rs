//! The pieces of the content: how many there are, where each starts and
//! ends, what their hashes are, and how they are hashed as the content comes
//! in or shared out among workers.

use vstd::arithmetic::div_mod::lemma_fundamental_div_mod_converse;
use vstd::prelude::*;
use vstd::slice::slice_subrange;
use crate::digest::{sha1, sha1_digest};
use crate::error::{Failure, LavaTorrentError};
use crate::torrent::v1::hashes_of;

verus! {

/// The number of pieces that content of `len` bytes is cut into: all of
/// `piece_length` bytes but the last, which may be shorter.
pub open spec fn piece_count(len: int, piece_length: int) -> int {
    len / piece_length + if len % piece_length != 0 {
        1int
    } else {
        0int
    }
}

/// The bytes of piece `i` of `stream`.
pub open spec fn piece_at(stream: Seq<u8>, piece_length: int, i: int) -> Seq<u8> {
    stream.subrange(
        i * piece_length,
        if i * piece_length + piece_length < stream.len() {
            i * piece_length + piece_length
        } else {
            stream.len() as int
        },
    )
}

/// The SHA-1 hash of every piece of `stream`, in order.
pub open spec fn piece_hashes(stream: Seq<u8>, piece_length: int) -> Seq<Seq<u8>> {
    Seq::new(
        piece_count(stream.len() as int, piece_length) as nat,
        |i: int| sha1(piece_at(stream, piece_length, i)),
    )
}

/// The pieces cover the content and none is left over: as many pieces as
/// the content is cut into hold all of its bytes, and one piece less does
/// not.
pub proof fn lemma_pieces_cover(len: int, piece_length: int)
    requires
        0 <= len,
        0 < piece_length,
    ensures
        piece_count(len, piece_length) * piece_length >= len,
        len > 0 ==> (piece_count(len, piece_length) - 1) * piece_length < len,
        len == 0 <==> piece_count(len, piece_length) == 0,
{
    let full = len / piece_length;
    let left = len % piece_length;
    assert(len == full * piece_length + left && 0 <= left < piece_length && full >= 0)
        by (nonlinear_arith)
        requires
            full == len / piece_length,
            left == len % piece_length,
            0 <= len,
            0 < piece_length,
    ;
    assert((full + 1) * piece_length == full * piece_length + piece_length
        && (full - 1) * piece_length == full * piece_length - piece_length) by (nonlinear_arith);
    assert(full == 0 ==> full * piece_length == 0) by (nonlinear_arith);
}

/// What holds of a hasher between two steps: the pieces that are full are
/// hashed, and the bytes behind them wait.
pub open spec fn hashed_so_far(
    piece_length: int,
    pending: Seq<u8>,
    pieces: Seq<Seq<u8>>,
    fed: Seq<u8>,
) -> bool {
    &&& piece_length > 0
    &&& pending.len() < piece_length
    &&& fed.len() == pieces.len() * piece_length + pending.len()
    &&& pending == fed.skip(pieces.len() * piece_length)
    &&& forall|i: int|
        0 <= i < pieces.len() ==> #[trigger] pieces[i] == sha1(
            fed.subrange(i * piece_length, i * piece_length + piece_length),
        )
}

/// Hashes content piece by piece as it comes in.
pub struct PieceHasher {
    piece_length: usize,
    pending: Vec<u8>,
    pieces: Vec<Vec<u8>>,
    fed: Ghost<Seq<u8>>,
}

impl PieceHasher {
    #[verifier::type_invariant]
    spec fn inv(self) -> bool {
        hashed_so_far(
            self.piece_length as int,
            self.pending@,
            hashes_of(self.pieces@),
            self.fed@,
        )
    }

    /// All the bytes that were fed so far.
    pub closed spec fn fed(self) -> Seq<u8> {
        self.fed@
    }

    /// The size of a piece.
    pub closed spec fn piece_size(self) -> int {
        self.piece_length as int
    }

    /// A hasher for pieces of `piece_length` bytes, which has been fed
    /// nothing yet. The piece length has to be positive and to fit in the
    /// machine's word.
    pub fn new(piece_length: i64) -> (res: Result<PieceHasher, LavaTorrentError>)
        ensures
            0 < piece_length <= usize::MAX ==> (res matches Ok(h) && h.fed() == Seq::<u8>::empty()
                && h.piece_size() == piece_length),
            piece_length <= 0 ==> (res matches Err(e) && e@ == Failure::InvalidArgument(
                "TorrentBuilder has `piece_length` <= 0."@,
            )),
            piece_length > usize::MAX ==> (res matches Err(e) && e@ == Failure::InvalidArgument(
                "TorrentBuilder has `piece_length` that overflows usize."@,
            )),
    {
        if piece_length <= 0 {
            return Err(
                LavaTorrentError::invalid_argument("TorrentBuilder has `piece_length` <= 0."),
            );
        }
        if piece_length as u64 > usize::MAX as u64 {
            return Err(
                LavaTorrentError::invalid_argument(
                    "TorrentBuilder has `piece_length` that overflows usize.",
                ),
            );
        }
        let pending: Vec<u8> = Vec::new();
        let pieces: Vec<Vec<u8>> = Vec::new();
        proof {
            let none = Seq::<u8>::empty();
            assert(hashes_of(pieces@).len() * piece_length == 0) by (nonlinear_arith)
                requires
                    hashes_of(pieces@).len() == 0,
            ;
            assert(pending@ =~= none.skip(0));
        }
        Ok(
            PieceHasher {
                piece_length: piece_length as usize,
                pending,
                pieces,
                fed: Ghost(Seq::empty()),
            },
        )
    }

    /// The number of pieces that are hashed.
    pub fn n_piece_processed(&self) -> (res: usize)
        ensures
            res == self.fed().len() / (self.piece_size() as nat),
    {
        proof {
            use_type_invariant(self);
            lemma_fundamental_div_mod_converse(
                self.fed@.len() as int,
                self.piece_length as int,
                self.pieces@.len() as int,
                self.pending@.len() as int,
            );
        }
        self.pieces.len()
    }

    /// The number of pieces that content of `length` bytes is cut into.
    pub fn n_piece_total(&self, length: u64) -> (res: u64)
        ensures
            res == piece_count(length as int, self.piece_size()),
    {
        proof {
            use_type_invariant(self);
        }
        let size = self.piece_length as u64;
        let full = length / size;
        if length % size != 0 {
            assert(full < u64::MAX) by (nonlinear_arith)
                requires
                    full == length as int / size as int,
                    length as int % size as int != 0,
                    size > 0,
                    length <= u64::MAX,
            ;
            full + 1
        } else {
            full
        }
    }

    /// Feeds `data`, unless the build is canceled: then nothing is hashed
    /// and the build ends.
    #[verifier::rlimit(50)]
    pub fn update(self, data: &[u8], canceled: bool) -> (res: Result<
        PieceHasher,
        LavaTorrentError,
    >)
        ensures
            canceled ==> (res matches Err(e) && e@ == Failure::BuildCanceled),
            !canceled ==> (res matches Ok(h) && h.fed() == self.fed() + data@ && h.piece_size()
                == self.piece_size()),
    {
        if canceled {
            return Err(LavaTorrentError::BuildCanceled);
        }
        proof {
            use_type_invariant(&self);
        }
        let ghost before = self.fed@;
        let PieceHasher { piece_length, mut pending, mut pieces, fed } = self;
        let mut off: usize = 0;
        assert(before + data@.take(0) =~= before);
        while off < data.len()
            invariant
                off <= data.len(),
                hashed_so_far(
                    piece_length as int,
                    pending@,
                    hashes_of(pieces@),
                    before + data@.take(off as int),
                ),
            decreases data.len() - off,
        {
            let ghost size = piece_length as int;
            let ghost old_fed = before + data@.take(off as int);
            let ghost old_pending = pending@;
            let ghost done = hashes_of(pieces@);
            let room = piece_length - pending.len();
            let left = data.len() - off;
            let take = if left < room {
                left
            } else {
                room
            };
            let chunk = slice_subrange(data, off, off + take);
            pending.extend_from_slice(chunk);
            off = off + take;
            let ghost new_fed = before + data@.take(off as int);
            proof {
                assert(new_fed =~= old_fed + chunk@);
                assert(pending@ =~= old_pending + chunk@);
                assert(pending@ =~= new_fed.skip(done.len() * size));
                assert forall|i: int| 0 <= i < done.len() implies #[trigger] done[i] == sha1(
                    new_fed.subrange(i * size, i * size + size),
                ) by {
                    assert(i * size + size <= done.len() * size) by (nonlinear_arith)
                        requires
                            0 <= i < done.len(),
                            size > 0,
                    ;
                    assert(new_fed.subrange(i * size, i * size + size) =~= old_fed.subrange(
                        i * size,
                        i * size + size,
                    ));
                }
            }
            if pending.len() == piece_length {
                let digest = sha1_digest(pending.as_slice());
                let ghost full = pending@;
                pieces.push(digest);
                pending.clear();
                proof {
                    let now = hashes_of(pieces@);
                    assert(now =~= done.push(sha1(full)));
                    assert(now.len() * size == done.len() * size + size) by (nonlinear_arith)
                        requires
                            now.len() == done.len() + 1,
                    ;
                    assert(full =~= new_fed.subrange(done.len() * size, done.len() * size + size));
                    assert(pending@ =~= new_fed.skip(now.len() * size));
                    assert forall|i: int| 0 <= i < now.len() implies #[trigger] now[i] == sha1(
                        new_fed.subrange(i * size, i * size + size),
                    ) by {
                        if i < done.len() {
                            assert(now[i] == done[i]);
                        }
                    }
                }
            }
        }
        assert(data@.take(data.len() as int) =~= data@);
        Ok(PieceHasher { piece_length, pending, pieces, fed: Ghost(before + data@) })
    }

    /// The hashes of all pieces of what was fed; the last piece is what
    /// is left over, if anything is.
    pub fn finish(self) -> (res: Vec<Vec<u8>>)
        ensures
            hashes_of(res@) == piece_hashes(self.fed(), self.piece_size()),
    {
        proof {
            use_type_invariant(&self);
        }
        let PieceHasher { piece_length, pending, mut pieces, fed } = self;
        let ghost size = piece_length as int;
        let ghost done = hashes_of(pieces@);
        proof {
            lemma_fundamental_div_mod_converse(
                fed@.len() as int,
                size,
                done.len() as int,
                pending@.len() as int,
            );
        }
        if pending.len() > 0 {
            let digest = sha1_digest(pending.as_slice());
            pieces.push(digest);
        }
        proof {
            let out = hashes_of(pieces@);
            let want = piece_hashes(fed@, size);
            assert(out.len() == want.len());
            assert forall|i: int| 0 <= i < out.len() implies out[i] == want[i] by {
                if i < done.len() {
                    assert(i * size + size <= done.len() * size) by (nonlinear_arith)
                        requires
                            0 <= i < done.len(),
                            size > 0,
                    ;
                    assert(out[i] == done[i]);
                } else {
                    assert(pending@ =~= piece_at(fed@, size, i));
                }
            }
            assert(out =~= want);
        }
        pieces
    }
}

/// The SHA-1 hash of one piece.
pub fn hash_piece(bytes: &[u8]) -> (res: Vec<u8>)
    ensures
        res@ == sha1(bytes@),
        res@.len() == 20,
{
    sha1_digest(bytes)
}

/// Where piece `index` starts and ends in content of `total` bytes.
pub fn piece_span(index: u64, piece_length: u64, total: u64) -> (res: Option<(u64, u64)>)
    ensures
        match res {
            Some((from, to)) => piece_length > 0 && from == index * piece_length && from < total
                && to == if from + piece_length < total {
                from + piece_length
            } else {
                total as int
            },
            None => piece_length == 0 || index * piece_length >= total,
        },
{
    if piece_length == 0 {
        return None;
    }
    let from = match index.checked_mul(piece_length) {
        Some(from) => from,
        None => {
            return None;
        },
    };
    if from >= total {
        return None;
    }
    let to = if total - from > piece_length {
        from + piece_length
    } else {
        total
    };
    Some((from, to))
}

/// Hashing piece by piece, each found by where it starts and ends, yields
/// what hashing the content in order yields: the hash of the piece that
/// starts at `index * piece_length` is the hash at `index`.
pub proof fn lemma_piece_by_span(stream: Seq<u8>, piece_length: int, index: int)
    requires
        piece_length > 0,
        0 <= index,
        index * piece_length < stream.len(),
    ensures
        index < piece_count(stream.len() as int, piece_length),
        piece_hashes(stream, piece_length)[index] == sha1(piece_at(stream, piece_length, index)),
{
    let len = stream.len() as int;
    let full = len / piece_length;
    assert(len == full * piece_length + len % piece_length && 0 <= len % piece_length
        < piece_length) by (nonlinear_arith)
        requires
            full == len / piece_length,
            piece_length > 0,
            len >= 0,
    ;
    assert(index < piece_count(len, piece_length)) by (nonlinear_arith)
        requires
            index * piece_length < len,
            len == full * piece_length + len % piece_length,
            0 <= len % piece_length < piece_length,
            piece_count(len, piece_length) == full + if len % piece_length != 0 {
                1int
            } else {
                0int
            },
            0 <= index,
            piece_length > 0,
    ;
}

/// The first piece of worker `worker`: every worker gets the same number of
/// pieces, and the first ones one more where the pieces do not divide.
pub open spec fn share_start(pieces: int, workers: int, worker: int) -> int {
    worker * (pieces / workers) + if worker < pieces % workers {
        worker
    } else {
        pieces % workers
    }
}

/// The pieces that worker `worker` of `workers` hashes, of `pieces` in all:
/// from the first index up to the second. The shares follow one another and
/// leave no piece out. A worker that is none of the `workers` has no share.
pub fn share(pieces: usize, workers: usize, worker: usize) -> (res: (usize, usize))
    ensures
        res.0 <= res.1 <= pieces,
        worker < workers ==> res.0 == share_start(pieces as int, workers as int, worker as int)
            && res.1 == share_start(pieces as int, workers as int, worker + 1),
        worker >= workers ==> res.0 == pieces && res.1 == pieces,
{
    if worker >= workers {
        return (pieces, pieces);
    }
    let each = pieces / workers;
    let more = pieces % workers;
    proof {
        lemma_share(pieces as int, workers as int, worker as int);
        lemma_share(pieces as int, workers as int, worker + 1);
    }
    let from = worker * each + if worker < more {
        worker
    } else {
        more
    };
    let next = worker + 1;
    let to = next * each + if next < more {
        next
    } else {
        more
    };
    (from, to)
}

/// The shares start at 0, grow with the worker and end at the number of
/// pieces.
pub proof fn lemma_share(pieces: int, workers: int, worker: int)
    requires
        0 <= pieces,
        0 < workers,
        0 <= worker <= workers,
    ensures
        0 <= share_start(pieces, workers, worker) <= pieces,
        share_start(pieces, workers, 0) == 0,
        share_start(pieces, workers, workers) == pieces,
        worker < workers ==> share_start(pieces, workers, worker) <= share_start(
            pieces,
            workers,
            worker + 1,
        ),
{
    let each = pieces / workers;
    let more = pieces % workers;
    assert(pieces == workers * each + more && 0 <= more < workers && each >= 0) by (nonlinear_arith)
        requires
            each == pieces / workers,
            more == pieces % workers,
            0 <= pieces,
            0 < workers,
    ;
    assert(0 <= worker * each <= workers * each) by (nonlinear_arith)
        requires
            0 <= worker <= workers,
            each >= 0,
    ;
    assert((worker + 1) * each == worker * each + each) by (nonlinear_arith);
    assert(0 * each == 0) by (nonlinear_arith);
}

} // verus!
