//! The order in which a build visits the entries of a directory.

use vstd::prelude::*;
use vstd::seq_lib::{
    to_multiset_build, to_multiset_contains, to_multiset_insert, to_multiset_len,
    to_multiset_remove,
};
use crate::bencode::elem::bytes_before;
use crate::bencode::entries::{key_bytes, key_lt, lemma_key_order, lemma_lex_transitive};
use crate::text::texts_of;

verus! {

/// `name` starts with a dot: the entry is hidden, and a build leaves it out
/// with all that lies below it.
pub open spec fn hidden(name: Seq<char>) -> bool {
    name.len() > 0 && name[0] == '.'
}

/// `names` without the hidden ones.
pub open spec fn visible(names: Seq<Seq<char>>) -> Seq<Seq<char>> {
    names.filter(|name: Seq<char>| !hidden(name))
}

/// No name of `names` comes before one that stands before it, in byte-wise
/// order.
pub open spec fn ascending(names: Seq<Seq<char>>) -> bool {
    forall|i: int, j: int|
        0 <= i < j < names.len() ==> !key_lt(#[trigger] names[j], #[trigger] names[i])
}

/// Whether the entry `name` is hidden.
pub fn is_hidden(name: &str) -> (res: bool)
    ensures
        res == hidden(name@),
{
    let mut chars = name.chars();
    match chars.next() {
        Some(c) => c == '.',
        None => false,
    }
}

/// Where `name` goes among `sorted`, behind all that does not come after it.
fn place(sorted: &Vec<String>, name: &str) -> (res: usize)
    requires
        ascending(texts_of(sorted@)),
    ensures
        res <= sorted.len(),
        forall|j: int| 0 <= j < res ==> !key_lt(name@, #[trigger] sorted[j]@),
        res < sorted.len() ==> key_lt(name@, sorted[res as int]@),
{
    let mut i: usize = 0;
    while i < sorted.len() && !bytes_before(
        name.as_bytes(),
        sorted[i].as_str().as_bytes(),
    )
        invariant
            i <= sorted.len(),
            forall|j: int| 0 <= j < i ==> !key_lt(name@, #[trigger] sorted[j]@),
        decreases sorted.len() - i,
    {
        i += 1;
    }
    i
}

/// Putting a name at its place keeps the names in order.
proof fn lemma_insert_ascending(names: Seq<Seq<char>>, at: int, name: Seq<char>)
    requires
        ascending(names),
        0 <= at <= names.len(),
        forall|j: int| 0 <= j < at ==> !key_lt(name, #[trigger] names[j]),
        at < names.len() ==> key_lt(name, names[at]),
    ensures
        ascending(names.insert(at, name)),
{
    let out = names.insert(at, name);
    assert forall|i: int, j: int| 0 <= i < j < out.len() implies !key_lt(
        #[trigger] out[j],
        #[trigger] out[i],
    ) by {
        if j == at {
            assert(out[i] == names[i]);
        } else if i == at {
            assert(out[j] == names[j - 1]);
            lemma_key_order(name, names[at]);
            if j - 1 > at {
                lemma_key_order(names[j - 1], names[at]);
                if key_lt(names[j - 1], name) {
                    lemma_lex_transitive(
                        key_bytes(names[j - 1]),
                        key_bytes(name),
                        key_bytes(names[at]),
                    );
                }
            }
        } else {
            let a = if i < at {
                i
            } else {
                i - 1
            };
            let b = if j < at {
                j
            } else {
                j - 1
            };
            assert(out[i] == names[a]);
            assert(out[j] == names[b]);
        }
    }
}

/// The order in which a build visits the entries of one directory: the
/// entries that are not hidden, ascending by the bytes of their names.
#[verifier::rlimit(50)]
pub fn walk_order(names: Vec<String>) -> (res: Vec<String>)
    ensures
        ascending(texts_of(res@)),
        texts_of(res@).to_multiset() == visible(texts_of(names@)).to_multiset(),
{
    let ghost all = texts_of(names@);
    let ghost keep = |name: Seq<char>| !hidden(name);
    let mut out: Vec<String> = Vec::new();
    proof {
        assert(all.take(0) =~= Seq::<Seq<char>>::empty());
        assert(texts_of(out@) =~= Seq::<Seq<char>>::empty());
        assert(all.take(0).filter(keep) =~= Seq::<Seq<char>>::empty());
    }
    for name in it: names
        invariant
            all == texts_of(it.seq()),
            keep == |name: Seq<char>| !hidden(name),
            ascending(texts_of(out@)),
            texts_of(out@).to_multiset() == all.take(it.index() as int).filter(keep).to_multiset(),
    {
        let ghost i = it.index() as int;
        let ghost before = texts_of(out@);
        proof {
            assert(all.take(i + 1) =~= all.take(i) + seq![name@]);
            Seq::filter_distributes_over_add(all.take(i), seq![name@], keep);
            reveal(Seq::filter);
            assert(seq![name@].drop_last() =~= Seq::<Seq<char>>::empty());
            assert(Seq::<Seq<char>>::empty().filter(keep) =~= Seq::<Seq<char>>::empty());
        }
        if !is_hidden(name.as_str()) {
            let at = place(&out, name.as_str());
            proof {
                lemma_insert_ascending(before, at as int, name@);
                to_multiset_insert(before, at as int, name@);
                to_multiset_build(all.take(i).filter(keep), name@);
                assert(seq![name@].filter(keep) =~= seq![name@]);
                assert(all.take(i).filter(keep) + seq![name@] =~= all.take(i).filter(keep).push(
                    name@,
                ));
            }
            out.insert(at, name);
            assert(texts_of(out@) =~= before.insert(at as int, name@));
        } else {
            proof {
                assert(seq![name@].filter(keep) =~= Seq::<Seq<char>>::empty());
                assert(all.take(i).filter(keep) + Seq::<Seq<char>>::empty() =~= all.take(
                    i,
                ).filter(keep));
            }
        }
    }
    assert(all.take(all.len() as int) =~= all);
    out
}

/// The order of the walk is one order: two ascending sequences that hold
/// the same names, each as often as the other, are the same sequence. So
/// what `walk_order` returns is decided by the names alone, whatever the
/// order in which they came.
pub proof fn lemma_walk_order_unique(a: Seq<Seq<char>>, b: Seq<Seq<char>>)
    requires
        ascending(a),
        ascending(b),
        a.to_multiset() == b.to_multiset(),
    ensures
        a == b,
    decreases a.len(),
{
    to_multiset_len(a);
    to_multiset_len(b);
    if a.len() == 0 {
        assert(a =~= b);
    } else {
        to_multiset_contains(a, a[0]);
        to_multiset_contains(b, a[0]);
        to_multiset_contains(a, b[0]);
        to_multiset_contains(b, b[0]);
        assert(a.contains(a[0]));
        assert(b.contains(b[0]));
        let j = choose|j: int| 0 <= j < b.len() && b[j] == a[0];
        let i = choose|i: int| 0 <= i < a.len() && a[i] == b[0];
        lemma_key_order(a[0], b[0]);
        if j > 0 {
            assert(!key_lt(b[j], b[0]));
        }
        if i > 0 {
            assert(!key_lt(a[i], a[0]));
        }
        assert(a[0] == b[0]);
        let ra = a.drop_first();
        let rb = b.drop_first();
        assert(ra =~= a.remove(0));
        assert(rb =~= b.remove(0));
        to_multiset_remove(a, 0);
        to_multiset_remove(b, 0);
        assert forall|x: int, y: int| 0 <= x < y < ra.len() implies !key_lt(
            #[trigger] ra[y],
            #[trigger] ra[x],
        ) by {
            assert(ra[x] == a[x + 1] && ra[y] == a[y + 1]);
        }
        assert forall|x: int, y: int| 0 <= x < y < rb.len() implies !key_lt(
            #[trigger] rb[y],
            #[trigger] rb[x],
        ) by {
            assert(rb[x] == b[x + 1] && rb[y] == b[y + 1]);
        }
        lemma_walk_order_unique(ra, rb);
        assert(a =~= seq![a[0]] + ra);
        assert(b =~= seq![b[0]] + rb);
    }
}

} // verus!
