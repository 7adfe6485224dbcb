//! Dictionaries as sequences of entries: the order of keys, and what looking
//! up, removing and putting a key mean.

use vstd::prelude::*;
use vstd::utf8::{encode_utf8, encode_utf8_decode_utf8};
use crate::bencode::model::Value;

verus! {

/// Byte-wise lexicographic order: `a` comes strictly before `b`.
pub open spec fn lex_lt(a: Seq<u8>, b: Seq<u8>) -> bool
    decreases a.len(),
{
    if b.len() == 0 {
        false
    } else if a.len() == 0 {
        true
    } else if a[0] != b[0] {
        a[0] < b[0]
    } else {
        lex_lt(a.drop_first(), b.drop_first())
    }
}

/// The bytes by which a dictionary key is ordered: its UTF-8 encoding.
pub open spec fn key_bytes(key: Seq<char>) -> Seq<u8> {
    encode_utf8(key)
}

/// Key `a` comes strictly before key `b`.
pub open spec fn key_lt(a: Seq<char>, b: Seq<char>) -> bool {
    lex_lt(key_bytes(a), key_bytes(b))
}

/// The keys of `entries` are strictly ascending in byte-wise order, so none
/// occurs twice.
pub open spec fn sorted(entries: Seq<(Seq<char>, Value)>) -> bool {
    forall|i: int, j: int|
        0 <= i < j < entries.len() ==> key_lt(#[trigger] entries[i].0, #[trigger] entries[j].0)
}

/// What `key` maps to in `entries`, if anything.
pub open spec fn lookup(entries: Seq<(Seq<char>, Value)>, key: Seq<char>) -> Option<Value>
    decreases entries.len(),
{
    if entries.len() == 0 {
        None
    } else if entries[0].0 == key {
        Some(entries[0].1)
    } else {
        lookup(entries.drop_first(), key)
    }
}

/// `entries` without the entry of `key`.
pub open spec fn without(entries: Seq<(Seq<char>, Value)>, key: Seq<char>) -> Seq<
    (Seq<char>, Value),
>
    decreases entries.len(),
{
    if entries.len() == 0 {
        entries
    } else if entries[0].0 == key {
        entries.drop_first()
    } else {
        seq![entries[0]] + without(entries.drop_first(), key)
    }
}

/// `entries` with `key` mapped to `value`: in place of the entry of `key`
/// where there is one, and else at the place that the order of keys gives it.
pub open spec fn put(entries: Seq<(Seq<char>, Value)>, key: Seq<char>, value: Value) -> Seq<
    (Seq<char>, Value),
>
    decreases entries.len(),
{
    if entries.len() == 0 {
        seq![(key, value)]
    } else if entries[0].0 == key {
        seq![(key, value)] + entries.drop_first()
    } else if key_lt(key, entries[0].0) {
        seq![(key, value)] + entries
    } else {
        seq![entries[0]] + put(entries.drop_first(), key, value)
    }
}

/// `base` with every entry of `extras` put into it, one after the other.
pub open spec fn put_all(base: Seq<(Seq<char>, Value)>, extras: Seq<(Seq<char>, Value)>) -> Seq<
    (Seq<char>, Value),
>
    decreases extras.len(),
{
    if extras.len() == 0 {
        base
    } else {
        put_all(put(base, extras[0].0, extras[0].1), extras.drop_first())
    }
}

/// No sequence comes before itself.
pub proof fn lemma_lex_irreflexive(a: Seq<u8>)
    ensures
        !lex_lt(a, a),
    decreases a.len(),
{
    if a.len() > 0 {
        lemma_lex_irreflexive(a.drop_first());
    }
}

/// Of two sequences, at most one comes before the other.
pub proof fn lemma_lex_asymmetric(a: Seq<u8>, b: Seq<u8>)
    requires
        lex_lt(a, b),
    ensures
        !lex_lt(b, a),
    decreases a.len(),
{
    if a.len() > 0 && b.len() > 0 && a[0] == b[0] {
        lemma_lex_asymmetric(a.drop_first(), b.drop_first());
    }
}

/// Two different sequences are ordered one way or the other.
pub proof fn lemma_lex_total(a: Seq<u8>, b: Seq<u8>)
    ensures
        lex_lt(a, b) || a == b || lex_lt(b, a),
    decreases a.len(),
{
    if a.len() == 0 || b.len() == 0 {
        if a.len() == 0 && b.len() == 0 {
            assert(a =~= b);
        }
    } else if a[0] == b[0] {
        lemma_lex_total(a.drop_first(), b.drop_first());
        if a.drop_first() == b.drop_first() {
            assert(a =~= seq![a[0]] + a.drop_first());
            assert(b =~= seq![b[0]] + b.drop_first());
        }
    }
}

/// What comes before something that comes before `c` comes before `c`.
pub proof fn lemma_lex_transitive(a: Seq<u8>, b: Seq<u8>, c: Seq<u8>)
    requires
        lex_lt(a, b),
        lex_lt(b, c),
    ensures
        lex_lt(a, c),
    decreases a.len(),
{
    if a.len() > 0 && b.len() > 0 && c.len() > 0 && a[0] == b[0] && b[0] == c[0] {
        lemma_lex_transitive(a.drop_first(), b.drop_first(), c.drop_first());
    }
}

/// Two keys with the same bytes are the same key.
pub proof fn lemma_key_bytes_injective(a: Seq<char>, b: Seq<char>)
    requires
        key_bytes(a) == key_bytes(b),
    ensures
        a == b,
{
    encode_utf8_decode_utf8(a);
    encode_utf8_decode_utf8(b);
}

/// Keys are totally ordered: two different keys are ordered one way or the
/// other, and never both ways.
pub proof fn lemma_key_order(a: Seq<char>, b: Seq<char>)
    ensures
        key_lt(a, b) || a == b || key_lt(b, a),
        key_lt(a, b) ==> a != b && !key_lt(b, a),
{
    lemma_lex_total(key_bytes(a), key_bytes(b));
    if key_bytes(a) == key_bytes(b) {
        lemma_key_bytes_injective(a, b);
    }
    if key_lt(a, b) {
        lemma_lex_asymmetric(key_bytes(a), key_bytes(b));
        lemma_lex_irreflexive(key_bytes(a));
    }
}

/// Where the entry of `key` stands, nothing before it having that key, the
/// lookup finds it and removal takes it out.
pub proof fn lemma_found_at(entries: Seq<(Seq<char>, Value)>, key: Seq<char>, i: int)
    requires
        0 <= i < entries.len(),
        entries[i].0 == key,
        forall|j: int| 0 <= j < i ==> (#[trigger] entries[j]).0 != key,
    ensures
        lookup(entries, key) == Some(entries[i].1),
        without(entries, key) == entries.remove(i),
    decreases i,
{
    if i == 0 {
        assert(entries.remove(0) =~= entries.drop_first());
    } else {
        let rest = entries.drop_first();
        assert(entries[0].0 != key);
        assert forall|j: int| 0 <= j < i - 1 implies (#[trigger] rest[j]).0 != key by {
            assert(rest[j] == entries[j + 1]);
        }
        lemma_found_at(rest, key, i - 1);
        assert(entries.remove(i) =~= seq![entries[0]] + rest.remove(i - 1));
    }
}

/// Where no entry has `key`, the lookup finds nothing and removal changes
/// nothing.
pub proof fn lemma_absent(entries: Seq<(Seq<char>, Value)>, key: Seq<char>)
    requires
        forall|j: int| 0 <= j < entries.len() ==> (#[trigger] entries[j]).0 != key,
    ensures
        lookup(entries, key) is None,
        without(entries, key) == entries,
    decreases entries.len(),
{
    if entries.len() > 0 {
        let rest = entries.drop_first();
        assert(entries[0].0 != key);
        assert forall|j: int| 0 <= j < rest.len() implies (#[trigger] rest[j]).0 != key by {
            assert(rest[j] == entries[j + 1]);
        }
        lemma_absent(rest, key);
        assert(entries =~= seq![entries[0]] + rest);
    }
}

/// Putting a key at the place that the order gives it: `i` is the first
/// position whose key does not come before `key`.
pub proof fn lemma_put_at(
    entries: Seq<(Seq<char>, Value)>,
    key: Seq<char>,
    value: Value,
    i: int,
)
    requires
        0 <= i <= entries.len(),
        forall|j: int| 0 <= j < i ==> key_lt((#[trigger] entries[j]).0, key),
        i < entries.len() ==> !key_lt(entries[i].0, key),
    ensures
        i < entries.len() && entries[i].0 == key ==> put(entries, key, value) == entries.update(
            i,
            (key, value),
        ) && lookup(entries, key) == Some(entries[i].1),
        !(i < entries.len() && entries[i].0 == key) ==> put(entries, key, value)
            == entries.insert(i, (key, value)),
        !(i < entries.len() && entries[i].0 == key) && sorted(entries) ==> lookup(entries, key)
            is None,
    decreases i,
{
    if entries.len() == 0 {
        assert(entries.insert(0, (key, value)) =~= seq![(key, value)]);
    } else if i == 0 {
        lemma_key_order(key, entries[0].0);
        if entries[0].0 == key {
            assert(entries.update(0, (key, value)) =~= seq![(key, value)] + entries.drop_first());
        } else {
            assert(entries.insert(0, (key, value)) =~= seq![(key, value)] + entries);
            if sorted(entries) {
                assert forall|j: int| 0 <= j < entries.len() implies (#[trigger] entries[j]).0
                    != key by {
                    if j > 0 {
                        lemma_lex_transitive(
                            key_bytes(key),
                            key_bytes(entries[0].0),
                            key_bytes(entries[j].0),
                        );
                    }
                    lemma_key_order(key, entries[j].0);
                }
                lemma_absent(entries, key);
            }
        }
    } else {
        let rest = entries.drop_first();
        assert(key_lt(entries[0].0, key));
        lemma_key_order(entries[0].0, key);
        assert forall|j: int| 0 <= j < i - 1 implies key_lt((#[trigger] rest[j]).0, key) by {
            assert(rest[j] == entries[j + 1]);
        }
        if i < entries.len() {
            assert(rest[i - 1] == entries[i]);
        }
        assert(sorted(entries) ==> sorted(rest)) by {
            if sorted(entries) {
                assert forall|a: int, b: int| 0 <= a < b < rest.len() implies key_lt(
                    #[trigger] rest[a].0,
                    #[trigger] rest[b].0,
                ) by {
                    assert(rest[a] == entries[a + 1]);
                    assert(rest[b] == entries[b + 1]);
                }
            }
        }
        lemma_put_at(rest, key, value, i - 1);
        if i < entries.len() && entries[i].0 == key {
            assert(entries.update(i, (key, value)) =~= seq![entries[0]] + rest.update(
                i - 1,
                (key, value),
            ));
        } else {
            assert(entries.insert(i, (key, value)) =~= seq![entries[0]] + rest.insert(
                i - 1,
                (key, value),
            ));
        }
    }
}

/// Putting a key keeps the keys in order.
#[verifier::rlimit(50)]
pub proof fn lemma_put_sorted(
    entries: Seq<(Seq<char>, Value)>,
    key: Seq<char>,
    value: Value,
)
    requires
        sorted(entries),
    ensures
        sorted(put(entries, key, value)),
    decreases entries.len(),
{
    let out = put(entries, key, value);
    if entries.len() == 0 {
    } else if entries[0].0 == key {
        assert forall|a: int, b: int| 0 <= a < b < out.len() implies key_lt(
            #[trigger] out[a].0,
            #[trigger] out[b].0,
        ) by {
            assert(out[b] == entries[b]);
            if a > 0 {
                assert(out[a] == entries[a]);
            } else {
                assert(key_lt(entries[0].0, entries[b].0));
            }
        }
    } else if key_lt(key, entries[0].0) {
        assert forall|a: int, b: int| 0 <= a < b < out.len() implies key_lt(
            #[trigger] out[a].0,
            #[trigger] out[b].0,
        ) by {
            assert(out[b] == entries[b - 1]);
            if a > 0 {
                assert(out[a] == entries[a - 1]);
            } else if b > 1 {
                assert(key_lt(entries[0].0, entries[b - 1].0));
                lemma_lex_transitive(
                    key_bytes(key),
                    key_bytes(entries[0].0),
                    key_bytes(entries[b - 1].0),
                );
            }
        }
    } else {
        let rest = entries.drop_first();
        lemma_key_order(key, entries[0].0);
        lemma_drop_first_sorted(entries);
        lemma_put_sorted(rest, key, value);
        lemma_put_keys(rest, key, value);
        let tail = put(rest, key, value);
        assert forall|a: int, b: int| 0 <= a < b < out.len() implies key_lt(
            #[trigger] out[a].0,
            #[trigger] out[b].0,
        ) by {
            assert(out[b] == tail[b - 1]);
            if a > 0 {
                assert(out[a] == tail[a - 1]);
            } else {
                if tail[b - 1].0 != key {
                    let k = choose|k: int| 0 <= k < rest.len() && rest[k].0 == tail[b - 1].0;
                    assert(rest[k] == entries[k + 1]);
                    assert(key_lt(entries[0].0, entries[k + 1].0));
                }
            }
        }
    }
}

/// A sorted sequence without its first entry is sorted.
pub proof fn lemma_drop_first_sorted(entries: Seq<(Seq<char>, Value)>)
    requires
        sorted(entries),
        entries.len() > 0,
    ensures
        sorted(entries.drop_first()),
{
    let rest = entries.drop_first();
    assert forall|a: int, b: int| 0 <= a < b < rest.len() implies key_lt(
        #[trigger] rest[a].0,
        #[trigger] rest[b].0,
    ) by {
        assert(rest[a] == entries[a + 1]);
        assert(rest[b] == entries[b + 1]);
    }
}

/// After a put, every key is the one put or one that was there before.
pub proof fn lemma_put_keys(entries: Seq<(Seq<char>, Value)>, key: Seq<char>, value: Value)
    ensures
        forall|i: int|
            0 <= i < put(entries, key, value).len() ==> (#[trigger] put(entries, key, value)[i]).0
                == key || exists|k: int|
                0 <= k < entries.len() && entries[k].0 == put(entries, key, value)[i].0,
    decreases entries.len(),
{
    let out = put(entries, key, value);
    if entries.len() == 0 {
    } else if entries[0].0 == key {
        assert forall|i: int| 0 <= i < out.len() implies (#[trigger] out[i]).0 == key || exists|
            k: int,
        |
            0 <= k < entries.len() && entries[k].0 == out[i].0 by {
            if i > 0 {
                assert(out[i] == entries[i]);
            }
        }
    } else if key_lt(key, entries[0].0) {
        assert forall|i: int| 0 <= i < out.len() implies (#[trigger] out[i]).0 == key || exists|
            k: int,
        |
            0 <= k < entries.len() && entries[k].0 == out[i].0 by {
            if i > 0 {
                assert(out[i] == entries[i - 1]);
            }
        }
    } else {
        let rest = entries.drop_first();
        lemma_put_keys(rest, key, value);
        let tail = put(rest, key, value);
        assert forall|i: int| 0 <= i < out.len() implies (#[trigger] out[i]).0 == key || exists|
            k: int,
        |
            0 <= k < entries.len() && entries[k].0 == out[i].0 by {
            if i == 0 {
                assert(out[0] == entries[0]);
            } else {
                assert(out[i] == tail[i - 1]);
                if tail[i - 1].0 != key {
                    let k = choose|k: int| 0 <= k < rest.len() && rest[k].0 == tail[i - 1].0;
                    assert(rest[k] == entries[k + 1]);
                }
            }
        }
    }
}

/// Removing a key keeps the keys in order.
pub proof fn lemma_without_sorted(entries: Seq<(Seq<char>, Value)>, key: Seq<char>)
    requires
        sorted(entries),
    ensures
        sorted(without(entries, key)),
        forall|i: int|
            0 <= i < without(entries, key).len() ==> exists|k: int|
                0 <= k < entries.len() && entries[k] == #[trigger] without(entries, key)[i],
    decreases entries.len(),
{
    let out = without(entries, key);
    if entries.len() == 0 {
    } else if entries[0].0 == key {
        lemma_drop_first_sorted(entries);
        assert forall|i: int| 0 <= i < out.len() implies exists|k: int|
            0 <= k < entries.len() && entries[k] == #[trigger] out[i] by {
            assert(out[i] == entries[i + 1]);
        }
    } else {
        let rest = entries.drop_first();
        lemma_drop_first_sorted(entries);
        lemma_without_sorted(rest, key);
        let tail = without(rest, key);
        assert forall|i: int| 0 <= i < out.len() implies exists|k: int|
            0 <= k < entries.len() && entries[k] == #[trigger] out[i] by {
            if i == 0 {
                assert(out[0] == entries[0]);
            } else {
                assert(out[i] == tail[i - 1]);
                let k = choose|k: int| 0 <= k < rest.len() && rest[k] == tail[i - 1];
                assert(rest[k] == entries[k + 1]);
            }
        }
        assert forall|a: int, b: int| 0 <= a < b < out.len() implies key_lt(
            #[trigger] out[a].0,
            #[trigger] out[b].0,
        ) by {
            assert(out[b] == tail[b - 1]);
            if a > 0 {
                assert(out[a] == tail[a - 1]);
            } else {
                let k = choose|k: int| 0 <= k < rest.len() && rest[k] == tail[b - 1];
                assert(rest[k] == entries[k + 1]);
                assert(key_lt(entries[0].0, entries[k + 1].0));
            }
        }
    }
}

/// Removing one key leaves what every other key maps to.
pub proof fn lemma_lookup_without(
    entries: Seq<(Seq<char>, Value)>,
    removed: Seq<char>,
    key: Seq<char>,
)
    requires
        removed != key,
    ensures
        lookup(without(entries, removed), key) == lookup(entries, key),
    decreases entries.len(),
{
    if entries.len() > 0 {
        let rest = entries.drop_first();
        lemma_lookup_without(rest, removed, key);
        if entries[0].0 != removed {
            let out = seq![entries[0]] + without(rest, removed);
            assert(out.drop_first() =~= without(rest, removed));
        }
    }
}

/// After a put, the key maps to what was put, and every other key to what
/// it mapped to before.
pub proof fn lemma_lookup_put(
    entries: Seq<(Seq<char>, Value)>,
    key: Seq<char>,
    value: Value,
    other: Seq<char>,
)
    ensures
        lookup(put(entries, key, value), other) == if other == key {
            Some(value)
        } else {
            lookup(entries, other)
        },
    decreases entries.len(),
{
    if entries.len() == 0 {
        assert(seq![(key, value)].drop_first() =~= entries);
    } else if entries[0].0 == key {
        let out = seq![(key, value)] + entries.drop_first();
        assert(out.drop_first() =~= entries.drop_first());
    } else if key_lt(key, entries[0].0) {
        let out = seq![(key, value)] + entries;
        assert(out.drop_first() =~= entries);
    } else {
        lemma_lookup_put(entries.drop_first(), key, value, other);
        let out = seq![entries[0]] + put(entries.drop_first(), key, value);
        assert(out.drop_first() =~= put(entries.drop_first(), key, value));
    }
}

/// What a lookup finds stands in the sequence.
pub proof fn lemma_lookup_stands(entries: Seq<(Seq<char>, Value)>, key: Seq<char>)
    ensures
        lookup(entries, key) is Some ==> exists|i: int|
            0 <= i < entries.len() && #[trigger] entries[i] == (key, lookup(entries, key)->0),
        lookup(entries, key) is None ==> forall|i: int|
            0 <= i < entries.len() ==> (#[trigger] entries[i]).0 != key,
    decreases entries.len(),
{
    if entries.len() > 0 {
        if entries[0].0 == key {
            assert(entries[0] == (key, lookup(entries, key)->0));
        } else {
            let rest = entries.drop_first();
            lemma_lookup_stands(rest, key);
            if lookup(entries, key) is Some {
                let i = choose|i: int|
                    0 <= i < rest.len() && #[trigger] rest[i] == (key, lookup(rest, key)->0);
                assert(entries[i + 1] == rest[i]);
            } else {
                assert forall|i: int| 0 <= i < entries.len() implies (#[trigger] entries[i]).0
                    != key by {
                    if i > 0 {
                        assert(entries[i] == rest[i - 1]);
                    }
                }
            }
        }
    }
}

/// In a sorted sequence, every entry is what its key maps to.
pub proof fn lemma_lookup_at(entries: Seq<(Seq<char>, Value)>, i: int)
    requires
        sorted(entries),
        0 <= i < entries.len(),
    ensures
        lookup(entries, entries[i].0) == Some(entries[i].1),
{
    assert forall|j: int| 0 <= j < i implies (#[trigger] entries[j]).0 != entries[i].0 by {
        lemma_key_order(entries[j].0, entries[i].0);
    }
    lemma_found_at(entries, entries[i].0, i);
}

/// After a key is removed from a sorted sequence, it maps to nothing.
#[verifier::rlimit(50)]
pub proof fn lemma_lookup_removed(entries: Seq<(Seq<char>, Value)>, key: Seq<char>)
    requires
        sorted(entries),
    ensures
        lookup(without(entries, key), key) is None,
{
    lemma_without_sorted(entries, key);
    let out = without(entries, key);
    lemma_lookup_stands(out, key);
    if lookup(out, key) is Some {
        let i = choose|i: int|
            0 <= i < out.len() && #[trigger] out[i] == (key, lookup(out, key)->0);
        lemma_lookup_stands(entries, key);
        if lookup(entries, key) is Some {
            let at = choose|j: int|
                0 <= j < entries.len() && #[trigger] entries[j] == (key, lookup(entries, key)->0);
            assert forall|j: int| 0 <= j < at implies (#[trigger] entries[j]).0 != key by {
                lemma_key_order(entries[j].0, entries[at].0);
            }
            lemma_found_at(entries, key, at);
            let from = if i < at {
                i
            } else {
                i + 1
            };
            assert(out[i] == entries[from]);
            lemma_key_order(entries[from].0, entries[at].0);
            lemma_key_order(entries[at].0, entries[from].0);
            if from < at {
                assert(key_lt(entries[from].0, entries[at].0));
            } else {
                assert(key_lt(entries[at].0, entries[from].0));
            }
        } else {
            lemma_absent(entries, key);
        }
    }
}

/// Putting all of `extras` keeps the keys in order.
pub proof fn lemma_put_all_sorted(base: Seq<(Seq<char>, Value)>, extras: Seq<(Seq<char>, Value)>)
    requires
        sorted(base),
    ensures
        sorted(put_all(base, extras)),
    decreases extras.len(),
{
    if extras.len() > 0 {
        lemma_put_sorted(base, extras[0].0, extras[0].1);
        lemma_put_all_sorted(put(base, extras[0].0, extras[0].1), extras.drop_first());
    }
}

/// After all of a sorted `extras` is put, a key maps to what it maps to in
/// `extras`, and else to what it mapped to before.
pub proof fn lemma_lookup_put_all(
    base: Seq<(Seq<char>, Value)>,
    extras: Seq<(Seq<char>, Value)>,
    key: Seq<char>,
)
    requires
        sorted(extras),
    ensures
        lookup(put_all(base, extras), key) == match lookup(extras, key) {
            Some(v) => Some(v),
            None => lookup(base, key),
        },
    decreases extras.len(),
{
    if extras.len() > 0 {
        let rest = extras.drop_first();
        lemma_drop_first_sorted(extras);
        lemma_lookup_put_all(put(base, extras[0].0, extras[0].1), rest, key);
        lemma_lookup_put(base, extras[0].0, extras[0].1, key);
        if extras[0].0 == key {
            assert forall|j: int| 0 <= j < rest.len() implies (#[trigger] rest[j]).0 != key by {
                assert(rest[j] == extras[j + 1]);
                lemma_key_order(extras[0].0, extras[j + 1].0);
            }
            lemma_absent(rest, key);
        }
    }
}

/// Two sorted sequences in which every key maps to the same are the same.
#[verifier::rlimit(50)]
pub proof fn lemma_sorted_same(a: Seq<(Seq<char>, Value)>, b: Seq<(Seq<char>, Value)>)
    requires
        sorted(a),
        sorted(b),
        forall|key: Seq<char>| lookup(a, key) == lookup(b, key),
    ensures
        a == b,
    decreases a.len(),
{
    if a.len() == 0 {
        if b.len() > 0 {
            lemma_lookup_at(b, 0);
            assert(lookup(a, b[0].0) is None);
        }
        assert(a =~= b);
    } else {
        lemma_lookup_at(a, 0);
        lemma_lookup_stands(b, a[0].0);
        assert(b.len() > 0);
        let j = choose|j: int| 0 <= j < b.len() && #[trigger] b[j] == (a[0].0, a[0].1);
        lemma_lookup_at(b, 0);
        lemma_lookup_stands(a, b[0].0);
        let i = choose|i: int| 0 <= i < a.len() && #[trigger] a[i] == (b[0].0, b[0].1);
        if j > 0 {
            assert(key_lt(b[0].0, b[j].0));
            lemma_key_order(b[0].0, a[0].0);
            if i > 0 {
                assert(key_lt(a[0].0, a[i].0));
            }
        }
        assert(a[0] == b[0]);
        let ra = a.drop_first();
        let rb = b.drop_first();
        lemma_drop_first_sorted(a);
        lemma_drop_first_sorted(b);
        assert forall|key: Seq<char>| lookup(ra, key) == lookup(rb, key) by {
            if key == a[0].0 {
                assert forall|k: int| 0 <= k < ra.len() implies (#[trigger] ra[k]).0 != key by {
                    assert(ra[k] == a[k + 1]);
                    lemma_key_order(a[0].0, a[k + 1].0);
                }
                assert forall|k: int| 0 <= k < rb.len() implies (#[trigger] rb[k]).0 != key by {
                    assert(rb[k] == b[k + 1]);
                    lemma_key_order(b[0].0, b[k + 1].0);
                }
                lemma_absent(ra, key);
                lemma_absent(rb, key);
            } else {
                assert(lookup(a, key) == lookup(ra, key));
                assert(lookup(b, key) == lookup(rb, key));
            }
        }
        lemma_sorted_same(ra, rb);
        assert(a =~= seq![a[0]] + ra);
        assert(b =~= seq![b[0]] + rb);
    }
}

} // verus!
