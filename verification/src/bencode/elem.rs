//! Bencode elements as held in memory.

use vstd::prelude::*;
use crate::bencode::entries::{
    key_bytes, key_lt, lemma_absent, lemma_found_at, lemma_key_bytes_injective,
    lemma_lex_transitive, lemma_put_at, lemma_put_sorted, lemma_without_sorted, lex_lt, lookup,
    put, put_all, sorted, without,
};
use crate::bencode::model::Value;

verus! {

/// One key of a dictionary with the element it maps to.
#[derive(Debug, PartialEq, Eq)]
pub struct Entry {
    /// The key.
    pub key: String,
    /// What the key maps to.
    pub value: BencodeElem,
}

/// A bencode dictionary: text keys, each at most once, held in ascending
/// byte-wise order of the keys.
#[derive(Debug, PartialEq, Eq)]
pub struct Dictionary {
    entries: Vec<Entry>,
}

/// A bencode element.
#[derive(Debug, PartialEq, Eq)]
pub enum BencodeElem {
    /// A byte string that is text.
    String(String),
    /// A byte string as it is. Decoding yields one only where the bytes are
    /// not valid UTF-8.
    Bytes(Vec<u8>),
    /// An integer of 64 bits.
    Integer(i64),
    /// Elements in order.
    List(Vec<BencodeElem>),
    /// Elements by their keys.
    Dictionary(Dictionary),
}

/// What each element of `items` stands for.
pub open spec fn values_of(items: Seq<BencodeElem>) -> Seq<Value> {
    Seq::new(items.len(), |i: int| items[i]@)
}

/// What each entry of `entries` stands for: its key and its value.
pub open spec fn pairs_of(entries: Seq<Entry>) -> Seq<(Seq<char>, Value)> {
    Seq::new(entries.len(), |i: int| (entries[i].key@, entries[i].value@))
}

impl View for BencodeElem {
    type V = Value;

    open spec fn view(&self) -> Value
        decreases self,
    {
        match self {
            BencodeElem::String(s) => Value::Text(s@),
            BencodeElem::Bytes(b) => Value::Bytes(b@),
            BencodeElem::Integer(i) => Value::Integer(*i),
            BencodeElem::List(l) => Value::List(list_values(l@)),
            BencodeElem::Dictionary(d) => Value::Dict(d@),
        }
    }
}

/// What each element of `items` stands for, built item by item.
pub open spec fn list_values(items: Seq<BencodeElem>) -> Seq<Value>
    decreases items,
{
    if items.len() == 0 {
        Seq::empty()
    } else {
        list_values(items.drop_last()).push(items.last()@)
    }
}

impl View for Dictionary {
    type V = Seq<(Seq<char>, Value)>;

    closed spec fn view(&self) -> Seq<(Seq<char>, Value)>
        decreases self,
    {
        Seq::new(
            self.entries.len() as nat,
            |i: int|
                if 0 <= i < self.entries.len() {
                    (self.entries[i].key@, self.entries[i].value@)
                } else {
                    arbitrary()
                },
        )
    }
}

/// Built item by item or all at once, the values of a list are the same.
pub proof fn lemma_list_values(items: Seq<BencodeElem>)
    ensures
        list_values(items) == values_of(items),
    decreases items.len(),
{
    if items.len() > 0 {
        let front = items.drop_last();
        lemma_list_values(front);
        assert(list_values(items) == list_values(front).push(items.last()@));
        assert forall|i: int| 0 <= i < items.len() implies list_values(items)[i] == values_of(
            items,
        )[i] by {
            if i < front.len() {
                assert(list_values(items)[i] == values_of(front)[i]);
                assert(front[i] == items[i]);
            }
        }
    }
    assert(list_values(items) =~= values_of(items));
}

/// A list stands for the values of its items.
pub proof fn lemma_list_view(items: Vec<BencodeElem>)
    ensures
        BencodeElem::List(items)@ == Value::List(values_of(items@)),
{
    lemma_list_values(items@);
}

/// A dictionary stands for the pairs of its entries.
proof fn lemma_dictionary_view(entries: Vec<Entry>)
    ensures
        (Dictionary { entries })@ == pairs_of(entries@),
{
    let d = Dictionary { entries };
    assert forall|i: int| 0 <= i < d@.len() implies d@[i] == pairs_of(entries@)[i] by {
        assert(entries[i] == entries@[i]);
    }
    assert(d@ =~= pairs_of(entries@));
}

/// Whether `a` comes before `b` in byte-wise lexicographic order.
pub fn bytes_before(a: &[u8], b: &[u8]) -> (res: bool)
    ensures
        res == lex_lt(a@, b@),
{
    let mut i: usize = 0;
    assert(a@.skip(0) =~= a@ && b@.skip(0) =~= b@);
    while i < a.len() && i < b.len()
        invariant
            i <= a.len(),
            i <= b.len(),
            lex_lt(a@, b@) == lex_lt(a@.skip(i as int), b@.skip(i as int)),
        decreases a.len() - i,
    {
        assert(a@.skip(i as int).drop_first() =~= a@.skip(i + 1));
        assert(b@.skip(i as int).drop_first() =~= b@.skip(i + 1));
        if a[i] != b[i] {
            return a[i] < b[i];
        }
        i += 1;
    }
    i < b.len()
}

/// Whether `a` and `b` hold the same bytes.
pub fn bytes_equal(a: &[u8], b: &[u8]) -> (res: bool)
    ensures
        res == (a@ == b@),
{
    if a.len() != b.len() {
        return false;
    }
    let mut i: usize = 0;
    while i < a.len()
        invariant
            i <= a.len(),
            a.len() == b.len(),
            forall|j: int| 0 <= j < i ==> a@[j] == b@[j],
        decreases a.len() - i,
    {
        if a[i] != b[i] {
            return false;
        }
        i += 1;
    }
    assert(a@ =~= b@);
    true
}

/// Whether `a` and `b` are the same text.
pub fn same_text(a: &str, b: &str) -> (res: bool)
    ensures
        res == (a@ == b@),
{
    let res = bytes_equal(a.as_bytes(), b.as_bytes());
    proof {
        if res {
            lemma_key_bytes_injective(a@, b@);
        }
    }
    res
}

impl Dictionary {
    /// The keys are held in strictly ascending order.
    #[verifier::type_invariant]
    pub open spec fn well_formed(self) -> bool {
        sorted(self@)
    }

    /// A dictionary without entries.
    pub fn new() -> (res: Self)
        ensures
            res@ == Seq::<(Seq<char>, Value)>::empty(),
    {
        let d = Dictionary { entries: Vec::new() };
        assert(d@ =~= Seq::empty());
        d
    }

    /// The number of entries.
    pub fn len(&self) -> (res: usize)
        ensures
            res == self@.len(),
    {
        self.entries.len()
    }

    /// Whether there is no entry.
    pub fn is_empty(&self) -> (res: bool)
        ensures
            res == (self@.len() == 0),
    {
        self.entries.len() == 0
    }

    /// The entries, in ascending order of their keys.
    pub fn entries(&self) -> (res: &Vec<Entry>)
        ensures
            pairs_of(res@) == self@,
            sorted(self@),
            decreases_to!(self => res),
    {
        proof {
            use_type_invariant(self);
            assert(pairs_of(self.entries@) =~= self@);
        }
        &self.entries
    }

    /// The position of the entry of `key`, if there is one.
    fn position(&self, key: &str) -> (res: Option<usize>)
        ensures
            match res {
                Some(i) => i < self.entries.len() && self.entries[i as int].key@ == key@
                    && lookup(self@, key@) == Some(self@[i as int].1) && without(self@, key@)
                    == self@.remove(i as int),
                None => lookup(self@, key@) is None && without(self@, key@) == self@,
            },
    {
        let mut i: usize = 0;
        while i < self.entries.len()
            invariant
                i <= self.entries.len(),
                self@.len() == self.entries.len(),
                forall|j: int| 0 <= j < i ==> (#[trigger] self@[j]).0 != key@,
            decreases self.entries.len() - i,
        {
            if same_text(self.entries[i].key.as_str(), key) {
                proof {
                    lemma_found_at(self@, key@, i as int);
                }
                return Some(i);
            }
            i += 1;
        }
        proof {
            lemma_absent(self@, key@);
        }
        None
    }

    /// The element that `key` maps to, if there is one.
    pub fn get(&self, key: &str) -> (res: Option<&BencodeElem>)
        ensures
            match res {
                Some(elem) => lookup(self@, key@) == Some(elem@),
                None => lookup(self@, key@) is None,
            },
    {
        match self.position(key) {
            Some(i) => Some(&self.entries[i].value),
            None => None,
        }
    }

    /// Whether `key` maps to anything.
    pub fn contains_key(&self, key: &str) -> (res: bool)
        ensures
            res == lookup(self@, key@).is_some(),
    {
        self.position(key).is_some()
    }

    /// Takes the entry of `key` out and returns what it mapped to, if there
    /// was one.
    pub fn remove(&mut self, key: &str) -> (res: Option<BencodeElem>)
        ensures
            final(self)@ == without(old(self)@, key@),
            match res {
                Some(elem) => lookup(old(self)@, key@) == Some(elem@),
                None => lookup(old(self)@, key@) is None,
            },
    {
        proof {
            use_type_invariant(&*self);
            lemma_without_sorted(self@, key@);
        }
        match self.position(key) {
            Some(i) => {
                let mut entries: Vec<Entry> = Vec::new();
                core::mem::swap(&mut self.entries, &mut entries);
                let entry = entries.remove(i);
                assert(pairs_of(entries@) =~= old(self)@.remove(i as int));
                proof {
                    lemma_dictionary_view(entries);
                }
                self.entries = entries;
                Some(entry.value)
            },
            None => None,
        }
    }

    /// Maps `key` to `value` and returns what it mapped to before, if
    /// anything.
    pub fn insert(&mut self, key: String, value: BencodeElem) -> (res: Option<BencodeElem>)
        ensures
            final(self)@ == put(old(self)@, key@, value@),
            match res {
                Some(elem) => lookup(old(self)@, key@) == Some(elem@),
                None => lookup(old(self)@, key@) is None,
            },
    {
        proof {
            use_type_invariant(&*self);
            lemma_put_sorted(self@, key@, value@);
        }
        let mut i: usize = 0;
        while i < self.entries.len() && bytes_before(
            self.entries[i].key.as_str().as_bytes(),
            key.as_str().as_bytes(),
        )
            invariant
                i <= self.entries.len(),
                self@.len() == self.entries.len(),
                self@ == old(self)@,
                forall|j: int| 0 <= j < i ==> key_lt((#[trigger] self@[j]).0, key@),
            decreases self.entries.len() - i,
        {
            i += 1;
        }
        proof {
            lemma_put_at(self@, key@, value@, i as int);
        }
        let replace = i < self.entries.len() && same_text(
            self.entries[i].key.as_str(),
            key.as_str(),
        );
        let mut entries: Vec<Entry> = Vec::new();
        core::mem::swap(&mut self.entries, &mut entries);
        assert(pairs_of(entries@) =~= old(self)@);
        let ghost pair = (key@, value@);
        let res = if replace {
            let entry = entries.remove(i);
            entries.insert(i, Entry { key, value });
            assert(pairs_of(entries@) =~= old(self)@.update(i as int, pair));
            Some(entry.value)
        } else {
            entries.insert(i, Entry { key, value });
            assert(pairs_of(entries@) =~= old(self)@.insert(i as int, pair));
            None
        };
        proof {
            lemma_dictionary_view(entries);
        }
        self.entries = entries;
        res
    }

    /// Maps every key of `extras` to a copy of what it maps to there.
    pub fn extend(&mut self, extras: &Dictionary)
        ensures
            final(self)@ == put_all(old(self)@, extras@),
    {
        let entries = extras.entries();
        let ghost pairs = pairs_of(entries@);
        let mut i: usize = 0;
        assert(pairs.skip(0) =~= pairs);
        while i < entries.len()
            invariant
                i <= entries.len(),
                pairs == pairs_of(entries@),
                put_all(old(self)@, pairs) == put_all(self@, pairs.skip(i as int)),
            decreases entries.len() - i,
        {
            assert(pairs.skip(i as int).drop_first() =~= pairs.skip(i + 1));
            let entry = entries[i].clone();
            self.insert(entry.key, entry.value);
            i += 1;
        }
    }

    /// Adds an entry whose key comes after every key held.
    pub(crate) fn push_last(&mut self, key: String, value: BencodeElem)
        requires
            old(self)@.len() > 0 ==> key_lt(old(self)@.last().0, key@),
        ensures
            final(self)@ == old(self)@.push((key@, value@)),
    {
        proof {
            use_type_invariant(&*self);
            let before = self@;
            let after = before.push((key@, value@));
            assert forall|a: int, b: int| 0 <= a < b < after.len() implies key_lt(
                #[trigger] after[a].0,
                #[trigger] after[b].0,
            ) by {
                if b == before.len() {
                    if a < before.len() - 1 {
                        assert(key_lt(before[a].0, before[before.len() - 1].0));
                        lemma_lex_transitive(
                            key_bytes(before[a].0),
                            key_bytes(before.last().0),
                            key_bytes(key@),
                        );
                    }
                } else {
                    assert(key_lt(before[a].0, before[b].0));
                }
            }
        }
        let ghost pair = (key@, value@);
        let mut entries: Vec<Entry> = Vec::new();
        core::mem::swap(&mut self.entries, &mut entries);
        assert(pairs_of(entries@) =~= old(self)@);
        entries.push(Entry { key, value });
        assert(pairs_of(entries@) =~= old(self)@.push(pair));
        proof {
            lemma_dictionary_view(entries);
        }
        self.entries = entries;
    }

    /// The bytes of the last key, if there is an entry.
    pub(crate) fn last_key(&self) -> (res: Option<&String>)
        ensures
            match res {
                Some(key) => self@.len() > 0 && key@ == self@.last().0,
                None => self@.len() == 0,
            },
    {
        if self.entries.len() == 0 {
            None
        } else {
            Some(&self.entries[self.entries.len() - 1].key)
        }
    }
}

impl Clone for Entry {
    fn clone(&self) -> (res: Self)
        ensures
            res.key@ == self.key@,
            res.value@ == self.value@,
        decreases self,
    {
        Entry { key: self.key.clone(), value: self.value.clone() }
    }
}

impl Clone for Dictionary {
    fn clone(&self) -> (res: Self)
        ensures
            res@ == self@,
        decreases self,
    {
        proof {
            use_type_invariant(self);
        }
        let mut entries: Vec<Entry> = Vec::new();
        let mut i: usize = 0;
        while i < self.entries.len()
            invariant
                i <= self.entries.len(),
                entries.len() == i,
                forall|j: int|
                    0 <= j < i ==> (#[trigger] entries[j]).key@ == self.entries[j].key@
                        && entries[j].value@ == self.entries[j].value@,
            decreases self.entries.len() - i,
        {
            proof {
                assert(decreases_to!(self.entries => self.entries[i as int]));
            }
            entries.push(self.entries[i].clone());
            i += 1;
        }
        proof {
            lemma_dictionary_view(entries);
            lemma_dictionary_view(self.entries);
            assert(pairs_of(entries@) =~= pairs_of(self.entries@));
        }
        Dictionary { entries }
    }
}

impl Clone for BencodeElem {
    fn clone(&self) -> (res: Self)
        ensures
            res@ == self@,
        decreases self,
    {
        match self {
            BencodeElem::String(s) => BencodeElem::String(s.clone()),
            BencodeElem::Bytes(b) => BencodeElem::Bytes(b.clone()),
            BencodeElem::Integer(i) => BencodeElem::Integer(*i),
            BencodeElem::List(l) => {
                let mut items: Vec<BencodeElem> = Vec::new();
                let mut i: usize = 0;
                while i < l.len()
                    invariant
                        i <= l.len(),
                        items.len() == i,
                        self is List,
                        self->List_0 == *l,
                        forall|j: int| 0 <= j < i ==> (#[trigger] items[j])@ == l[j]@,
                    decreases l.len() - i,
                {
                    proof {
                        assert(decreases_to!(self => self->List_0));
                        assert(decreases_to!(l => l[i as int]));
                    }
                    items.push(l[i].clone());
                    i += 1;
                }
                proof {
                    lemma_list_view(items);
                    lemma_list_view(*l);
                    assert(values_of(items@) =~= values_of(l@));
                }
                BencodeElem::List(items)
            },
            BencodeElem::Dictionary(d) => BencodeElem::Dictionary(d.clone()),
        }
    }
}

} // verus!
