//! A map from strings, kept as a list of entries with distinct keys.

use vstd::prelude::*;

verus! {

/// Whether no key occurs twice.
pub open spec fn keys_distinct<V>(entries: Seq<(String, V)>) -> bool {
    forall|i: int, j: int|
        0 <= i < j < entries.len() ==> #[trigger] entries[i].0@ != #[trigger] entries[j].0@
}

/// The place of the entry with the given key, if there is one.
pub open spec fn place_of<V>(entries: Seq<(String, V)>, key: Seq<char>) -> int {
    choose|i: int| 0 <= i < entries.len() && (#[trigger] entries[i]).0@ == key
}

/// Whether there is an entry with the given key.
pub open spec fn has_key<V>(entries: Seq<(String, V)>, key: Seq<char>) -> bool {
    exists|i: int| 0 <= i < entries.len() && (#[trigger] entries[i]).0@ == key
}

/// The map that a list of entries stands for.
pub open spec fn entries_map<V>(entries: Seq<(String, V)>) -> Map<Seq<char>, V> {
    Map::new(|k: Seq<char>| has_key(entries, k), |k: Seq<char>| entries[place_of(entries, k)].1)
}

pub proof fn lemma_entry_of<V>(entries: Seq<(String, V)>, i: int)
    requires
        keys_distinct(entries),
        0 <= i < entries.len(),
    ensures
        has_key(entries, entries[i].0@),
        place_of(entries, entries[i].0@) == i,
        entries_map(entries).contains_key(entries[i].0@),
        entries_map(entries)[entries[i].0@] == entries[i].1,
{
    let key = entries[i].0@;
    assert(entries[i].0@ == key);
    let p = place_of(entries, key);
    assert(0 <= p < entries.len() && entries[p].0@ == key);
    if p < i {
        assert(entries[p].0@ != entries[i].0@);
    } else if i < p {
        assert(entries[i].0@ != entries[p].0@);
    }
}

proof fn lemma_push<V>(entries: Seq<(String, V)>, key: String, value: V)
    requires
        keys_distinct(entries),
        !has_key(entries, key@),
    ensures
        keys_distinct(entries.push((key, value))),
        entries_map(entries.push((key, value))) == entries_map(entries).insert(key@, value),
{
    let more = entries.push((key, value));
    assert(keys_distinct(more));
    assert forall|k: Seq<char>| #[trigger] has_key(more, k) == (has_key(entries, k) || k == key@) by {
        if has_key(entries, k) {
            let i = place_of(entries, k);
            assert(more[i].0@ == k);
        }
        if k == key@ {
            assert(more[entries.len() as int].0@ == k);
        }
        if has_key(more, k) {
            let i = place_of(more, k);
            if i < entries.len() {
                assert(entries[i].0@ == k);
            }
        }
    }
    assert forall|k: Seq<char>| has_key(more, k) implies #[trigger] entries_map(more)[k]
        == entries_map(entries).insert(key@, value)[k] by {
        let i = place_of(more, k);
        lemma_entry_of(more, i);
        if i < entries.len() {
            assert(entries[i].0@ == k);
            lemma_entry_of(entries, i);
        }
    }
    assert(entries_map(more) =~= entries_map(entries).insert(key@, value));
}

proof fn lemma_replace<V>(entries: Seq<(String, V)>, i: int, key: String, value: V)
    requires
        keys_distinct(entries),
        0 <= i < entries.len(),
        entries[i].0@ == key@,
    ensures
        keys_distinct(entries.update(i, (key, value))),
        entries_map(entries.update(i, (key, value))) == entries_map(entries).insert(key@, value),
{
    let next = entries.update(i, (key, value));
    assert(keys_distinct(next));
    assert forall|k: Seq<char>| #[trigger] has_key(next, k) == has_key(entries, k) by {
        if has_key(entries, k) {
            assert(next[place_of(entries, k)].0@ == k);
        }
        if has_key(next, k) {
            assert(entries[place_of(next, k)].0@ == k);
        }
    }
    lemma_entry_of(entries, i);
    assert forall|k: Seq<char>| has_key(next, k) implies #[trigger] entries_map(next)[k]
        == entries_map(entries).insert(key@, value)[k] by {
        let j = place_of(next, k);
        lemma_entry_of(next, j);
        lemma_entry_of(entries, j);
        assert(entries[j].0@ == k);
    }
    assert(entries_map(next) =~= entries_map(entries).insert(key@, value));
}

proof fn lemma_len<V>(entries: Seq<(String, V)>)
    requires
        keys_distinct(entries),
    ensures
        entries_map(entries).dom().finite(),
        entries_map(entries).len() == entries.len(),
    decreases entries.len(),
{
    if entries.len() == 0 {
        assert(entries_map(entries).dom() =~= Set::<Seq<char>>::empty());
    } else {
        let rest = entries.drop_last();
        let last = entries.last();
        lemma_len(rest);
        assert(!has_key(rest, last.0@)) by {
            if has_key(rest, last.0@) {
                let i = place_of(rest, last.0@);
                assert(entries[i].0@ == entries[entries.len() - 1].0@);
            }
        }
        lemma_push(rest, last.0, last.1);
        assert(rest.push((last.0, last.1)) =~= entries);
        assert(entries_map(entries).dom() =~= entries_map(rest).dom().insert(last.0@));
    }
}

/// A map from strings to `V`.
///
/// Its entries keep the order in which their keys first came.
#[derive(Debug)]
pub struct StringMap<V> {
    entries: Vec<(String, V)>,
}

impl<V> View for StringMap<V> {
    type V = Map<Seq<char>, V>;

    closed spec fn view(&self) -> Map<Seq<char>, V> {
        entries_map(self.entries@)
    }
}

impl<V> StringMap<V> {
    #[verifier::type_invariant]
    closed spec fn distinct(self) -> bool {
        keys_distinct(self.entries@)
    }

    /// The map without entries.
    pub fn new() -> (r: Self)
        ensures
            r@ == Map::<Seq<char>, V>::empty(),
    {
        let r = StringMap { entries: Vec::new() };
        assert(r@ =~= Map::<Seq<char>, V>::empty());
        r
    }

    fn find(&self, key: &str) -> (r: Option<usize>)
        ensures
            match r {
                Some(i) => i < self.entries@.len() && self.entries@[i as int].0@ == key@,
                None => !has_key(self.entries@, key@),
            },
    {
        let wanted = key.to_string();
        let mut i: usize = 0;
        while i < self.entries.len()
            invariant
                wanted@ == key@,
                i <= self.entries@.len(),
                forall|j: int| 0 <= j < i ==> (#[trigger] self.entries@[j]).0@ != key@,
            decreases self.entries@.len() - i,
        {
            if self.entries[i].0 == wanted {
                return Some(i);
            }
            i = i + 1;
        }
        None
    }

    /// Puts `value` at `key`, in place of what was there.
    pub fn insert(&mut self, key: String, value: V)
        ensures
            final(self)@ == old(self)@.insert(key@, value),
    {
        proof {
            use_type_invariant(&*self);
        }
        let found = self.find(key.as_str());
        let mut entries: Vec<(String, V)> = Vec::new();
        std::mem::swap(&mut entries, &mut self.entries);
        match found {
            Some(i) => {
                proof {
                    lemma_replace(entries@, i as int, key, value);
                }
                entries[i] = (key, value);
            },
            None => {
                proof {
                    lemma_push(entries@, key, value);
                }
                entries.push((key, value));
            },
        }
        self.entries = entries;
    }

    /// What stands at `key`.
    pub fn get(&self, key: &str) -> (r: Option<&V>)
        ensures
            match r {
                Some(v) => self@.contains_key(key@) && *v == self@[key@],
                None => !self@.contains_key(key@),
            },
    {
        proof {
            use_type_invariant(self);
        }
        match self.find(key) {
            Some(i) => {
                proof {
                    lemma_entry_of(self.entries@, i as int);
                }
                Some(&self.entries[i].1)
            },
            None => None,
        }
    }

    /// Whether something stands at `key`.
    pub fn contains_key(&self, key: &str) -> (r: bool)
        ensures
            r == self@.contains_key(key@),
    {
        self.get(key).is_some()
    }

    /// The number of keys.
    pub fn len(&self) -> (r: usize)
        ensures
            r == self@.len(),
            self@.dom().finite(),
    {
        proof {
            use_type_invariant(self);
            lemma_len(self.entries@);
        }
        self.entries.len()
    }

    /// The entries, each key once.
    pub fn into_entries(self) -> (r: Vec<(String, V)>)
        ensures
            keys_distinct(r@),
            entries_map(r@) == self@,
    {
        proof {
            use_type_invariant(&self);
        }
        self.entries
    }
}

} // verus!
