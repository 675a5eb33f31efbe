//! A map from byte strings, such as tokens and request tags, to values.
use vstd::prelude::*;

verus! {

/// A map keyed by byte strings.
pub struct Table<V> {
    entries: Vec<(Vec<u8>, V)>,
}

/// Whether two byte strings are the same.
pub fn bytes_equal(a: &[u8], b: &[u8]) -> (equal: bool)
    ensures
        equal == (a@ == b@),
{
    if a.len() != b.len() {
        return false;
    }
    let mut i: usize = 0;
    while i < a.len()
        invariant
            i <= a@.len(),
            a@.len() == b@.len(),
            forall|k: int| 0 <= k < i ==> a@[k] == b@[k],
        decreases a@.len() - i,
    {
        if a[i] != b[i] {
            return false;
        }
        i += 1;
    }
    assert(a@ =~= b@);
    true
}

/// A copy of a byte string.
pub fn copy_bytes(bytes: &[u8]) -> (copy: Vec<u8>)
    ensures
        copy@ == bytes@,
{
    let mut copy: Vec<u8> = Vec::new();
    let mut i: usize = 0;
    while i < bytes.len()
        invariant
            i <= bytes@.len(),
            copy@ == bytes@.take(i as int),
        decreases bytes@.len() - i,
    {
        copy.push(bytes[i]);
        i += 1;
        assert(copy@ =~= bytes@.take(i as int));
    }
    assert(bytes@.take(i as int) =~= bytes@);
    copy
}

/// Whether entry `i` has key `key`.
spec fn keyed<V>(entries: Seq<(Vec<u8>, V)>, i: int, key: Seq<u8>) -> bool {
    0 <= i < entries.len() && entries[i].0@ == key
}

spec fn distinct<V>(entries: Seq<(Vec<u8>, V)>) -> bool {
    forall|i: int, j: int|
        0 <= i < j < entries.len() ==> (#[trigger] entries[i]).0@ != (#[trigger] entries[j]).0@
}

spec fn as_map<V>(entries: Seq<(Vec<u8>, V)>) -> Map<Seq<u8>, V> {
    Map::new(
        |key: Seq<u8>| exists|i: int| keyed(entries, i, key),
        |key: Seq<u8>| entries[choose|i: int| keyed(entries, i, key)].1,
    )
}

proof fn lemma_entry<V>(entries: Seq<(Vec<u8>, V)>, i: int)
    requires
        distinct(entries),
        0 <= i < entries.len(),
    ensures
        as_map(entries).dom().contains(entries[i].0@),
        as_map(entries)[entries[i].0@] == entries[i].1,
{
    let key = entries[i].0@;
    assert(keyed(entries, i, key));
    let j = choose|j: int| keyed(entries, j, key);
    assert(keyed(entries, j, key));
    if j < i {
        assert(entries[j].0@ != entries[i].0@);
    } else if i < j {
        assert(entries[i].0@ != entries[j].0@);
    }
}

proof fn lemma_lookup<V>(entries: Seq<(Vec<u8>, V)>, key: Seq<u8>) -> (i: int)
    requires
        distinct(entries),
        as_map(entries).dom().contains(key),
    ensures
        keyed(entries, i, key),
        as_map(entries)[key] == entries[i].1,
{
    let i = choose|i: int| keyed(entries, i, key);
    lemma_entry(entries, i);
    i
}

proof fn lemma_push<V>(entries: Seq<(Vec<u8>, V)>, entry: (Vec<u8>, V))
    requires
        distinct(entries),
        !as_map(entries).dom().contains(entry.0@),
    ensures
        distinct(entries.push(entry)),
        as_map(entries.push(entry)) == as_map(entries).insert(entry.0@, entry.1),
{
    let after = entries.push(entry);
    assert forall|i: int| 0 <= i < entries.len() implies (#[trigger] entries[i]).0@ != entry.0@ by {
        lemma_entry(entries, i);
    }
    assert(distinct(after));
    let map = as_map(entries).insert(entry.0@, entry.1);
    assert forall|key: Seq<u8>| #[trigger]
        as_map(after).dom().contains(key) == map.dom().contains(key) by {
        if as_map(after).dom().contains(key) {
            let i = lemma_lookup(after, key);
            if i < entries.len() {
                lemma_entry(entries, i);
            }
        }
        if map.dom().contains(key) {
            if key == entry.0@ {
                lemma_entry(after, entries.len() as int);
            } else {
                let i = lemma_lookup(entries, key);
                lemma_entry(after, i);
            }
        }
    }
    assert forall|key: Seq<u8>| #[trigger] as_map(after).dom().contains(key) implies as_map(
        after,
    )[key] == map[key] by {
        let i = lemma_lookup(after, key);
        if i < entries.len() {
            lemma_entry(entries, i);
        }
    }
    assert(as_map(after) =~= map);
}

proof fn lemma_remove<V>(entries: Seq<(Vec<u8>, V)>, at: int)
    requires
        distinct(entries),
        0 <= at < entries.len(),
    ensures
        distinct(entries.remove(at)),
        as_map(entries.remove(at)) == as_map(entries).remove(entries[at].0@),
{
    let after = entries.remove(at);
    let gone = entries[at].0@;
    assert(forall|i: int| 0 <= i < at ==> after[i] == entries[i]);
    assert(forall|i: int| at <= i < after.len() ==> after[i] == entries[i + 1]);
    assert forall|i: int, j: int| 0 <= i < j < after.len() implies (#[trigger] after[i]).0@ != (
    #[trigger] after[j]).0@ by {
        let a = if i < at {
            i
        } else {
            i + 1
        };
        let b = if j < at {
            j
        } else {
            j + 1
        };
        assert(entries[a].0@ != entries[b].0@);
    }
    let map = as_map(entries).remove(gone);
    assert forall|key: Seq<u8>| #[trigger]
        as_map(after).dom().contains(key) == map.dom().contains(key) by {
        if as_map(after).dom().contains(key) {
            let i = lemma_lookup(after, key);
            if i < at {
                lemma_entry(entries, i);
                assert(entries[i].0@ != entries[at].0@);
            } else {
                lemma_entry(entries, i + 1);
                assert(entries[at].0@ != entries[i + 1].0@);
            }
        }
        if map.dom().contains(key) {
            let i = lemma_lookup(entries, key);
            lemma_entry(entries, at);
            assert(i != at);
            if i < at {
                lemma_entry(after, i);
            } else {
                lemma_entry(after, i - 1);
            }
        }
    }
    assert forall|key: Seq<u8>| #[trigger] as_map(after).dom().contains(key) implies as_map(
        after,
    )[key] == map[key] by {
        let i = lemma_lookup(after, key);
        if i < at {
            lemma_entry(entries, i);
        } else {
            lemma_entry(entries, i + 1);
        }
    }
    assert(as_map(after) =~= map);
}

impl<V> View for Table<V> {
    type V = Map<Seq<u8>, V>;

    closed spec fn view(&self) -> Map<Seq<u8>, V> {
        as_map(self.entries@)
    }
}

impl<V> Table<V> {
    /// No key occurs twice.
    pub closed spec fn wf(&self) -> bool {
        distinct(self.entries@)
    }

    /// An empty map.
    pub fn new() -> (table: Table<V>)
        ensures
            table.wf(),
            table@ == Map::<Seq<u8>, V>::empty(),
    {
        let table = Table { entries: Vec::new() };
        assert(table@ =~= Map::<Seq<u8>, V>::empty());
        table
    }

    /// There are finitely many keys, as many as entries.
    pub proof fn lemma_finite(&self)
        requires
            self.wf(),
        ensures
            self@.dom().finite(),
            self@.dom().len() == self.count(),
    {
        let entries = self.entries@;
        let keys = entries.map_values(|entry: (Vec<u8>, V)| entry.0@);
        assert(keys.no_duplicates()) by {
            assert forall|i: int, j: int|
                0 <= i < keys.len() && 0 <= j < keys.len() && i != j implies keys[i]
                != keys[j] by {
                if i < j {
                    assert(entries[i].0@ != entries[j].0@);
                } else {
                    assert(entries[j].0@ != entries[i].0@);
                }
            }
        }
        keys.unique_seq_to_set();
        assert forall|key: Seq<u8>|
            self@.dom().contains(key) <==> keys.to_set().contains(key) by {
            if self@.dom().contains(key) {
                let i = lemma_lookup(entries, key);
                assert(keys[i] == key);
            }
            if keys.to_set().contains(key) {
                let i = choose|i: int| 0 <= i < keys.len() && keys[i] == key;
                lemma_entry(entries, i);
            }
        }
        assert(self@.dom() =~= keys.to_set());
        vstd::seq_lib::seq_to_set_is_finite(keys);
    }

    /// The number of entries.
    pub closed spec fn count(&self) -> nat {
        self.entries@.len()
    }

    /// The number of entries.
    pub fn len(&self) -> (len: usize)
        requires
            self.wf(),
        ensures
            len == self@.dom().len(),
            self@.dom().finite(),
    {
        proof {
            self.lemma_finite();
        }
        self.entries.len()
    }

    /// Where the entry for `key` stands.
    fn position(&self, key: &[u8]) -> (at: Option<usize>)
        requires
            self.wf(),
        ensures
            at is Some == self@.dom().contains(key@),
            at matches Some(i) ==> keyed(self.entries@, i as int, key@) && self@[key@]
                == self.entries@[i as int].1,
    {
        let mut i: usize = 0;
        while i < self.entries.len()
            invariant
                i <= self.entries@.len(),
                distinct(self.entries@),
                forall|k: int| 0 <= k < i ==> (#[trigger] self.entries@[k]).0@ != key@,
            decreases self.entries@.len() - i,
        {
            if bytes_equal(self.entries[i].0.as_slice(), key) {
                proof {
                    lemma_entry(self.entries@, i as int);
                }
                return Some(i);
            }
            i += 1;
        }
        proof {
            if self@.dom().contains(key@) {
                let k = lemma_lookup(self.entries@, key@);
            }
        }
        None
    }

    /// The value for `key`.
    pub fn get(&self, key: &[u8]) -> (value: Option<&V>)
        requires
            self.wf(),
        ensures
            value is Some == self@.dom().contains(key@),
            value matches Some(v) ==> *v == self@[key@],
    {
        match self.position(key) {
            Some(i) => Some(&self.entries[i].1),
            None => None,
        }
    }

    /// Takes the entry for `key` out.
    pub fn remove(&mut self, key: &[u8]) -> (value: Option<V>)
        requires
            old(self).wf(),
        ensures
            final(self).wf(),
            final(self)@ == old(self)@.remove(key@),
            value is Some == old(self)@.dom().contains(key@),
            value matches Some(v) ==> v == old(self)@[key@],
    {
        match self.position(key) {
            Some(i) => {
                proof {
                    lemma_remove(self.entries@, i as int);
                }
                let entry = self.entries.remove(i);
                Some(entry.1)
            },
            None => {
                assert(self@.remove(key@) =~= self@);
                None
            },
        }
    }

    /// Sets the value for `key`.
    pub fn insert(&mut self, key: Vec<u8>, value: V)
        requires
            old(self).wf(),
        ensures
            final(self).wf(),
            final(self)@ == old(self)@.insert(key@, value),
    {
        let _ = self.remove(key.as_slice());
        proof {
            lemma_push(self.entries@, (key, value));
            assert(old(self)@.remove(key@).insert(key@, value) =~= old(self)@.insert(key@, value));
        }
        self.entries.push((key, value));
    }
}

} // verus!
