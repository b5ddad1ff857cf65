use vstd::prelude::*;

verus! {

/// A key whose equality can be decided in executable code, in agreement with
/// the equality of its view.
pub trait MapKey: View + Sized {
    fn same_key(&self, other: &Self) -> (res: bool)
        ensures
            res == (self@ == other@),
    ;
}

impl MapKey for String {
    fn same_key(&self, other: &String) -> (res: bool) {
        *self == *other
    }
}

/// The map that a list of entries stands for, where the first entry with a key
/// gives its value.
pub open spec fn entries_view<K: View, V: View>(entries: Seq<(K, V)>) -> Map<K::V, V::V>
    decreases entries.len(),
{
    if entries.len() == 0 {
        Map::empty()
    } else {
        let before = entries_view(entries.drop_last());
        if before.contains_key(entries.last().0@) {
            before
        } else {
            before.insert(entries.last().0@, entries.last().1@)
        }
    }
}

/// `i` is the position of the first entry with its key.
pub open spec fn is_first_entry<K: View, V>(entries: Seq<(K, V)>, i: int) -> bool {
    &&& 0 <= i < entries.len()
    &&& forall|j: int| 0 <= j < i ==> (#[trigger] entries[j]).0@ != entries[i].0@
}

proof fn lemma_entries_domain<K: View, V: View>(entries: Seq<(K, V)>, k: K::V)
    ensures
        entries_view(entries).contains_key(k) <==> exists|j: int|
            0 <= j < entries.len() && (#[trigger] entries[j]).0@ == k,
    decreases entries.len(),
{
    if entries.len() > 0 {
        let init = entries.drop_last();
        lemma_entries_domain(init, k);
        if exists|j: int| 0 <= j < init.len() && (#[trigger] init[j]).0@ == k {
            let j = choose|j: int| 0 <= j < init.len() && (#[trigger] init[j]).0@ == k;
            assert(entries[j] == init[j]);
        }
        if exists|j: int| 0 <= j < entries.len() && (#[trigger] entries[j]).0@ == k {
            let j = choose|j: int| 0 <= j < entries.len() && (#[trigger] entries[j]).0@ == k;
            if j < entries.len() - 1 {
                assert(init[j] == entries[j]);
            }
        }
    }
}

proof fn lemma_first_entry<K: View, V: View>(entries: Seq<(K, V)>, i: int)
    requires
        is_first_entry(entries, i),
    ensures
        entries_view(entries).contains_key(entries[i].0@),
        entries_view(entries)[entries[i].0@] == entries[i].1@,
    decreases entries.len(),
{
    let init = entries.drop_last();
    let k = entries[i].0@;
    if i == entries.len() - 1 {
        lemma_entries_domain(init, k);
        if exists|j: int| 0 <= j < init.len() && (#[trigger] init[j]).0@ == k {
            let j = choose|j: int| 0 <= j < init.len() && (#[trigger] init[j]).0@ == k;
            assert(entries[j] == init[j]);
        }
    } else {
        assert(is_first_entry(init, i)) by {
            assert forall|j: int| 0 <= j < i implies (#[trigger] init[j]).0@ != init[i].0@ by {
                assert(init[j] == entries[j]);
            }
        }
        lemma_first_entry(init, i);
    }
}

proof fn lemma_update_first_entry<K: View, V: View>(entries: Seq<(K, V)>, i: int, entry: (K, V))
    requires
        is_first_entry(entries, i),
        entry.0@ == entries[i].0@,
    ensures
        entries_view(entries.update(i, entry)) == entries_view(entries).insert(entry.0@, entry.1@),
        is_first_entry(entries.update(i, entry), i),
    decreases entries.len(),
{
    let updated = entries.update(i, entry);
    let init = entries.drop_last();
    let k = entry.0@;
    assert(is_first_entry(updated, i)) by {
        assert forall|j: int| 0 <= j < i implies (#[trigger] updated[j]).0@ != updated[i].0@ by {
            assert(updated[j] == entries[j]);
        }
    }
    if i == entries.len() - 1 {
        assert(updated.drop_last() == init);
        lemma_entries_domain(init, k);
        if exists|j: int| 0 <= j < init.len() && (#[trigger] init[j]).0@ == k {
            let j = choose|j: int| 0 <= j < init.len() && (#[trigger] init[j]).0@ == k;
            assert(entries[j] == init[j]);
        }
        assert(entries_view(updated) =~= entries_view(entries).insert(k, entry.1@));
    } else {
        assert(is_first_entry(init, i)) by {
            assert forall|j: int| 0 <= j < i implies (#[trigger] init[j]).0@ != init[i].0@ by {
                assert(init[j] == entries[j]);
            }
        }
        assert(updated.drop_last() == init.update(i, entry));
        lemma_update_first_entry(init, i, entry);
        lemma_first_entry(init, i);
        assert(entries_view(updated) =~= entries_view(entries).insert(k, entry.1@));
    }
}

/// A map from keys to values held as a list of entries, the first entry with a
/// key giving its value.
pub struct KeyedMap<K, V> {
    entries: Vec<(K, V)>,
}

impl<K: View, V: View> View for KeyedMap<K, V> {
    type V = Map<K::V, V::V>;

    closed spec fn view(&self) -> Map<K::V, V::V> {
        entries_view(self.entries@)
    }
}

impl<K: MapKey, V: View> KeyedMap<K, V> {
    /// The position of the entry that gives the value of the key at `i`.
    pub closed spec fn holds_key_at(&self, i: int) -> bool {
        is_first_entry(self.entries@, i)
    }

    /// The key held at `i`.
    pub closed spec fn key_at(&self, i: int) -> K::V {
        self.entries@[i].0@
    }

    /// An empty map.
    pub fn new() -> (res: Self)
        ensures
            res@ == Map::<K::V, V::V>::empty(),
    {
        let res = KeyedMap { entries: Vec::new() };
        assert(res@ =~= Map::<K::V, V::V>::empty());
        res
    }

    /// The position that holds `key`, if the map has it.
    pub fn find(&self, key: &K) -> (res: Option<usize>)
        ensures
            res is None <==> !self@.contains_key(key@),
            res matches Some(i) ==> self.holds_key_at(i as int) && self.key_at(i as int) == key@,
    {
        let mut i: usize = 0;
        while i < self.entries.len()
            invariant
                i <= self.entries@.len(),
                forall|j: int| 0 <= j < i ==> (#[trigger] self.entries@[j]).0@ != key@,
            decreases self.entries@.len() - i,
        {
            if self.entries[i].0.same_key(key) {
                proof {
                    lemma_first_entry(self.entries@, i as int);
                }
                return Some(i);
            }
            i = i + 1;
        }
        proof {
            lemma_entries_domain(self.entries@, key@);
        }
        None
    }

    /// The value of `key`, if the map has it.
    pub fn get(&self, key: &K) -> (res: Option<&V>)
        ensures
            res is None <==> !self@.contains_key(key@),
            res matches Some(v) ==> v@ == self@[key@],
    {
        match self.find(key) {
            Some(i) => {
                proof {
                    lemma_first_entry(self.entries@, i as int);
                }
                Some(&self.entries[i].1)
            },
            None => None,
        }
    }

    /// Puts `value` in the place of the value held at `i`, and returns the
    /// value that was there.
    pub fn replace_at(&mut self, i: usize, value: V) -> (old_value: V)
        requires
            old(self).holds_key_at(i as int),
        ensures
            final(self)@ == old(self)@.insert(old(self).key_at(i as int), value@),
            old_value@ == old(self)@[old(self).key_at(i as int)],
            final(self).holds_key_at(i as int),
            final(self).key_at(i as int) == old(self).key_at(i as int),
    {
        proof {
            lemma_first_entry(self.entries@, i as int);
        }
        let ghost before = self.entries@;
        let (key, old_value) = self.entries.remove(i);
        self.entries.insert(i, (key, value));
        proof {
            assert(self.entries@ =~= before.update(i as int, (key, value)));
            lemma_update_first_entry(before, i as int, (key, value));
        }
        old_value
    }

    /// Gives `key` the value `value`.
    pub fn insert(&mut self, key: K, value: V)
        ensures
            final(self)@ == old(self)@.insert(key@, value@),
    {
        match self.find(&key) {
            Some(i) => {
                let _ = self.replace_at(i, value);
            },
            None => {
                let ghost before = self.entries@;
                self.entries.push((key, value));
                assert(self.entries@.drop_last() == before);
            },
        }
    }
}

} // verus!
