//! A small map from names to values that keeps its entries in the order in
//! which they were first inserted, and the names of the files a collection
//! of named entries is stored in.

use vstd::prelude::*;

verus! {

/// A map from names to values.
#[derive(Debug, Clone)]
pub struct KeyedMap<V> {
    entries: Vec<(String, V)>,
}

pub open spec fn entry_keys<V>(e: Seq<(String, V)>) -> Seq<Seq<char>> {
    e.map_values(|x: (String, V)| x.0@)
}

/// Key to value, later entries taking precedence.
pub open spec fn entries_to_map<V: View>(e: Seq<(String, V)>) -> Map<Seq<char>, V::V>
    decreases e.len(),
{
    if e.len() == 0 {
        Map::empty()
    } else {
        entries_to_map(e.drop_last()).insert(e.last().0@, e.last().1@)
    }
}

/// With no key twice, the map holds exactly the keys of the entries, each
/// with the value of its entry.
pub proof fn lemma_entries_to_map<V: View>(e: Seq<(String, V)>)
    requires
        entry_keys(e).no_duplicates(),
    ensures
        forall|k: Seq<char>| #[trigger]
            entries_to_map(e).contains_key(k) <==> entry_keys(e).contains(k),
        forall|i: int| 0 <= i < e.len() ==> entries_to_map(e)[#[trigger] e[i].0@] == e[i].1@,
        entries_to_map(e).dom() == entry_keys(e).to_set(),
    decreases e.len(),
{
    if e.len() > 0 {
        let init = e.drop_last();
        let keys = entry_keys(e);
        assert(entry_keys(init) =~= keys.drop_last());
        assert(entry_keys(init).no_duplicates()) by {
            assert forall|a: int, b: int|
                0 <= a < entry_keys(init).len() && 0 <= b < entry_keys(init).len() && a
                    != b implies entry_keys(init)[a] != entry_keys(init)[b] by {
                assert(keys[a] != keys[b]);
            }
        }
        lemma_entries_to_map(init);
        let last = e.last().0@;
        assert forall|k: Seq<char>| #[trigger] keys.contains(k) <==> (entry_keys(init).contains(k)
            || k == last) by {
            if keys.contains(k) {
                let j = choose|j: int| 0 <= j < keys.len() && keys[j] == k;
                if j < e.len() - 1 {
                    assert(entry_keys(init)[j] == k);
                }
            }
            if entry_keys(init).contains(k) {
                let j = choose|j: int| 0 <= j < entry_keys(init).len() && entry_keys(init)[j] == k;
                assert(keys[j] == k);
            }
            if k == last {
                assert(keys[e.len() - 1] == k);
            }
        }
        assert forall|i: int| 0 <= i < e.len() implies entries_to_map(e)[#[trigger] e[i].0@]
            == e[i].1@ by {
            if i < e.len() - 1 {
                assert(keys[i] != keys[e.len() - 1]);
                assert(init[i] == e[i]);
            }
        }
    }
    assert(entries_to_map(e).dom() =~= entry_keys(e).to_set());
}

impl<V: View> View for KeyedMap<V> {
    type V = Map<Seq<char>, V::V>;

    closed spec fn view(&self) -> Map<Seq<char>, V::V> {
        entries_to_map(self.entries@)
    }
}

impl<V: View> KeyedMap<V> {
    /// No key occurs twice.
    pub closed spec fn wf(&self) -> bool {
        entry_keys(self.entries@).no_duplicates()
    }

    /// The keys, in the order in which they were first inserted.
    pub closed spec fn key_order(&self) -> Seq<Seq<char>> {
        entry_keys(self.entries@)
    }

    /// The keys are those of the map, each once.
    pub proof fn lemma_key_order(&self)
        requires
            self.wf(),
        ensures
            self.key_order().no_duplicates(),
            self.key_order().to_set() == self@.dom(),
            self@.dom().finite(),
            self@.len() == self.key_order().len(),
    {
        lemma_entries_to_map(self.entries@);
        entry_keys(self.entries@).unique_seq_to_set();
    }

    /// An empty map.
    pub fn new() -> (res: Self)
        ensures
            res.wf(),
            res@ == Map::<Seq<char>, V::V>::empty(),
            res.key_order() == Seq::<Seq<char>>::empty(),
    {
        let res = KeyedMap { entries: Vec::new() };
        assert(res@ =~= Map::<Seq<char>, V::V>::empty());
        assert(res.key_order() =~= Seq::<Seq<char>>::empty());
        res
    }

    fn position(&self, key: &str) -> (res: Option<usize>)
        requires
            self.wf(),
        ensures
            match res {
                Some(i) => i < self.entries@.len() && self.entries@[i as int].0@ == key@,
                None => !self@.contains_key(key@),
            },
    {
        let mut i: usize = 0;
        while i < self.entries.len()
            invariant
                i <= self.entries@.len(),
                forall|j: int| 0 <= j < i ==> self.entries@[j].0@ != key@,
            decreases self.entries@.len() - i,
        {
            if crate::text::str_equal(self.entries[i].0.as_str(), key) {
                return Some(i);
            }
            i = i + 1;
        }
        proof {
            lemma_entries_to_map(self.entries@);
            if entry_keys(self.entries@).contains(key@) {
                let k = choose|k: int|
                    0 <= k < entry_keys(self.entries@).len() && entry_keys(self.entries@)[k]
                        == key@;
                assert(self.entries@[k].0@ == key@);
            }
        }
        None
    }

    /// The value under `key`.
    pub fn get(&self, key: &str) -> (res: Option<&V>)
        requires
            self.wf(),
        ensures
            match res {
                Some(v) => self@.contains_key(key@) && self@[key@] == v@,
                None => !self@.contains_key(key@),
            },
    {
        match self.position(key) {
            Some(i) => {
                proof {
                    lemma_entries_to_map(self.entries@);
                    assert(entry_keys(self.entries@)[i as int] == key@);
                }
                Some(&self.entries[i].1)
            },
            None => None,
        }
    }

    /// Whether the map holds a value under `key`.
    pub fn contains_key(&self, key: &str) -> (res: bool)
        requires
            self.wf(),
        ensures
            res == self@.contains_key(key@),
    {
        match self.get(key) {
            Some(_) => true,
            None => false,
        }
    }

    /// The number of keys.
    pub fn len(&self) -> (res: usize)
        requires
            self.wf(),
        ensures
            res == self@.len(),
    {
        proof {
            self.lemma_key_order();
        }
        self.entries.len()
    }

    /// Puts `value` under `key`, giving back the value that was there.
    pub fn insert(&mut self, key: String, value: V) -> (res: Option<V>)
        requires
            old(self).wf(),
        ensures
            final(self).wf(),
            final(self)@ == old(self)@.insert(key@, value@),
            match res {
                Some(v) => old(self)@.contains_key(key@) && v@ == old(self)@[key@],
                None => !old(self)@.contains_key(key@),
            },
            old(self)@.contains_key(key@) ==> final(self).key_order() == old(self).key_order(),
            !old(self)@.contains_key(key@) ==> final(self).key_order() == old(
                self,
            ).key_order().push(key@),
    {
        let ghost before = self.entries@;
        let ghost kv = key@;
        let ghost vv = value@;
        proof {
            lemma_entries_to_map(before);
        }
        match self.position(key.as_str()) {
            Some(i) => {
                let previous = self.entries.remove(i);
                self.entries.insert(i, (key, value));
                proof {
                    let after = self.entries@;
                    assert(after =~= before.update(i as int, after[i as int]));
                    assert(entry_keys(after) =~= entry_keys(before));
                    lemma_entries_to_map(after);
                    assert(entry_keys(before)[i as int] == kv);
                    assert(entries_to_map(after) =~= entries_to_map(before).insert(kv, vv)) by {
                        assert forall|k: Seq<char>| #[trigger]
                            entries_to_map(after).contains_key(k) implies entries_to_map(
                            after,
                        )[k] == entries_to_map(before).insert(kv, vv)[k] by {
                            let j = choose|j: int|
                                0 <= j < entry_keys(after).len() && entry_keys(after)[j] == k;
                            assert(after[j].0@ == k);
                            if j != i {
                                assert(after[j] == before[j]);
                            }
                        }
                    }
                }
                Some(previous.1)
            },
            None => {
                self.entries.push((key, value));
                proof {
                    let after = self.entries@;
                    assert(after.drop_last() =~= before);
                    assert(entry_keys(after) =~= entry_keys(before).push(kv));
                    assert(!entry_keys(before).contains(kv));
                    assert(entry_keys(after).no_duplicates()) by {
                        assert forall|a: int, b: int|
                            0 <= a < entry_keys(after).len() && 0 <= b < entry_keys(after).len()
                                && a != b implies entry_keys(after)[a] != entry_keys(after)[b] by {
                            if a < before.len() && b < before.len() {
                                assert(entry_keys(before)[a] != entry_keys(before)[b]);
                            } else if a < before.len() {
                                assert(entry_keys(before)[a] == entry_keys(after)[a]);
                            } else {
                                assert(entry_keys(before)[b] == entry_keys(after)[b]);
                            }
                        }
                    }
                }
                None
            },
        }
    }

    /// Takes the value under `key` out of the map.
    pub fn take(&mut self, key: &str) -> (res: Option<V>)
        requires
            old(self).wf(),
        ensures
            final(self).wf(),
            final(self)@ == old(self)@.remove(key@),
            match res {
                Some(v) => old(self)@.contains_key(key@) && v@ == old(self)@[key@],
                None => !old(self)@.contains_key(key@),
            },
    {
        let ghost before = self.entries@;
        proof {
            lemma_entries_to_map(before);
        }
        match self.position(key) {
            Some(i) => {
                let previous = self.entries.remove(i);
                proof {
                    let after = self.entries@;
                    let kb = entry_keys(before);
                    assert(entry_keys(after) =~= kb.remove(i as int));
                    assert(kb[i as int] == key@);
                    assert(entry_keys(after).no_duplicates()) by {
                        assert forall|a: int, b: int|
                            0 <= a < entry_keys(after).len() && 0 <= b < entry_keys(after).len()
                                && a != b implies entry_keys(after)[a] != entry_keys(after)[b] by {
                            let a2 = if a < i { a } else { a + 1 };
                            let b2 = if b < i { b } else { b + 1 };
                            assert(entry_keys(after)[a] == kb[a2]);
                            assert(entry_keys(after)[b] == kb[b2]);
                        }
                    }
                    lemma_entries_to_map(after);
                    assert(entries_to_map(after) =~= entries_to_map(before).remove(key@)) by {
                        assert forall|k: Seq<char>|
                            entries_to_map(after).contains_key(k) <==> entries_to_map(
                                before,
                            ).remove(key@).contains_key(k) by {
                            if entry_keys(after).contains(k) {
                                let j = choose|j: int|
                                    0 <= j < entry_keys(after).len() && entry_keys(after)[j] == k;
                                let j2 = if j < i { j } else { j + 1 };
                                assert(kb[j2] == k);
                                assert(j2 != i);
                            }
                            if kb.contains(k) && k != key@ {
                                let j = choose|j: int| 0 <= j < kb.len() && kb[j] == k;
                                assert(j != i);
                                let j2 = if j < i { j } else { j - 1 };
                                assert(entry_keys(after)[j2] == k);
                            }
                        }
                        assert forall|k: Seq<char>| #[trigger]
                            entries_to_map(after).contains_key(k) implies entries_to_map(
                            after,
                        )[k] == entries_to_map(before)[k] by {
                            let j = choose|j: int|
                                0 <= j < entry_keys(after).len() && entry_keys(after)[j] == k;
                            let j2 = if j < i { j } else { j + 1 };
                            assert(after[j] == before[j2]);
                        }
                    }
                }
                Some(previous.1)
            },
            None => {
                assert(entries_to_map(before).remove(key@) =~= entries_to_map(before));
                None
            },
        }
    }

    /// The keys, in the order in which they were first inserted.
    pub fn keys(&self) -> (res: Vec<String>)
        ensures
            crate::text::views(res@) == self.key_order(),
    {
        let mut res: Vec<String> = Vec::new();
        let mut i: usize = 0;
        while i < self.entries.len()
            invariant
                i <= self.entries@.len(),
                crate::text::views(res@) == entry_keys(self.entries@).subrange(0, i as int),
            decreases self.entries@.len() - i,
        {
            let ghost prev = res@;
            let k = self.entries[i].0.clone();
            res.push(k);
            proof {
                assert(res@ == prev.push(k));
                assert(crate::text::views(res@) =~= crate::text::views(prev).push(k@));
                assert(entry_keys(self.entries@).subrange(0, i + 1) =~= entry_keys(
                    self.entries@,
                ).subrange(0, i as int).push(self.entries@[i as int].0@));
            }
            i = i + 1;
        }
        assert(entry_keys(self.entries@).subrange(0, i as int) =~= entry_keys(self.entries@));
        res
    }
}


/// The name of the entry stored in a file of a collection whose files end
/// in `.` and `extension`: the file name without that suffix; none for a
/// file that does not end so.
pub open spec fn entry_name(file_name: Seq<char>, extension: Seq<char>) -> Option<Seq<char>> {
    let suffix = seq!['.'] + extension;
    if suffix.len() <= file_name.len() && file_name.subrange(
        file_name.len() - suffix.len(),
        file_name.len() as int,
    ) == suffix {
        Some(file_name.subrange(0, file_name.len() - suffix.len()))
    } else {
        None
    }
}

/// The name of the entry stored in a file of a collection, as `entry_name`
/// states.
pub fn collection_entry_name(file_name: &str, extension: &str) -> (res: Option<String>)
    ensures
        match res {
            Some(n) => entry_name(file_name@, extension@) == Some(n@),
            None => entry_name(file_name@, extension@) is None,
        },
{
    let n = file_name.unicode_len();
    let e = extension.unicode_len();
    if e >= n {
        proof {
            assert(!((seq!['.'] + extension@).len() <= file_name@.len()));
        }
        return None;
    }
    let start = n - e - 1;
    if file_name.get_char(start) != '.' {
        proof {
            let suffix = seq!['.'] + extension@;
            if file_name@.subrange(start as int, n as int) == suffix {
                assert(file_name@.subrange(start as int, n as int)[0] == suffix[0]);
            }
        }
        return None;
    }
    let tail = file_name.substring_char(start + 1, n);
    if crate::text::str_equal(tail, extension) {
        proof {
            assert(file_name@.subrange(start as int, n as int) =~= seq!['.'] + extension@);
        }
        Some(crate::text::substring(file_name, 0, start))
    } else {
        proof {
            let suffix = seq!['.'] + extension@;
            if file_name@.subrange(start as int, n as int) == suffix {
                assert(tail@ =~= extension@) by {
                    assert forall|j: int| 0 <= j < e implies tail@[j] == extension@[j] by {
                        assert(file_name@.subrange(start as int, n as int)[j + 1] == suffix[j + 1]);
                    }
                }
            }
        }
        None
    }
}

} // verus!
