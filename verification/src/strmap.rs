//! A small verified association map with `String` keys, backed by a vector of
//! entries with pairwise-distinct keys.  Its abstract value is a
//! `Map<Seq<char>, V>`; every operation is specified against that map.

use vstd::prelude::*;

verus! {

/// The finite map denoted by an association list of `String` keys, read
/// through their character sequences; later entries win.
pub open spec fn str_map_of<V>(entries: Seq<(String, V)>) -> Map<Seq<char>, V>
    decreases entries.len(),
{
    if entries.len() == 0 {
        Map::<Seq<char>, V>::empty()
    } else {
        str_map_of(entries.drop_last()).insert(entries.last().0@, entries.last().1)
    }
}

/// No two entries carry the same key.
pub open spec fn str_keys_unique<V>(entries: Seq<(String, V)>) -> bool {
    forall|i: int, j: int|
        0 <= i < j < entries.len() ==> entries[i].0@ != entries[j].0@
}

proof fn lemma_contains<V>(entries: Seq<(String, V)>, k: Seq<char>)
    ensures
        str_map_of(entries).contains_key(k) <==> exists|i: int|
            0 <= i < entries.len() && entries[i].0@ == k,
    decreases entries.len(),
{
    if entries.len() > 0 {
        let prefix = entries.drop_last();
        lemma_contains(prefix, k);
        if str_map_of(entries).contains_key(k) {
            if entries.last().0@ != k {
                let i = choose|i: int| 0 <= i < prefix.len() && prefix[i].0@ == k;
                assert(entries[i].0@ == k);
            } else {
                assert(entries[entries.len() - 1].0@ == k);
            }
        }
        if exists|i: int| 0 <= i < entries.len() && entries[i].0@ == k {
            let i = choose|i: int| 0 <= i < entries.len() && entries[i].0@ == k;
            if i < entries.len() - 1 {
                assert(prefix[i].0@ == k);
            }
        }
    }
}

proof fn lemma_index<V>(entries: Seq<(String, V)>, i: int)
    requires
        str_keys_unique(entries),
        0 <= i < entries.len(),
    ensures
        str_map_of(entries).contains_key(entries[i].0@),
        str_map_of(entries)[entries[i].0@] == entries[i].1,
    decreases entries.len(),
{
    let prefix = entries.drop_last();
    if i < entries.len() - 1 {
        lemma_index(prefix, i);
        assert(entries.last().0@ != entries[i].0@);
    }
}

proof fn lemma_remove<V>(entries: Seq<(String, V)>, i: int)
    requires
        str_keys_unique(entries),
        0 <= i < entries.len(),
    ensures
        str_keys_unique(entries.remove(i)),
        str_map_of(entries.remove(i)) == str_map_of(entries).remove(entries[i].0@),
    decreases entries.len(),
{
    let k = entries[i].0@;
    let prefix = entries.drop_last();
    if i == entries.len() - 1 {
        assert(entries.remove(i) =~= prefix);
        lemma_contains(prefix, k);
        assert(str_map_of(prefix) =~= str_map_of(entries).remove(k));
    } else {
        lemma_remove(prefix, i);
        assert(entries.remove(i).drop_last() =~= prefix.remove(i));
        assert(entries.remove(i).last() == entries.last());
        assert(str_map_of(entries.remove(i)) == str_map_of(prefix.remove(i)).insert(
            entries.last().0@,
            entries.last().1,
        ));
        assert(str_map_of(prefix).remove(k).insert(entries.last().0@, entries.last().1)
            =~= str_map_of(entries).remove(k));
    }
}

proof fn lemma_push<V>(entries: Seq<(String, V)>, key: String, value: V)
    requires
        str_keys_unique(entries),
        forall|i: int| 0 <= i < entries.len() ==> entries[i].0@ != key@,
    ensures
        str_keys_unique(entries.push((key, value))),
        str_map_of(entries.push((key, value))) == str_map_of(entries).insert(key@, value),
{
    assert(entries.push((key, value)).drop_last() =~= entries);
    assert(forall|i: int, j: int|
        0 <= i < j < entries.push((key, value)).len() ==> entries.push((key, value))[i].0@
            != entries.push((key, value))[j].0@);
}

/// An association map from `String` keys to values, with an invariant that
/// keys are pairwise distinct.  Its view is the corresponding finite map
/// keyed by character sequences.
pub struct StrMap<V> {
    entries: Vec<(String, V)>,
}

impl<V> View for StrMap<V> {
    type V = Map<Seq<char>, V>;

    closed spec fn view(&self) -> Map<Seq<char>, V> {
        str_map_of(self.entries@)
    }
}

impl<V> StrMap<V> {
    /// The keys stored are pairwise distinct.
    pub closed spec fn wf(&self) -> bool {
        str_keys_unique(self.entries@)
    }

    /// How many entries are stored; a termination measure for loops that
    /// drain the map.
    pub closed spec fn spec_len(&self) -> nat {
        self.entries@.len()
    }

    /// An empty map.
    pub fn new() -> (m: StrMap<V>)
        ensures
            m.wf(),
            m@ == Map::<Seq<char>, V>::empty(),
    {
        StrMap { entries: Vec::new() }
    }

    fn find(&self, key: &String) -> (r: Option<usize>)
        requires
            self.wf(),
        ensures
            match r {
                Some(i) => i < self.entries@.len() && self.entries@[i as int].0@ == key@
                    && self@.contains_key(key@) && self@[key@] == self.entries@[i as int].1,
                None => !self@.contains_key(key@),
            },
    {
        let n = self.entries.len();
        let mut i: usize = 0;
        while i < n
            invariant
                n == self.entries@.len(),
                i <= n,
                self.wf(),
                forall|j: int| 0 <= j < i ==> self.entries@[j].0@ != key@,
            decreases n - i,
        {
            if self.entries[i].0 == *key {
                proof {
                    lemma_index(self.entries@, i as int);
                }
                return Some(i);
            }
            i = i + 1;
        }
        proof {
            lemma_contains(self.entries@, key@);
        }
        None
    }

    /// Looks a key up.
    pub fn get(&self, key: &String) -> (r: Option<&V>)
        requires
            self.wf(),
        ensures
            match r {
                Some(v) => self@.contains_key(key@) && *v == self@[key@],
                None => !self@.contains_key(key@),
            },
    {
        match self.find(key) {
            Some(i) => Some(&self.entries[i].1),
            None => None,
        }
    }

    /// Inserts a binding, replacing any previous binding of the same key.
    pub fn insert(&mut self, key: String, value: V)
        requires
            old(self).wf(),
        ensures
            final(self).wf(),
            final(self)@ == old(self)@.insert(key@, value),
    {
        match self.find(&key) {
            Some(i) => {
                proof {
                    lemma_remove(self.entries@, i as int);
                }
                let _ = self.entries.remove(i);
                proof {
                    lemma_contains(self.entries@, key@);
                    lemma_push(self.entries@, key, value);
                }
                self.entries.push((key, value));
                proof {
                    assert(old(self)@.remove(key@).insert(key@, value) =~= old(self)@.insert(
                        key@,
                        value,
                    ));
                }
            },
            None => {
                proof {
                    lemma_contains(self.entries@, key@);
                    lemma_push(self.entries@, key, value);
                }
                self.entries.push((key, value));
            },
        }
    }

    /// Removes a binding if present, returning its value.
    pub fn remove_key(&mut self, key: &String) -> (r: Option<V>)
        requires
            old(self).wf(),
        ensures
            final(self).wf(),
            final(self)@ == old(self)@.remove(key@),
            match r {
                Some(v) => old(self)@.contains_key(key@) && v == old(self)@[key@],
                None => !old(self)@.contains_key(key@),
            },
    {
        match self.find(key) {
            Some(i) => {
                proof {
                    lemma_remove(self.entries@, i as int);
                }
                let e = self.entries.remove(i);
                Some(e.1)
            },
            None => {
                proof {
                    assert(old(self)@.remove(key@) =~= old(self)@);
                }
                None
            },
        }
    }

    /// Removes and returns some entry, or `None` when the map is empty.
    pub fn pop_entry(&mut self) -> (r: Option<(String, V)>)
        requires
            old(self).wf(),
        ensures
            final(self).wf(),
            match r {
                Some(e) => old(self)@.contains_key(e.0@) && old(self)@[e.0@] == e.1
                    && final(self)@ == old(self)@.remove(e.0@)
                    && final(self).spec_len() < old(self).spec_len(),
                None => old(self)@ == Map::<Seq<char>, V>::empty() && final(self)@ == old(self)@
                    && final(self).spec_len() == 0,
            },
    {
        let n = self.entries.len();
        if n == 0 {
            return None;
        }
        proof {
            lemma_index(self.entries@, n - 1);
            lemma_remove(self.entries@, n - 1);
            assert(self.entries@.remove(n - 1) =~= self.entries@.subrange(0, n - 1));
        }
        match self.entries.pop() {
            Some(e) => Some(e),
            None => None,
        }
    }
}

} // verus!
