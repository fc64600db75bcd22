//! A small verified association map with `u64` keys, backed by a vector of
//! entries with pairwise-distinct keys; the session table uses it to hold one
//! outbound channel per connection.  Its abstract value is a `Map<u64, V>`.

use vstd::prelude::*;

verus! {

/// The finite map denoted by an association list of `u64` keys; later
/// entries win.
pub open spec fn id_map_of<V>(entries: Seq<(u64, V)>) -> Map<u64, V>
    decreases entries.len(),
{
    if entries.len() == 0 {
        Map::<u64, V>::empty()
    } else {
        id_map_of(entries.drop_last()).insert(entries.last().0, entries.last().1)
    }
}

/// No two entries carry the same key.
pub open spec fn id_keys_unique<V>(entries: Seq<(u64, V)>) -> bool {
    forall|i: int, j: int|
        0 <= i < j < entries.len() ==> entries[i].0 != entries[j].0
}

proof fn lemma_contains<V>(entries: Seq<(u64, V)>, k: u64)
    ensures
        id_map_of(entries).contains_key(k) <==> exists|i: int|
            0 <= i < entries.len() && entries[i].0 == k,
    decreases entries.len(),
{
    if entries.len() > 0 {
        let prefix = entries.drop_last();
        lemma_contains(prefix, k);
        if id_map_of(entries).contains_key(k) {
            if entries.last().0 != k {
                let i = choose|i: int| 0 <= i < prefix.len() && prefix[i].0 == k;
                assert(entries[i].0 == k);
            } else {
                assert(entries[entries.len() - 1].0 == k);
            }
        }
        if exists|i: int| 0 <= i < entries.len() && entries[i].0 == k {
            let i = choose|i: int| 0 <= i < entries.len() && entries[i].0 == k;
            if i < entries.len() - 1 {
                assert(prefix[i].0 == k);
            }
        }
    }
}

proof fn lemma_index<V>(entries: Seq<(u64, V)>, i: int)
    requires
        id_keys_unique(entries),
        0 <= i < entries.len(),
    ensures
        id_map_of(entries).contains_key(entries[i].0),
        id_map_of(entries)[entries[i].0] == entries[i].1,
    decreases entries.len(),
{
    let prefix = entries.drop_last();
    if i < entries.len() - 1 {
        lemma_index(prefix, i);
        assert(entries.last().0 != entries[i].0);
    }
}

proof fn lemma_remove<V>(entries: Seq<(u64, V)>, i: int)
    requires
        id_keys_unique(entries),
        0 <= i < entries.len(),
    ensures
        id_keys_unique(entries.remove(i)),
        id_map_of(entries.remove(i)) == id_map_of(entries).remove(entries[i].0),
    decreases entries.len(),
{
    let k = entries[i].0;
    let prefix = entries.drop_last();
    if i == entries.len() - 1 {
        assert(entries.remove(i) =~= prefix);
        lemma_contains(prefix, k);
        assert(id_map_of(prefix) =~= id_map_of(entries).remove(k));
    } else {
        lemma_remove(prefix, i);
        assert(entries.remove(i).drop_last() =~= prefix.remove(i));
        assert(entries.remove(i).last() == entries.last());
        assert(id_map_of(entries.remove(i)) == id_map_of(prefix.remove(i)).insert(
            entries.last().0,
            entries.last().1,
        ));
        assert(id_map_of(prefix).remove(k).insert(entries.last().0, entries.last().1)
            =~= id_map_of(entries).remove(k));
    }
}

proof fn lemma_push<V>(entries: Seq<(u64, V)>, key: u64, value: V)
    requires
        id_keys_unique(entries),
        forall|i: int| 0 <= i < entries.len() ==> entries[i].0 != key,
    ensures
        id_keys_unique(entries.push((key, value))),
        id_map_of(entries.push((key, value))) == id_map_of(entries).insert(key, value),
{
    assert(entries.push((key, value)).drop_last() =~= entries);
    assert(forall|i: int, j: int|
        0 <= i < j < entries.push((key, value)).len() ==> entries.push((key, value))[i].0
            != entries.push((key, value))[j].0);
}

proof fn lemma_dom_len<V>(entries: Seq<(u64, V)>)
    requires
        id_keys_unique(entries),
    ensures
        id_map_of(entries).dom().finite(),
        id_map_of(entries).dom().len() == entries.len(),
    decreases entries.len(),
{
    if entries.len() > 0 {
        let prefix = entries.drop_last();
        lemma_dom_len(prefix);
        lemma_contains(prefix, entries.last().0);
        assert(!id_map_of(prefix).contains_key(entries.last().0));
    }
}

proof fn lemma_u64_range_len(c: u64)
    ensures
        Set::new(|x: u64| x < c).finite(),
        Set::new(|x: u64| x < c).len() == c as int,
    decreases c,
{
    if c == 0 {
        assert(Set::new(|x: u64| x < c) =~= Set::<u64>::empty());
    } else {
        lemma_u64_range_len((c - 1) as u64);
        assert(Set::new(|x: u64| x < c) =~= Set::new(|x: u64| x < (c - 1) as u64).insert(
            (c - 1) as u64,
        ));
    }
}

/// An association map from `u64` keys to values, with an invariant that keys
/// are pairwise distinct.
pub struct IdMap<V> {
    entries: Vec<(u64, V)>,
}

impl<V> View for IdMap<V> {
    type V = Map<u64, V>;

    closed spec fn view(&self) -> Map<u64, V> {
        id_map_of(self.entries@)
    }
}

impl<V> IdMap<V> {
    /// The keys stored are pairwise distinct.
    pub closed spec fn wf(&self) -> bool {
        id_keys_unique(self.entries@)
    }

    /// An empty map.
    pub fn new() -> (m: IdMap<V>)
        ensures
            m.wf(),
            m@ == Map::<u64, V>::empty(),
    {
        IdMap { entries: Vec::new() }
    }

    fn find(&self, key: u64) -> (r: Option<usize>)
        requires
            self.wf(),
        ensures
            match r {
                Some(i) => i < self.entries@.len() && self.entries@[i as int].0 == key
                    && self@.contains_key(key) && self@[key] == self.entries@[i as int].1,
                None => !self@.contains_key(key),
            },
    {
        let n = self.entries.len();
        let mut i: usize = 0;
        while i < n
            invariant
                n == self.entries@.len(),
                i <= n,
                self.wf(),
                forall|j: int| 0 <= j < i ==> self.entries@[j].0 != key,
            decreases n - i,
        {
            if self.entries[i].0 == key {
                proof {
                    lemma_index(self.entries@, i as int);
                }
                return Some(i);
            }
            i = i + 1;
        }
        proof {
            lemma_contains(self.entries@, key);
        }
        None
    }

    /// Does a key have a binding?
    pub fn contains(&self, key: u64) -> (r: bool)
        requires
            self.wf(),
        ensures
            r == self@.contains_key(key),
    {
        self.find(key).is_some()
    }

    /// Looks a key up.
    pub fn get(&self, key: u64) -> (r: Option<&V>)
        requires
            self.wf(),
        ensures
            match r {
                Some(v) => self@.contains_key(key) && *v == self@[key],
                None => !self@.contains_key(key),
            },
    {
        match self.find(key) {
            Some(i) => Some(&self.entries[i].1),
            None => None,
        }
    }

    /// Inserts a binding, replacing any previous binding of the same key.
    pub fn insert(&mut self, key: u64, value: V)
        requires
            old(self).wf(),
        ensures
            final(self).wf(),
            final(self)@ == old(self)@.insert(key, value),
    {
        match self.find(key) {
            Some(i) => {
                proof {
                    lemma_remove(self.entries@, i as int);
                }
                let _ = self.entries.remove(i);
                proof {
                    lemma_contains(self.entries@, key);
                    lemma_push(self.entries@, key, value);
                }
                self.entries.push((key, value));
                proof {
                    assert(old(self)@.remove(key).insert(key, value) =~= old(self)@.insert(
                        key,
                        value,
                    ));
                }
            },
            None => {
                proof {
                    lemma_contains(self.entries@, key);
                    lemma_push(self.entries@, key, value);
                }
                self.entries.push((key, value));
            },
        }
    }

    /// The smallest key that has no binding.  There always is one: the map
    /// holds finitely many keys, so among the first `len + 1` candidates one
    /// is free.
    pub fn first_free_key(&self) -> (id: u64)
        requires
            self.wf(),
            self@.dom().len() < u64::MAX,
        ensures
            !self@.contains_key(id),
    {
        proof {
            lemma_dom_len(self.entries@);
        }
        let ghost n = self.entries@.len() as int;
        let mut c: u64 = 0;
        let mut taken = self.contains(c);
        while taken
            invariant
                self.wf(),
                self@.dom().finite(),
                self@.dom().len() == n,
                n < u64::MAX,
                c <= n,
                forall|x: u64| x < c ==> self@.contains_key(x),
                taken == self@.contains_key(c),
            decreases n - c,
        {
            proof {
                let below = Set::new(|x: u64| x < (c + 1) as u64);
                lemma_u64_range_len((c + 1) as u64);
                assert(below.subset_of(self@.dom()));
                vstd::set_lib::lemma_len_subset(below, self@.dom());
            }
            c = c + 1;
            taken = self.contains(c);
        }
        c
    }

    /// Removes a binding if present.
    pub fn remove_key(&mut self, key: u64)
        requires
            old(self).wf(),
        ensures
            final(self).wf(),
            final(self)@ == old(self)@.remove(key),
    {
        match self.find(key) {
            Some(i) => {
                proof {
                    lemma_remove(self.entries@, i as int);
                }
                let _ = self.entries.remove(i);
            },
            None => {
                proof {
                    assert(old(self)@.remove(key) =~= old(self)@);
                }
            },
        }
    }
}

} // verus!
