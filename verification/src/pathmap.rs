//! A map keyed by path that also lists its entries in the order they came.
use vstd::hash_map::StringHashMap;
use vstd::prelude::*;
use vstd::string::*;

verus! {

/// Values by path. A path keeps its place in the list when its value changes.
#[verifier::reject_recursive_types(V)]
pub struct PathMap<V> {
    entries: Vec<(String, V)>,
    index: StringHashMap<usize>,
}

/// Whether a list holds the entries of a map, each once.
pub open spec fn lists<V>(items: Seq<(Seq<char>, V)>, map: Map<Seq<char>, V>) -> bool {
    &&& forall|i: int|
        0 <= i < items.len() ==> map.contains_key((#[trigger] items[i]).0) && map[items[i].0]
            == items[i].1
    &&& forall|i: int, j: int|
        0 <= i < j < items.len() ==> (#[trigger] items[i]).0 != (#[trigger] items[j]).0
    &&& forall|path: Seq<char>| #[trigger]
        map.contains_key(path) ==> exists|i: int| 0 <= i < items.len() && (#[trigger] items[i]).0 == path
}

impl<V> View for PathMap<V> {
    type V = Map<Seq<char>, V>;

    closed spec fn view(&self) -> Map<Seq<char>, V> {
        Map::new(
            |path: Seq<char>| self.index@.contains_key(path),
            |path: Seq<char>| self.entries@[self.index@[path] as int].1,
        )
    }
}

impl<V> PathMap<V> {
    /// The entries in their order.
    pub closed spec fn items(&self) -> Seq<(Seq<char>, V)> {
        self.entries@.map_values(|e: (String, V)| (e.0@, e.1))
    }

    /// The index points at the entry of each path, and at nothing else.
    pub closed spec fn wf(&self) -> bool {
        &&& forall|path: Seq<char>| #[trigger]
            self.index@.contains_key(path) ==> self.index@[path] < self.entries.len()
                && self.entries@[self.index@[path] as int].0@ == path
        &&& forall|i: int|
            0 <= i < self.entries.len() ==> self.index@.contains_key(
                (#[trigger] self.entries@[i]).0@,
            ) && self.index@[self.entries@[i].0@] == i
    }

    /// The list and the map hold the same entries.
    pub proof fn lemma_lists(&self)
        requires
            self.wf(),
        ensures
            lists(self.items(), self@),
    {
        let items = self.items();
        assert forall|i: int, j: int| 0 <= i < j < items.len() implies (#[trigger] items[i]).0
            != (#[trigger] items[j]).0 by {
            assert(self.index@[self.entries@[i].0@] == i);
            assert(self.index@[self.entries@[j].0@] == j);
        }
        assert forall|i: int| 0 <= i < items.len() implies self@.contains_key(
            (#[trigger] items[i]).0,
        ) && self@[items[i].0] == items[i].1 by {
            assert(self.index@.contains_key(self.entries@[i].0@));
        }
        assert forall|path: Seq<char>| #[trigger] self@.contains_key(path) implies exists|i: int|
            0 <= i < items.len() && (#[trigger] items[i]).0 == path by {
            assert(self.index@.contains_key(path));
            assert(items[self.index@[path] as int].0 == path);
        }
    }

    /// A map without entries.
    pub fn new() -> (r: Self)
        ensures
            r.wf(),
            r@ == Map::<Seq<char>, V>::empty(),
            r.items() == Seq::<(Seq<char>, V)>::empty(),
    {
        let r = PathMap { entries: Vec::new(), index: StringHashMap::new() };
        proof {
            assert(r@ =~= Map::<Seq<char>, V>::empty());
            assert(r.items() =~= Seq::<(Seq<char>, V)>::empty());
        }
        r
    }

    /// Gives a path a value, in place of the one it had.
    pub fn insert(&mut self, path: String, value: V)
        requires
            old(self).wf(),
        ensures
            final(self).wf(),
            final(self)@ == old(self)@.insert(path@, value),
            !old(self)@.contains_key(path@) ==> final(self).items() == old(self).items().push(
                (path@, value),
            ),
            old(self)@.contains_key(path@) ==> exists|i: int|
                0 <= i < old(self).items().len() && (#[trigger] old(self).items()[i]).0 == path@
                    && final(self).items() == old(self).items().update(i, (path@, value)),
    {
        let ghost key = path@;
        let ghost before = *self;
        let found: Option<usize> = match self.index.get(path.as_str()) {
            Some(i) => Some(*i),
            None => None,
        };
        match found {
            Some(i) => {
                assert(self.index@.contains_key(key));
                self.entries.set(i, (path, value));
                proof {
                    assert forall|k: int| 0 <= k < self.entries.len() implies self.index@.contains_key(
                        (#[trigger] self.entries@[k]).0@,
                    ) && self.index@[self.entries@[k].0@] == k by {
                        assert(self.entries@[k].0@ == before.entries@[k].0@);
                    }
                    assert forall|p: Seq<char>| #[trigger]
                        self.index@.contains_key(p) implies self.entries@[self.index@[p] as int].0@
                        == p by {
                        assert(before.entries@[before.index@[p] as int].0@ == p);
                    }
                    assert(self@ =~= before@.insert(key, value)) by {
                        assert forall|p: Seq<char>| self@.contains_key(p) && p != key implies #[trigger] self@[p]
                            == before@[p] by {
                            assert(before.entries@[before.index@[p] as int].0@ == p);
                        }
                    }
                    assert(before.items()[i as int].0 == key);
                    assert(self.items() =~= before.items().update(i as int, (key, value)));
                }
            },
            None => {
                let n: usize = self.entries.len();
                self.index.insert(path.clone(), n);
                self.entries.push((path, value));
                proof {
                    assert forall|k: int| 0 <= k < self.entries.len() implies self.index@.contains_key(
                        (#[trigger] self.entries@[k]).0@,
                    ) && self.index@[self.entries@[k].0@] == k by {
                        if k < n {
                            assert(self.entries@[k] == before.entries@[k]);
                            assert(before.index@.contains_key(before.entries@[k].0@));
                        }
                    }
                    assert forall|p: Seq<char>| #[trigger]
                        self.index@.contains_key(p) implies self.index@[p] < self.entries.len()
                        && self.entries@[self.index@[p] as int].0@ == p by {
                        if p != key {
                            assert(before.index@.contains_key(p));
                        }
                    }
                    assert(self@ =~= before@.insert(key, value)) by {
                        assert forall|p: Seq<char>| self@.contains_key(p) && p != key implies #[trigger] self@[p]
                            == before@[p] by {
                            assert(before.index@.contains_key(p));
                        }
                    }
                    assert(self.items() =~= before.items().push((key, value)));
                }
            },
        }
    }

    /// The value of a path.
    pub fn get(&self, path: &str) -> (r: Option<&V>)
        requires
            self.wf(),
        ensures
            match r {
                Some(v) => self@.contains_key(path@) && *v == self@[path@],
                None => !self@.contains_key(path@),
            },
    {
        match self.index.get(path) {
            Some(i) => Some(&self.entries[*i].1),
            None => None,
        }
    }

    /// Whether a path has a value.
    pub fn contains(&self, path: &str) -> (r: bool)
        ensures
            r == self@.contains_key(path@),
    {
        self.index.contains_key(path)
    }

    /// The number of entries.
    pub fn len(&self) -> (n: usize)
        requires
            self.wf(),
        ensures
            n == self.items().len(),
            n == self@.len(),
    {
        proof {
            assert(self@.dom() =~= self.index@.dom());
            self.lemma_count();
        }
        self.entries.len()
    }

    /// The path of an entry.
    pub fn path_at(&self, i: usize) -> (r: &String)
        requires
            i < self.items().len(),
        ensures
            r@ == self.items()[i as int].0,
    {
        &self.entries[i].0
    }

    /// The value of an entry.
    pub fn value_at(&self, i: usize) -> (r: &V)
        requires
            i < self.items().len(),
        ensures
            *r == self.items()[i as int].1,
    {
        &self.entries[i].1
    }

    /// The list is as long as the map is large.
    pub proof fn lemma_count(&self)
        requires
            self.wf(),
        ensures
            self.items().len() == self@.len(),
    {
        self.lemma_lists();
        let items = self.items();
        let keys = items.map_values(|e: (Seq<char>, V)| e.0);
        assert(keys.no_duplicates());
        keys.unique_seq_to_set();
        assert(keys.to_set() =~= self@.dom()) by {
            assert forall|p: Seq<char>| keys.to_set().contains(p) == self@.dom().contains(p) by {
                if self@.contains_key(p) {
                    let i = choose|i: int| 0 <= i < items.len() && (#[trigger] items[i]).0 == p;
                    assert(keys[i] == p);
                }
                if keys.contains(p) {
                    let i = choose|i: int| 0 <= i < keys.len() && keys[i] == p;
                    assert(items[i].0 == p);
                }
            }
        }
    }
}

} // verus!
