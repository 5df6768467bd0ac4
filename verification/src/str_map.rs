//! A map keyed by text that remembers the order in which its keys came.
use vstd::hash_map::StringHashMap;
use vstd::prelude::*;

verus! {

/// The pairs of a sequence, with the keys as sequences of characters.
pub open spec fn pairs<V>(v: Seq<(String, V)>) -> Seq<(Seq<char>, V)> {
    v.map_values(|p: (String, V)| (p.0@, p.1))
}

/// The map that a sequence of pairs describes: where a key comes twice, the later value counts.
pub open spec fn map_of<V>(v: Seq<(Seq<char>, V)>) -> Map<Seq<char>, V>
    decreases v.len(),
{
    if v.len() == 0 {
        Map::empty()
    } else {
        map_of(v.drop_last()).insert(v.last().0, v.last().1)
    }
}

/// That no key comes twice.
pub open spec fn distinct_keys<V>(v: Seq<(Seq<char>, V)>) -> bool {
    forall|i: int, j: int| 0 <= i < j < v.len() ==> (#[trigger] v[i]).0 != (#[trigger] v[j]).0
}

/// A key of the described map is the key of some pair.
pub proof fn lemma_map_of_key<V>(v: Seq<(Seq<char>, V)>, key: Seq<char>)
    ensures
        map_of(v).contains_key(key) <==> exists|i: int|
            0 <= i < v.len() && (#[trigger] v[i]).0 == key,
    decreases v.len(),
{
    if v.len() > 0 {
        let before = v.drop_last();
        lemma_map_of_key(before, key);
        if map_of(before).contains_key(key) {
            let i = choose|i: int| 0 <= i < before.len() && (#[trigger] before[i]).0 == key;
            assert(v[i].0 == key);
        }
        if v.last().0 == key {
            assert(v[v.len() - 1].0 == key);
        }
        if exists|i: int| 0 <= i < v.len() && (#[trigger] v[i]).0 == key {
            let i = choose|i: int| 0 <= i < v.len() && (#[trigger] v[i]).0 == key;
            if i < v.len() - 1 {
                assert(before[i].0 == key);
            }
        }
    }
}

/// Where no key comes twice, each pair gives the value of its key.
pub proof fn lemma_map_of_distinct<V>(v: Seq<(Seq<char>, V)>, i: int)
    requires
        distinct_keys(v),
        0 <= i < v.len(),
    ensures
        map_of(v).contains_key(v[i].0),
        map_of(v)[v[i].0] == v[i].1,
    decreases v.len(),
{
    let before = v.drop_last();
    if i < v.len() - 1 {
        assert(before[i] == v[i]);
        assert(distinct_keys(before)) by {
            assert(forall|j: int| 0 <= j < before.len() ==> #[trigger] before[j] == v[j]);
        }
        lemma_map_of_distinct(before, i);
        assert(v[i].0 != v[v.len() - 1].0);
    }
}

/// A map from texts to values, in the order in which the keys came.
pub struct StrMap<V> {
    entries: Vec<(String, V)>,
    index: StringHashMap<usize>,
}

impl<V> View for StrMap<V> {
    type V = Map<Seq<char>, V>;

    closed spec fn view(&self) -> Map<Seq<char>, V> {
        Map::new(
            |k: Seq<char>| self.index@.contains_key(k),
            |k: Seq<char>| self.entries@[self.index@[k] as int].1,
        )
    }
}

impl<V> StrMap<V> {
    /// That the index and the entries agree.
    pub closed spec fn wf(&self) -> bool {
        &&& forall|k: Seq<char>| #[trigger]
            self.index@.contains_key(k) ==> self.index@[k] < self.entries@.len()
                && self.entries@[self.index@[k] as int].0@ == k
        &&& forall|i: int|
            0 <= i < self.entries@.len() ==> self.index@.contains_key(
                (#[trigger] self.entries@[i]).0@,
            ) && self.index@[self.entries@[i].0@] == i
    }

    /// The entries in the order in which their keys came.
    pub closed spec fn listed(&self) -> Seq<(Seq<char>, V)> {
        pairs(self.entries@)
    }

    /// The entries list each key of the map once, with its value.
    pub proof fn lemma_listed(&self)
        requires
            self.wf(),
        ensures
            distinct_keys(self.listed()),
            map_of(self.listed()) == self@,
            forall|i: int|
                0 <= i < self.listed().len() ==> self@.contains_key(
                    (#[trigger] self.listed()[i]).0,
                ) && self@[self.listed()[i].0] == self.listed()[i].1,
    {
        let v = self.listed();
        assert forall|i: int, j: int| 0 <= i < j < v.len() implies (#[trigger] v[i]).0 != (
        #[trigger] v[j]).0 by {
            assert(v[i].0 == self.entries@[i].0@);
            assert(v[j].0 == self.entries@[j].0@);
        }
        assert forall|i: int| 0 <= i < v.len() implies self@.contains_key((#[trigger] v[i]).0)
            && self@[v[i].0] == v[i].1 by {
            assert(v[i].0 == self.entries@[i].0@);
        }
        assert forall|k: Seq<char>| #[trigger]
            map_of(v).contains_key(k) <==> self@.contains_key(k) by {
            lemma_map_of_key(v, k);
            if self@.contains_key(k) {
                let i = self.index@[k] as int;
                assert(v[i].0 == k);
            }
        }
        assert forall|k: Seq<char>| self@.contains_key(k) implies #[trigger] map_of(v)[k]
            == self@[k] by {
            let i = self.index@[k] as int;
            assert(v[i].0 == k);
            lemma_map_of_distinct(v, i);
        }
        assert(map_of(v) =~= self@);
    }
}

impl<V: Copy> StrMap<V> {
    /// A map without entries.
    pub fn new() -> (r: Self)
        ensures
            r.wf(),
            r@ == Map::<Seq<char>, V>::empty(),
            r.listed() == Seq::<(Seq<char>, V)>::empty(),
    {
        let m = StrMap { entries: Vec::new(), index: StringHashMap::new() };
        assert(m@ =~= Map::<Seq<char>, V>::empty());
        m
    }

    /// Gives `key` the value `value`.
    pub fn insert(&mut self, key: String, value: V)
        requires
            old(self).wf(),
        ensures
            final(self).wf(),
            final(self)@ == old(self)@.insert(key@, value),
    {
        let found: Option<usize> = match self.index.get(key.as_str()) {
            Some(i) => Some(*i),
            None => None,
        };
        match found {
            Some(i) => {
                let name = self.entries[i].0.clone();
                self.entries[i] = (name, value);
            },
            None => {
                let i: usize = self.entries.len();
                self.index.insert(key.clone(), i);
                self.entries.push((key, value));
            },
        }
        assert(self@ =~= old(self)@.insert(key@, value));
    }

    /// The value of `key`, if it has one.
    pub fn get(&self, key: &str) -> (r: Option<V>)
        requires
            self.wf(),
        ensures
            r == (if self@.contains_key(key@) {
                Some(self@[key@])
            } else {
                None
            }),
    {
        match self.index.get(key) {
            Some(i) => Some(self.entries[*i].1),
            None => None,
        }
    }

    /// Tells whether `key` has a value.
    pub fn contains(&self, key: &str) -> (r: bool)
        requires
            self.wf(),
        ensures
            r == self@.contains_key(key@),
    {
        self.index.contains_key(key)
    }

    /// The number of keys.
    pub fn len(&self) -> (r: usize)
        requires
            self.wf(),
        ensures
            r == self@.len(),
            r == self.listed().len(),
    {
        proof {
            assert(self@.dom() =~= self.index@.dom());
            self.lemma_listed_len();
        }
        self.entries.len()
    }

    /// There are as many entries as keys.
    proof fn lemma_listed_len(&self)
        requires
            self.wf(),
        ensures
            self@.len() == self.listed().len(),
    {
        self.lemma_listed();
        lemma_map_of_len(self.listed());
    }

    /// The entry at place `i`.
    pub fn entry(&self, i: usize) -> (r: (&str, V))
        requires
            i < self.listed().len(),
        ensures
            (r.0@, r.1) == self.listed()[i as int],
    {
        (self.entries[i].0.as_str(), self.entries[i].1)
    }

    /// The map that a list of pairs describes.
    pub fn from_pairs(list: &Vec<(String, V)>) -> (r: Self)
        ensures
            r.wf(),
            r@ == map_of(pairs(list@)),
    {
        let mut m = StrMap::new();
        for i in 0..list.len()
            invariant
                m.wf(),
                m@ == map_of(pairs(list@).take(i as int)),
        {
            assert(pairs(list@).take(i + 1).drop_last() == pairs(list@).take(i as int));
            m.insert(list[i].0.clone(), list[i].1);
        }
        assert(pairs(list@).take(list@.len() as int) == pairs(list@));
        m
    }

    /// The entries, each key once.
    pub fn to_pairs(&self) -> (r: Vec<(String, V)>)
        requires
            self.wf(),
        ensures
            pairs(r@) == self.listed(),
            distinct_keys(pairs(r@)),
            map_of(pairs(r@)) == self@,
    {
        let mut out: Vec<(String, V)> = Vec::new();
        for i in 0..self.entries.len()
            invariant
                pairs(out@) == self.listed().take(i as int),
        {
            let ghost before = pairs(out@);
            out.push((self.entries[i].0.clone(), self.entries[i].1));
            assert(pairs(out@) == before.push(self.listed()[i as int]));
        }
        proof {
            self.lemma_listed();
        }
        assert(self.listed().take(self.entries@.len() as int) == self.listed());
        out
    }

    /// A map with the same entries.
    pub fn copy(&self) -> (r: Self)
        requires
            self.wf(),
        ensures
            r.wf(),
            r@ == self@,
    {
        let list = self.to_pairs();
        StrMap::from_pairs(&list)
    }
}

/// Where no key comes twice, the described map has one key for each pair.
pub proof fn lemma_map_of_len<V>(v: Seq<(Seq<char>, V)>)
    requires
        distinct_keys(v),
    ensures
        map_of(v).dom().finite(),
        map_of(v).len() == v.len(),
    decreases v.len(),
{
    if v.len() > 0 {
        let before = v.drop_last();
        assert(distinct_keys(before)) by {
            assert(forall|j: int| 0 <= j < before.len() ==> #[trigger] before[j] == v[j]);
        }
        lemma_map_of_len(before);
        lemma_map_of_key(before, v.last().0);
        if map_of(before).contains_key(v.last().0) {
            let i = choose|i: int| 0 <= i < before.len() && (#[trigger] before[i]).0 == v.last().0;
            assert(v[i].0 == v[v.len() - 1].0);
        }
    }
}

} // verus!
