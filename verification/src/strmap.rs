//! A small map from strings to strings, kept as a list of distinct keys.
//!
//! It holds the references a page rewrites and the output names of the assets
//! bundled so far; its meaning is a `Map<Seq<char>, Seq<char>>`.
use vstd::prelude::*;

verus! {

pub open spec fn entries_map(e: Seq<(String, String)>) -> Map<Seq<char>, Seq<char>>
    decreases e.len(),
{
    if e.len() == 0 {
        Map::empty()
    } else {
        entries_map(e.drop_last()).insert(e.last().0@, e.last().1@)
    }
}

pub open spec fn keys_distinct(e: Seq<(String, String)>) -> bool {
    forall|i: int, j: int| 0 <= i < j < e.len() ==> (#[trigger] e[i]).0@ != (#[trigger] e[j]).0@
}

proof fn lemma_entries_map_dom(e: Seq<(String, String)>, k: Seq<char>)
    ensures
        entries_map(e).dom().contains(k) <==> exists|i: int| 0 <= i < e.len() && (#[trigger] e[i]).0@ == k,
    decreases e.len(),
{
    if e.len() > 0 {
        lemma_entries_map_dom(e.drop_last(), k);
        if entries_map(e).dom().contains(k) {
            if k != e.last().0@ {
                let i = choose|i: int| 0 <= i < e.drop_last().len() && (#[trigger] e.drop_last()[i]).0@ == k;
                assert(e[i] == e.drop_last()[i]);
            } else {
                assert(e[e.len() - 1].0@ == k);
            }
        }
        if exists|i: int| 0 <= i < e.len() && (#[trigger] e[i]).0@ == k {
            let i = choose|i: int| 0 <= i < e.len() && (#[trigger] e[i]).0@ == k;
            if i < e.len() - 1 {
                assert(e.drop_last()[i] == e[i]);
            }
        }
    }
}

proof fn lemma_entries_map_value(e: Seq<(String, String)>, i: int)
    requires
        keys_distinct(e),
        0 <= i < e.len(),
    ensures
        entries_map(e).dom().contains(e[i].0@),
        entries_map(e)[e[i].0@] == e[i].1@,
    decreases e.len(),
{
    if i < e.len() - 1 {
        let d = e.drop_last();
        assert(d[i] == e[i]);
        assert(keys_distinct(d)) by {
            assert forall|a: int, b: int| 0 <= a < b < d.len() implies (#[trigger] d[a]).0@ != (#[trigger] d[b]).0@ by {
                assert(d[a] == e[a] && d[b] == e[b]);
            }
        }
        lemma_entries_map_value(d, i);
        assert(e[i].0@ != e[e.len() - 1].0@);
    }
}

proof fn lemma_entries_map_update(e: Seq<(String, String)>, i: int, kv: (String, String))
    requires
        keys_distinct(e),
        0 <= i < e.len(),
        e[i].0@ == kv.0@,
    ensures
        entries_map(e.update(i, kv)) =~= entries_map(e).insert(kv.0@, kv.1@),
    decreases e.len(),
{
    let u = e.update(i, kv);
    if i == e.len() - 1 {
        assert(u.drop_last() =~= e.drop_last());
    } else {
        let d = e.drop_last();
        assert(u.drop_last() =~= d.update(i, kv));
        assert(keys_distinct(d)) by {
            assert forall|a: int, b: int| 0 <= a < b < d.len() implies (#[trigger] d[a]).0@ != (#[trigger] d[b]).0@ by {
                assert(d[a] == e[a] && d[b] == e[b]);
            }
        }
        lemma_entries_map_update(d, i, kv);
        assert(e[i].0@ != e.last().0@);
    }
}

/// A map from strings to strings.
pub struct StrMap {
    entries: Vec<(String, String)>,
}

impl View for StrMap {
    type V = Map<Seq<char>, Seq<char>>;

    closed spec fn view(&self) -> Map<Seq<char>, Seq<char>> {
        entries_map(self.entries@)
    }
}

impl StrMap {
    #[verifier::type_invariant]
    closed spec fn inv(self) -> bool {
        keys_distinct(self.entries@)
    }

    /// An empty map.
    pub fn new() -> (m: StrMap)
        ensures
            m@ == Map::<Seq<char>, Seq<char>>::empty(),
    {
        StrMap { entries: Vec::new() }
    }

    /// The number of keys.
    pub fn len(&self) -> (n: usize)
        ensures
            n == self@.dom().len(),
    {
        proof {
            use_type_invariant(self);
            self.lemma_len();
        }
        self.entries.len()
    }

    proof fn lemma_len(&self)
        requires
            keys_distinct(self.entries@),
        ensures
            self@.dom().len() == self.entries@.len(),
            self@.dom().finite(),
        decreases self.entries@.len(),
    {
        lemma_len_of(self.entries@);
    }

    fn index_of(&self, key: &str) -> (r: Option<usize>)
        ensures
            r matches Some(i) ==> i < self.entries@.len() && self.entries@[i as int].0@ == key@,
            r is None ==> forall|i: int| 0 <= i < self.entries@.len() ==> (#[trigger] self.entries@[i]).0@ != key@,
    {
        let mut i: usize = 0;
        while i < self.entries.len()
            invariant
                i <= self.entries@.len(),
                forall|j: int| 0 <= j < i ==> (#[trigger] self.entries@[j]).0@ != key@,
            decreases self.entries.len() - i,
        {
            if crate::text::str_eq(self.entries[i].0.as_str(), key) {
                return Some(i);
            }
            i = i + 1;
        }
        None
    }

    /// The value of `key`, if any.
    pub fn get(&self, key: &str) -> (r: Option<String>)
        ensures
            r matches Some(v) ==> self@.dom().contains(key@) && self@[key@] == v@,
            r is None ==> !self@.dom().contains(key@),
    {
        proof {
            use_type_invariant(self);
            lemma_entries_map_dom(self.entries@, key@);
        }
        match self.index_of(key) {
            Some(i) => {
                proof {
                    lemma_entries_map_value(self.entries@, i as int);
                }
                Some(self.entries[i].1.clone())
            },
            None => None,
        }
    }

    /// Set `key` to `value`, replacing any value it had.
    pub fn insert(&mut self, key: &str, value: &str)
        ensures
            final(self)@ == old(self)@.insert(key@, value@),
    {
        proof {
            use_type_invariant(&*self);
            lemma_entries_map_dom(self.entries@, key@);
        }
        let kv = (key.to_owned(), value.to_owned());
        let found = self.index_of(key);
        let mut entries: Vec<(String, String)> = Vec::new();
        std::mem::swap(&mut entries, &mut self.entries);
        match found {
            Some(i) => {
                proof {
                    lemma_entries_map_update(entries@, i as int, kv);
                }
                let ghost old_e = entries@;
                entries.set(i, kv);
                assert(keys_distinct(entries@)) by {
                    assert forall|a: int, b: int| 0 <= a < b < entries@.len() implies (#[trigger] entries@[a]).0@ != (#[trigger] entries@[b]).0@ by {
                        if a != i && b != i {
                            assert(entries@[a] == old_e[a] && entries@[b] == old_e[b]);
                        }
                    }
                }
            },
            None => {
                let ghost old_e = entries@;
                entries.push(kv);
                assert(entries@.drop_last() =~= old_e);
                assert(keys_distinct(entries@)) by {
                    assert forall|a: int, b: int| 0 <= a < b < entries@.len() implies (#[trigger] entries@[a]).0@ != (#[trigger] entries@[b]).0@ by {
                        if b < old_e.len() {
                            assert(entries@[a] == old_e[a] && entries@[b] == old_e[b]);
                        } else {
                            assert(entries@[a] == old_e[a]);
                        }
                    }
                }
            },
        }
        self.entries = entries;
    }
}

proof fn lemma_len_of(e: Seq<(String, String)>)
    requires
        keys_distinct(e),
    ensures
        entries_map(e).dom().len() == e.len(),
        entries_map(e).dom().finite(),
    decreases e.len(),
{
    if e.len() > 0 {
        let d = e.drop_last();
        assert(keys_distinct(d)) by {
            assert forall|a: int, b: int| 0 <= a < b < d.len() implies (#[trigger] d[a]).0@ != (#[trigger] d[b]).0@ by {
                assert(d[a] == e[a] && d[b] == e[b]);
            }
        }
        lemma_len_of(d);
        lemma_entries_map_dom(d, e.last().0@);
        if entries_map(d).dom().contains(e.last().0@) {
            let i = choose|i: int| 0 <= i < d.len() && (#[trigger] d[i]).0@ == e.last().0@;
            assert(d[i] == e[i]);
        }
    }
}

} // verus!
