//! A string-keyed preference store with unique keys, in insertion order.
use vstd::prelude::*;
use crate::text::{str_eq};

verus! {

pub struct StringMap {
    entries: Vec<(String, String)>,
}

pub open spec fn pairs_view(e: Seq<(String, String)>) -> Seq<(Seq<char>, Seq<char>)> {
    e.map_values(|p: (String, String)| (p.0@, p.1@))
}

/// The key/value pairs as a map (later pairs win).
pub open spec fn pairs_map(e: Seq<(Seq<char>, Seq<char>)>) -> Map<Seq<char>, Seq<char>>
    decreases e.len(),
{
    if e.len() == 0 {
        Map::empty()
    } else {
        pairs_map(e.drop_last()).insert(e.last().0, e.last().1)
    }
}

pub open spec fn unique_keys(e: Seq<(Seq<char>, Seq<char>)>) -> bool {
    forall|i: int, j: int| 0 <= i < j < e.len() ==> #[trigger] e[i].0 != #[trigger] e[j].0
}

pub proof fn lemma_pairs_map(e: Seq<(Seq<char>, Seq<char>)>)
    requires
        unique_keys(e),
    ensures
        forall|k: Seq<char>| #[trigger] pairs_map(e).dom().contains(k) <==> exists|i: int| 0 <= i < e.len() && e[i].0 == k,
        forall|i: int| 0 <= i < e.len() ==> #[trigger] pairs_map(e)[e[i].0] == e[i].1,
    decreases e.len(),
{
    if e.len() > 0 {
        let d = e.drop_last();
        assert(unique_keys(d));
        lemma_pairs_map(d);
        assert(pairs_map(e) == pairs_map(d).insert(e.last().0, e.last().1));
        assert forall|k: Seq<char>| #[trigger] pairs_map(e).dom().contains(k) <==> exists|i: int| 0 <= i < e.len() && e[i].0 == k by {
            if pairs_map(e).dom().contains(k) && k != e.last().0 {
                assert(pairs_map(d).dom().contains(k));
                let i = choose|i: int| 0 <= i < d.len() && d[i].0 == k;
                assert(d[i] == e[i]);
                assert(e[i].0 == k);
            }
            if exists|i: int| 0 <= i < e.len() && e[i].0 == k {
                let i = choose|i: int| 0 <= i < e.len() && e[i].0 == k;
                if i < e.len() - 1 {
                    assert(d[i].0 == k);
                }
            }
        }
        assert forall|i: int| 0 <= i < e.len() implies #[trigger] pairs_map(e)[e[i].0] == e[i].1 by {
            if i < e.len() - 1 {
                assert(d[i] == e[i]);
                assert(e[i].0 != e.last().0);
            }
        }
    }
}

impl StringMap {
    /// Keys are unique.
    pub closed spec fn wf(&self) -> bool {
        unique_keys(pairs_view(self.entries@))
    }

    pub closed spec fn view(&self) -> Map<Seq<char>, Seq<char>> {
        pairs_map(pairs_view(self.entries@))
    }

    /// The stored pairs, in insertion order.
    pub closed spec fn pairs(&self) -> Seq<(Seq<char>, Seq<char>)> {
        pairs_view(self.entries@)
    }

    pub fn new() -> (m: Self)
        ensures
            m.wf(),
            m.view() == Map::<Seq<char>, Seq<char>>::empty(),
            m.pairs().len() == 0,
    {
        let m = StringMap { entries: Vec::new() };
        assert(pairs_view(m.entries@) =~= Seq::<(Seq<char>, Seq<char>)>::empty());
        m
    }

    fn position(&self, key: &str) -> (r: Option<usize>)
        ensures
            match r {
                Some(i) => i < self.entries@.len() && self.entries@[i as int].0@ == key@,
                None => forall|i: int| 0 <= i < self.entries@.len() ==> #[trigger] self.entries@[i].0@ != key@,
            },
    {
        let mut i: usize = 0;
        while i < self.entries.len()
            invariant
                i <= self.entries@.len(),
                forall|j: int| 0 <= j < i ==> #[trigger] self.entries@[j].0@ != key@,
            decreases self.entries@.len() - i,
        {
            if str_eq(self.entries[i].0.as_str(), key) {
                return Some(i);
            }
            i = i + 1;
        }
        None
    }

    /// Value stored under `key`.
    pub fn get(&self, key: &str) -> (r: Option<String>)
        requires
            self.wf(),
        ensures
            match r {
                Some(v) => self.view().dom().contains(key@) && self.view()[key@] == v@,
                None => !self.view().dom().contains(key@),
            },
    {
        proof {
            lemma_pairs_map(pairs_view(self.entries@));
        }
        match self.position(key) {
            Some(i) => {
                assert(pairs_view(self.entries@)[i as int].0 == key@);
                Some(self.entries[i].1.clone())
            },
            None => {
                assert forall|i: int| 0 <= i < pairs_view(self.entries@).len() implies pairs_view(self.entries@)[i].0 != key@ by {
                    assert(self.entries@[i].0@ != key@);
                }
                None
            },
        }
    }

    pub fn contains_key(&self, key: &str) -> (r: bool)
        requires
            self.wf(),
        ensures
            r == self.view().dom().contains(key@),
    {
        self.get(key).is_some()
    }

    /// Stores `value` under `key`, returning the value it replaces.
    pub fn insert(&mut self, key: &str, value: &str) -> (r: Option<String>)
        requires
            old(self).wf(),
        ensures
            final(self).wf(),
            final(self).view() == old(self).view().insert(key@, value@),
            match r {
                Some(v) => old(self).view().dom().contains(key@) && old(self).view()[key@] == v@,
                None => !old(self).view().dom().contains(key@),
            },
    {
        proof {
            lemma_pairs_map(pairs_view(self.entries@));
        }
        let ghost old_pairs = pairs_view(self.entries@);
        match self.position(key) {
            Some(i) => {
                let prev = self.entries[i].1.clone();
                let k = self.entries[i].0.clone();
                let mut entries: Vec<(String, String)> = Vec::new();
                std::mem::swap(&mut entries, &mut self.entries);
                entries.set(i, (k, value.to_owned()));
                let ghost new_pairs = pairs_view(entries@);
                assert(new_pairs =~= old_pairs.update(i as int, (key@, value@)));
                assert forall|j: int| 0 <= j < new_pairs.len() implies #[trigger] new_pairs[j].0 == old_pairs[j].0 by {}
                assert forall|a: int, b: int| 0 <= a < b < new_pairs.len() implies #[trigger] new_pairs[a].0 != #[trigger] new_pairs[b].0 by {
                    assert(new_pairs[a].0 == old_pairs[a].0);
                    assert(new_pairs[b].0 == old_pairs[b].0);
                }
                self.entries = entries;
                proof {
                    lemma_pairs_map(new_pairs);
                    assert(old_pairs[i as int].0 == key@);
                    assert forall|kk: Seq<char>| #[trigger] pairs_map(new_pairs).dom().contains(kk) <==> pairs_map(old_pairs).insert(key@, value@).dom().contains(kk) by {
                        if pairs_map(new_pairs).dom().contains(kk) {
                            let j = choose|j: int| 0 <= j < new_pairs.len() && new_pairs[j].0 == kk;
                            if j != i as int { assert(old_pairs[j].0 == kk); }
                        }
                        if pairs_map(old_pairs).dom().contains(kk) {
                            let j = choose|j: int| 0 <= j < old_pairs.len() && old_pairs[j].0 == kk;
                            assert(new_pairs[j].0 == kk);
                        }
                    }
                    assert forall|kk: Seq<char>| #[trigger] pairs_map(new_pairs).dom().contains(kk) implies pairs_map(new_pairs)[kk] == pairs_map(old_pairs).insert(key@, value@)[kk] by {
                        let j = choose|j: int| 0 <= j < new_pairs.len() && new_pairs[j].0 == kk;
                        if j != i as int {
                            assert(old_pairs[j] == new_pairs[j]);
                        }
                    }
                    assert(pairs_map(new_pairs) =~= pairs_map(old_pairs).insert(key@, value@));
                }
                Some(prev)
            },
            None => {
                self.entries.push((key.to_owned(), value.to_owned()));
                proof {
                    let new_pairs = pairs_view(self.entries@);
                    assert(new_pairs =~= old_pairs.push((key@, value@)));
                    assert(new_pairs.drop_last() =~= old_pairs);
                    assert forall|j: int| 0 <= j < old_pairs.len() implies old_pairs[j].0 != key@ by {
                        assert(old(self).entries@[j].0@ != key@);
                    }
                    assert(unique_keys(new_pairs));
                }
                None
            },
        }
    }

    /// The stored pairs in insertion order.
    pub fn entries(&self) -> (r: &Vec<(String, String)>)
        ensures
            pairs_view(r@) == self.pairs(),
            pairs_map(self.pairs()) == self.view(),
    {
        &self.entries
    }
}

} // verus!
