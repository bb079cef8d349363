//! A map from dotted paths to leaf values, with its keys kept distinct.
use vstd::prelude::*;

use crate::value::{lemma_model_members, model, model_members, Json, Value};

verus! {

/// No key occurs twice.
pub open spec fn keys_distinct(s: Seq<(Seq<char>, Json)>) -> bool {
    forall|i: int, j: int|
        0 <= i < s.len() && 0 <= j < s.len() && i != j ==> #[trigger] s[i].0 != #[trigger] s[j].0
}

/// The map that a sequence of distinct-keyed pairs stands for.
pub open spec fn map_of(s: Seq<(Seq<char>, Json)>) -> Map<Seq<char>, Json> {
    Map::new(
        |k: Seq<char>| exists|i: int| 0 <= i < s.len() && s[i].0 == k,
        |k: Seq<char>| s[choose|i: int| 0 <= i < s.len() && s[i].0 == k].1,
    )
}

pub proof fn lemma_map_of_index(s: Seq<(Seq<char>, Json)>, i: int)
    requires
        keys_distinct(s),
        0 <= i < s.len(),
    ensures
        map_of(s).contains_key(s[i].0),
        map_of(s)[s[i].0] == s[i].1,
{
    let k = s[i].0;
    assert(exists|j: int| 0 <= j < s.len() && s[j].0 == k);
    let j = choose|j: int| 0 <= j < s.len() && s[j].0 == k;
    assert(j == i);
}

/// The leaves of a flattened document, each under its dotted path.
pub struct FlatMap {
    entries: Vec<(String, Value)>,
}

impl FlatMap {
    /// The entries, in the order in which their paths were first inserted.
    pub closed spec fn pairs(&self) -> Seq<(Seq<char>, Json)> {
        model_members(self.entries@)
    }

    pub open spec fn wf(&self) -> bool {
        keys_distinct(self.pairs())
    }

    pub open spec fn view(&self) -> Map<Seq<char>, Json> {
        map_of(self.pairs())
    }

    pub proof fn lemma_view(&self)
        requires
            self.wf(),
        ensures
            forall|i: int|
                0 <= i < self.pairs().len() ==> #[trigger] self@.contains_key(self.pairs()[i].0)
                    && self@[self.pairs()[i].0] == self.pairs()[i].1,
            forall|k: Seq<char>|
                #[trigger] self@.contains_key(k) ==> exists|i: int|
                    0 <= i < self.pairs().len() && self.pairs()[i].0 == k,
    {
        assert forall|i: int| 0 <= i < self.pairs().len() implies #[trigger] self@.contains_key(
            self.pairs()[i].0,
        ) && self@[self.pairs()[i].0] == self.pairs()[i].1 by {
            lemma_map_of_index(self.pairs(), i);
        }
    }

    pub fn new() -> (r: FlatMap)
        ensures
            r.wf(),
            r.pairs().len() == 0,
            r@ == Map::<Seq<char>, Json>::empty(),
    {
        let r = FlatMap { entries: Vec::new() };
        proof {
            lemma_model_members(r.entries@);
            assert(r@ =~= Map::<Seq<char>, Json>::empty());
        }
        r
    }

    pub fn len(&self) -> (r: usize)
        ensures
            r == self.pairs().len(),
    {
        proof {
            lemma_model_members(self.entries@);
        }
        self.entries.len()
    }

    pub fn key(&self, i: usize) -> (r: &String)
        requires
            i < self.pairs().len(),
        ensures
            r@ == self.pairs()[i as int].0,
    {
        proof {
            lemma_model_members(self.entries@);
        }
        &self.entries[i].0
    }

    pub fn value(&self, i: usize) -> (r: &Value)
        requires
            i < self.pairs().len(),
        ensures
            r@ == self.pairs()[i as int].1,
    {
        proof {
            lemma_model_members(self.entries@);
        }
        &self.entries[i].1
    }

    /// The position of `key`, if it is present.
    pub fn find(&self, key: &String) -> (r: Option<usize>)
        ensures
            match r {
                Some(i) => i < self.pairs().len() && self.pairs()[i as int].0 == key@,
                None => forall|i: int| 0 <= i < self.pairs().len() ==> self.pairs()[i].0 != key@,
            },
    {
        proof {
            lemma_model_members(self.entries@);
        }
        let mut i: usize = 0;
        while i < self.entries.len()
            invariant
                i <= self.entries.len(),
                self.entries.len() == self.pairs().len(),
                forall|j: int|
                    0 <= j < self.pairs().len() ==> #[trigger] self.pairs()[j] == (
                    self.entries@[j].0@,
                    model(self.entries@[j].1),
                ),
                forall|j: int| 0 <= j < i ==> self.pairs()[j].0 != key@,
            decreases self.entries.len() - i,
        {
            if self.entries[i].0 == *key {
                return Some(i);
            }
            i += 1;
        }
        None
    }

    /// The value stored under `key`, if any.
    pub fn get(&self, key: &String) -> (r: Option<&Value>)
        requires
            self.wf(),
        ensures
            r is Some <==> self@.contains_key(key@),
            r is Some ==> r->0@ == self@[key@],
    {
        proof {
            self.lemma_view();
        }
        match self.find(key) {
            Some(i) => Some(self.value(i)),
            None => None,
        }
    }

    /// Stores `value` under `key`, replacing what was there.
    pub fn insert(&mut self, key: String, value: Value)
        requires
            old(self).wf(),
        ensures
            final(self).wf(),
            final(self)@ == old(self)@.insert(key@, value@),
    {
        let pos = self.find(&key);
        proof {
            lemma_model_members(self.entries@);
        }
        let ghost old_pairs = self.pairs();
        let ghost k = key@;
        let ghost v = value@;
        match pos {
            Some(i) => {
                self.entries.set(i, (key, value));
                proof {
                    lemma_model_members(self.entries@);
                    assert(self.pairs() =~= old_pairs.update(i as int, (k, v)));
                }
            },
            None => {
                self.entries.push((key, value));
                proof {
                    lemma_model_members(self.entries@);
                    assert(self.pairs() =~= old_pairs.push((k, v)));
                }
            },
        }
        proof {
            let s = self.pairs();
            assert forall|a: int, b: int|
                0 <= a < s.len() && 0 <= b < s.len() && a != b implies #[trigger] s[a].0
                != #[trigger] s[b].0 by {
                if a < old_pairs.len() && b < old_pairs.len() {
                    if s[a] != old_pairs[a] || s[b] != old_pairs[b] {
                    } else {
                        assert(old_pairs[a].0 != old_pairs[b].0);
                    }
                }
            }
            assert forall|kk: Seq<char>|
                #[trigger] map_of(s).contains_key(kk) == map_of(old_pairs).insert(
                    k,
                    v,
                ).contains_key(kk) by {
                if kk != k && map_of(old_pairs).contains_key(kk) {
                    let j = choose|j: int| 0 <= j < old_pairs.len() && old_pairs[j].0 == kk;
                    assert(s[j].0 == kk);
                }
                if kk != k && map_of(s).contains_key(kk) {
                    let j = choose|j: int| 0 <= j < s.len() && s[j].0 == kk;
                    assert(old_pairs[j].0 == kk);
                }
                if kk == k {
                    match pos {
                        Some(i) => assert(s[i as int].0 == k),
                        None => assert(s[s.len() - 1].0 == k),
                    }
                }
            }
            assert forall|kk: Seq<char>| #[trigger]
                map_of(s).contains_key(kk) implies map_of(s)[kk] == map_of(old_pairs).insert(
                k,
                v,
            )[kk] by {
                let j = choose|j: int| 0 <= j < s.len() && s[j].0 == kk;
                lemma_map_of_index(s, j);
                if kk != k {
                    lemma_map_of_index(old_pairs, j);
                }
            }
            assert(map_of(s) =~= map_of(old_pairs).insert(k, v));
        }
    }
}

} // verus!
