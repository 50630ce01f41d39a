//! An association map keyed by canonical path strings.
//!
//! Backed by a vector of key/value pairs with pairwise-distinct keys; viewed
//! as a `Map<Seq<char>, V>`.  Lookups compare keys character by character,
//! so the map needs nothing of its value type.

use vstd::prelude::*;

use crate::order::str_eq;

verus! {

/// The map denoted by a sequence of key/value pairs (later pairs win;
/// with distinct keys the order is irrelevant).
pub open spec fn assoc_map<V>(pairs: Seq<(String, V)>) -> Map<Seq<char>, V>
    decreases pairs.len(),
{
    if pairs.len() == 0 {
        Map::empty()
    } else {
        assoc_map(pairs.drop_last()).insert(pairs.last().0@, pairs.last().1)
    }
}

/// Pairwise-distinct keys.
pub open spec fn distinct_keys<V>(pairs: Seq<(String, V)>) -> bool {
    forall|i: int, j: int| 0 <= i < j < pairs.len() ==> (#[trigger] pairs[i]).0@ != (
    #[trigger] pairs[j]).0@
}

/// A key is in the denoted map exactly when some pair holds it.
proof fn lemma_assoc_dom<V>(pairs: Seq<(String, V)>, k: Seq<char>)
    ensures
        assoc_map(pairs).dom().contains(k) <==> exists|i: int|
            0 <= i < pairs.len() && (#[trigger] pairs[i]).0@ == k,
    decreases pairs.len(),
{
    if pairs.len() > 0 {
        lemma_assoc_dom(pairs.drop_last(), k);
        if assoc_map(pairs).dom().contains(k) {
            if pairs.last().0@ != k {
                let i = choose|i: int|
                    0 <= i < pairs.drop_last().len() && (#[trigger] pairs.drop_last()[i]).0@ == k;
                assert(pairs[i].0@ == k);
            } else {
                assert(pairs[pairs.len() - 1].0@ == k);
            }
        }
        if exists|i: int| 0 <= i < pairs.len() && (#[trigger] pairs[i]).0@ == k {
            let i = choose|i: int| 0 <= i < pairs.len() && (#[trigger] pairs[i]).0@ == k;
            if i < pairs.len() - 1 {
                assert(pairs.drop_last()[i].0@ == k);
            }
        }
    }
}

/// With distinct keys, the pair holding a key gives its value in the map.
proof fn lemma_assoc_get<V>(pairs: Seq<(String, V)>, i: int)
    requires
        distinct_keys(pairs),
        0 <= i < pairs.len(),
    ensures
        assoc_map(pairs).dom().contains(pairs[i].0@),
        assoc_map(pairs)[pairs[i].0@] == pairs[i].1,
    decreases pairs.len(),
{
    if i == pairs.len() - 1 {
    } else {
        assert(distinct_keys(pairs.drop_last())) by {
            assert forall|x: int, y: int| 0 <= x < y < pairs.drop_last().len() implies (
            #[trigger] pairs.drop_last()[x]).0@ != (#[trigger] pairs.drop_last()[y]).0@ by {
                assert(pairs[x].0@ != pairs[y].0@);
            }
        }
        assert(pairs.drop_last()[i] == pairs[i]);
        lemma_assoc_get(pairs.drop_last(), i);
        assert(pairs[i].0@ != pairs.last().0@);
    }
}

/// Updating the pair that holds a key denotes inserting over that key.
proof fn lemma_assoc_update<V>(pairs: Seq<(String, V)>, i: int, p: (String, V))
    requires
        distinct_keys(pairs),
        0 <= i < pairs.len(),
        pairs[i].0@ == p.0@,
    ensures
        assoc_map(pairs.update(i, p)) == assoc_map(pairs).insert(p.0@, p.1),
    decreases pairs.len(),
{
    let u = pairs.update(i, p);
    if i == pairs.len() - 1 {
        assert(u.drop_last() =~= pairs.drop_last());
        assert(u.last() == p);
        assert(assoc_map(u) == assoc_map(pairs.drop_last()).insert(p.0@, p.1));
        assert(assoc_map(pairs).insert(p.0@, p.1) =~= assoc_map(pairs.drop_last()).insert(
            p.0@,
            p.1,
        )) by {
            assert(pairs.last().0@ == p.0@);
        }
    } else {
        assert(distinct_keys(pairs.drop_last())) by {
            assert forall|x: int, y: int| 0 <= x < y < pairs.drop_last().len() implies (
            #[trigger] pairs.drop_last()[x]).0@ != (#[trigger] pairs.drop_last()[y]).0@ by {
                assert(pairs[x].0@ != pairs[y].0@);
            }
        }
        assert(pairs.drop_last()[i] == pairs[i]);
        lemma_assoc_update(pairs.drop_last(), i, p);
        assert(u.drop_last() =~= pairs.drop_last().update(i, p));
        assert(u.last() == pairs.last());
        assert(assoc_map(u) == assoc_map(pairs.drop_last()).insert(p.0@, p.1).insert(
            pairs.last().0@,
            pairs.last().1,
        ));
        assert(pairs.last().0@ != p.0@);
        assert(assoc_map(pairs.drop_last()).insert(p.0@, p.1).insert(
            pairs.last().0@,
            pairs.last().1,
        ) =~= assoc_map(pairs.drop_last()).insert(pairs.last().0@, pairs.last().1).insert(
            p.0@,
            p.1,
        ));
    }
}

/// An association map from canonical paths to values.
pub struct PathMap<V> {
    pairs: Vec<(String, V)>,
}

impl<V> View for PathMap<V> {
    type V = Map<Seq<char>, V>;

    closed spec fn view(&self) -> Map<Seq<char>, V> {
        assoc_map(self.pairs@)
    }
}

impl<V> PathMap<V> {
    /// Keys are pairwise distinct.
    pub closed spec fn wf(&self) -> bool {
        distinct_keys(self.pairs@)
    }

    /// The keys in insertion order.
    pub closed spec fn key_seq(&self) -> Seq<Seq<char>> {
        self.pairs@.map_values(|p: (String, V)| p.0@)
    }

    /// The empty map.
    pub fn new() -> (r: PathMap<V>)
        ensures
            r.wf(),
            r@ == Map::<Seq<char>, V>::empty(),
    {
        PathMap { pairs: Vec::new() }
    }

    /// How many keys the map holds.
    pub fn len(&self) -> (r: usize)
        ensures
            r == self.key_seq().len(),
    {
        self.pairs.len()
    }

    /// The key at one position of the insertion order.
    pub fn key_at(&self, i: usize) -> (r: &String)
        requires
            i < self.key_seq().len(),
        ensures
            r@ == self.key_seq()[i as int],
    {
        &self.pairs[i].0
    }

    /// Every key of the insertion order is in the map, and conversely.
    pub proof fn lemma_keys(&self)
        ensures
            forall|k: Seq<char>| #[trigger]
                self@.dom().contains(k) <==> exists|i: int|
                    0 <= i < self.key_seq().len() && self.key_seq()[i] == k,
    {
        assert forall|k: Seq<char>| #[trigger]
            self@.dom().contains(k) <==> exists|i: int|
                0 <= i < self.key_seq().len() && self.key_seq()[i] == k by {
            lemma_assoc_dom(self.pairs@, k);
            if exists|i: int| 0 <= i < self.pairs@.len() && (#[trigger] self.pairs@[i]).0@ == k {
                let i = choose|i: int|
                    0 <= i < self.pairs@.len() && (#[trigger] self.pairs@[i]).0@ == k;
                assert(self.key_seq()[i] == k);
            }
            if exists|i: int| 0 <= i < self.key_seq().len() && self.key_seq()[i] == k {
                let i = choose|i: int| 0 <= i < self.key_seq().len() && self.key_seq()[i] == k;
                assert(self.pairs@[i].0@ == k);
            }
        }
    }

    /// Looks a key up.
    pub fn get(&self, key: &str) -> (r: Option<&V>)
        requires
            self.wf(),
        ensures
            match r {
                Some(v) => self@.dom().contains(key@) && *v == self@[key@],
                None => !self@.dom().contains(key@),
            },
    {
        let mut i: usize = 0;
        while i < self.pairs.len()
            invariant
                i <= self.pairs@.len(),
                self.wf(),
                forall|j: int| 0 <= j < i ==> (#[trigger] self.pairs@[j]).0@ != key@,
            decreases self.pairs@.len() - i,
        {
            if str_eq(self.pairs[i].0.as_str(), key) {
                proof {
                    lemma_assoc_get(self.pairs@, i as int);
                }
                return Some(&self.pairs[i].1);
            }
            i = i + 1;
        }
        proof {
            lemma_assoc_dom(self.pairs@, key@);
        }
        None
    }

    /// Whether a key is present.
    pub fn contains_key(&self, key: &str) -> (r: bool)
        requires
            self.wf(),
        ensures
            r == self@.dom().contains(key@),
    {
        match self.get(key) {
            Some(_) => true,
            None => false,
        }
    }

    /// Inserts a key/value pair, replacing the value if the key is present.
    #[verifier::loop_isolation(false)]
    pub fn insert(&mut self, key: String, value: V)
        requires
            old(self).wf(),
        ensures
            final(self).wf(),
            final(self)@ == old(self)@.insert(key@, value),
    {
        let ghost pairs0 = old(self).pairs@;
        let mut i: usize = 0;
        while i < self.pairs.len()
            invariant
                i <= self.pairs@.len(),
                self.pairs@ == pairs0,
                distinct_keys(pairs0),
                forall|j: int| 0 <= j < i ==> (#[trigger] pairs0[j]).0@ != key@,
            decreases self.pairs@.len() - i,
        {
            if str_eq(self.pairs[i].0.as_str(), key.as_str()) {
                let ghost newpair = (key, value);
                proof {
                    lemma_assoc_update(pairs0, i as int, newpair);
                }
                self.pairs[i] = (key, value);
                proof {
                    assert(distinct_keys(self.pairs@)) by {
                        assert forall|x: int, y: int|
                            0 <= x < y < self.pairs@.len() implies (#[trigger] self.pairs@[x]).0@
                            != (#[trigger] self.pairs@[y]).0@ by {
                            if x != i && y != i {
                                assert(self.pairs@[x] == pairs0[x]);
                                assert(self.pairs@[y] == pairs0[y]);
                            } else if x == i {
                                assert(self.pairs@[y] == pairs0[y]);
                                assert(pairs0[i as int].0@ != pairs0[y].0@);
                            } else {
                                assert(self.pairs@[x] == pairs0[x]);
                                assert(pairs0[x].0@ != pairs0[i as int].0@);
                            }
                        }
                    }
                }
                return ;
            }
            i = i + 1;
        }
        proof {
            lemma_assoc_dom(pairs0, key@);
            assert(!assoc_map(pairs0).dom().contains(key@));
        }
        self.pairs.push((key, value));
        proof {
            assert(self.pairs@.drop_last() =~= pairs0);
            assert(distinct_keys(self.pairs@)) by {
                assert forall|x: int, y: int| 0 <= x < y < self.pairs@.len() implies (
                #[trigger] self.pairs@[x]).0@ != (#[trigger] self.pairs@[y]).0@ by {
                    if y < self.pairs@.len() - 1 {
                        assert(self.pairs@[x] == pairs0[x]);
                        assert(self.pairs@[y] == pairs0[y]);
                    } else {
                        assert(self.pairs@[x] == pairs0[x]);
                        lemma_assoc_get(pairs0, x);
                    }
                }
            }
        }
    }
}

} // verus!
