//! A string-to-string mapping with unique keys and last-write-wins
//! insertion, stored as a vector of pairs so that verified code can reason
//! about it.  It models both the header map and the query-parameter map.

use vstd::prelude::*;

use crate::text::str_eq;

verus! {

/// The mathematical map described by a sequence of key/value pairs,
/// later pairs winning over earlier ones.
pub open spec fn map_of(ps: Seq<(Seq<char>, Seq<char>)>) -> Map<Seq<char>, Seq<char>>
    decreases ps.len(),
{
    if ps.len() == 0 {
        Map::empty()
    } else {
        map_of(ps.drop_last()).insert(ps.last().0, ps.last().1)
    }
}

/// Whether some pair of `ps` carries the key `k`.
pub open spec fn has_key(ps: Seq<(Seq<char>, Seq<char>)>, k: Seq<char>) -> bool {
    exists|i: int| 0 <= i < ps.len() && (#[trigger] ps[i]).0 == k
}

/// Index of the first pair of `ps` whose key is `k`, if any.
pub open spec fn find_key(ps: Seq<(Seq<char>, Seq<char>)>, k: Seq<char>) -> Option<int>
    decreases ps.len(),
{
    if ps.len() == 0 {
        None
    } else if ps[0].0 == k {
        Some(0int)
    } else {
        match find_key(ps.drop_first(), k) {
            None => None,
            Some(i) => Some(i + 1),
        }
    }
}

/// Pair sequence after a last-write-wins insertion: an existing key keeps its
/// position and takes the new value; a new key is appended at the end.
pub open spec fn insert_pair(
    ps: Seq<(Seq<char>, Seq<char>)>,
    k: Seq<char>,
    v: Seq<char>,
) -> Seq<(Seq<char>, Seq<char>)> {
    match find_key(ps, k) {
        None => ps.push((k, v)),
        Some(i) => if 0 <= i < ps.len() {
            ps.update(i, (k, v))
        } else {
            ps.push((k, v))
        },
    }
}

/// Keys are pairwise distinct.
pub open spec fn unique_keys(ps: Seq<(Seq<char>, Seq<char>)>) -> bool {
    forall|i: int, j: int| 0 <= i < j < ps.len() ==> (#[trigger] ps[i]).0 != (#[trigger] ps[j]).0
}

/// An index that carries `k` with no earlier occurrence is what `find_key` returns.
pub proof fn lemma_find_key_some(ps: Seq<(Seq<char>, Seq<char>)>, k: Seq<char>, i: int)
    requires
        0 <= i < ps.len(),
        ps[i].0 == k,
        forall|j: int| 0 <= j < i ==> (#[trigger] ps[j]).0 != k,
    ensures
        find_key(ps, k) == Some(i),
    decreases i,
{
    if i > 0 {
        lemma_find_key_some(ps.drop_first(), k, i - 1);
    }
}

/// When no pair carries `k`, `find_key` returns `None`.
pub proof fn lemma_find_key_none(ps: Seq<(Seq<char>, Seq<char>)>, k: Seq<char>)
    requires
        forall|j: int| 0 <= j < ps.len() ==> (#[trigger] ps[j]).0 != k,
    ensures
        find_key(ps, k) is None,
    decreases ps.len(),
{
    if ps.len() > 0 {
        lemma_find_key_none(ps.drop_first(), k);
    }
}

/// The domain of `map_of(ps)` is exactly the set of keys of `ps`.
pub proof fn lemma_map_of_domain(ps: Seq<(Seq<char>, Seq<char>)>, k: Seq<char>)
    ensures
        map_of(ps).contains_key(k) <==> has_key(ps, k),
    decreases ps.len(),
{
    if ps.len() > 0 {
        lemma_map_of_domain(ps.drop_last(), k);
        if ps.last().0 == k {
            assert(ps[ps.len() - 1].0 == k);
        } else if has_key(ps.drop_last(), k) {
            let i = choose|i: int| 0 <= i < ps.drop_last().len() && (#[trigger] ps.drop_last()[i]).0
                == k;
            assert(ps[i].0 == k);
        } else if has_key(ps, k) {
            let i = choose|i: int| 0 <= i < ps.len() && (#[trigger] ps[i]).0 == k;
            assert(ps.drop_last()[i].0 == k);
        }
    }
}

/// Under unique keys, the pair at index `i` gives the mapped value of its key.
pub proof fn lemma_map_of_at(ps: Seq<(Seq<char>, Seq<char>)>, i: int)
    requires
        unique_keys(ps),
        0 <= i < ps.len(),
    ensures
        map_of(ps).contains_key(ps[i].0),
        map_of(ps)[ps[i].0] == ps[i].1,
    decreases ps.len(),
{
    if i < ps.len() - 1 {
        assert(unique_keys(ps.drop_last())) by {
            assert forall|a: int, b: int|
                0 <= a < b < ps.drop_last().len() implies (#[trigger] ps.drop_last()[a]).0 != (
            #[trigger] ps.drop_last()[b]).0 by {
                assert(ps[a].0 != ps[b].0);
            }
        }
        lemma_map_of_at(ps.drop_last(), i);
        assert(ps[i].0 != ps.last().0);
    }
}

/// Updating the pair that carries `k` is insertion into the map.
pub proof fn lemma_map_of_update(ps: Seq<(Seq<char>, Seq<char>)>, i: int, k: Seq<char>, v: Seq<char>)
    requires
        unique_keys(ps),
        0 <= i < ps.len(),
        ps[i].0 == k,
    ensures
        map_of(ps.update(i, (k, v))) =~= map_of(ps).insert(k, v),
    decreases ps.len(),
{
    let d = ps.drop_last();
    if i == ps.len() - 1 {
        assert(ps.update(i, (k, v)).drop_last() =~= d);
        assert(ps.update(i, (k, v)).last() == (k, v));
    } else {
        assert(unique_keys(d)) by {
            assert forall|a: int, b: int| 0 <= a < b < d.len() implies (#[trigger] d[a]).0 != (
            #[trigger] d[b]).0 by {
                assert(ps[a].0 != ps[b].0);
            }
        }
        lemma_map_of_update(d, i, k, v);
        assert(ps.update(i, (k, v)).drop_last() =~= d.update(i, (k, v)));
        assert(ps.update(i, (k, v)).last() == ps.last());
        assert(k != ps.last().0);
        assert(map_of(d).insert(k, v).insert(ps.last().0, ps.last().1) =~= map_of(d).insert(
            ps.last().0,
            ps.last().1,
        ).insert(k, v));
    }
}

/// A string-keyed, string-valued mapping with unique keys.  Insertion is
/// last-write-wins: a repeated key keeps its place and takes the new value.
#[derive(Debug)]
pub struct StrMap {
    pairs: Vec<(String, String)>,
}

impl StrMap {
    /// The key/value pairs, in storage order, as character sequences.
    pub closed spec fn pairs(&self) -> Seq<(Seq<char>, Seq<char>)> {
        Seq::new(self.pairs@.len(), |i: int| (self.pairs@[i].0@, self.pairs@[i].1@))
    }

    /// The mathematical map this value stands for.
    pub open spec fn as_map(&self) -> Map<Seq<char>, Seq<char>> {
        map_of(self.pairs())
    }

    /// Well-formedness: keys are pairwise distinct.
    pub open spec fn wf(&self) -> bool {
        unique_keys(self.pairs())
    }

    /// An empty mapping.
    pub fn new() -> (r: StrMap)
        ensures
            r.wf(),
            r.pairs() == Seq::<(Seq<char>, Seq<char>)>::empty(),
            r.as_map() == Map::<Seq<char>, Seq<char>>::empty(),
    {
        let r = StrMap { pairs: Vec::new() };
        proof {
            assert(r.pairs() =~= Seq::<(Seq<char>, Seq<char>)>::empty());
        }
        r
    }

    /// The number of pairs held.
    pub fn len(&self) -> (n: usize)
        ensures
            n == self.pairs().len(),
    {
        self.pairs.len()
    }

    /// Whether no pair is held.
    pub fn is_empty(&self) -> (r: bool)
        ensures
            r == (self.pairs().len() == 0),
    {
        self.pairs.len() == 0
    }

    /// The key of the pair at index `i`.
    pub fn key_at(&self, i: usize) -> (r: &String)
        requires
            i < self.pairs().len(),
        ensures
            r@ == self.pairs()[i as int].0,
    {
        &self.pairs[i].0
    }

    /// The value of the pair at index `i`.
    pub fn val_at(&self, i: usize) -> (r: &String)
        requires
            i < self.pairs().len(),
        ensures
            r@ == self.pairs()[i as int].1,
    {
        &self.pairs[i].1
    }

    /// Looks `k` up in the mapping.
    pub fn get(&self, k: &str) -> (r: Option<&String>)
        requires
            self.wf(),
        ensures
            match r {
                Some(v) => self.as_map().contains_key(k@) && v@ == self.as_map()[k@],
                None => !self.as_map().contains_key(k@),
            },
    {
        let n = self.pairs.len();
        let mut i: usize = 0;
        while i < n
            invariant
                n == self.pairs().len(),
                0 <= i <= n,
                self.wf(),
                forall|j: int| 0 <= j < i ==> (#[trigger] self.pairs()[j]).0 != k@,
            decreases n - i,
        {
            if str_eq(self.pairs[i].0.as_str(), k) {
                proof {
                    lemma_map_of_at(self.pairs(), i as int);
                }
                return Some(&self.pairs[i].1);
            }
            i += 1;
        }
        proof {
            lemma_map_of_domain(self.pairs(), k@);
        }
        None
    }

    /// Whether `k` is among the keys.
    pub fn contains_key(&self, k: &str) -> (r: bool)
        requires
            self.wf(),
        ensures
            r == self.as_map().contains_key(k@),
    {
        self.get(k).is_some()
    }

    /// Inserts `k -> v`, overwriting the value of an existing key in place.
    pub fn insert(&mut self, k: String, v: String)
        requires
            old(self).wf(),
        ensures
            final(self).wf(),
            final(self).pairs() == insert_pair(old(self).pairs(), k@, v@),
            final(self).as_map() == old(self).as_map().insert(k@, v@),
    {
        let ghost ps0 = self.pairs();
        let n = self.pairs.len();
        let mut i: usize = 0;
        while i < n
            invariant
                n == self.pairs().len(),
                0 <= i <= n,
                self.pairs() == ps0,
                ps0 == old(self).pairs(),
                unique_keys(ps0),
                forall|j: int| 0 <= j < i ==> (#[trigger] ps0[j]).0 != k@,
            decreases n - i,
        {
            if str_eq(self.pairs[i].0.as_str(), k.as_str()) {
                proof {
                    lemma_find_key_some(ps0, k@, i as int);
                    lemma_map_of_update(ps0, i as int, k@, v@);
                }
                self.pairs.remove(i);
                self.pairs.insert(i, (k, v));
                proof {
                    assert(self.pairs() =~= ps0.update(i as int, (k@, v@)));
                    assert(self.pairs() == insert_pair(ps0, k@, v@));
                    assert forall|a: int, b: int|
                        0 <= a < b < self.pairs().len() implies (#[trigger] self.pairs()[a]).0 != (
                    #[trigger] self.pairs()[b]).0 by {
                        assert(ps0[a].0 != ps0[b].0);
                        assert(ps0[i as int].0 == k@);
                    }
                }
                return ;
            }
            i += 1;
        }
        proof {
            lemma_find_key_none(ps0, k@);
        }
        self.pairs.push((k, v));
        proof {
            assert(self.pairs() =~= ps0.push((k@, v@)));
            assert(self.pairs().drop_last() =~= ps0);
            assert(self.pairs().last() == (k@, v@));
            assert(self.as_map() == map_of(ps0).insert(k@, v@));
            assert forall|a: int, b: int|
                0 <= a < b < self.pairs().len() implies (#[trigger] self.pairs()[a]).0 != (
            #[trigger] self.pairs()[b]).0 by {
                if b < self.pairs().len() - 1 {
                    assert(ps0[a].0 != ps0[b].0);
                } else {
                    assert(ps0[a].0 != k@);
                }
            }
        }
    }
}

} // verus!
