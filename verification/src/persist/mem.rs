//! In-memory Store implementation — used in tests.

use super::{Store, StoreError};
use crate::strutil::{str_eq, to_owned_string};
use vstd::prelude::*;

verus! {

/// In-memory key-value store. Each test gets a fresh instance.
#[derive(Debug, Clone)]
pub struct MemStore {
    data: Vec<(String, Vec<u8>)>,
}

/// The map held by a list of (key, value) pairs; a later pair for a key wins.
pub open spec fn pairs_map(d: Seq<(Seq<char>, Seq<u8>)>) -> Map<Seq<char>, Seq<u8>>
    decreases d.len(),
{
    if d.len() == 0 {
        Map::empty()
    } else {
        pairs_map(d.drop_last()).insert(d.last().0, d.last().1)
    }
}

impl MemStore {
    /// The model of the stored pairs.
    pub closed spec fn pairs(&self) -> Seq<(Seq<char>, Seq<u8>)> {
        self.data@.map_values(|p: (String, Vec<u8>)| (p.0@, p.1@))
    }

    /// An empty store.
    pub fn new() -> (r: Self)
        ensures
            r.stored() == Map::<Seq<char>, Seq<u8>>::empty(),
            r.never_fails(),
            r.obeys_model(),
    {
        let r = MemStore { data: Vec::new() };
        assert(r.pairs() =~= Seq::<(Seq<char>, Seq<u8>)>::empty());
        r
    }

    /// Removes `key`.
    pub fn delete(&mut self, key: &str) -> (r: Result<(), StoreError>)
        ensures
            r is Ok,
            final(self).stored() == old(self).stored().remove(key@),
    {
        let ghost before = self.pairs();
        let mut kept: Vec<(String, Vec<u8>)> = Vec::new();
        let mut i: usize = 0;
        while i < self.data.len()
            invariant
                i <= self.data@.len(),
                before == self.pairs(),
                pairs_map(kept@.map_values(|p: (String, Vec<u8>)| (p.0@, p.1@))) == pairs_map(before.take(i as int)).remove(key@),
            decreases self.data@.len() - i,
        {
            let ghost kv = kept@.map_values(|p: (String, Vec<u8>)| (p.0@, p.1@));
            assert(before[i as int] == (self.data@[i as int].0@, self.data@[i as int].1@));
            assert(before.take(i + 1).drop_last() =~= before.take(i as int));
            if !str_eq(self.data[i].0.as_str(), key) {
                let k = to_owned_string(self.data[i].0.as_str());
                let v = self.data[i].1.clone();
                kept.push((k, v));
                assert(kept@.map_values(|p: (String, Vec<u8>)| (p.0@, p.1@)) =~= kv.push(before[i as int]));
                assert(kv.push(before[i as int]).drop_last() =~= kv);
                assert(pairs_map(before.take(i + 1)).remove(key@) =~= pairs_map(before.take(i as int)).remove(key@).insert(
                    before[i as int].0,
                    before[i as int].1,
                ));
            } else {
                assert(pairs_map(before.take(i + 1)).remove(key@) =~= pairs_map(before.take(i as int)).remove(key@));
            }
            i = i + 1;
        }
        assert(before.take(self.data@.len() as int) =~= before);
        self.data = kept;
        Ok(())
    }

    /// Removes every key.
    pub fn clear_all(&mut self) -> (r: Result<(), StoreError>)
        ensures
            r is Ok,
            final(self).stored() == Map::<Seq<char>, Seq<u8>>::empty(),
    {
        self.data = Vec::new();
        assert(self.pairs() =~= Seq::<(Seq<char>, Seq<u8>)>::empty());
        Ok(())
    }
}

impl Default for MemStore {
    fn default() -> (r: Self)
        ensures
            r.stored() == Map::<Seq<char>, Seq<u8>>::empty(),
            r.never_fails(),
            r.obeys_model(),
    {
        MemStore::new()
    }
}

impl Store for MemStore {
    closed spec fn stored(&self) -> Map<Seq<char>, Seq<u8>> {
        pairs_map(self.pairs())
    }

    fn load(&self, key: &str) -> (r: Option<Vec<u8>>) {
        let ghost ps = self.pairs();
        let mut i: usize = self.data.len();
        assert(ps.take(i as int) =~= ps);
        assert(ps.skip(i as int) =~= Seq::<(Seq<char>, Seq<u8>)>::empty());
        assert(pairs_map(ps) =~= pairs_map(ps.take(i as int)).union_prefer_right(pairs_map(ps.skip(i as int))));
        while i > 0
            invariant
                i <= self.data@.len(),
                ps == self.pairs(),
                pairs_map(ps) == pairs_map(ps.take(i as int)).union_prefer_right(
                    pairs_map(ps.skip(i as int)),
                ),
                forall|j: int| i <= j < ps.len() ==> ps[j].0 != key@,
            decreases i,
        {
            let j = i - 1;
            assert(ps[j as int] == (self.data@[j as int].0@, self.data@[j as int].1@));
            if str_eq(self.data[j].0.as_str(), key) {
                proof {
                    lemma_pairs_lookup_last(ps, j as int, key@);
                }
                return Some(self.data[j].1.clone());
            }
            i = j;
            proof {
                lemma_pairs_split_step(ps, j as int);
            }
        }
        proof {
            lemma_pairs_absent(ps, key@);
        }
        None
    }

    closed spec fn never_fails(&self) -> bool {
        true
    }

    closed spec fn obeys_model(&self) -> bool {
        true
    }

    fn save(&mut self, key: &str, data: &[u8]) -> (r: Result<(), StoreError>)
        ensures
            r is Ok,
    {
        let ghost before = self.pairs();
        self.data.push((to_owned_string(key), vstd::slice::slice_to_vec(data)));
        assert(self.pairs() =~= before.push((key@, data@)));
        assert(before.push((key@, data@)).drop_last() =~= before);
        Ok(())
    }
}

proof fn lemma_pairs_split_step(ps: Seq<(Seq<char>, Seq<u8>)>, j: int)
    requires
        0 <= j < ps.len(),
    ensures
        pairs_map(ps.take(j + 1)) == pairs_map(ps.take(j)).insert(ps[j].0, ps[j].1),
        pairs_map(ps.skip(j)) == Map::<Seq<char>, Seq<u8>>::empty().insert(ps[j].0, ps[j].1).union_prefer_right(
            pairs_map(ps.skip(j + 1)),
        ),
{
    assert(ps.take(j + 1).drop_last() =~= ps.take(j));
    lemma_pairs_prepend(ps.skip(j));
    assert(ps.skip(j).skip(1) =~= ps.skip(j + 1));
}

proof fn lemma_pairs_prepend(ps: Seq<(Seq<char>, Seq<u8>)>)
    requires
        ps.len() > 0,
    ensures
        pairs_map(ps) == Map::<Seq<char>, Seq<u8>>::empty().insert(ps[0].0, ps[0].1).union_prefer_right(
            pairs_map(ps.skip(1)),
        ),
    decreases ps.len(),
{
    if ps.len() == 1 {
        assert(ps.skip(1) =~= Seq::<(Seq<char>, Seq<u8>)>::empty());
        assert(ps.drop_last() =~= Seq::<(Seq<char>, Seq<u8>)>::empty());
        assert(pairs_map(ps) =~= Map::<Seq<char>, Seq<u8>>::empty().insert(ps[0].0, ps[0].1).union_prefer_right(
            pairs_map(ps.skip(1)),
        ));
    } else {
        lemma_pairs_prepend(ps.drop_last());
        assert(ps.drop_last().skip(1) =~= ps.skip(1).drop_last());
        assert(ps.skip(1).last() == ps.last());
        assert(pairs_map(ps) =~= Map::<Seq<char>, Seq<u8>>::empty().insert(ps[0].0, ps[0].1).union_prefer_right(
            pairs_map(ps.skip(1)),
        ));
    }
}

proof fn lemma_pairs_lookup_last(ps: Seq<(Seq<char>, Seq<u8>)>, j: int, key: Seq<char>)
    requires
        0 <= j < ps.len(),
        ps[j].0 == key,
        forall|k: int| j < k < ps.len() ==> ps[k].0 != key,
    ensures
        pairs_map(ps).contains_key(key),
        pairs_map(ps)[key] == ps[j].1,
    decreases ps.len(),
{
    if j < ps.len() - 1 {
        lemma_pairs_lookup_last(ps.drop_last(), j, key);
    }
}

proof fn lemma_pairs_absent(ps: Seq<(Seq<char>, Seq<u8>)>, key: Seq<char>)
    requires
        forall|k: int| 0 <= k < ps.len() ==> ps[k].0 != key,
    ensures
        !pairs_map(ps).contains_key(key),
    decreases ps.len(),
{
    if ps.len() > 0 {
        lemma_pairs_absent(ps.drop_last(), key);
    }
}

} // verus!
