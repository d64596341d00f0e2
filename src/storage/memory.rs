use vstd::prelude::*;

use crate::error::Result;
use crate::storage::{
    ascending, key_less, key_lt, lemma_key_lt_irreflexive, lemma_key_lt_total, lemma_key_lt_transitive,
    pairs_view, Range, Store, bytes_equal,
};

verus! {

/// The map that a sequence of pairs with distinct keys stands for.
pub open spec fn map_of(s: Seq<(Seq<u8>, Seq<u8>)>) -> Map<Seq<u8>, Seq<u8>> {
    Map::new(
        |k: Seq<u8>| exists|i: int| 0 <= i < s.len() && (#[trigger] s[i]).0 == k,
        |k: Seq<u8>| s[choose|i: int| 0 <= i < s.len() && (#[trigger] s[i]).0 == k].1,
    )
}

/// In an ascending sequence, each pair gives the map's value at its key.
pub proof fn lemma_map_of_at(s: Seq<(Seq<u8>, Seq<u8>)>, i: int)
    requires
        ascending(s),
        0 <= i < s.len(),
    ensures
        map_of(s).contains_key(s[i].0),
        map_of(s)[s[i].0] == s[i].1,
{
    assert(s[i].0 == s[i].0);
    let j = choose|j: int| 0 <= j < s.len() && (#[trigger] s[j]).0 == s[i].0;
    if j != i {
        lemma_key_lt_irreflexive(s[i].0);
        if j < i {
            assert(key_lt(s[j].0, s[i].0));
        } else {
            assert(key_lt(s[i].0, s[j].0));
        }
    }
}

/// A copy of a byte string.
fn copy_bytes(v: &Vec<u8>) -> (r: Vec<u8>)
    ensures
        r@ == v@,
{
    let r = v.clone();
    assert(r@ =~= v@);
    r
}

/// A store that holds its pairs in memory, by ascending key.
pub struct Memory {
    data: Vec<(Vec<u8>, Vec<u8>)>,
}

impl Memory {
    /// The pairs, by ascending key.
    pub closed spec fn pairs(&self) -> Seq<(Seq<u8>, Seq<u8>)> {
        pairs_view(self.data@)
    }

    /// An empty store.
    pub fn new() -> (r: Memory)
        ensures
            r.inv(),
            r.model() == Map::<Seq<u8>, Seq<u8>>::empty(),
    {
        let r = Memory { data: Vec::new() };
        assert(r.model() =~= Map::<Seq<u8>, Seq<u8>>::empty());
        r
    }

    /// The position of the first pair whose key does not sort before `key`,
    /// and whether that pair's key is `key`.
    fn find(&self, key: &Vec<u8>) -> (r: (usize, bool))
        requires
            self.inv(),
        ensures
            r.0 <= self.pairs().len(),
            forall|i: int| 0 <= i < r.0 ==> key_lt(#[trigger] self.pairs()[i].0, key@),
            forall|i: int| r.0 <= i < self.pairs().len() ==> key_lt(key@, #[trigger] self.pairs()[i].0) || (i == r.0 && r.1),
            r.1 <==> (r.0 < self.pairs().len() && self.pairs()[r.0 as int].0 == key@),
    {
        let ghost s = self.pairs();
        let n = self.data.len();
        let mut p: usize = 0;
        while p < n && key_less(&self.data[p].0, key)
            invariant
                n == s.len(),
                s == self.pairs(),
                0 <= p <= n,
                forall|i: int| 0 <= i < p ==> key_lt(#[trigger] s[i].0, key@),
            decreases n - p,
        {
            p = p + 1;
        }
        let found = p < n && bytes_equal(&self.data[p].0, key);
        proof {
            assert forall|i: int| p <= i < s.len() implies key_lt(key@, #[trigger] s[i].0) || (i == p && found) by {
                if !key_lt(key@, s[i].0) && !(i == p && found) {
                    if s[i].0 == key@ {
                        if i > p {
                            assert(key_lt(s[p as int].0, s[i].0));
                        }
                    } else {
                        lemma_key_lt_total(s[i].0, key@);
                        if i > p {
                            assert(key_lt(s[p as int].0, s[i].0));
                            lemma_key_lt_transitive(s[p as int].0, s[i].0, key@);
                        }
                    }
                }
            }
        }
        (p, found)
    }
}

/// The in-memory store never fails.
impl Store for Memory {
    closed spec fn model(&self) -> Map<Seq<u8>, Seq<u8>> {
        map_of(self.pairs())
    }

    closed spec fn inv(&self) -> bool {
        ascending(self.pairs())
    }

    fn set_or_insert(&mut self, key: &Vec<u8>, value: Vec<u8>) -> (r: Result<()>)
        ensures
            r is Ok,
    {
        let ghost s = self.pairs();
        let (p, found) = self.find(key);
        let ghost v = value@;
        if found {
            self.data.set(p, (copy_bytes(key), value));
        } else {
            self.data.insert(p, (copy_bytes(key), value));
        }
        let ghost t = self.pairs();
        proof {
            if found {
                assert(t =~= s.update(p as int, (key@, v)));
            } else {
                assert(t =~= s.insert(p as int, (key@, v)));
            }
            assert forall|i: int, j: int| 0 <= i < j < t.len() implies key_lt(#[trigger] t[i].0, #[trigger] t[j].0) by {
                if found {
                    if i == p {
                        assert(key_lt(key@, s[j].0) || j == p);
                    } else if j == p {
                        assert(key_lt(s[i].0, key@));
                    }
                } else {
                    if i == p {
                        assert(key_lt(key@, s[j - 1].0));
                    } else if j == p {
                        assert(key_lt(s[i].0, key@));
                    } else if i < p && j > p {
                        assert(key_lt(s[i].0, s[j - 1].0));
                    } else if i > p {
                        assert(key_lt(s[i - 1].0, s[j - 1].0));
                    }
                }
            }
            assert forall|k: Seq<u8>| #[trigger] map_of(t).contains_key(k) == old(self).model().insert(key@, v).contains_key(k)
                && (map_of(t).contains_key(k) ==> map_of(t)[k] == old(self).model().insert(key@, v)[k]) by {
                if k == key@ {
                    lemma_map_of_at(t, p as int);
                } else {
                    if map_of(t).contains_key(k) {
                        let i = choose|i: int| 0 <= i < t.len() && (#[trigger] t[i]).0 == k;
                        lemma_map_of_at(t, i);
                        let si = if found || i < p { i } else { i - 1 };
                        assert(s[si] == t[i]);
                        lemma_map_of_at(s, si);
                    }
                    if map_of(s).contains_key(k) {
                        let i = choose|i: int| 0 <= i < s.len() && (#[trigger] s[i]).0 == k;
                        let ti = if found || i < p { i } else { i + 1 };
                        assert(t[ti] == s[i]);
                    }
                }
            }
            assert(map_of(t) =~= old(self).model().insert(key@, v));
        }
        Ok(())
    }

    fn get(&self, key: &Vec<u8>) -> (r: Result<Option<Vec<u8>>>)
        ensures
            r is Ok,
    {
        let (p, found) = self.find(key);
        proof {
            if found {
                lemma_map_of_at(self.pairs(), p as int);
            } else if self.model().contains_key(key@) {
                let i = choose|i: int| 0 <= i < self.pairs().len() && (#[trigger] self.pairs()[i]).0 == key@;
                lemma_key_lt_irreflexive(key@);
            }
        }
        if found {
            Ok(Some(copy_bytes(&self.data[p].1)))
        } else {
            Ok(None)
        }
    }

    fn delete(&mut self, key: &Vec<u8>) -> (r: Result<()>)
        ensures
            r is Ok,
    {
        let ghost s = self.pairs();
        let (p, found) = self.find(key);
        if !found {
            proof {
                assert forall|k: Seq<u8>| #[trigger] map_of(s).contains_key(k) implies k != key@ by {
                    let i = choose|i: int| 0 <= i < s.len() && (#[trigger] s[i]).0 == k;
                    lemma_key_lt_irreflexive(key@);
                }
                assert(map_of(s) =~= map_of(s).remove(key@));
            }
            return Ok(());
        }
        self.data.remove(p);
        let ghost t = self.pairs();
        proof {
            assert(t =~= s.remove(p as int));
            assert forall|i: int, j: int| 0 <= i < j < t.len() implies key_lt(#[trigger] t[i].0, #[trigger] t[j].0) by {
                if i >= p {
                    assert(key_lt(s[i + 1].0, s[j + 1].0));
                } else if j >= p {
                    assert(key_lt(s[i].0, s[j + 1].0));
                } else {
                    assert(key_lt(s[i].0, s[j].0));
                }
            }
            assert forall|k: Seq<u8>| #[trigger] map_of(t).contains_key(k) == map_of(s).remove(key@).contains_key(k)
                && (map_of(t).contains_key(k) ==> map_of(t)[k] == map_of(s).remove(key@)[k]) by {
                if map_of(t).contains_key(k) {
                    let i = choose|i: int| 0 <= i < t.len() && (#[trigger] t[i]).0 == k;
                    lemma_map_of_at(t, i);
                    let si = if i < p { i } else { i + 1 };
                    assert(s[si] == t[i]);
                    lemma_map_of_at(s, si);
                    lemma_key_lt_irreflexive(key@);
                    if si > p {
                        assert(key_lt(s[p as int].0, s[si].0));
                    } else {
                        assert(key_lt(s[si].0, s[p as int].0));
                    }
                }
                if map_of(s).contains_key(k) && k != key@ {
                    let i = choose|i: int| 0 <= i < s.len() && (#[trigger] s[i]).0 == k;
                    let ti = if i < p { i } else { i - 1 };
                    assert(t[ti] == s[i]);
                }
            }
            assert(map_of(t) =~= map_of(s).remove(key@));
        }
        Ok(())
    }

    fn scan(&self, range: &Range) -> (r: Result<Vec<(Vec<u8>, Vec<u8>)>>)
        ensures
            r is Ok,
    {
        let ghost s = self.pairs();
        let mut out: Vec<(Vec<u8>, Vec<u8>)> = Vec::new();
        let ghost mut idx: Seq<int> = Seq::empty();
        let n = self.data.len();
        let mut i: usize = 0;
        while i < n
            invariant
                n == s.len(),
                s == self.pairs(),
                ascending(s),
                0 <= i <= n,
                idx.len() == out@.len(),
                forall|x: int| 0 <= x < idx.len() ==> 0 <= #[trigger] idx[x] < i && pairs_view(out@)[x] == s[idx[x]]
                    && range.contains(s[idx[x]].0),
                forall|x: int, y: int| 0 <= x < y < idx.len() ==> #[trigger] idx[x] < #[trigger] idx[y],
                forall|j: int| 0 <= j < i && range.contains(#[trigger] s[j].0) ==> idx.contains(j),
            decreases n - i,
        {
            let ghost o = pairs_view(out@);
            if range.contains_key(&self.data[i].0) {
                out.push((copy_bytes(&self.data[i].0), copy_bytes(&self.data[i].1)));
                assert(pairs_view(out@) =~= o.push(s[i as int]));
                proof {
                    let idx0 = idx;
                    idx = idx.push(i as int);
                    assert forall|j: int| 0 <= j < i + 1 && range.contains(#[trigger] s[j].0) implies idx.contains(j) by {
                        if j < i {
                            let x = choose|x: int| 0 <= x < idx0.len() && idx0[x] == j;
                            assert(idx[x] == j);
                        } else {
                            assert(idx[idx.len() - 1] == j);
                        }
                    }
                }
            }
            i = i + 1;
        }
        proof {
            let v = pairs_view(out@);
            assert forall|x: int, y: int| 0 <= x < y < v.len() implies key_lt(#[trigger] v[x].0, #[trigger] v[y].0) by {
                assert(idx[x] < idx[y]);
            }
            assert forall|x: int| 0 <= x < v.len() implies self.model().contains_key(#[trigger] v[x].0) && self.model()[v[x].0] == v[x].1
                && range.contains(v[x].0) by {
                lemma_map_of_at(s, idx[x]);
            }
            assert forall|k: Seq<u8>| self.model().contains_key(k) && range.contains(k) implies exists|x: int| 0 <= x < v.len() && (#[trigger] v[x]).0 == k by {
                let j = choose|j: int| 0 <= j < s.len() && (#[trigger] s[j]).0 == k;
                assert(idx.contains(j));
                let x = choose|x: int| 0 <= x < idx.len() && idx[x] == j;
                assert(v[x].0 == k);
            }
        }
        Ok(out)
    }

    fn scan_rev(&self, range: &Range) -> (r: Result<Vec<(Vec<u8>, Vec<u8>)>>)
        ensures
            r is Ok,
    {
        let mut fwd = self.scan(range)?;
        let ghost f = pairs_view(fwd@);
        let mut out: Vec<(Vec<u8>, Vec<u8>)> = Vec::new();
        assert(pairs_view(fwd@) + pairs_view(out@).reverse() =~= f);
        while fwd.len() > 0
            invariant
                pairs_view(fwd@) + pairs_view(out@).reverse() == f,
            decreases fwd@.len(),
        {
            let ghost before = pairs_view(out@);
            let ghost rest = pairs_view(fwd@);
            let p = fwd.pop().unwrap();
            assert(pairs_view(out@.push(p)).reverse() =~= seq![(p.0@, p.1@)] + before.reverse());
            assert(rest =~= pairs_view(fwd@).push((p.0@, p.1@)));
            out.push(p);
            assert(pairs_view(fwd@) + pairs_view(out@).reverse() =~= rest + before.reverse());
        }
        assert(pairs_view(out@).reverse() =~= f);
        Ok(out)
    }

    fn flush(&mut self) -> (r: Result<()>)
        ensures
            r is Ok,
    {
        Ok(())
    }
}

} // verus!
