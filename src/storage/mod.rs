//! The ordered key/value store interface that the log is built on, and an
//! in-memory store.
pub mod memory;

pub use self::memory::Memory;

use vstd::prelude::*;

use crate::error::Result;

verus! {

/// Byte-lexicographic order on keys: `a` sorts before `b`.
pub open spec fn key_lt(a: Seq<u8>, b: Seq<u8>) -> bool
    decreases a.len(),
{
    if a.len() == 0 {
        b.len() > 0
    } else if b.len() == 0 {
        false
    } else if a[0] != b[0] {
        a[0] < b[0]
    } else {
        key_lt(a.drop_first(), b.drop_first())
    }
}

/// No key sorts before itself.
pub proof fn lemma_key_lt_irreflexive(a: Seq<u8>)
    ensures
        !key_lt(a, a),
    decreases a.len(),
{
    if a.len() > 0 {
        lemma_key_lt_irreflexive(a.drop_first());
    }
}

/// The key order is transitive.
pub proof fn lemma_key_lt_transitive(a: Seq<u8>, b: Seq<u8>, c: Seq<u8>)
    requires
        key_lt(a, b),
        key_lt(b, c),
    ensures
        key_lt(a, c),
    decreases a.len(),
{
    if a.len() > 0 && b.len() > 0 && c.len() > 0 && a[0] == b[0] && b[0] == c[0] {
        lemma_key_lt_transitive(a.drop_first(), b.drop_first(), c.drop_first());
    }
}

/// Of two different keys, one sorts before the other.
pub proof fn lemma_key_lt_total(a: Seq<u8>, b: Seq<u8>)
    requires
        a != b,
    ensures
        key_lt(a, b) || key_lt(b, a),
    decreases a.len(),
{
    if a.len() > 0 && b.len() > 0 && a[0] == b[0] {
        assert(a =~= seq![a[0]] + a.drop_first());
        assert(b =~= seq![b[0]] + b.drop_first());
        lemma_key_lt_total(a.drop_first(), b.drop_first());
    } else if a.len() == 0 && b.len() == 0 {
        assert(a =~= b);
    }
}

/// Whether `a` sorts before `b`.
pub fn key_less(a: &Vec<u8>, b: &Vec<u8>) -> (r: bool)
    ensures
        r == key_lt(a@, b@),
{
    let mut i: usize = 0;
    assert(a@.skip(0) =~= a@);
    assert(b@.skip(0) =~= b@);
    while i < a.len() && i < b.len() && a[i] == b[i]
        invariant
            0 <= i <= a@.len(),
            i <= b@.len(),
            key_lt(a@, b@) == key_lt(a@.skip(i as int), b@.skip(i as int)),
        decreases a@.len() - i,
    {
        assert(a@.skip(i as int).drop_first() =~= a@.skip(i + 1));
        assert(b@.skip(i as int).drop_first() =~= b@.skip(i + 1));
        i = i + 1;
    }
    if i < a.len() && i < b.len() {
        a[i] < b[i]
    } else {
        i == a.len() && i < b.len()
    }
}

/// Whether two byte strings are equal.
pub fn bytes_equal(a: &Vec<u8>, b: &Vec<u8>) -> (r: bool)
    ensures
        r == (a@ == b@),
{
    if a.len() != b.len() {
        return false;
    }
    let mut i: usize = 0;
    while i < a.len()
        invariant
            a@.len() == b@.len(),
            0 <= i <= a@.len(),
            a@.subrange(0, i as int) == b@.subrange(0, i as int),
        decreases a@.len() - i,
    {
        if a[i] != b[i] {
            return false;
        }
        assert(a@.subrange(0, i + 1) =~= a@.subrange(0, i as int).push(a@[i as int]));
        assert(b@.subrange(0, i + 1) =~= b@.subrange(0, i as int).push(b@[i as int]));
        i = i + 1;
    }
    assert(a@ =~= a@.subrange(0, i as int));
    assert(b@ =~= b@.subrange(0, i as int));
    true
}

/// One end of a scan range.
#[derive(Debug)]
pub enum Bound {
    Included(Vec<u8>),
    Excluded(Vec<u8>),
    Unbounded,
}

/// A scan range: a start and an end bound, each inclusive, exclusive or open.
#[derive(Debug)]
pub struct Range {
    pub start: Bound,
    pub end: Bound,
}

/// Whether `k` lies after the start bound `b`.
pub open spec fn after_start(b: Bound, k: Seq<u8>) -> bool {
    match b {
        Bound::Included(s) => !key_lt(k, s@),
        Bound::Excluded(s) => key_lt(s@, k),
        Bound::Unbounded => true,
    }
}

/// Whether `k` lies before the end bound `b`.
pub open spec fn before_end(b: Bound, k: Seq<u8>) -> bool {
    match b {
        Bound::Included(e) => !key_lt(e@, k),
        Bound::Excluded(e) => key_lt(k, e@),
        Bound::Unbounded => true,
    }
}

impl Range {
    /// Whether `k` lies in the range.
    pub open spec fn contains(&self, k: Seq<u8>) -> bool {
        after_start(self.start, k) && before_end(self.end, k)
    }

    /// A range from a pair of bounds.
    pub fn from(range: (Bound, Bound)) -> (r: Range)
        ensures
            r.start == range.0,
            r.end == range.1,
    {
        let (start, end) = range;
        Range { start, end }
    }

    /// The start bound.
    pub fn start_bound(&self) -> (r: &Bound)
        ensures
            *r == self.start,
    {
        &self.start
    }

    /// The end bound.
    pub fn end_bound(&self) -> (r: &Bound)
        ensures
            *r == self.end,
    {
        &self.end
    }

    /// Whether `k` lies in the range.
    pub fn contains_key(&self, k: &Vec<u8>) -> (r: bool)
        ensures
            r == self.contains(k@),
    {
        let after = match &self.start {
            Bound::Included(s) => !key_less(k, s),
            Bound::Excluded(s) => key_less(s, k),
            Bound::Unbounded => true,
        };
        let before = match &self.end {
            Bound::Included(e) => !key_less(e, k),
            Bound::Excluded(e) => key_less(k, e),
            Bound::Unbounded => true,
        };
        after && before
    }
}

/// The key/value pairs of `s` in views.
pub open spec fn pairs_view(s: Seq<(Vec<u8>, Vec<u8>)>) -> Seq<(Seq<u8>, Seq<u8>)> {
    s.map_values(|p: (Vec<u8>, Vec<u8>)| (p.0@, p.1@))
}

/// Whether the keys of `s` ascend strictly.
pub open spec fn ascending(s: Seq<(Seq<u8>, Seq<u8>)>) -> bool {
    forall|i: int, j: int| 0 <= i < j < s.len() ==> key_lt(#[trigger] s[i].0, #[trigger] s[j].0)
}

/// Whether `s` is the scan of the store `m` over `range`: its pairs are
/// those of `m` whose keys lie in the range, each once, by ascending key.
pub open spec fn is_scan(s: Seq<(Seq<u8>, Seq<u8>)>, m: Map<Seq<u8>, Seq<u8>>, range: Range) -> bool {
    &&& ascending(s)
    &&& forall|i: int| 0 <= i < s.len() ==> m.contains_key(#[trigger] s[i].0) && m[s[i].0] == s[i].1 && range.contains(s[i].0)
    &&& forall|k: Seq<u8>| m.contains_key(k) && range.contains(k) ==> exists|i: int| 0 <= i < s.len() && (#[trigger] s[i]).0 == k
}

/// A scan of a store over a range has one content only.
pub proof fn lemma_scan_unique(a: Seq<(Seq<u8>, Seq<u8>)>, b: Seq<(Seq<u8>, Seq<u8>)>, m: Map<Seq<u8>, Seq<u8>>, range: Range)
    requires
        is_scan(a, m, range),
        is_scan(b, m, range),
    ensures
        a == b,
    decreases a.len(),
{
    if a.len() == 0 {
        if b.len() > 0 {
            assert(m.contains_key(b[0].0) && range.contains(b[0].0));
        }
        assert(a =~= b);
    } else {
        assert(m.contains_key(a[0].0) && range.contains(a[0].0));
        let j = choose|j: int| 0 <= j < b.len() && (#[trigger] b[j]).0 == a[0].0;
        assert(m.contains_key(b[0].0) && range.contains(b[0].0));
        let i = choose|i: int| 0 <= i < a.len() && (#[trigger] a[i]).0 == b[0].0;
        let k0 = a[0].0;
        if k0 != b[0].0 {
            assert(key_lt(b[0].0, b[j].0));
            assert(key_lt(a[0].0, a[i].0));
            lemma_key_lt_transitive(k0, b[0].0, k0);
            lemma_key_lt_irreflexive(k0);
        }
        let m2 = m.remove(k0);
        let a2 = a.drop_first();
        let b2 = b.drop_first();
        assert forall|x: int| 0 <= x < a2.len() implies m2.contains_key(#[trigger] a2[x].0) && m2[a2[x].0] == a2[x].1
            && range.contains(a2[x].0) by {
            assert(key_lt(a[0].0, a[x + 1].0));
            lemma_key_lt_irreflexive(k0);
        }
        assert forall|x: int| 0 <= x < b2.len() implies m2.contains_key(#[trigger] b2[x].0) && m2[b2[x].0] == b2[x].1
            && range.contains(b2[x].0) by {
            assert(key_lt(b[0].0, b[x + 1].0));
            lemma_key_lt_irreflexive(k0);
        }
        assert forall|k: Seq<u8>| m2.contains_key(k) && range.contains(k) implies exists|x: int| 0 <= x < a2.len() && (#[trigger] a2[x]).0 == k by {
            let x = choose|x: int| 0 <= x < a.len() && (#[trigger] a[x]).0 == k;
            assert(a2[x - 1].0 == k);
        }
        assert forall|k: Seq<u8>| m2.contains_key(k) && range.contains(k) implies exists|x: int| 0 <= x < b2.len() && (#[trigger] b2[x]).0 == k by {
            let x = choose|x: int| 0 <= x < b.len() && (#[trigger] b[x]).0 == k;
            assert(b2[x - 1].0 == k);
        }
        assert forall|x: int, y: int| 0 <= x < y < a2.len() implies key_lt(#[trigger] a2[x].0, #[trigger] a2[y].0) by {
            assert(key_lt(a[x + 1].0, a[y + 1].0));
        }
        assert forall|x: int, y: int| 0 <= x < y < b2.len() implies key_lt(#[trigger] b2[x].0, #[trigger] b2[y].0) by {
            assert(key_lt(b[x + 1].0, b[y + 1].0));
        }
        lemma_scan_unique(a2, b2, m2, range);
        assert(a =~= seq![a[0]] + a2);
        assert(b =~= seq![b[0]] + b2);
    }
}

/// Reading a range backwards gives exactly the forward scan reversed: no
/// pair is gained, lost or repeated.
pub proof fn lemma_scan_reversal(fwd: Seq<(Seq<u8>, Seq<u8>)>, bwd: Seq<(Seq<u8>, Seq<u8>)>, m: Map<Seq<u8>, Seq<u8>>, range: Range)
    requires
        is_scan(fwd, m, range),
        is_scan(bwd.reverse(), m, range),
    ensures
        bwd == fwd.reverse(),
{
    lemma_scan_unique(fwd, bwd.reverse(), m, range);
    assert(bwd =~= bwd.reverse().reverse());
}

/// After `set_or_insert(k, v)` a read of `k` gives `v`; after `delete(k)`
/// it gives nothing; deleting an absent key changes nothing.
pub proof fn lemma_round_trip(m: Map<Seq<u8>, Seq<u8>>, k: Seq<u8>, v: Seq<u8>)
    ensures
        m.insert(k, v).contains_key(k) && m.insert(k, v)[k] == v,
        !m.remove(k).contains_key(k),
        !m.contains_key(k) ==> m.remove(k) == m,
{
    if !m.contains_key(k) {
        assert(m.remove(k) =~= m);
    }
}

/// A key/value store.
pub trait Store {
    /// The pairs held, as a map from key to value.
    spec fn model(&self) -> Map<Seq<u8>, Seq<u8>>;

    /// The store's own consistency.
    spec fn inv(&self) -> bool;

    /// Sets a value for a key, replacing the existing value if any.
    fn set_or_insert(&mut self, key: &Vec<u8>, value: Vec<u8>) -> (r: Result<()>)
        requires
            old(self).inv(),
        ensures
            final(self).inv(),
            r is Ok ==> final(self).model() == old(self).model().insert(key@, value@),
            r is Err ==> final(self).model() == old(self).model(),
    ;

    /// Gets a value for a key, if it exists.
    fn get(&self, key: &Vec<u8>) -> (r: Result<Option<Vec<u8>>>)
        requires
            self.inv(),
        ensures
            r matches Ok(v) ==> (v is Some <==> self.model().contains_key(key@))
                && (v matches Some(x) ==> x@ == self.model()[key@]),
    ;

    /// Deletes a key, doing nothing if it does not exist.
    fn delete(&mut self, key: &Vec<u8>) -> (r: Result<()>)
        requires
            old(self).inv(),
        ensures
            final(self).inv(),
            r is Ok ==> final(self).model() == old(self).model().remove(key@),
            r is Err ==> final(self).model() == old(self).model(),
    ;

    /// The pairs whose keys lie in `range`, by ascending key.
    fn scan(&self, range: &Range) -> (r: Result<Vec<(Vec<u8>, Vec<u8>)>>)
        requires
            self.inv(),
        ensures
            r matches Ok(v) ==> is_scan(pairs_view(v@), self.model(), *range),
    ;

    /// The pairs whose keys lie in `range`, by descending key.
    fn scan_rev(&self, range: &Range) -> (r: Result<Vec<(Vec<u8>, Vec<u8>)>>)
        requires
            self.inv(),
        ensures
            r matches Ok(v) ==> is_scan(pairs_view(v@).reverse(), self.model(), *range),
    ;

    /// Flushes any buffered data to the underlying storage medium.
    fn flush(&mut self) -> (r: Result<()>)
        requires
            old(self).inv(),
        ensures
            final(self).inv(),
            final(self).model() == old(self).model(),
    ;
}

} // verus!
