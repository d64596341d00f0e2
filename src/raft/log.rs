use vstd::prelude::*;

use crate::error::{Error, Result};
use crate::raft::message::{entries_view, Entry};

verus! {

/// How many entries, from the start of `e`, agree in term with the log `l`
/// read from 0-based position `base` on; counting from `k`.
pub open spec fn match_len(l: Seq<(u64, Option<Seq<u8>>)>, base: int, e: Seq<(u64, Option<Seq<u8>>)>, k: int) -> int
    decreases e.len() - k,
{
    if k < 0 || k >= e.len() {
        k
    } else if base + k < l.len() && l[base + k].0 == e[k].0 {
        match_len(l, base, e, k + 1)
    } else {
        k
    }
}

/// The count of agreeing entries lies between its starting point and the
/// number of entries.
pub proof fn lemma_match_len_bounds(l: Seq<(u64, Option<Seq<u8>>)>, base: int, e: Seq<(u64, Option<Seq<u8>>)>, k: int)
    requires
        0 <= k <= e.len(),
        0 <= base,
        base + k <= l.len(),
    ensures
        k <= match_len(l, base, e, k) <= e.len(),
        base + match_len(l, base, e, k) <= l.len(),
    decreases e.len() - k,
{
    if k < e.len() && base + k < l.len() && l[base + k].0 == e[k].0 {
        lemma_match_len_bounds(l, base, e, k + 1);
    }
}

/// The log after the entries `e` are placed after the first `base` entries of
/// `l`: entries that agree in term stay, and from the first that does not,
/// the old suffix is replaced by the rest of `e`.
pub open spec fn spliced(l: Seq<(u64, Option<Seq<u8>>)>, base: int, e: Seq<(u64, Option<Seq<u8>>)>) -> Seq<(u64, Option<Seq<u8>>)> {
    let m = match_len(l, base, e, 0);
    if m >= e.len() {
        l
    } else {
        l.subrange(0, base + m) + e.subrange(m, e.len() as int)
    }
}

/// Whether `splice` takes the entries `e` after `base` in the log `l` whose
/// first `commit` entries are committed: the log must stay within `u64`
/// indexes, and no committed entry may be replaced.
pub open spec fn splice_accepts(l: Seq<(u64, Option<Seq<u8>>)>, base: int, e: Seq<(u64, Option<Seq<u8>>)>, commit: int) -> bool {
    let m = match_len(l, base, e, 0);
    base + e.len() <= u64::MAX && (m >= e.len() || base + m >= commit)
}

/// The replicated command log, with the node's persisted term and vote.
/// Entries are numbered from 1; index 0 stands for the empty prefix.
pub struct Log {
    /// The entries; entry `i` stands at position `i - 1`.
    pub entries: Vec<Entry>,
    /// Index of the last entry, 0 if there is none.
    pub last_index: u64,
    /// Term of the last entry, 0 if there is none.
    pub last_term: u64,
    /// Index of the last committed entry.
    pub commit_index: u64,
    /// Term of the last committed entry.
    pub commit_term: u64,
    /// The persisted current term.
    pub term: u64,
    /// The persisted vote of the current term.
    pub voted_for: Option<String>,
}

impl Log {
    /// The entries, in order.
    pub open spec fn entries(&self) -> Seq<(u64, Option<Seq<u8>>)> {
        entries_view(self.entries@)
    }

    /// The persisted current term.
    pub open spec fn saved_term(&self) -> u64 {
        self.term
    }

    /// The persisted vote of the current term.
    pub open spec fn saved_vote(&self) -> Option<Seq<char>> {
        match self.voted_for {
            Some(v) => Some(v@),
            None => None,
        }
    }

    /// The term of the entry at `index`, 0 for index 0.
    pub open spec fn term_at(&self, index: int) -> u64 {
        if 1 <= index <= self.entries().len() {
            self.entries()[index - 1].0
        } else {
            0
        }
    }

    /// Whether the log holds an entry with this index and term (index 0 has term 0).
    pub open spec fn holds(&self, index: int, term: u64) -> bool {
        (index == 0 && term == 0) || (1 <= index <= self.entries().len() && self.term_at(index) == term)
    }

    pub open spec fn wf(&self) -> bool {
        &&& self.last_index == self.entries().len()
        &&& self.last_term == self.term_at(self.last_index as int)
        &&& self.commit_index <= self.last_index
        &&& self.commit_term == self.term_at(self.commit_index as int)
    }

    /// An empty log, at term 0 with no vote.
    pub fn new() -> (r: Log)
        ensures
            r.wf(),
            r.entries() == Seq::<(u64, Option<Seq<u8>>)>::empty(),
            r.commit_index == 0,
            r.saved_term() == 0,
            r.saved_vote() is None,
    {
        let r = Log {
            entries: Vec::new(),
            last_index: 0,
            last_term: 0,
            commit_index: 0,
            commit_term: 0,
            term: 0,
            voted_for: None,
        };
        assert(r.entries() =~= Seq::<(u64, Option<Seq<u8>>)>::empty());
        r
    }

    /// Appends an entry with the given term and command, returning its index.
    /// Fails when the index would not fit in a `u64`.
    pub fn append(&mut self, term: u64, command: Option<Vec<u8>>) -> (r: Result<u64>)
        requires
            old(self).wf(),
        ensures
            final(self).wf(),
            final(self).commit_index == old(self).commit_index,
            final(self).saved_term() == old(self).saved_term(),
            final(self).saved_vote() == old(self).saved_vote(),
            old(self).last_index == u64::MAX ==> r == Err::<u64, Error>(Error::LogFull) && *final(self) == *old(self),
            old(self).last_index < u64::MAX ==> r == Ok::<u64, Error>((old(self).last_index + 1) as u64)
                && final(self).entries() == old(self).entries().push((term, match command {
                    Some(c) => Some(c@),
                    None => None,
                })),
    {
        if self.last_index == u64::MAX {
            return Err(Error::LogFull);
        }
        let ghost e = Entry { term, command };
        self.entries.push(Entry { term, command });
        self.last_index = self.last_index + 1;
        self.last_term = term;
        assert(self.entries() =~= old(self).entries().push(e@));
        Ok(self.last_index)
    }

    /// The term of the entry at `index`, if the log holds it (index 0 has term 0).
    pub fn get_term(&self, index: u64) -> (r: Option<u64>)
        requires
            self.wf(),
        ensures
            r == (if index <= self.last_index { Some(self.term_at(index as int)) } else { None::<u64> }),
    {
        if index == 0 {
            Some(0)
        } else if index <= self.last_index {
            let _n = self.entries.len();
            Some(self.entries[(index - 1) as usize].term)
        } else {
            None
        }
    }

    /// Whether the log holds an entry with this index and term.
    pub fn has(&self, index: u64, term: u64) -> (r: bool)
        requires
            self.wf(),
        ensures
            r == self.holds(index as int, term),
    {
        match self.get_term(index) {
            Some(t) => t == term && (index > 0 || term == 0),
            None => false,
        }
    }

    /// Copies of the entries from `from` (1-based) to the end.
    pub fn entries_from(&self, from: u64) -> (r: Vec<Entry>)
        requires
            self.wf(),
            1 <= from,
        ensures
            from <= self.last_index + 1 ==> entries_view(r@) == self.entries().subrange(from - 1, self.entries().len() as int),
            from > self.last_index + 1 ==> r@.len() == 0,
    {
        let mut r: Vec<Entry> = Vec::new();
        if from > self.last_index {
            if from == self.last_index + 1 {
                assert(entries_view(r@) =~= self.entries().subrange(from - 1, self.entries().len() as int));
            }
            return r;
        }
        let _n = self.entries.len();
        let mut i: usize = (from - 1) as usize;
        assert(entries_view(r@) =~= self.entries().subrange(from - 1, i as int));
        while i < self.entries.len()
            invariant
                self.wf(),
                1 <= from,
                from - 1 <= i <= self.entries@.len(),
                entries_view(r@) == self.entries().subrange(from - 1, i as int),
            decreases self.entries@.len() - i,
        {
            let e = self.entries[i].duplicate();
            let ghost r0 = r@;
            r.push(e);
            assert(entries_view(r@) =~= entries_view(r0).push(self.entries()[i as int]));
            assert(self.entries().subrange(from - 1, i + 1) =~= self.entries().subrange(from - 1, i as int).push(self.entries()[i as int]));
            i = i + 1;
        }
        r
    }

    /// Commits the entries up to `index`.
    pub fn commit(&mut self, index: u64)
        requires
            old(self).wf(),
            old(self).commit_index <= index <= old(self).last_index,
        ensures
            final(self).wf(),
            final(self).commit_index == index,
            final(self).entries() == old(self).entries(),
            final(self).last_index == old(self).last_index,
            final(self).saved_term() == old(self).saved_term(),
            final(self).saved_vote() == old(self).saved_vote(),
    {
        let _n = self.entries.len();
        if index > 0 {
            self.commit_term = self.entries[(index - 1) as usize].term;
        } else {
            self.commit_term = 0;
        }
        self.commit_index = index;
    }

    /// Persists the current term and the vote cast in it.
    pub fn save_term(&mut self, term: u64, voted_for: Option<String>)
        requires
            old(self).wf(),
        ensures
            final(self).wf(),
            final(self).saved_term() == term,
            final(self).saved_vote() == (match voted_for {
                Some(v) => Some(v@),
                None => None::<Seq<char>>,
            }),
            final(self).entries() == old(self).entries(),
            final(self).last_index == old(self).last_index,
            final(self).commit_index == old(self).commit_index,
    {
        self.term = term;
        self.voted_for = voted_for;
    }

    /// The persisted term and vote.
    pub fn load_term(&self) -> (r: (u64, Option<String>))
        ensures
            r.0 == self.saved_term(),
            (match r.1 {
                Some(v) => Some(v@),
                None => None::<Seq<char>>,
            }) == self.saved_vote(),
    {
        let v = match &self.voted_for {
            Some(v) => Some(v.clone()),
            None => None,
        };
        (self.term, v)
    }

    /// Places `entries` after the entry at `base_index`: entries that agree
    /// in term with the log are kept, and from the first that does not the
    /// log's suffix is replaced. Refused, leaving the log unchanged, where
    /// that would replace a committed entry or the log would outgrow `u64`.
    pub fn splice(&mut self, base_index: u64, entries: Vec<Entry>) -> (r: bool)
        requires
            old(self).wf(),
            base_index <= old(self).last_index,
        ensures
            final(self).wf(),
            final(self).saved_term() == old(self).saved_term(),
            final(self).saved_vote() == old(self).saved_vote(),
            final(self).commit_index == old(self).commit_index,
            r == splice_accepts(old(self).entries(), base_index as int, entries_view(entries@), old(self).commit_index as int),
            r ==> final(self).entries() == spliced(old(self).entries(), base_index as int, entries_view(entries@)),
            !r ==> final(self).entries() == old(self).entries(),
    {
        let ghost l = self.entries();
        let ghost e = entries_view(entries@);
        if entries.len() as u64 > u64::MAX - base_index {
            return false;
        }
        let _n = self.entries.len();
        let mut k: usize = 0;
        while k < entries.len()
            && k < self.entries.len() - (base_index as usize)
            && self.entries[(base_index as usize) + k].term == entries[k].term
            invariant
                self.wf(),
                self.entries() == l,
                e == entries_view(entries@),
                base_index <= l.len(),
                base_index + entries@.len() <= u64::MAX,
                0 <= k <= entries@.len(),
                _n == l.len(),
                base_index + k <= l.len(),
                match_len(l, base_index as int, e, 0) == match_len(l, base_index as int, e, k as int),
            decreases entries@.len() - k,
        {
            k = k + 1;
        }
        assert(match_len(l, base_index as int, e, k as int) == k);
        if k == entries.len() {
            return true;
        }
        if (base_index as usize) + k < self.commit_index as usize {
            return false;
        }
        let ghost full = self.entries@;
        self.entries.truncate((base_index as usize) + k);
        assert(self.entries@ =~= full.subrange(0, base_index + k));
        let mut rest = entries;
        let mut tail = rest.split_off(k);
        let ghost tail_before = tail@;
        assert(entries_view(tail@) =~= e.subrange(k as int, e.len() as int));
        let ghost pre = self.entries@;
        self.entries.append(&mut tail);
        assert(entries_view(pre) =~= l.subrange(0, base_index + k));
        assert(entries_view(self.entries@) =~= entries_view(pre) + entries_view(tail_before));
        assert(self.entries() =~= l.subrange(0, base_index + k) + e.subrange(k as int, e.len() as int));
        self.last_index = self.entries.len() as u64;
        self.last_term = self.entries[self.entries.len() - 1].term;
        assert(self.commit_term == self.term_at(self.commit_index as int));
        true
    }
}

} // verus!
