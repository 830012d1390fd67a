//! The in-memory index.
//!
//! The index maps each live key to the locator of the `Put` record that
//! holds its current value: the generation whose file contains the record,
//! the offset of its first character, and its length.  It is kept as a
//! vector of entries with pairwise distinct keys; the vector order is the
//! stable iteration order compaction uses.

use vstd::prelude::*;

verus! {

broadcast use vstd::std_specs::vec::group_vec_axioms;

/// Where a `Put` record lies on disk: generation, offset, length, all
/// counted in characters of the generation's file.
#[derive(Clone, Copy, Debug)]
pub struct RecordLocator {
    pub gen: usize,
    pub offset: usize,
    pub len: usize,
}

/// A locator as the specifications see it.
pub struct LocatorModel {
    pub gen: int,
    pub offset: int,
    pub len: int,
}

impl View for RecordLocator {
    type V = LocatorModel;

    open spec fn view(&self) -> LocatorModel {
        LocatorModel { gen: self.gen as int, offset: self.offset as int, len: self.len as int }
    }
}

/// One index entry: a key and the locator of its live record.
pub struct IndexEntry {
    pub key: Vec<char>,
    pub loc: RecordLocator,
}

/// The map from live keys to record locators.
pub struct Index {
    pub entries: Vec<IndexEntry>,
}

/// The map an entry sequence denotes; later entries would win, though a
/// well-formed index never repeats a key.
pub open spec fn as_map(s: Seq<IndexEntry>) -> Map<Seq<char>, LocatorModel>
    decreases s.len(),
{
    if s.len() == 0 {
        Map::empty()
    } else {
        as_map(s.drop_last()).insert(s.last().key@, s.last().loc@)
    }
}

/// No two entries carry the same key.
pub open spec fn distinct_keys(s: Seq<IndexEntry>) -> bool {
    forall|i: int, j: int| 0 <= i < j < s.len() ==> s[i].key@ != s[j].key@
}

/// Total length of the record spans the entries point at.
pub open spec fn sum_locs(s: Seq<IndexEntry>) -> int
    decreases s.len(),
{
    if s.len() == 0 {
        0
    } else {
        sum_locs(s.drop_last()) + s.last().loc@.len
    }
}

/// A key is in the map exactly when some entry carries it, and then the
/// map agrees with that entry.
pub proof fn lemma_as_map_entry(s: Seq<IndexEntry>, i: int)
    requires
        distinct_keys(s),
        0 <= i < s.len(),
    ensures
        as_map(s).contains_key(s[i].key@),
        as_map(s)[s[i].key@] == s[i].loc@,
    decreases s.len(),
{
    if i < s.len() - 1 {
        assert(distinct_keys(s.drop_last()));
        assert(s.drop_last()[i] == s[i]);
        lemma_as_map_entry(s.drop_last(), i);
        assert(s[i].key@ != s.last().key@);
    }
}

/// A key carried by no entry is not in the map.
pub proof fn lemma_as_map_absent(s: Seq<IndexEntry>, k: Seq<char>)
    requires
        forall|i: int| 0 <= i < s.len() ==> s[i].key@ != k,
    ensures
        !as_map(s).contains_key(k),
    decreases s.len(),
{
    if s.len() > 0 {
        assert(forall|i: int| 0 <= i < s.drop_last().len() ==> s.drop_last()[i].key@ != k);
        lemma_as_map_absent(s.drop_last(), k);
    }
}

/// Every key of the map is carried by some entry.
pub proof fn lemma_as_map_covered(s: Seq<IndexEntry>, k: Seq<char>)
    requires
        as_map(s).contains_key(k),
    ensures
        exists|i: int| 0 <= i < s.len() && s[i].key@ == k,
    decreases s.len(),
{
    if s.len() > 0 {
        if s.last().key@ == k {
            assert(s[s.len() - 1].key@ == k);
        } else {
            lemma_as_map_covered(s.drop_last(), k);
            let i = choose|i: int| 0 <= i < s.drop_last().len() && s.drop_last()[i].key@ == k;
            assert(s[i].key@ == k);
        }
    }
}

/// Locators in the map come from entries, so their fields are
/// non-negative.
pub proof fn lemma_as_map_fields(s: Seq<IndexEntry>)
    requires
        distinct_keys(s),
    ensures
        forall|k: Seq<char>| #[trigger] as_map(s).contains_key(k) ==> as_map(s)[k].len >= 0
            && as_map(s)[k].offset >= 0 && as_map(s)[k].gen >= 0,
{
    assert forall|k: Seq<char>| #[trigger] as_map(s).contains_key(k) implies as_map(s)[k].len >= 0
        && as_map(s)[k].offset >= 0 && as_map(s)[k].gen >= 0 by {
        lemma_as_map_covered(s, k);
        let i = choose|i: int| 0 <= i < s.len() && s[i].key@ == k;
        lemma_as_map_entry(s, i);
    }
}

/// Updating the entry that carries `k` updates the map at `k` alone.
proof fn lemma_as_map_update(s: Seq<IndexEntry>, i: int, e: IndexEntry)
    requires
        distinct_keys(s),
        0 <= i < s.len(),
        e.key@ == s[i].key@,
    ensures
        as_map(s.update(i, e)) == as_map(s).insert(e.key@, e.loc@),
        distinct_keys(s.update(i, e)),
        sum_locs(s.update(i, e)) == sum_locs(s) - s[i].loc@.len + e.loc@.len,
    decreases s.len(),
{
    let su = s.update(i, e);
    assert(distinct_keys(su));
    if i == s.len() - 1 {
        assert(su.drop_last() =~= s.drop_last());
        assert(su.last() == e);
        assert(as_map(su) =~= as_map(s).insert(e.key@, e.loc@));
    } else {
        assert(distinct_keys(s.drop_last()));
        assert(s.drop_last()[i] == s[i]);
        lemma_as_map_update(s.drop_last(), i, e);
        assert(su.drop_last() =~= s.drop_last().update(i, e));
        assert(su.last() == s.last());
        assert(e.key@ != s.last().key@);
        assert(as_map(su) =~= as_map(s).insert(e.key@, e.loc@));
    }
}

/// Removing the entry that carries `k` removes `k` from the map alone.
proof fn lemma_as_map_remove(s: Seq<IndexEntry>, i: int)
    requires
        distinct_keys(s),
        0 <= i < s.len(),
    ensures
        as_map(s.remove(i)) == as_map(s).remove(s[i].key@),
        distinct_keys(s.remove(i)),
        sum_locs(s.remove(i)) == sum_locs(s) - s[i].loc@.len,
    decreases s.len(),
{
    let sr = s.remove(i);
    assert(distinct_keys(sr)) by {
        assert(forall|p: int, q: int| 0 <= p < q < sr.len() ==> sr[p].key@ != sr[q].key@) by {
            assert(forall|p: int| 0 <= p < sr.len() ==> sr[p] == (if p < i {
                s[p]
            } else {
                s[p + 1]
            }));
        }
    }
    if i == s.len() - 1 {
        assert(sr =~= s.drop_last());
        assert(forall|j: int| 0 <= j < s.drop_last().len() ==> s.drop_last()[j].key@ != s[i].key@);
        lemma_as_map_absent(s.drop_last(), s[i].key@);
        assert(as_map(sr) =~= as_map(s).remove(s[i].key@));
    } else {
        assert(distinct_keys(s.drop_last()));
        assert(s.drop_last()[i] == s[i]);
        lemma_as_map_remove(s.drop_last(), i);
        assert(sr.drop_last() =~= s.drop_last().remove(i));
        assert(sr.last() == s.last());
        assert(s[i].key@ != s.last().key@);
        assert(as_map(sr) =~= as_map(s).remove(s[i].key@));
    }
}

/// Character-wise equality of two key buffers.
pub fn chars_eq(a: &Vec<char>, b: &Vec<char>) -> (r: bool)
    ensures
        r == (a@ == b@),
{
    if a.len() != b.len() {
        proof {
            assert(a@ != b@) by {
                if a@ == b@ {
                    assert(a@.len() == b@.len());
                }
            }
        }
        return false;
    }
    let n = a.len();
    let mut i: usize = 0;
    while i < n
        invariant
            n == a@.len() == b@.len(),
            i <= n,
            forall|j: int| 0 <= j < i ==> a@[j] == b@[j],
        decreases n - i,
    {
        if a[i] != b[i] {
            proof {
                assert(a@[i as int] != b@[i as int]);
            }
            return false;
        }
        i += 1;
    }
    proof {
        assert(a@ =~= b@);
    }
    true
}

impl View for Index {
    type V = Map<Seq<char>, LocatorModel>;

    open spec fn view(&self) -> Map<Seq<char>, LocatorModel> {
        as_map(self.entries@)
    }
}

impl Index {
    /// The entries in iteration order.
    pub open spec fn entries_seq(&self) -> Seq<IndexEntry> {
        self.entries@
    }

    /// Keys are pairwise distinct.
    pub open spec fn wf(&self) -> bool {
        distinct_keys(self.entries@)
    }

    /// Total length of all live record spans.
    pub open spec fn live_len(&self) -> int {
        sum_locs(self.entries@)
    }

    /// An empty index.
    pub fn new() -> (r: Index)
        ensures
            r.wf(),
            r@ == Map::<Seq<char>, LocatorModel>::empty(),
            r.entries_seq() == Seq::<IndexEntry>::empty(),
    {
        Index { entries: Vec::new() }
    }

    /// Number of live keys.
    pub fn len(&self) -> (n: usize)
        ensures
            n == self.entries_seq().len(),
    {
        self.entries.len()
    }

    /// The entry at position `i` of the iteration order.
    pub fn entry_at(&self, i: usize) -> (e: &IndexEntry)
        requires
            i < self.entries_seq().len(),
        ensures
            *e == self.entries_seq()[i as int],
    {
        &self.entries[i]
    }

    /// Position of the entry carrying `key`, if any.
    fn find(&self, key: &Vec<char>) -> (r: Option<usize>)
        requires
            self.wf(),
        ensures
            match r {
                Some(i) => i < self.entries@.len() && self.entries@[i as int].key@ == key@,
                None => forall|i: int| 0 <= i < self.entries@.len()
                    ==> self.entries@[i].key@ != key@,
            },
    {
        let n = self.entries.len();
        let mut i: usize = 0;
        while i < n
            invariant
                n == self.entries@.len(),
                i <= n,
                forall|j: int| 0 <= j < i ==> self.entries@[j].key@ != key@,
            decreases n - i,
        {
            if chars_eq(&self.entries[i].key, key) {
                return Some(i);
            }
            i += 1;
        }
        None
    }

    /// Locator of the live record for `key`, if the key is live.
    pub fn get(&self, key: &Vec<char>) -> (r: Option<RecordLocator>)
        requires
            self.wf(),
        ensures
            match r {
                Some(l) => self@.contains_key(key@) && l@ == self@[key@],
                None => !self@.contains_key(key@),
            },
    {
        match self.find(key) {
            Some(i) => {
                proof {
                    lemma_as_map_entry(self.entries@, i as int);
                }
                Some(self.entries[i].loc)
            }
            None => {
                proof {
                    lemma_as_map_absent(self.entries@, key@);
                }
                None
            }
        }
    }

    /// Install `key -> loc`, returning the displaced locator if the key was
    /// already live.  A displaced entry keeps its position; a new key goes
    /// to the end of the iteration order.
    pub fn insert(&mut self, key: Vec<char>, loc: RecordLocator) -> (displaced: Option<
        RecordLocator,
    >)
        requires
            old(self).wf(),
        ensures
            final(self).wf(),
            final(self)@ == old(self)@.insert(key@, loc@),
            match displaced {
                Some(l) => old(self)@.contains_key(key@) && l@ == old(self)@[key@],
                None => !old(self)@.contains_key(key@),
            },
            final(self).live_len() == old(self).live_len() + loc@.len - (match displaced {
                Some(l) => l@.len,
                None => 0,
            }),
    {
        match self.find(&key) {
            Some(i) => {
                proof {
                    lemma_as_map_entry(self.entries@, i as int);
                }
                let displaced = self.entries[i].loc;
                let ghost before = self.entries@;
                let e = IndexEntry { key, loc };
                proof {
                    lemma_as_map_update(before, i as int, e);
                }
                self.entries[i] = e;
                Some(displaced)
            }
            None => {
                proof {
                    lemma_as_map_absent(self.entries@, key@);
                }
                let ghost before = self.entries@;
                let e = IndexEntry { key, loc };
                self.entries.push(e);
                proof {
                    assert(self.entries@.drop_last() =~= before);
                    assert(distinct_keys(self.entries@)) by {
                        assert(forall|j: int| 0 <= j < before.len()
                            ==> self.entries@[j] == before[j]);
                    }
                }
                None
            }
        }
    }

    /// Withdraw `key`, returning the locator it pointed at if it was live.
    pub fn remove(&mut self, key: &Vec<char>) -> (removed: Option<RecordLocator>)
        requires
            old(self).wf(),
        ensures
            final(self).wf(),
            final(self)@ == old(self)@.remove(key@),
            match removed {
                Some(l) => old(self)@.contains_key(key@) && l@ == old(self)@[key@],
                None => !old(self)@.contains_key(key@),
            },
            final(self).live_len() == old(self).live_len() - (match removed {
                Some(l) => l@.len,
                None => 0,
            }),
    {
        match self.find(key) {
            Some(i) => {
                proof {
                    lemma_as_map_entry(self.entries@, i as int);
                    lemma_as_map_remove(self.entries@, i as int);
                }
                let e = self.entries.remove(i);
                Some(e.loc)
            }
            None => {
                proof {
                    lemma_as_map_absent(self.entries@, key@);
                    assert(old(self)@.remove(key@) =~= old(self)@);
                }
                None
            }
        }
    }
}

} // verus!
