//! The correlation map: the mutable table that maps each pending receipt id
//! to the hash of the transaction that ultimately caused it. It is the only
//! state threaded across blocks, and its one-entry-per-receipt-id invariant
//! is what keeps a transaction's eventual outcome attributable.

use vstd::prelude::*;

verus! {

/// The view of a sequence of entries: both strings of each pair as
/// character sequences.
pub open spec fn pair_views(s: Seq<(String, String)>) -> Seq<(Seq<char>, Seq<char>)> {
    s.map_values(|p: (String, String)| (p.0@, p.1@))
}

/// The map denoted by a sequence of (receipt id, transaction hash) entries;
/// on a repeated key the later entry wins.
pub open spec fn pairs_map(s: Seq<(String, String)>) -> Map<Seq<char>, Seq<char>>
    decreases s.len(),
{
    if s.len() == 0 {
        Map::empty()
    } else {
        pairs_map(s.drop_last()).insert(s.last().0@, s.last().1@)
    }
}

/// The result of inserting every pair of `ps` into `m`, in order.
pub open spec fn merge_map(
    m: Map<Seq<char>, Seq<char>>,
    ps: Seq<(Seq<char>, Seq<char>)>,
) -> Map<Seq<char>, Seq<char>>
    decreases ps.len(),
{
    if ps.len() == 0 {
        m
    } else {
        merge_map(m, ps.drop_last()).insert(ps.last().0, ps.last().1)
    }
}

/// No receipt id appears twice among the entries.
pub open spec fn unique_keys(s: Seq<(String, String)>) -> bool {
    forall|i: int, j: int| 0 <= i < j < s.len() ==> s[i].0@ != s[j].0@
}

proof fn lemma_pairs_map_contains(s: Seq<(String, String)>, k: Seq<char>)
    ensures
        pairs_map(s).contains_key(k) <==> (exists|i: int| 0 <= i < s.len() && s[i].0@ == k),
    decreases s.len(),
{
    if s.len() > 0 {
        let s0 = s.drop_last();
        lemma_pairs_map_contains(s0, k);
        if s.last().0@ == k {
            assert(s[s.len() - 1].0@ == k);
        } else {
            if pairs_map(s).contains_key(k) {
                let i = choose|i: int| 0 <= i < s0.len() && s0[i].0@ == k;
                assert(s[i].0@ == k);
            }
            if exists|i: int| 0 <= i < s.len() && s[i].0@ == k {
                let i = choose|i: int| 0 <= i < s.len() && s[i].0@ == k;
                assert(s0[i].0@ == k);
            }
        }
    }
}

proof fn lemma_pairs_map_value(s: Seq<(String, String)>, i: int)
    requires
        unique_keys(s),
        0 <= i < s.len(),
    ensures
        pairs_map(s).contains_key(s[i].0@),
        pairs_map(s)[s[i].0@] == s[i].1@,
    decreases s.len(),
{
    if i == s.len() - 1 {
    } else {
        let s0 = s.drop_last();
        assert(s0[i] == s[i]);
        lemma_pairs_map_value(s0, i);
        assert(s[i].0@ != s.last().0@);
    }
}

proof fn lemma_unique_remove(s: Seq<(String, String)>, i: int)
    requires
        unique_keys(s),
        0 <= i < s.len(),
    ensures
        unique_keys(s.remove(i)),
{
    let r = s.remove(i);
    assert forall|p: int, q: int| 0 <= p < q < r.len() implies r[p].0@ != r[q].0@ by {
        let p1: int = if p < i { p } else { p + 1 };
        let q1: int = if q < i { q } else { q + 1 };
        assert(r[p] == s[p1]);
        assert(r[q] == s[q1]);
    }
}

proof fn lemma_pairs_map_remove(s: Seq<(String, String)>, i: int)
    requires
        unique_keys(s),
        0 <= i < s.len(),
    ensures
        pairs_map(s.remove(i)) == pairs_map(s).remove(s[i].0@),
    decreases s.len(),
{
    let k = s[i].0@;
    let s0 = s.drop_last();
    if i == s.len() - 1 {
        assert(s.remove(i) =~= s0);
        lemma_pairs_map_contains(s0, k);
        assert(!pairs_map(s0).contains_key(k));
        assert(pairs_map(s0) =~= pairs_map(s).remove(k));
    } else {
        assert(unique_keys(s0));
        lemma_unique_remove(s0, i);
        lemma_pairs_map_remove(s0, i);
        let r = s.remove(i);
        assert(r.drop_last() =~= s0.remove(i));
        assert(r.last() == s.last());
        assert(pairs_map(r) == pairs_map(s0.remove(i)).insert(s.last().0@, s.last().1@));
        assert(k != s.last().0@);
        assert(pairs_map(s0).remove(k).insert(s.last().0@, s.last().1@) =~= pairs_map(
            s,
        ).remove(k));
    }
}

/// The correlation map. Tracks, for every receipt whose resolution is still
/// pending, the hash of the transaction that caused it.
pub struct CorrelationMap {
    entries: Vec<(String, String)>,
}

impl View for CorrelationMap {
    type V = Map<Seq<char>, Seq<char>>;

    closed spec fn view(&self) -> Map<Seq<char>, Seq<char>> {
        pairs_map(self.entries@)
    }
}

impl CorrelationMap {
    /// The entries as they stand in the backing store, in insertion order.
    pub closed spec fn entries_view(&self) -> Seq<(Seq<char>, Seq<char>)> {
        pair_views(self.entries@)
    }

    /// Well-formedness: at most one entry per receipt id.
    pub closed spec fn wf(&self) -> bool {
        unique_keys(self.entries@)
    }

    /// An empty map.
    pub fn new() -> (r: CorrelationMap)
        ensures
            r.wf(),
            r@ == Map::<Seq<char>, Seq<char>>::empty(),
            r.entries_view() == Seq::<(Seq<char>, Seq<char>)>::empty(),
    {
        let r = CorrelationMap { entries: Vec::new() };
        proof {
            assert(r.entries_view() =~= Seq::<(Seq<char>, Seq<char>)>::empty());
        }
        r
    }

    /// The number of receipts currently tracked.
    pub fn len(&self) -> (n: usize)
        requires
            self.wf(),
        ensures
            n == self.entries_view().len(),
            self@.dom().finite(),
            n == self@.dom().len(),
    {
        proof {
            lemma_pairs_map_dom_len(self.entries@);
        }
        self.entries.len()
    }

    /// Whether nothing is tracked.
    pub fn is_empty(&self) -> (r: bool)
        requires
            self.wf(),
        ensures
            r == (self@ == Map::<Seq<char>, Seq<char>>::empty()),
    {
        let r = self.entries.len() == 0;
        proof {
            if self.entries@.len() == 0 {
                assert(self@ =~= Map::<Seq<char>, Seq<char>>::empty());
            } else {
                lemma_pairs_map_contains(self.entries@, self.entries@[0].0@);
                assert(self@.contains_key(self.entries@[0].0@));
            }
        }
        r
    }

    /// The transaction hash tracked for `key`, if `key` is pending.
    pub fn get(&self, key: &String) -> (r: Option<&String>)
        requires
            self.wf(),
        ensures
            match r {
                Some(v) => self@.contains_key(key@) && v@ == self@[key@],
                None => !self@.contains_key(key@),
            },
    {
        let n = self.entries.len();
        let mut i: usize = 0;
        while i < n
            invariant
                n == self.entries@.len(),
                0 <= i <= n,
                self.wf(),
                forall|j: int| 0 <= j < i ==> self.entries@[j].0@ != key@,
            decreases n - i,
        {
            if self.entries[i].0 == *key {
                proof {
                    lemma_pairs_map_value(self.entries@, i as int);
                }
                return Some(&self.entries[i].1);
            }
            i += 1;
        }
        proof {
            lemma_pairs_map_contains(self.entries@, key@);
        }
        None
    }

    /// Track `value` under `key`; an entry already under `key` is replaced.
    pub fn insert(&mut self, key: String, value: String)
        requires
            old(self).wf(),
        ensures
            final(self).wf(),
            final(self)@ == old(self)@.insert(key@, value@),
    {
        let n = self.entries.len();
        let mut i: usize = 0;
        while i < n
            invariant
                n == self.entries@.len(),
                0 <= i <= n,
                self.wf(),
                self.entries@ == old(self).entries@,
                forall|j: int| 0 <= j < i ==> self.entries@[j].0@ != key@,
            decreases n - i,
        {
            if self.entries[i].0 == key {
                proof {
                    lemma_pairs_map_remove(self.entries@, i as int);
                    lemma_unique_remove(self.entries@, i as int);
                }
                let ghost removed = self.entries@.remove(i as int);
                self.entries.remove(i);
                proof {
                    lemma_pairs_map_contains(removed, key@);
                    assert forall|j: int| 0 <= j < removed.len() implies removed[j].0@
                        != key@ by {
                        let j1: int = if j < i { j } else { j + 1 };
                        assert(removed[j] == old(self).entries@[j1]);
                    }
                }
                self.entries.push((key, value));
                proof {
                    assert(self.entries@.drop_last() =~= removed);
                    assert(self@ =~= old(self)@.insert(
                        self.entries@.last().0@,
                        self.entries@.last().1@,
                    ));
                    assert forall|p: int, q: int|
                        0 <= p < q < self.entries@.len() implies self.entries@[p].0@
                        != self.entries@[q].0@ by {
                        if q < self.entries@.len() - 1 {
                            assert(self.entries@[p] == removed[p]);
                            assert(self.entries@[q] == removed[q]);
                        } else {
                            assert(self.entries@[p] == removed[p]);
                        }
                    }
                }
                return ;
            }
            i += 1;
        }
        proof {
            lemma_pairs_map_contains(self.entries@, key@);
        }
        let ghost before = self.entries@;
        self.entries.push((key, value));
        proof {
            assert(self.entries@.drop_last() =~= before);
            assert(self@ =~= old(self)@.insert(
                self.entries@.last().0@,
                self.entries@.last().1@,
            ));
            assert forall|p: int, q: int|
                0 <= p < q < self.entries@.len() implies self.entries@[p].0@
                != self.entries@[q].0@ by {
                if q < self.entries@.len() - 1 {
                    assert(self.entries@[p] == before[p]);
                    assert(self.entries@[q] == before[q]);
                } else {
                    assert(self.entries@[p] == before[p]);
                }
            }
        }
    }

    /// Stop tracking `key`, handing back the transaction hash it was tracked
    /// under, if any.
    pub fn remove(&mut self, key: &String) -> (r: Option<String>)
        requires
            old(self).wf(),
        ensures
            final(self).wf(),
            final(self)@ == old(self)@.remove(key@),
            match r {
                Some(v) => old(self)@.contains_key(key@) && v@ == old(self)@[key@],
                None => !old(self)@.contains_key(key@) && final(self)@ == old(self)@,
            },
    {
        let n = self.entries.len();
        let mut i: usize = 0;
        while i < n
            invariant
                n == self.entries@.len(),
                0 <= i <= n,
                self.wf(),
                self.entries@ == old(self).entries@,
                forall|j: int| 0 <= j < i ==> self.entries@[j].0@ != key@,
            decreases n - i,
        {
            if self.entries[i].0 == *key {
                proof {
                    lemma_pairs_map_value(self.entries@, i as int);
                    lemma_pairs_map_remove(self.entries@, i as int);
                    lemma_unique_remove(self.entries@, i as int);
                }
                let entry = self.entries.remove(i);
                return Some(entry.1);
            }
            i += 1;
        }
        proof {
            lemma_pairs_map_contains(self.entries@, key@);
            assert(self@ =~= old(self)@.remove(key@));
        }
        None
    }

    /// Insert every (receipt id, transaction hash) pair of `pairs`, in order.
    pub fn insert_all(&mut self, pairs: &Vec<(String, String)>)
        requires
            old(self).wf(),
        ensures
            final(self).wf(),
            final(self)@ == merge_map(old(self)@, pair_views(pairs@)),
    {
        let n = pairs.len();
        let mut i: usize = 0;
        while i < n
            invariant
                n == pairs@.len(),
                0 <= i <= n,
                self.wf(),
                self@ == merge_map(old(self)@, pair_views(pairs@.subrange(0, i as int))),
            decreases n - i,
        {
            let ghost prefix = pairs@.subrange(0, i as int);
            let k = pairs[i].0.clone();
            let v = pairs[i].1.clone();
            self.insert(k, v);
            proof {
                assert(pair_views(pairs@.subrange(0, i + 1 as int)) =~= pair_views(
                    prefix,
                ).push((pairs@[i as int].0@, pairs@[i as int].1@)));
                assert(pair_views(pairs@.subrange(0, i + 1 as int)).drop_last() =~= pair_views(
                    prefix,
                ));
            }
            i += 1;
        }
        proof {
            assert(pairs@.subrange(0, n as int) =~= pairs@);
        }
    }
}

/// Key uniqueness: between block processing steps no receipt id appears
/// twice among a well-formed correlation map's entries.
pub proof fn lemma_key_uniqueness(m: CorrelationMap)
    requires
        m.wf(),
    ensures
        forall|i: int, j: int|
            0 <= i < j < m.entries_view().len() ==> (#[trigger] m.entries_view()[i]).0 != (
            #[trigger] m.entries_view()[j]).0,
{
    assert forall|i: int, j: int|
        0 <= i < j < m.entries_view().len() implies (#[trigger] m.entries_view()[i]).0 != (
    #[trigger] m.entries_view()[j]).0 by {
        assert(m.entries_view()[i].0 == m.entries@[i].0@);
        assert(m.entries_view()[j].0 == m.entries@[j].0@);
    }
}

proof fn lemma_pairs_map_dom_len(s: Seq<(String, String)>)
    requires
        unique_keys(s),
    ensures
        pairs_map(s).dom().finite(),
        pairs_map(s).dom().len() == s.len(),
    decreases s.len(),
{
    if s.len() == 0 {
        assert(pairs_map(s).dom() =~= Set::<Seq<char>>::empty());
    } else {
        let s0 = s.drop_last();
        lemma_pairs_map_dom_len(s0);
        lemma_pairs_map_contains(s0, s.last().0@);
        assert(!pairs_map(s0).contains_key(s.last().0@));
        assert(pairs_map(s).dom() =~= pairs_map(s0).dom().insert(s.last().0@));
    }
}

} // verus!
