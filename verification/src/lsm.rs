//! A log-structured merge engine: an ordered in-memory memtable of recent
//! writes, bounded by a flush threshold, in front of a chronologically
//! ordered list of immutable sorted segments.  Deletion is representational
//! (a tombstone shadows older values); `compact` folds every segment into a
//! single tombstone-free one.

use vstd::prelude::*;
use crate::kv::{
    assoc_get, has_key, sorted_by_key, lemma_adjacent_sorted, lemma_assoc_get_at,
    lemma_assoc_get_insert, lemma_assoc_get_push, lemma_assoc_get_some_position,
    lemma_assoc_get_update,
};

verus! {

/// The outcome of the most recent write to a key within one generation:
/// either a live value or a deletion marker.
#[derive(Clone, Copy, Debug, PartialEq, Eq, Structural)]
pub enum LogValue {
    Value(u64),
    Tombstone,
}

/// How a stored entry answers a lookup: tombstones and absence both read as
/// "not found".
pub open spec fn resolve_value(e: Option<LogValue>) -> Option<u64> {
    match e {
        Some(LogValue::Value(v)) => Some(v),
        _ => None,
    }
}

/// Newest-first resolution across segments: the last (newest) segment that
/// holds the key decides.
pub open spec fn segs_get(ss: Seq<Seq<(u64, LogValue)>>, key: u64) -> Option<LogValue>
    decreases ss.len(),
{
    if ss.len() == 0 {
        None
    } else {
        match assoc_get(ss.last(), key) {
            Some(e) => Some(e),
            None => segs_get(ss.drop_last(), key),
        }
    }
}

/// What one write (a live value or a tombstone) does to the engine: the
/// entry for `key` is replaced, nothing else changes its resolution, and
/// the memtable either grows by the write or — once it reaches the
/// threshold — is flushed into one new segment.
pub open spec fn write_effect(pre: LSMTree, post: LSMTree, key: u64, entry: LogValue) -> bool {
    let grown: nat = if pre.memtable_entry(key) is Some {
        pre.memtable_len()
    } else {
        pre.memtable_len() + 1
    };
    &&& post.spec_threshold() == pre.spec_threshold()
    &&& forall|k: u64| #[trigger]
        post.entry_for(k) == (if k == key {
            Some(entry)
        } else {
            pre.entry_for(k)
        })
    &&& if grown >= pre.spec_threshold() {
        &&& post.memtable_len() == 0
        &&& post.num_segments() == pre.num_segments() + 1
        &&& forall|k: u64| #[trigger] post.memtable_entry(k) is None
        // the one new segment holds exactly the updated memtable; every
        // older segment is untouched
        &&& post.seg_views().drop_last() == pre.seg_views()
        &&& sorted_by_key(post.seg_views().last())
        &&& forall|k: u64| #[trigger]
            assoc_get(post.seg_views().last(), k) == (if k == key {
                Some(entry)
            } else {
                pre.memtable_entry(k)
            })
    } else {
        &&& post.memtable_len() == grown
        &&& post.num_segments() == pre.num_segments()
        // the segment store is untouched
        &&& post.seg_views() == pre.seg_views()
        &&& forall|k: u64| #[trigger]
            post.memtable_entry(k) == (if k == key {
                Some(entry)
            } else {
                pre.memtable_entry(k)
            })
    }
}

pub struct LSMTree {
    memtable: Vec<(u64, LogValue)>,
    threshold: usize,
    segments: Vec<Vec<(u64, LogValue)>>,
}

impl LSMTree {
    /// The segments' contents, oldest first.
    pub closed spec fn seg_views(self) -> Seq<Seq<(u64, LogValue)>> {
        self.segments@.map_values(|s: Vec<(u64, LogValue)>| s@)
    }

    /// The entry the memtable holds for `key`, if any.
    pub closed spec fn memtable_entry(self, key: u64) -> Option<LogValue> {
        assoc_get(self.memtable@, key)
    }

    /// The entry the newest segment holding `key` records, if any.
    pub closed spec fn segment_entry(self, key: u64) -> Option<LogValue> {
        segs_get(self.seg_views(), key)
    }

    /// The entry that decides a lookup: the memtable strictly shadows every
    /// segment, and among segments the newest one holding the key wins.
    pub open spec fn entry_for(self, key: u64) -> Option<LogValue> {
        if self.memtable_entry(key) is Some {
            self.memtable_entry(key)
        } else {
            self.segment_entry(key)
        }
    }

    pub closed spec fn spec_threshold(self) -> nat {
        self.threshold as nat
    }

    pub closed spec fn num_segments(self) -> nat {
        self.segments@.len()
    }

    pub closed spec fn memtable_len(self) -> nat {
        self.memtable@.len()
    }

    /// The memtable's ordered pair sequence.
    pub closed spec fn memtable_pairs(self) -> Seq<(u64, LogValue)> {
        self.memtable@
    }

    /// The memtable and every segment are ordered mappings: keys strictly
    /// ascending, hence unique.
    pub closed spec fn well_formed(self) -> bool {
        &&& sorted_by_key(self.memtable@)
        &&& forall|i: int|
            0 <= i < self.seg_views().len() ==> sorted_by_key(#[trigger] self.seg_views()[i])
    }

    pub fn new(threshold: usize) -> (r: Self)
        ensures
            r.well_formed(),
            r.spec_threshold() == threshold,
            r.num_segments() == 0,
            r.memtable_len() == 0,
            forall|k: u64| #[trigger] r.memtable_entry(k) is None,
            forall|k: u64| #[trigger] r.entry_for(k) is None,
    {
        let r = LSMTree { memtable: Vec::new(), threshold, segments: Vec::new() };
        proof {
            assert(r.seg_views().len() == 0);
        }
        r
    }

    /// Rebuild an engine from segment contents decoded elsewhere, oldest
    /// first, with an empty memtable.  Each segment must be an ordered
    /// mapping; a segment whose keys are not strictly ascending is rejected
    /// as corrupt.
    pub fn with_segments(threshold: usize, segments: Vec<Vec<(u64, LogValue)>>) -> (r: Option<
        LSMTree,
    >)
        ensures
            r is Some <==> (forall|i: int|
                0 <= i < segments@.len() ==> sorted_by_key((#[trigger] segments@[i])@)),
            r is Some ==> {
                let eng = r->Some_0;
                &&& eng.well_formed()
                &&& eng.spec_threshold() == threshold
                &&& eng.memtable_len() == 0
                &&& (forall|k: u64| #[trigger] eng.memtable_entry(k) is None)
                &&& eng.seg_views() == segments@.map_values(|s: Vec<(u64, LogValue)>| s@)
            },
    {
        let mut i: usize = 0;
        while i < segments.len()
            invariant
                i <= segments@.len(),
                forall|p: int| 0 <= p < i ==> sorted_by_key((#[trigger] segments@[p])@),
            decreases segments@.len() - i,
        {
            let seg = &segments[i];
            let mut j: usize = 1;
            while j < seg.len()
                invariant
                    1 <= j,
                    j <= seg@.len() || seg@.len() == 0,
                    i < segments@.len(),
                    seg@ == segments@[i as int]@,
                    forall|p: int| 0 <= p < j - 1 ==> (#[trigger] seg@[p]).0 < seg@[p + 1].0,
                decreases seg@.len() - j,
            {
                if seg[j - 1].0 >= seg[j].0 {
                    proof {
                        assert(!sorted_by_key(seg@));
                    }
                    return None;
                }
                j += 1;
            }
            proof {
                lemma_adjacent_sorted(seg@);
            }
            i += 1;
        }
        let r = LSMTree { memtable: Vec::new(), threshold, segments };
        proof {
            assert(forall|p: int|
                0 <= p < r.seg_views().len() ==> (#[trigger] r.seg_views()[p]) == r.segments@[p]@);
        }
        Some(r)
    }

    /// Ordered insert-or-overwrite into one sorted table.
    fn table_set(table: &mut Vec<(u64, LogValue)>, key: u64, entry: LogValue)
        requires
            sorted_by_key(old(table)@),
        ensures
            sorted_by_key(final(table)@),
            forall|k: u64| #[trigger]
                assoc_get(final(table)@, k) == (if k == key {
                    Some(entry)
                } else {
                    assoc_get(old(table)@, k)
                }),
            has_key(old(table)@, key) ==> final(table)@.len() == old(table)@.len(),
            !has_key(old(table)@, key) ==> final(table)@.len() == old(table)@.len() + 1,
    {
        let ghost t0 = table@;
        let mut i: usize = 0;
        while i < table.len() && table[i].0 < key
            invariant
                i <= table@.len(),
                forall|j: int| 0 <= j < i ==> (#[trigger] table@[j]).0 < key,
                table@ == t0,
            decreases table@.len() - i,
        {
            i += 1;
        }
        if i < table.len() && table[i].0 == key {
            table[i] = (key, entry);
            proof {
                assert(table@ == t0.update(i as int, (key, entry)));
                assert(table@ == t0.update(i as int, (t0[i as int].0, entry)));
                assert forall|k: u64| true implies #[trigger] assoc_get(table@, k) == (if k == key {
                    Some(entry)
                } else {
                    assoc_get(t0, k)
                }) by {
                    lemma_assoc_get_update(t0, i as int, entry, k);
                }
                lemma_assoc_get_at(t0, i as int);
                assert forall|a: int, b: int| 0 <= a < b < table@.len() implies table@[a].0
                    < table@[b].0 by {
                    assert(t0[a].0 < t0[b].0);
                }
            }
        } else {
            proof {
                assert forall|j: int| 0 <= j < t0.len() implies (#[trigger] t0[j]).0 != key by {
                    if j >= i {
                        assert(t0[i as int].0 <= t0[j].0);
                    }
                }
                if has_key(t0, key) {
                    lemma_assoc_get_some_position(t0, key);
                }
            }
            table.insert(i, (key, entry));
            proof {
                assert(table@ == t0.insert(i as int, (key, entry)));
                assert forall|k: u64| true implies #[trigger] assoc_get(table@, k) == (if k == key {
                    Some(entry)
                } else {
                    assoc_get(t0, k)
                }) by {
                    lemma_assoc_get_insert(t0, i as int, key, entry, k);
                }
                assert forall|a: int, b: int| 0 <= a < b < table@.len() implies table@[a].0
                    < table@[b].0 by {
                    if a != i as int && b != i as int {
                        let a0: int = if a < i as int {
                            a
                        } else {
                            a - 1
                        };
                        let b0: int = if b < i as int {
                            b
                        } else {
                            b - 1
                        };
                        assert(table@[a] == t0[a0] && table@[b] == t0[b0]);
                    } else if b == i as int {
                        assert(table@[a] == t0[a]);
                    } else if a == i as int {
                        assert(table@[b] == t0[b - 1]);
                        assert(t0[i as int].0 <= t0[b - 1].0);
                    }
                }
            }
        }
    }

    /// First-match scan of one sorted table.
    fn table_find(table: &Vec<(u64, LogValue)>, key: u64) -> (r: Option<LogValue>)
        ensures
            r == assoc_get(table@, key),
    {
        let mut i: usize = 0;
        proof {
            assert(table@.skip(0) =~= table@);
        }
        while i < table.len() && table[i].0 != key
            invariant
                i <= table@.len(),
                assoc_get(table@, key) == assoc_get(table@.skip(i as int), key),
            decreases table@.len() - i,
        {
            proof {
                assert(table@.skip(i as int)[0] == table@[i as int]);
                assert(table@.skip(i as int).drop_first() =~= table@.skip(i as int + 1));
            }
            i += 1;
        }
        if i < table.len() {
            proof {
                assert(table@.skip(i as int)[0] == table@[i as int]);
            }
            Some(table[i].1)
        } else {
            proof {
                assert(table@.skip(i as int) =~= Seq::<(u64, LogValue)>::empty());
            }
            None
        }
    }

    /// Write a live value for `key`; when the memtable reaches the
    /// threshold, it is flushed into a new segment before returning.
    pub fn insert(&mut self, key: u64, value: u64)
        requires
            old(self).well_formed(),
        ensures
            final(self).well_formed(),
            write_effect(*old(self), *final(self), key, LogValue::Value(value)),
    {
        self.write_entry(key, LogValue::Value(value));
    }

    /// Write a tombstone for `key`: deletion is representational and shadows
    /// any older value until compaction drops it.
    pub fn delete(&mut self, key: u64)
        requires
            old(self).well_formed(),
        ensures
            final(self).well_formed(),
            write_effect(*old(self), *final(self), key, LogValue::Tombstone),
    {
        self.write_entry(key, LogValue::Tombstone);
    }

    fn write_entry(&mut self, key: u64, entry: LogValue)
        requires
            old(self).well_formed(),
        ensures
            final(self).well_formed(),
            write_effect(*old(self), *final(self), key, entry),
    {
        let ghost pre = *self;
        Self::table_set(&mut self.memtable, key, entry);
        proof {
            assert(self.seg_views() == pre.seg_views());
            if pre.memtable_entry(key) is Some {
                assert(has_key(pre.memtable@, key));
            } else {
                assert(!has_key(pre.memtable@, key));
            }
        }
        if self.memtable.len() >= self.threshold {
            let ghost mid = *self;
            self.flush();
            proof {
                assert(self.seg_views().drop_last() =~= pre.seg_views());
                assert(self.seg_views().last() == mid.memtable_pairs());
            }
        }
    }

    /// Materialize a non-empty memtable as the newest segment and clear it;
    /// no lookup changes.
    fn flush(&mut self)
        requires
            old(self).well_formed(),
        ensures
            final(self).well_formed(),
            final(self).spec_threshold() == old(self).spec_threshold(),
            final(self).memtable_len() == 0,
            forall|k: u64| #[trigger] final(self).memtable_entry(k) is None,
            forall|k: u64| #[trigger] final(self).entry_for(k) == old(self).entry_for(k),
            old(self).memtable_len() == 0 ==> *final(self) == *old(self),
            old(self).memtable_len() > 0 ==> final(self).num_segments() == old(self).num_segments()
                + 1,
            old(self).memtable_len() > 0 ==> final(self).seg_views() == old(
                self,
            ).seg_views().push(old(self).memtable_pairs()),
    {
        if self.memtable.is_empty() {
            return ;
        }
        let ghost pre = *self;
        let mut taken: Vec<(u64, LogValue)> = Vec::new();
        core::mem::swap(&mut self.memtable, &mut taken);
        self.segments.push(taken);
        proof {
            assert(self.seg_views() =~= pre.seg_views().push(pre.memtable@));
            assert(self.seg_views().drop_last() =~= pre.seg_views());
            assert(self.seg_views().last() == pre.memtable@);
            assert forall|i: int| 0 <= i < self.seg_views().len() implies sorted_by_key(
                #[trigger] self.seg_views()[i],
            ) by {
                if i < pre.seg_views().len() {
                    assert(self.seg_views()[i] == pre.seg_views()[i]);
                }
            }
            assert forall|k: u64| true implies #[trigger] self.entry_for(k) == pre.entry_for(
                k,
            ) by {
                assert(self.memtable_entry(k) is None);
                assert(self.segment_entry(k) == (match assoc_get(pre.memtable@, k) {
                    Some(e) => Some(e),
                    None => segs_get(pre.seg_views(), k),
                }));
            }
        }
    }

    /// Look `key` up: the memtable decides if it holds the key (a tombstone
    /// reads as absent); otherwise the newest segment holding the key
    /// decides; otherwise the key is absent.
    pub fn search(&self, key: &u64) -> (r: Option<u64>)
        requires
            self.well_formed(),
        ensures
            r == resolve_value(self.entry_for(*key)),
    {
        match Self::table_find(&self.memtable, *key) {
            Some(e) => {
                return match e {
                    LogValue::Value(v) => Some(v),
                    LogValue::Tombstone => None,
                };
            },
            None => {},
        }
        let mut j: usize = self.segments.len();
        proof {
            assert(self.seg_views().take(j as int) =~= self.seg_views());
        }
        while j > 0
            invariant
                j <= self.segments@.len(),
                self.well_formed(),
                self.memtable_entry(*key) is None,
                segs_get(self.seg_views(), *key) == segs_get(
                    self.seg_views().take(j as int),
                    *key,
                ),
            decreases j,
        {
            j -= 1;
            let found = Self::table_find(&self.segments[j], *key);
            proof {
                assert(self.seg_views()[j as int] == self.segments@[j as int]@);
                assert(self.seg_views().take(j as int + 1).last() == self.seg_views()[j as int]);
                assert(self.seg_views().take(j as int + 1).drop_last() =~= self.seg_views().take(
                    j as int,
                ));
            }
            match found {
                Some(e) => {
                    return match e {
                        LogValue::Value(v) => Some(v),
                        LogValue::Tombstone => None,
                    };
                },
                None => {},
            }
        }
        proof {
            assert(self.seg_views().take(0) =~= Seq::<Seq<(u64, LogValue)>>::empty());
        }
        None
    }

    /// Fold every segment, oldest to newest with later entries winning,
    /// into one merged mapping; drop every tombstone (safe: no older
    /// generation is left unexamined); replace all segments by the single
    /// merged one.  The memtable is untouched and no lookup result changes.
    pub fn compact(&mut self)
        requires
            old(self).well_formed(),
        ensures
            final(self).well_formed(),
            final(self).spec_threshold() == old(self).spec_threshold(),
            final(self).num_segments() == 1,
            final(self).memtable_len() == old(self).memtable_len(),
            forall|k: u64| #[trigger]
                final(self).memtable_entry(k) == old(self).memtable_entry(k),
            forall|k: u64| #[trigger]
                resolve_value(final(self).segment_entry(k)) == resolve_value(
                    old(self).segment_entry(k),
                ),
            forall|k: u64| #[trigger] final(self).segment_entry(k) != Some(LogValue::Tombstone),
            forall|k: u64| #[trigger]
                resolve_value(final(self).entry_for(k)) == resolve_value(old(self).entry_for(k)),
    {
        let ghost pre = *self;
        let mut merged: Vec<(u64, LogValue)> = Vec::new();
        let mut i: usize = 0;
        while i < self.segments.len()
            invariant
                i <= self.segments@.len(),
                *self == pre,
                self.well_formed(),
                sorted_by_key(merged@),
                forall|k: u64| #[trigger]
                    assoc_get(merged@, k) == segs_get(self.seg_views().take(i as int), k),
            decreases self.segments@.len() - i,
        {
            let ghost seg = self.seg_views()[i as int];
            let ghost merged_before = merged@;
            let mut j: usize = 0;
            while j < self.segments[i].len()
                invariant
                    i < self.segments@.len(),
                    j <= seg.len(),
                    seg == self.seg_views()[i as int],
                    *self == pre,
                    self.well_formed(),
                    sorted_by_key(merged@),
                    forall|k: u64| #[trigger]
                        assoc_get(merged@, k) == (match assoc_get(seg.take(j as int), k) {
                            Some(e) => Some(e),
                            None => segs_get(self.seg_views().take(i as int), k),
                        }),
                decreases seg.len() - j,
            {
                let pair = self.segments[i][j];
                proof {
                    assert(self.seg_views()[i as int] == self.segments@[i as int]@);
                    assert(seg[j as int] == pair);
                    assert forall|m: int| 0 <= m < j implies (#[trigger] seg.take(j as int)[m]).0
                        != pair.0 by {
                        assert(seg[m].0 < seg[j as int].0);
                    }
                    assert(seg.take(j as int + 1) =~= seg.take(j as int).push(pair));
                }
                let ghost mprev = merged@;
                Self::table_set(&mut merged, pair.0, pair.1);
                proof {
                    assert forall|k: u64| true implies #[trigger] assoc_get(merged@, k) == (
                    match assoc_get(seg.take(j as int + 1), k) {
                        Some(e) => Some(e),
                        None => segs_get(self.seg_views().take(i as int), k),
                    }) by {
                        lemma_assoc_get_push(seg.take(j as int), pair.0, pair.1, k);
                    }
                }
                j += 1;
            }
            proof {
                assert(seg.take(j as int) =~= seg);
                assert(self.seg_views().take(i as int + 1).last() == seg);
                assert(self.seg_views().take(i as int + 1).drop_last() =~= self.seg_views().take(
                    i as int,
                ));
            }
            i += 1;
        }
        proof {
            assert(self.seg_views().take(i as int) =~= self.seg_views());
        }
        // drop the tombstones: the fold covered every generation
        let mut live: Vec<(u64, LogValue)> = Vec::new();
        let mut m: usize = 0;
        while m < merged.len()
            invariant
                m <= merged@.len(),
                sorted_by_key(merged@),
                sorted_by_key(live@),
                forall|p: int|
                    0 <= p < live@.len() ==> exists|q: int|
                        0 <= q < m && (#[trigger] live@[p]) == merged@[q],
                forall|k: u64| #[trigger]
                    assoc_get(live@, k) == (match assoc_get(merged@.take(m as int), k) {
                        Some(LogValue::Value(v)) => Some(LogValue::Value(v)),
                        _ => None,
                    }),
            decreases merged@.len() - m,
        {
            let pair = merged[m];
            proof {
                assert forall|p: int| 0 <= p < live@.len() implies (#[trigger] live@[p]).0
                    < pair.0 by {
                    let q = choose|q: int| 0 <= q < m && live@[p] == merged@[q];
                    assert(merged@[q].0 < merged@[m as int].0);
                }
                assert forall|n2: int| 0 <= n2 < m implies (#[trigger] merged@.take(m as int)[n2]).0
                    != pair.0 by {
                    assert(merged@[n2].0 < merged@[m as int].0);
                }
                assert(merged@.take(m as int + 1) =~= merged@.take(m as int).push(pair));
            }
            let is_live = match pair.1 {
                LogValue::Value(_) => true,
                LogValue::Tombstone => false,
            };
            if is_live {
                let ghost lprev = live@;
                live.push(pair);
                proof {
                    assert forall|p: int| 0 <= p < live@.len() implies exists|q: int|
                        0 <= q < m + 1 && (#[trigger] live@[p]) == merged@[q] by {
                        if p < lprev.len() {
                            assert(live@[p] == lprev[p]);
                            let q = choose|q: int| 0 <= q < m && lprev[p] == merged@[q];
                            assert(live@[p] == merged@[q]);
                        } else {
                            assert(live@[p] == merged@[m as int]);
                        }
                    }
                    assert forall|k: u64| true implies #[trigger] assoc_get(live@, k) == (
                    match assoc_get(merged@.take(m as int + 1), k) {
                        Some(LogValue::Value(v)) => Some(LogValue::Value(v)),
                        _ => None,
                    }) by {
                        assert forall|p: int| 0 <= p < lprev.len() implies (#[trigger] lprev[p]).0
                            != pair.0 by {
                            assert(lprev[p].0 < pair.0);
                        }
                        lemma_assoc_get_push(lprev, pair.0, pair.1, k);
                        lemma_assoc_get_push(merged@.take(m as int), pair.0, pair.1, k);
                        if k == pair.0 && has_key(merged@.take(m as int), k) {
                            lemma_assoc_get_some_position(merged@.take(m as int), k);
                        }
                    }
                }
            } else {
                proof {
                    assert forall|k: u64| true implies #[trigger] assoc_get(live@, k) == (
                    match assoc_get(merged@.take(m as int + 1), k) {
                        Some(LogValue::Value(v)) => Some(LogValue::Value(v)),
                        _ => None,
                    }) by {
                        lemma_assoc_get_push(merged@.take(m as int), pair.0, pair.1, k);
                        if k == pair.0 && has_key(merged@.take(m as int), k) {
                            lemma_assoc_get_some_position(merged@.take(m as int), k);
                        }
                    }
                }
            }
            m += 1;
        }
        proof {
            assert(merged@.take(m as int) =~= merged@);
        }
        let mut replacement: Vec<Vec<(u64, LogValue)>> = Vec::new();
        replacement.push(live);
        self.segments = replacement;
        proof {
            assert(self.seg_views().len() == 1);
            assert(self.seg_views()[0] == live@);
            assert(self.seg_views().last() == live@);
            assert(self.seg_views().drop_last() =~= Seq::<Seq<(u64, LogValue)>>::empty());
            assert forall|k: u64| true implies #[trigger] self.segment_entry(k) == (
            match segs_get(pre.seg_views(), k) {
                Some(LogValue::Value(v)) => Some(LogValue::Value(v)),
                _ => None,
            }) by {
                assert(segs_get(Seq::<Seq<(u64, LogValue)>>::empty(), k) is None);
                assert(self.segment_entry(k) == assoc_get(live@, k));
            }
        }
    }

    pub fn segment_count(&self) -> (r: usize)
        ensures
            r as nat == self.num_segments(),
    {
        self.segments.len()
    }

    pub fn memtable_size(&self) -> (r: usize)
        ensures
            r as nat == self.memtable_len(),
    {
        self.memtable.len()
    }

    /// A copy of segment `i`'s ordered contents (oldest segment first), for
    /// callers that persist segments elsewhere.
    pub fn segment_at(&self, i: usize) -> (r: Vec<(u64, LogValue)>)
        requires
            i < self.num_segments(),
        ensures
            r@ == self.seg_views()[i as int],
    {
        let seg = &self.segments[i];
        let mut out: Vec<(u64, LogValue)> = Vec::new();
        let mut j: usize = 0;
        while j < seg.len()
            invariant
                j <= seg@.len(),
                out@ == seg@.take(j as int),
                seg@ == self.segments@[i as int]@,
                i < self.segments@.len(),
            decreases seg@.len() - j,
        {
            out.push(seg[j]);
            proof {
                assert(out@ =~= seg@.take(j as int + 1));
            }
            j += 1;
        }
        proof {
            assert(out@ =~= seg@);
            assert(self.seg_views()[i as int] == self.segments@[i as int]@);
        }
        out
    }
}

} // verus!
