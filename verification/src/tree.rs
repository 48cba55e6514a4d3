//! The log-structured merge-tree.
//!
//! A tree layers its records: the active memtable first, then the sealed
//! memtables newest first, then the segments of level 0 newest first, then
//! the deeper levels.  Within one key, newer layers hold strictly newer
//! records, so the first layer that answers a lookup answers it with the
//! newest visible record of the whole tree.

use crate::config::Config;
use crate::journal::{batch_bytes, batch_wf, journal_bytes, BatchM, JournalShard};
use crate::lookup::{
    fits, lemma_concat_membership, lemma_nv_pin, lemma_nv_props, matches_key, newest_visible,
    seq_concat,
};
use crate::marker::{ItemM, JournalItem};
use crate::memtable::{lemma_rec_asym, rec_before, records_sorted, same_slot, Memtable};
use crate::value::{bytes_eq, lex_lt, RecordM, Value, ValueType};
use vstd::prelude::*;

verus! {

/// A sealed memtable awaiting flush, still paired with the journal shard
/// that covers its records.
#[derive(Debug)]
pub struct SealedMemtable {
    /// Id assigned at sealing; later seals get larger ids.
    pub id: u64,
    /// The frozen records.
    pub memtable: Memtable,
    /// The retired journal shard whose batches produced the records.
    pub journal: JournalShard,
}

/// An immutable sorted run of records.
#[derive(Debug)]
pub struct Segment {
    /// Id assigned when the segment was written.
    pub id: u64,
    /// Bytes the segment occupies on disk.
    pub file_size: u64,
    /// The records, in memtable order (key ascending, seqno descending).
    pub records: Vec<Value>,
}

impl Segment {
    /// The records of the segment.
    pub open spec fn view_records(&self) -> Seq<RecordM> {
        self.records@.map_values(|v: Value| v@)
    }
}

/// The segments grouped into levels: level 0 first, newest segment first
/// within it; deeper levels follow.
#[derive(Debug)]
pub struct Levels {
    pub levels: Vec<Vec<Segment>>,
}

/// The record sequences of one level's segments, in order.
pub open spec fn level_views(level: Seq<Segment>) -> Seq<Seq<RecordM>> {
    level.map_values(|s: Segment| s.view_records())
}

/// The record sequences of all segments, level 0 first.
pub open spec fn levels_views(levels: Seq<Vec<Segment>>) -> Seq<Seq<RecordM>>
    decreases levels.len(),
{
    if levels.len() == 0 {
        Seq::empty()
    } else {
        levels_views(levels.drop_last()) + level_views(levels.last()@)
    }
}

/// Cross-layer ordering: within one key, any record of a newer layer is
/// strictly newer than any record of an older layer.
pub open spec fn layers_ordered(ls: Seq<Seq<RecordM>>) -> bool {
    forall|l1: int, l2: int, r1: RecordM, r2: RecordM|
        0 <= l1 < l2 < ls.len() && #[trigger] ls[l1].contains(r1) && #[trigger] ls[l2].contains(r2)
            && r1.key == r2.key ==> r1.seqno > r2.seqno
}

/// Every record of every layer lies strictly below `bound`.
pub open spec fn seqnos_below(ls: Seq<Seq<RecordM>>, bound: u64) -> bool {
    forall|l: int, r: RecordM| 0 <= l < ls.len() && #[trigger] ls[l].contains(r) ==> r.seqno < bound
}

/// In a strictly ordered run, a slot (key and seqno) pins its record.
pub proof fn lemma_sorted_unique(rs: Seq<RecordM>, r1: RecordM, r2: RecordM)
    requires
        records_sorted(rs),
        rs.contains(r1),
        rs.contains(r2),
        same_slot(r1, r2),
    ensures
        r1 == r2,
{
    let i = choose|i: int| 0 <= i < rs.len() && rs[i] == r1;
    let j = choose|j: int| 0 <= j < rs.len() && rs[j] == r2;
    if i < j {
        lemma_rec_asym(rs[i], rs[j]);
    } else if j < i {
        lemma_rec_asym(rs[j], rs[i]);
    }
}

/// A lookup that misses every layer misses the whole tree.
pub proof fn lemma_layered_none(ls: Seq<Seq<RecordM>>, key: Seq<u8>, ceiling: Option<u64>)
    requires
        forall|l: int| 0 <= l < ls.len() ==> newest_visible(#[trigger] ls[l], key, ceiling) is None,
    ensures
        newest_visible(seq_concat(ls), key, ceiling) is None,
{
    lemma_concat_membership(ls);
    lemma_nv_props(seq_concat(ls), key, ceiling);
    if newest_visible(seq_concat(ls), key, ceiling) is Some {
        let b = newest_visible(seq_concat(ls), key, ceiling).unwrap();
        let l = choose|l: int| 0 <= l < ls.len() && #[trigger] ls[l].contains(b);
        lemma_nv_props(ls[l], key, ceiling);
    }
}

/// The first layer that answers a lookup answers it for the whole tree,
/// provided newer layers miss and the layers are ordered.
pub proof fn lemma_layered_pin(
    ls: Seq<Seq<RecordM>>,
    l: int,
    key: Seq<u8>,
    ceiling: Option<u64>,
    r: RecordM,
)
    requires
        layers_ordered(ls),
        forall|i: int| 0 <= i < ls.len() ==> records_sorted(#[trigger] ls[i]),
        0 <= l < ls.len(),
        newest_visible(ls[l], key, ceiling) == Some(r),
        forall|i: int| 0 <= i < l ==> newest_visible(#[trigger] ls[i], key, ceiling) is None,
    ensures
        newest_visible(seq_concat(ls), key, ceiling) == Some(r),
{
    lemma_concat_membership(ls);
    lemma_nv_props(ls[l], key, ceiling);
    assert(seq_concat(ls).contains(r));
    assert forall|r2: RecordM|
        seq_concat(ls).contains(r2) && matches_key(r2, key, ceiling) implies r2.seqno <= r.seqno by {
        let i = choose|i: int| 0 <= i < ls.len() && #[trigger] ls[i].contains(r2);
        if i < l {
            lemma_nv_props(ls[i], key, ceiling);
        } else if i == l {
        } else {
            // The hit in layer l is strictly newer than any record of a
            // deeper layer with the same key.
            assert(ls[l].contains(r) && ls[i].contains(r2));
        }
    }
    assert forall|r2: RecordM|
        seq_concat(ls).contains(r2) && matches_key(r2, key, ceiling) && r2.seqno
            == r.seqno implies r2 == r by {
        let i = choose|i: int| 0 <= i < ls.len() && #[trigger] ls[i].contains(r2);
        if i < l {
            lemma_nv_props(ls[i], key, ceiling);
        } else if i == l {
            lemma_sorted_unique(ls[l], r2, r);
        } else {
            assert(ls[l].contains(r) && ls[i].contains(r2));
        }
    }
    lemma_nv_pin(seq_concat(ls), key, ceiling, r);
}

/// A read view pinned to a sequence number: reads through it ignore every
/// later write.  The ceiling is exclusive: it captures the counter's next
/// value at creation, and a record is visible iff its seqno lies strictly
/// below it, so every write up to the snapshot is seen and none after.
#[derive(Debug, Clone, Copy, PartialEq, Eq, Structural)]
pub struct Snapshot {
    /// The ceiling: records with `seqno < seqno_ceiling` are visible.
    pub seqno_ceiling: u64,
}

/// Why a compare-and-swap did not swap.
#[derive(Debug)]
pub struct CompareAndSwapError {
    /// The value currently in the tree that caused the mismatch.
    pub prev: Option<Vec<u8>>,
    /// The value that was proposed.
    pub next: Option<Vec<u8>>,
}

/// The outcome of a compare-and-swap: swapped, or the mismatch.
pub type CompareAndSwapResult = Result<(), CompareAndSwapError>;

/// A log-structured merge-tree over one partition.
pub struct Tree {
    /// The configuration the tree was opened with.
    pub config: Config,
    /// The active journal shard; it covers the active memtable.
    pub journal: JournalShard,
    /// Bytes the active journal already held when the tree was opened;
    /// empty for a fresh tree.
    pub journal_base: Ghost<Seq<u8>>,
    /// The batches committed to the active journal since open, in order.
    pub journal_batches: Ghost<Seq<BatchM>>,
    /// The active memtable.
    pub active_memtable: Memtable,
    /// Sealed memtables, oldest first.
    pub sealed_memtables: Vec<SealedMemtable>,
    /// The on-disk segments.
    pub levels: Levels,
    /// The next sequence number to assign.
    pub lsn: u64,
    /// How many snapshots are open; tombstones are only evicted when none is.
    pub open_snapshots: u32,
    /// Rough in-memory size of the active memtable, in bytes.
    pub approx_active_memtable_size: u32,
    /// The next segment or memtable id to assign.
    pub next_id: u64,
}

impl Tree {
    /// The record sequences of the tree, newest layer first.
    pub open spec fn layers(self) -> Seq<Seq<RecordM>> {
        seq![self.active_memtable@] + self.sealed_memtables@.map_values(
            |s: SealedMemtable| s.memtable@,
        ).reverse() + levels_views(self.levels.levels@)
    }

    /// All records of the tree, in layer order.
    pub open spec fn records(self) -> Seq<RecordM> {
        seq_concat(self.layers())
    }

    /// The newest record for `key` visible below `ceiling`.
    pub open spec fn visible_record(self, key: Seq<u8>, ceiling: Option<u64>) -> Option<RecordM> {
        newest_visible(self.records(), key, ceiling)
    }

    /// What a read returns: the newest visible record's bytes, unless it is
    /// a tombstone or there is none.
    pub open spec fn visible_value(self, key: Seq<u8>, ceiling: Option<u64>) -> Option<Seq<u8>> {
        match self.visible_record(key, ceiling) {
            Some(r) => if r.tombstone {
                None
            } else {
                Some(r.value)
            },
            None => None,
        }
    }

    /// The tree invariant: every layer is a strictly ordered run, newer
    /// layers are strictly newer within one key, all seqnos lie below the
    /// counter, and the journal holds exactly its recorded batches.
    pub open spec fn wf(self) -> bool {
        &&& forall|i: int| 0 <= i < self.layers().len() ==> records_sorted(#[trigger] self.layers()[i])
        &&& layers_ordered(self.layers())
        &&& seqnos_below(self.layers(), self.lsn)
        &&& self.journal.buf@ == self.journal_base@ + journal_bytes(self.journal_batches@)
        &&& forall|i: int|
            0 <= i < self.journal_batches@.len() ==> batch_wf(#[trigger] self.journal_batches@[i])
        &&& forall|i: int, j: int|
            0 <= i < j < self.journal_batches@.len() ==> (#[trigger] self.journal_batches@[i]).seqno
                < (#[trigger] self.journal_batches@[j]).seqno
        &&& forall|i: int|
            0 <= i < self.journal_batches@.len() ==> (#[trigger] self.journal_batches@[i]).seqno
                < self.lsn
        &&& self.journal.wf()
    }
}

/// The number of segment runs before level `l`.
pub open spec fn level_offset(levels: Seq<Vec<Segment>>, l: int) -> int
    decreases l,
{
    if l <= 0 {
        0
    } else {
        level_offset(levels, l - 1) + levels[l - 1]@.len()
    }
}

/// Dropping the last level leaves the offsets of the earlier ones.
pub proof fn lemma_level_offset_drop_last(levels: Seq<Vec<Segment>>, l: int)
    requires
        levels.len() > 0,
        0 <= l <= levels.len() - 1,
    ensures
        level_offset(levels.drop_last(), l) == level_offset(levels, l),
    decreases l,
{
    if l > 0 {
        lemma_level_offset_drop_last(levels, l - 1);
        assert(levels.drop_last()[l - 1] == levels[l - 1]);
    }
}

/// Offsets are monotone and bounded by the total count of runs.
pub proof fn lemma_levels_views_len(levels: Seq<Vec<Segment>>)
    ensures
        levels_views(levels).len() == level_offset(levels, levels.len() as int),
    decreases levels.len(),
{
    if levels.len() > 0 {
        lemma_levels_views_len(levels.drop_last());
        lemma_level_offset_drop_last(levels, levels.len() - 1);
    }
}

/// The run at `level_offset(levels, l) + s` is segment `s` of level `l`.
pub proof fn lemma_levels_views_index(levels: Seq<Vec<Segment>>, l: int, s: int)
    requires
        0 <= l < levels.len(),
        0 <= s < levels[l]@.len(),
    ensures
        0 <= level_offset(levels, l) + s < levels_views(levels).len(),
        levels_views(levels)[level_offset(levels, l) + s] == levels[l]@[s].view_records(),
    decreases levels.len(),
{
    lemma_levels_views_len(levels);
    lemma_level_offset_monotone(levels, l);
    if l == levels.len() - 1 {
        lemma_levels_views_len(levels.drop_last());
        lemma_level_offset_drop_last(levels, l);
        assert(levels_views(levels)[level_offset(levels, l) + s] == level_views(levels.last()@)[s]);
        assert(level_views(levels.last()@)[s] == levels[l]@[s].view_records());
    } else {
        lemma_levels_views_index(levels.drop_last(), l, s);
        lemma_level_offset_drop_last(levels, l);
        assert(levels.drop_last()[l] == levels[l]);
        lemma_levels_views_len(levels.drop_last());
        lemma_level_offset_monotone(levels.drop_last(), l);
        assert(levels_views(levels)[level_offset(levels, l) + s] == levels_views(
            levels.drop_last(),
        )[level_offset(levels, l) + s]);
    }
}

/// Offsets plus the level's own count stay within the total.
pub proof fn lemma_level_offset_monotone(levels: Seq<Vec<Segment>>, l: int)
    requires
        0 <= l < levels.len(),
    ensures
        0 <= level_offset(levels, l),
        level_offset(levels, l) + levels[l]@.len() <= level_offset(levels, levels.len() as int),
    decreases levels.len() - l,
{
    if l == levels.len() - 1 {
        assert(level_offset(levels, levels.len() as int) == level_offset(levels, l)
            + levels[l]@.len());
        lemma_level_offset_nonneg(levels, l);
    } else {
        lemma_level_offset_monotone(levels, l + 1);
        lemma_level_offset_nonneg(levels, l);
    }
}

/// Offsets are never negative.
pub proof fn lemma_level_offset_nonneg(levels: Seq<Vec<Segment>>, l: int)
    requires
        0 <= l <= levels.len(),
    ensures
        level_offset(levels, l) >= 0,
    decreases l,
{
    if l > 0 {
        lemma_level_offset_nonneg(levels, l - 1);
    }
}

impl Tree {
    /// Where each layer sits: the active memtable first, the sealed
    /// memtables newest first, then the segment runs.
    pub proof fn lemma_layer_index(self)
        ensures
            self.layers().len() == 1 + self.sealed_memtables@.len() + levels_views(
                self.levels.levels@,
            ).len(),
            self.layers()[0] == self.active_memtable@,
            forall|j: int|
                0 <= j < self.sealed_memtables@.len() ==> #[trigger] self.layers()[1 + j]
                    == self.sealed_memtables@[self.sealed_memtables@.len() - 1 - j].memtable@,
            forall|f: int|
                0 <= f < levels_views(self.levels.levels@).len() ==> #[trigger] self.layers()[1
                    + self.sealed_memtables@.len() + f] == levels_views(self.levels.levels@)[f],
    {
        let sealed_rev = self.sealed_memtables@.map_values(
            |s: SealedMemtable| s.memtable@,
        ).reverse();
        let lv = levels_views(self.levels.levels@);
        assert(self.layers() == seq![self.active_memtable@] + sealed_rev + lv);
        assert(self.layers().len() == 1 + sealed_rev.len() + lv.len());
        assert forall|j: int| 0 <= j < self.sealed_memtables@.len() implies #[trigger] self.layers()[1
            + j] == self.sealed_memtables@[self.sealed_memtables@.len() - 1 - j].memtable@ by {
            assert(self.layers()[1 + j] == sealed_rev[j]);
        }
        assert forall|f: int| 0 <= f < lv.len() implies #[trigger] self.layers()[1
            + self.sealed_memtables@.len() + f] == lv[f] by {
            assert(self.layers()[1 + sealed_rev.len() + f] == lv[f]);
        }
    }

    /// Returns the newest record for `key` visible below `seqno`, looking
    /// through the layers newest first.  With `evict_tombstone`, a
    /// tombstone is reported as an absent key.  The ceiling is exclusive
    /// (a record is visible iff `seqno < ceiling`): a snapshot captures
    /// the counter's next value, so it sees exactly the writes before it.
    pub fn get_internal_entry(&self, key: &Vec<u8>, evict_tombstone: bool, seqno: Option<u64>) -> (r:
        Option<Value>)
        requires
            self.wf(),
        ensures
            match r {
                Some(v) => self.visible_record(key@, seqno) == Some(v@) && (evict_tombstone
                    ==> !v@.tombstone),
                None => if evict_tombstone {
                    self.visible_value(key@, seqno) is None
                } else {
                    self.visible_record(key@, seqno) is None
                },
            },
    {
        proof {
            self.lemma_layer_index();
        }
        let ghost ls = self.layers();
        if let Some(v) = self.active_memtable.get(key, seqno) {
            proof {
                lemma_layered_pin(ls, 0, key@, seqno, v@);
            }
            if evict_tombstone && v.is_tombstone() {
                return None;
            }
            return Some(v);
        }
        let sealed_count = self.sealed_memtables.len();
        let mut scanned: usize = 0;
        while scanned < sealed_count
            invariant
                0 <= scanned <= sealed_count,
                sealed_count == self.sealed_memtables@.len(),
                self.wf(),
                ls == self.layers(),
                newest_visible(self.active_memtable@, key@, seqno) is None,
                forall|i: int|
                    0 <= i < 1 + scanned ==> newest_visible(#[trigger] ls[i], key@, seqno) is None,
            decreases sealed_count - scanned,
        {
            let idx = sealed_count - 1 - scanned;
            proof {
                self.lemma_layer_index();
                assert(ls[1 + scanned as int]
                    == self.sealed_memtables@[idx as int].memtable@);
                assert(records_sorted(ls[1 + scanned as int]));
            }
            if let Some(v) = self.sealed_memtables[idx].memtable.get(key, seqno) {
                proof {
                    lemma_layered_pin(ls, 1 + scanned as int, key@, seqno, v@);
                }
                if evict_tombstone && v.is_tombstone() {
                    return None;
                }
                return Some(v);
            }
            scanned += 1;
        }
        let level_count = self.levels.levels.len();
        let mut l: usize = 0;
        let ghost lv = levels_views(self.levels.levels@);
        proof {
            lemma_levels_views_len(self.levels.levels@);
            lemma_level_offset_nonneg(self.levels.levels@, 0);
        }
        while l < level_count
            invariant
                0 <= l <= level_count,
                level_count == self.levels.levels@.len(),
                self.wf(),
                ls == self.layers(),
                lv == levels_views(self.levels.levels@),
                lv.len() == level_offset(self.levels.levels@, level_count as int),
                level_offset(self.levels.levels@, l as int) >= 0,
                forall|i: int|
                    0 <= i < 1 + self.sealed_memtables@.len() + level_offset(
                        self.levels.levels@,
                        l as int,
                    ) ==> newest_visible(#[trigger] ls[i], key@, seqno) is None,
            decreases level_count - l,
        {
            let seg_count = self.levels.levels[l].len();
            let mut s: usize = 0;
            while s < seg_count
                invariant
                    0 <= s <= seg_count,
                    0 <= l < level_count,
                    level_count == self.levels.levels@.len(),
                    seg_count == self.levels.levels@[l as int]@.len(),
                    self.wf(),
                    ls == self.layers(),
                    lv == levels_views(self.levels.levels@),
                    lv.len() == level_offset(self.levels.levels@, level_count as int),
                    level_offset(self.levels.levels@, l as int) >= 0,
                    forall|i: int|
                        0 <= i < 1 + self.sealed_memtables@.len() + level_offset(
                            self.levels.levels@,
                            l as int,
                        ) + s ==> newest_visible(#[trigger] ls[i], key@, seqno) is None,
                decreases seg_count - s,
            {
                let ghost flat = level_offset(self.levels.levels@, l as int) + s;
                let ghost layer_idx = 1 + self.sealed_memtables@.len() + flat;
                proof {
                    self.lemma_layer_index();
                    lemma_levels_views_index(self.levels.levels@, l as int, s as int);
                    assert(ls[layer_idx] == self.levels.levels@[l as int]@[s as int].view_records());
                    assert(records_sorted(ls[layer_idx]));
                }
                if let Some(v) = crate::memtable::sorted_get(
                    &self.levels.levels[l][s].records,
                    key,
                    seqno,
                ) {
                    proof {
                        lemma_layered_pin(ls, layer_idx, key@, seqno, v@);
                    }
                    if evict_tombstone && v.is_tombstone() {
                        return None;
                    }
                    return Some(v);
                }
                s += 1;
            }
            proof {
                self.lemma_layer_index();
                assert(level_offset(self.levels.levels@, l + 1) == level_offset(
                    self.levels.levels@,
                    l as int,
                ) + seg_count);
                lemma_level_offset_nonneg(self.levels.levels@, l + 1);
            }
            l += 1;
        }
        proof {
            self.lemma_layer_index();
            assert forall|i: int| 0 <= i < ls.len() implies newest_visible(
                #[trigger] ls[i],
                key@,
                seqno,
            ) is None by {
                assert(i < 1 + self.sealed_memtables@.len() + level_offset(
                    self.levels.levels@,
                    level_count as int,
                ));
            }
            lemma_layered_none(ls, key@, seqno);
        }
        None
    }
}

/// In ordered, per-layer-sorted layers, a slot pins its record globally.
pub proof fn lemma_global_unique(ls: Seq<Seq<RecordM>>, r1: RecordM, r2: RecordM)
    requires
        forall|i: int| 0 <= i < ls.len() ==> records_sorted(#[trigger] ls[i]),
        layers_ordered(ls),
        seq_concat(ls).contains(r1),
        seq_concat(ls).contains(r2),
        same_slot(r1, r2),
    ensures
        r1 == r2,
{
    lemma_concat_membership(ls);
    let l1 = choose|l: int| 0 <= l < ls.len() && #[trigger] ls[l].contains(r1);
    let l2 = choose|l: int| 0 <= l < ls.len() && #[trigger] ls[l].contains(r2);
    if l1 == l2 {
        lemma_sorted_unique(ls[l1], r1, r2);
    } else if l1 < l2 {
        assert(ls[l1].contains(r1) && ls[l2].contains(r2));
    } else {
        assert(ls[l2].contains(r2) && ls[l1].contains(r1));
    }
}

/// The effect of writing one record into the active memtable: the tree
/// invariant survives, the new record wins its key, a clashing slot is
/// replaced, and every other lookup is unchanged.  Records of the same key
/// below the active layer must be strictly older; within the active layer
/// (the same batch) they may share the seqno.
pub proof fn lemma_insert_into_active(pre: Tree, post: Tree, vm: RecordM)
    requires
        forall|i: int| 0 <= i < pre.layers().len() ==> records_sorted(#[trigger] pre.layers()[i]),
        layers_ordered(pre.layers()),
        seqnos_below(pre.layers(), post.lsn),
        forall|i: int, r: RecordM|
            1 <= i < pre.layers().len() && #[trigger] pre.layers()[i].contains(r) && r.key
                == vm.key ==> r.seqno < vm.seqno,
        forall|r: RecordM| #[trigger]
            pre.active_memtable@.contains(r) && r.key == vm.key ==> r.seqno <= vm.seqno,
        vm.seqno < post.lsn,
        post.sealed_memtables == pre.sealed_memtables,
        post.levels == pre.levels,
        records_sorted(post.active_memtable@),
        forall|r: RecordM| #[trigger]
            post.active_memtable@.contains(r) <==> (r == vm || (pre.active_memtable@.contains(r)
                && !same_slot(r, vm))),
    ensures
        forall|i: int| 0 <= i < post.layers().len() ==> records_sorted(#[trigger] post.layers()[i]),
        layers_ordered(post.layers()),
        seqnos_below(post.layers(), post.lsn),
        forall|r: RecordM| #[trigger]
            post.records().contains(r) <==> (r == vm || (pre.records().contains(r) && !same_slot(
                r,
                vm,
            ))),
        newest_visible(post.records(), vm.key, None) == Some(vm),
        forall|k: Seq<u8>, c: Option<u64>|
            !(k == vm.key && fits(vm, c)) ==> newest_visible(post.records(), k, c)
                == #[trigger] newest_visible(pre.records(), k, c),
{
    let lpre = pre.layers();
    let lpost = post.layers();
    assert(lpost.len() == lpre.len());
    assert(lpost[0] == post.active_memtable@);
    assert(lpre[0] == pre.active_memtable@);
    assert forall|i: int| 1 <= i < lpost.len() implies #[trigger] lpost[i] == lpre[i] by {}
    lemma_concat_membership(lpre);
    lemma_concat_membership(lpost);
    // Records of vm's key never outrank vm in the old tree.
    assert forall|r: RecordM| #[trigger]
        pre.records().contains(r) && r.key == vm.key implies r.seqno <= vm.seqno by {
        let l = choose|l: int| 0 <= l < lpre.len() && #[trigger] lpre[l].contains(r);
    }
    // Membership.
    assert forall|r: RecordM| #[trigger]
        post.records().contains(r) implies (r == vm || (pre.records().contains(r) && !same_slot(
        r,
        vm,
    ))) by {
        let l = choose|l: int| 0 <= l < lpost.len() && #[trigger] lpost[l].contains(r);
        if l == 0 {
            if r != vm {
                assert(pre.active_memtable@.contains(r));
                assert(lpre[0].contains(r));
            }
        } else {
            assert(lpre[l].contains(r));
            if same_slot(r, vm) {
                assert(r.seqno < vm.seqno);
            }
        }
    }
    assert forall|r: RecordM|
        (r == vm || (pre.records().contains(r) && !same_slot(r, vm))) implies #[trigger] post
        .records().contains(r) by {
        if r == vm {
            assert(post.active_memtable@.contains(vm));
            assert(lpost[0].contains(vm));
        } else {
            let l = choose|l: int| 0 <= l < lpre.len() && #[trigger] lpre[l].contains(r);
            if l == 0 {
                assert(post.active_memtable@.contains(r));
                assert(lpost[0].contains(r));
            } else {
                assert(lpost[l].contains(r));
            }
        }
    }
    // Per-layer order.
    assert forall|i: int| 0 <= i < lpost.len() implies records_sorted(#[trigger] lpost[i]) by {
        if i > 0 {
            assert(lpost[i] == lpre[i]);
        }
    }
    // Cross-layer order.
    assert forall|l1: int, l2: int, r1: RecordM, r2: RecordM|
        0 <= l1 < l2 < lpost.len() && #[trigger] lpost[l1].contains(r1) && #[trigger] lpost[l2].contains(
            r2,
        ) && r1.key == r2.key implies r1.seqno > r2.seqno by {
        assert(lpost[l2] == lpre[l2]);
        assert(lpre[l2].contains(r2));
        if l1 == 0 {
            if r1 == vm {
                assert(r2.seqno < vm.seqno);
            } else {
                assert(pre.active_memtable@.contains(r1));
                assert(lpre[0].contains(r1));
            }
        } else {
            assert(lpost[l1] == lpre[l1]);
            assert(lpre[l1].contains(r1));
        }
    }
    // Seqno bound.
    assert forall|l: int, r: RecordM|
        0 <= l < lpost.len() && #[trigger] lpost[l].contains(r) implies r.seqno < post.lsn by {
        assert(post.records().contains(r));
        if r != vm {
            let l0 = choose|l0: int| 0 <= l0 < lpre.len() && #[trigger] lpre[l0].contains(r);
        }
    }
    // The new record wins its key at the newest view.
    assert(newest_visible(post.records(), vm.key, None) == Some(vm)) by {
        assert(post.records().contains(vm));
        assert forall|r2: RecordM|
            post.records().contains(r2) && matches_key(r2, vm.key, None) implies r2.seqno
            <= vm.seqno by {
            if r2 != vm {
                assert(pre.records().contains(r2));
            }
        }
        assert forall|r2: RecordM|
            post.records().contains(r2) && matches_key(r2, vm.key, None) && r2.seqno
            == vm.seqno implies r2 == vm by {
            if r2 != vm {
                assert(pre.records().contains(r2) && !same_slot(r2, vm));
            }
        }
        lemma_nv_pin(post.records(), vm.key, None, vm);
    }
    // Everything the new record cannot answer is unchanged.
    assert forall|k: Seq<u8>, c: Option<u64>| !(k == vm.key && fits(vm, c)) implies newest_visible(
        post.records(),
        k,
        c,
    ) == #[trigger] newest_visible(pre.records(), k, c) by {
        assert forall|r: RecordM|
            (#[trigger] post.records().contains(r) && matches_key(r, k, c)) <==> (
        #[trigger] pre.records().contains(r) && matches_key(r, k, c)) by {
            if post.records().contains(r) && matches_key(r, k, c) {
                assert(r != vm);
            }
            if pre.records().contains(r) && matches_key(r, k, c) {
                if same_slot(r, vm) {
                    assert(r.key == vm.key && r.seqno == vm.seqno);
                }
            }
        }
        assert forall|r1: RecordM, r2: RecordM|
            post.records().contains(r1) && post.records().contains(r2) && matches_key(r1, k, c)
                && matches_key(r2, k, c) && r1.key == r2.key && r1.seqno == r2.seqno implies r1
            == r2 by {
            lemma_global_unique(lpost, r1, r2);
        }
        crate::lookup::lemma_nv_same_candidates(post.records(), pre.records(), k, c);
    }
}

/// Appending one batch to the journal record.
pub proof fn lemma_journal_push(batches: Seq<BatchM>, b: BatchM)
    ensures
        journal_bytes(batches.push(b)) == journal_bytes(batches) + batch_bytes(b),
{
    assert(batches.push(b).drop_last() =~= batches);
    assert(batches.push(b).last() == b);
}

impl Tree {
    /// Creates a fresh, empty tree whose journal lives at `journal_path`.
    pub fn create_new(config: Config, journal_path: String) -> (r: Tree)
        ensures
            r.wf(),
            r.lsn == 0,
            r.open_snapshots == 0,
            r.next_id == 0,
            r.approx_active_memtable_size == 0,
            r.active_memtable@ == Seq::<RecordM>::empty(),
            r.sealed_memtables@.len() == 0,
            r.levels.levels@.len() == 0,
            r.records() == Seq::<RecordM>::empty(),
            r.journal.buf@ == Seq::<u8>::empty(),
            r.journal.synced_len == 0,
            r.journal.path == journal_path,
            r.journal_batches@ == Seq::<BatchM>::empty(),
            r.journal_base@ == Seq::<u8>::empty(),
            r.config == config,
            forall|k: Seq<u8>, c: Option<u64>| #[trigger] r.visible_value(k, c) is None,
    {
        let tree = Tree {
            config,
            journal: JournalShard::create_new(journal_path),
            journal_base: Ghost(Seq::empty()),
            journal_batches: Ghost(Seq::empty()),
            active_memtable: Memtable::new(),
            sealed_memtables: Vec::new(),
            levels: Levels { levels: Vec::new() },
            lsn: 0,
            open_snapshots: 0,
            approx_active_memtable_size: 0,
            next_id: 0,
        };
        proof {
            tree.lemma_layer_index();
            assert(tree.sealed_memtables@.map_values(|s: SealedMemtable| s.memtable@).reverse()
                =~= Seq::<Seq<RecordM>>::empty());
            assert(levels_views(tree.levels.levels@) =~= Seq::<Seq<RecordM>>::empty());
            assert(tree.layers() =~= seq![tree.active_memtable@]);
            assert(tree.active_memtable@ =~= Seq::<RecordM>::empty());
            assert(seq_concat(Seq::<Seq<RecordM>>::empty()) =~= Seq::<RecordM>::empty());
            assert(tree.records() =~= Seq::<RecordM>::empty()) by {
                assert(tree.layers().drop_last() =~= Seq::<Seq<RecordM>>::empty());
                assert(tree.layers().last() == tree.active_memtable@);
            }
            assert(tree.journal_base@ + journal_bytes(tree.journal_batches@) =~= Seq::<
                u8,
            >::empty());
            assert forall|k: Seq<u8>, c: Option<u64>| #[trigger]
                tree.visible_value(k, c) is None by {
                lemma_nv_props(tree.records(), k, c);
                if tree.visible_record(k, c) is Some {
                    let b = tree.visible_record(k, c).unwrap();
                    assert(tree.records().contains(b));
                }
            }
        }
        tree
    }

    /// Writes one record: appends a one-item batch to the journal, then
    /// inserts the record into the active memtable.
    fn append_entry(&mut self, rec: Value)
        requires
            old(self).wf(),
            rec@.seqno < old(self).lsn,
            seqnos_below(old(self).layers(), rec@.seqno),
            forall|i: int|
                0 <= i < old(self).journal_batches@.len() ==> (#[trigger] old(
                    self,
                ).journal_batches@[i]).seqno < rec@.seqno,
            rec@.key.len() < 0x1_0000_0000,
            rec@.value.len() < 0x1_0000_0000,
            rec@.tombstone ==> rec@.value.len() == 0,
        ensures
            final(self).wf(),
            final(self).lsn == old(self).lsn,
            final(self).open_snapshots == old(self).open_snapshots,
            final(self).config == old(self).config,
            final(self).sealed_memtables == old(self).sealed_memtables,
            final(self).levels == old(self).levels,
            final(self).journal_batches@ == old(self).journal_batches@.push(
                BatchM {
                    seqno: rec@.seqno,
                    items: seq![
                        ItemM {
                            partition: Seq::empty(),
                            key: rec@.key,
                            value: rec@.value,
                            tombstone: rec@.tombstone,
                        },
                    ],
                },
            ),
            final(self).journal.buf@ == old(self).journal.buf@ + batch_bytes(
                final(self).journal_batches@.last(),
            ),
            final(self).journal.synced_len == old(self).journal.synced_len,
            final(self).journal.path == old(self).journal.path,
            final(self).next_id == old(self).next_id,
            final(self).journal_base == old(self).journal_base,
            final(self).approx_active_memtable_size as int == sat32(
                old(self).approx_active_memtable_size + batch_bytes(
                    final(self).journal_batches@.last(),
                ).len() + 64,
            ),
            forall|r: RecordM| #[trigger]
                final(self).records().contains(r) <==> (r == rec@ || (old(
                    self,
                ).records().contains(r) && !same_slot(r, rec@))),
            newest_visible(final(self).records(), rec@.key, None) == Some(rec@),
            forall|k: Seq<u8>, c: Option<u64>|
                !(k == rec@.key && fits(rec@, c)) ==> newest_visible(final(self).records(), k, c)
                    == #[trigger] newest_visible(old(self).records(), k, c),
    {
        let ghost pre = *self;
        let item = JournalItem {
            partition: Vec::new(),
            key: crate::value::copy_bytes(&rec.key),
            value: crate::value::copy_bytes(&rec.value),
            value_type: rec.value_type,
        };
        proof {
            assert(item@.partition =~= Seq::<u8>::empty());
        }
        let written = self.journal.write(&item, rec.seqno);
        let ghost batch = BatchM { seqno: rec@.seqno, items: seq![item@] };
        proof {
            self.journal_batches@ = pre.journal_batches@.push(batch);
            lemma_journal_push(pre.journal_batches@, batch);
            assert(self.journal.buf@ =~= self.journal_base@ + journal_bytes(
                self.journal_batches@,
            ));
            assert forall|i: int, j: int|
                0 <= i < j < self.journal_batches@.len() implies (
            #[trigger] self.journal_batches@[i]).seqno < (
            #[trigger] self.journal_batches@[j]).seqno by {
                if j < pre.journal_batches@.len() {
                    assert(self.journal_batches@[i] == pre.journal_batches@[i]);
                    assert(self.journal_batches@[j] == pre.journal_batches@[j]);
                } else {
                    assert(self.journal_batches@[i] == pre.journal_batches@[i]);
                    assert(self.journal_batches@[j] == batch);
                }
            }
        }
        // Track the approximate in-memory size of the active memtable:
        // the appended bytes plus a pointer-overhead allowance, saturating.
        let written32 = if written > u32::MAX as usize {
            u32::MAX
        } else {
            written as u32
        };
        let grow = if written32 > u32::MAX - 64 {
            u32::MAX
        } else {
            written32 + 64
        };
        if self.approx_active_memtable_size > u32::MAX - grow {
            self.approx_active_memtable_size = u32::MAX;
        } else {
            self.approx_active_memtable_size = self.approx_active_memtable_size + grow;
        }
        let ghost vm = rec@;
        let ghost mid = *self;
        proof {
            pre.lemma_layer_index();
            assert(pre.layers()[0] == pre.active_memtable@);
            assert(records_sorted(mid.active_memtable@));
        }
        self.active_memtable.insert(rec);
        proof {
            assert(mid.layers() == pre.layers());
            assert(mid.records() == pre.records());
            lemma_insert_into_active(mid, *self, vm);
            assert(self.layers() == final(self).layers());
        }
    }

    /// Inserts a key-value pair.  An existing value for the key is
    /// shadowed by the new, higher-seqno record.
    pub fn insert(&mut self, key: Vec<u8>, value: Vec<u8>)
        requires
            old(self).wf(),
            old(self).lsn < u64::MAX,
            key@.len() < 0x1_0000_0000,
            value@.len() < 0x1_0000_0000,
        ensures
            final(self).wf(),
            final(self).lsn == old(self).lsn + 1,
            final(self).open_snapshots == old(self).open_snapshots,
            final(self).config == old(self).config,
            final(self).next_id == old(self).next_id,
            final(self).sealed_memtables == old(self).sealed_memtables,
            final(self).levels == old(self).levels,
            final(self).journal_base == old(self).journal_base,
            final(self).journal.synced_len == old(self).journal.synced_len,
            final(self).journal.path == old(self).journal.path,
            // The memtable's tracked size grows with the write, saturating.
            final(self).approx_active_memtable_size as int == sat32(
                old(self).approx_active_memtable_size + batch_bytes(
                    final(self).journal_batches@.last(),
                ).len() + 64,
            ),
            // Read-after-write: the new value is what a read now returns.
            final(self).visible_value(key@, None) == Some(value@),
            // Other keys read as before.
            forall|k: Seq<u8>|
                k != key@ ==> #[trigger] final(self).visible_value(k, None) == old(
                    self,
                ).visible_value(k, None),
            // Snapshot isolation: a ceiling at or below the old counter
            // never observes this write.
            forall|k: Seq<u8>, c: u64|
                c <= old(self).lsn ==> #[trigger] final(self).visible_record(k, Some(c)) == old(
                    self,
                ).visible_record(k, Some(c)),
            // The journal gains exactly this write, at this seqno.
            final(self).journal_batches@ == old(self).journal_batches@.push(
                BatchM {
                    seqno: old(self).lsn,
                    items: seq![
                        ItemM {
                            partition: Seq::empty(),
                            key: key@,
                            value: value@,
                            tombstone: false,
                        },
                    ],
                },
            ),
            final(self).journal.buf@ == old(self).journal.buf@ + batch_bytes(
                final(self).journal_batches@.last(),
            ),
    {
        let seqno = self.lsn;
        self.lsn = self.lsn + 1;
        let rec = Value::new(key, value, seqno, ValueType::Value);
        proof {
            assert(self.layers() == old(self).layers());
        }
        self.append_entry(rec);
    }

    /// Deletes a key by writing a tombstone record for it.
    pub fn remove(&mut self, key: Vec<u8>)
        requires
            old(self).wf(),
            old(self).lsn < u64::MAX,
            key@.len() < 0x1_0000_0000,
        ensures
            final(self).wf(),
            final(self).lsn == old(self).lsn + 1,
            final(self).open_snapshots == old(self).open_snapshots,
            final(self).config == old(self).config,
            final(self).next_id == old(self).next_id,
            final(self).sealed_memtables == old(self).sealed_memtables,
            final(self).levels == old(self).levels,
            final(self).journal_base == old(self).journal_base,
            final(self).journal.synced_len == old(self).journal.synced_len,
            final(self).journal.path == old(self).journal.path,
            final(self).approx_active_memtable_size as int == sat32(
                old(self).approx_active_memtable_size + batch_bytes(
                    final(self).journal_batches@.last(),
                ).len() + 64,
            ),
            // The key now reads as absent.
            final(self).visible_value(key@, None) is None,
            forall|k: Seq<u8>|
                k != key@ ==> #[trigger] final(self).visible_value(k, None) == old(
                    self,
                ).visible_value(k, None),
            forall|k: Seq<u8>, c: u64|
                c <= old(self).lsn ==> #[trigger] final(self).visible_record(k, Some(c)) == old(
                    self,
                ).visible_record(k, Some(c)),
            final(self).journal_batches@ == old(self).journal_batches@.push(
                BatchM {
                    seqno: old(self).lsn,
                    items: seq![
                        ItemM {
                            partition: Seq::empty(),
                            key: key@,
                            value: Seq::empty(),
                            tombstone: true,
                        },
                    ],
                },
            ),
            final(self).journal.buf@ == old(self).journal.buf@ + batch_bytes(
                final(self).journal_batches@.last(),
            ),
    {
        let seqno = self.lsn;
        self.lsn = self.lsn + 1;
        let rec = Value::new(key, Vec::new(), seqno, ValueType::Tombstone);
        proof {
            assert(self.layers() == old(self).layers());
            assert(rec@.value =~= Seq::<u8>::empty());
        }
        self.append_entry(rec);
    }

    /// Retrieves the value for a key, or nothing when the key is absent or
    /// deleted.
    pub fn get(&self, key: &Vec<u8>) -> (r: Option<Vec<u8>>)
        requires
            self.wf(),
        ensures
            match r {
                Some(v) => self.visible_value(key@, None) == Some(v@),
                None => self.visible_value(key@, None) is None,
            },
    {
        match self.get_internal_entry(key, true, None) {
            Some(v) => Some(v.value),
            None => None,
        }
    }

    /// Whether the tree holds a live value for the key.
    pub fn contains_key(&self, key: &Vec<u8>) -> (r: bool)
        requires
            self.wf(),
        ensures
            r == self.visible_value(key@, None) is Some,
    {
        self.get(key).is_some()
    }

    /// Opens a point-in-time snapshot: reads through it see exactly the
    /// writes whose seqno lies below the current counter.
    pub fn snapshot(&mut self) -> (r: Snapshot)
        requires
            old(self).open_snapshots < u32::MAX,
        ensures
            r.seqno_ceiling == old(self).lsn,
            *final(self) == (Tree { open_snapshots: (old(self).open_snapshots + 1) as u32, ..*old(self) }),
    {
        self.open_snapshots = self.open_snapshots + 1;
        Snapshot { seqno_ceiling: self.lsn }
    }

    /// Closes a snapshot.
    pub fn drop_snapshot(&mut self, snapshot: Snapshot)
        requires
            old(self).open_snapshots > 0,
        ensures
            *final(self) == (Tree { open_snapshots: (old(self).open_snapshots - 1) as u32, ..*old(self) }),
    {
        self.open_snapshots = self.open_snapshots - 1;
    }

    /// Reads a key through a snapshot.
    pub fn snapshot_get(&self, snapshot: &Snapshot, key: &Vec<u8>) -> (r: Option<Vec<u8>>)
        requires
            self.wf(),
        ensures
            match r {
                Some(v) => self.visible_value(key@, Some(snapshot.seqno_ceiling)) == Some(v@),
                None => self.visible_value(key@, Some(snapshot.seqno_ceiling)) is None,
            },
    {
        match self.get_internal_entry(key, true, Some(snapshot.seqno_ceiling)) {
            Some(v) => Some(v.value),
            None => None,
        }
    }
}

/// The view of an optional borrowed byte string.
pub open spec fn opt_ref_view(o: Option<&Vec<u8>>) -> Option<Seq<u8>> {
    match o {
        Some(v) => Some(v@),
        None => None,
    }
}

/// The view of an optional owned byte string.
pub open spec fn opt_view(o: Option<Vec<u8>>) -> Option<Seq<u8>> {
    match o {
        Some(v) => Some(v@),
        None => None,
    }
}

/// A key's entry: its current value, or its vacancy.
#[derive(Debug)]
pub enum Entry {
    /// The key holds this value.
    Occupied { key: Vec<u8>, value: Vec<u8> },
    /// The key holds nothing.
    Vacant { key: Vec<u8> },
}

impl Tree {
    /// The key's entry for inspection: occupied with its current value, or
    /// vacant.
    pub fn entry(&self, key: &Vec<u8>) -> (r: Entry)
        requires
            self.wf(),
        ensures
            match r {
                Entry::Occupied { key: k, value: v } => k@ == key@ && self.visible_value(key@, None)
                    == Some(v@),
                Entry::Vacant { key: k } => k@ == key@ && self.visible_value(key@, None) is None,
            },
    {
        match self.get(key) {
            Some(value) => Entry::Occupied { key: crate::value::copy_bytes(key), value },
            None => Entry::Vacant { key: crate::value::copy_bytes(key) },
        }
    }

    /// Compares the key's current value with `expected` and, on a match,
    /// swaps in `next` (a value, or a deletion for `None`).  On a mismatch
    /// nothing is written and the mismatch is returned.  Either way one
    /// seqno is consumed, as the swap holds the write path for its whole
    /// duration.
    pub fn compare_and_swap(
        &mut self,
        key: &Vec<u8>,
        expected: Option<&Vec<u8>>,
        next: Option<&Vec<u8>>,
    ) -> (r: CompareAndSwapResult)
        requires
            old(self).wf(),
            old(self).lsn < u64::MAX,
            key@.len() < 0x1_0000_0000,
            next is Some ==> next.unwrap()@.len() < 0x1_0000_0000,
        ensures
            final(self).wf(),
            final(self).lsn == old(self).lsn + 1,
            final(self).open_snapshots == old(self).open_snapshots,
            final(self).config == old(self).config,
            final(self).next_id == old(self).next_id,
            final(self).sealed_memtables == old(self).sealed_memtables,
            final(self).levels == old(self).levels,
            final(self).journal_base == old(self).journal_base,
            // Swapped exactly when the current value equals the expectation.
            r is Ok <==> old(self).visible_value(key@, None) == opt_ref_view(expected),
            match r {
                Ok(()) => {
                    &&& final(self).visible_value(key@, None) == (match next {
                        Some(v) => Some(v@),
                        None => None::<Seq<u8>>,
                    })
                    &&& forall|k: Seq<u8>|
                        k != key@ ==> #[trigger] final(self).visible_value(k, None) == old(
                            self,
                        ).visible_value(k, None)
                    &&& forall|k: Seq<u8>, c: u64|
                        c <= old(self).lsn ==> #[trigger] final(self).visible_record(k, Some(c))
                            == old(self).visible_record(k, Some(c))
                    // The key already read as absent and nothing was wanted:
                    // no record is written.  In every other case one record
                    // is, as a one-item journal batch under the fresh seqno.
                    &&& (old(self).visible_value(key@, None) is None && next is None
                        ==> final(self).journal == old(self).journal
                        && final(self).journal_batches == old(self).journal_batches
                        && final(self).approx_active_memtable_size
                        == old(self).approx_active_memtable_size)
                    &&& (!(old(self).visible_value(key@, None) is None && next is None)
                        ==> final(self).journal_batches@ == old(self).journal_batches@.push(
                        BatchM {
                            seqno: old(self).lsn,
                            items: seq![
                                ItemM {
                                    partition: Seq::empty(),
                                    key: key@,
                                    value: (match next {
                                        Some(v) => v@,
                                        None => Seq::empty(),
                                    }),
                                    tombstone: next is None,
                                },
                            ],
                        },
                    ) && final(self).journal.buf@ == old(self).journal.buf@ + batch_bytes(
                        final(self).journal_batches@.last(),
                    ) && final(self).approx_active_memtable_size as int == sat32(
                        old(self).approx_active_memtable_size + batch_bytes(
                            final(self).journal_batches@.last(),
                        ).len() + 64,
                    ))
                },
                Err(e) => {
                    &&& opt_view(e.prev) == old(self).visible_value(key@, None)
                    &&& opt_view(e.next) == opt_ref_view(next)
                    &&& final(self).records() == old(self).records()
                    &&& final(self).journal == old(self).journal
                    &&& final(self).journal_batches == old(self).journal_batches
                    &&& final(self).approx_active_memtable_size
                        == old(self).approx_active_memtable_size
                },
            },
    {
        let seqno = self.lsn;
        self.lsn = self.lsn + 1;
        proof {
            assert(self.layers() == old(self).layers());
        }
        let current = self.get_internal_entry(key, true, None);
        match current {
            Some(current_value) => {
                match expected {
                    Some(expected_value) => {
                        if !bytes_eq(&current_value.value, expected_value) {
                            return Err(
                                CompareAndSwapError {
                                    prev: Some(current_value.value),
                                    next: match next {
                                        Some(v) => Some(crate::value::copy_bytes(v)),
                                        None => None,
                                    },
                                },
                            );
                        }
                        match next {
                            Some(next_value) => {
                                let rec = Value::new(
                                    crate::value::copy_bytes(key),
                                    crate::value::copy_bytes(next_value),
                                    seqno,
                                    ValueType::Value,
                                );
                                self.append_entry(rec);
                                Ok(())
                            },
                            None => {
                                let rec = Value::new(
                                    crate::value::copy_bytes(key),
                                    Vec::new(),
                                    seqno,
                                    ValueType::Tombstone,
                                );
                                proof {
                                    assert(rec@.value =~= Seq::<u8>::empty());
                                }
                                self.append_entry(rec);
                                Ok(())
                            },
                        }
                    },
                    None => {
                        // A value exists but none was expected.
                        Err(
                            CompareAndSwapError {
                                prev: Some(current_value.value),
                                next: match next {
                                    Some(v) => Some(crate::value::copy_bytes(v)),
                                    None => None,
                                },
                            },
                        )
                    },
                }
            },
            None => {
                match expected {
                    Some(_) => Err(
                        CompareAndSwapError {
                            prev: None,
                            next: match next {
                                Some(v) => Some(crate::value::copy_bytes(v)),
                                None => None,
                            },
                        },
                    ),
                    None => {
                        match next {
                            Some(next_value) => {
                                let rec = Value::new(
                                    crate::value::copy_bytes(key),
                                    crate::value::copy_bytes(next_value),
                                    seqno,
                                    ValueType::Value,
                                );
                                self.append_entry(rec);
                                Ok(())
                            },
                            // The key holds nothing and nothing is wanted.
                            None => Ok(()),
                        }
                    },
                }
            },
        }
    }
}

impl Tree {
    /// Fetches the key's value and updates it to whatever `f` maps it to
    /// (`None` deletes).  Returns the previous value.  The swap cannot race
    /// another writer, so it succeeds in one pass.
    pub fn fetch_update<F: Fn(Option<&Vec<u8>>) -> Option<Vec<u8>>>(
        &mut self,
        key: &Vec<u8>,
        f: F,
    ) -> (r: Option<Vec<u8>>)
        requires
            old(self).wf(),
            old(self).lsn < u64::MAX,
            key@.len() < 0x1_0000_0000,
            forall|a: Option<&Vec<u8>>| #[trigger] call_requires(f, (a,)),
            forall|a: (Option<&Vec<u8>>,), y: Option<Vec<u8>>| #[trigger]
                call_ensures(f, a, y) ==> (y is Some ==> y.unwrap()@.len() < 0x1_0000_0000),
        ensures
            final(self).wf(),
            final(self).lsn == old(self).lsn + 1,
            final(self).open_snapshots == old(self).open_snapshots,
            opt_view(r) == old(self).visible_value(key@, None),
            exists|a: (Option<&Vec<u8>>,), y: Option<Vec<u8>>|
                #![auto]
                call_ensures(f, a, y) && opt_ref_view(a.0) == old(self).visible_value(key@, None)
                    && final(self).visible_value(key@, None) == opt_view(y),
            forall|k: Seq<u8>|
                k != key@ ==> #[trigger] final(self).visible_value(k, None) == old(
                    self,
                ).visible_value(k, None),
    {
        let fetched = self.get(key);
        let next = f(
            match &fetched {
                Some(v) => Some(v),
                None => None,
            },
        );
        let ghost arg: (Option<&Vec<u8>>,) = (
            match &fetched {
                Some(v) => Some(v),
                None => None,
            },
        );
        let cas = self.compare_and_swap(
            key,
            match &fetched {
                Some(v) => Some(v),
                None => None,
            },
            match &next {
                Some(v) => Some(v),
                None => None,
            },
        );
        match cas {
            Ok(()) => fetched,
            Err(e) => {
                proof {
                    assert(false);
                }
                e.prev
            },
        }
    }

    /// Fetches the key's value, updates it to whatever `f` maps it to
    /// (`None` deletes), and returns the updated value.
    pub fn update_fetch<F: Fn(Option<&Vec<u8>>) -> Option<Vec<u8>>>(
        &mut self,
        key: &Vec<u8>,
        f: F,
    ) -> (r: Option<Vec<u8>>)
        requires
            old(self).wf(),
            old(self).lsn < u64::MAX,
            key@.len() < 0x1_0000_0000,
            forall|a: Option<&Vec<u8>>| #[trigger] call_requires(f, (a,)),
            forall|a: (Option<&Vec<u8>>,), y: Option<Vec<u8>>| #[trigger]
                call_ensures(f, a, y) ==> (y is Some ==> y.unwrap()@.len() < 0x1_0000_0000),
        ensures
            final(self).wf(),
            final(self).lsn == old(self).lsn + 1,
            final(self).open_snapshots == old(self).open_snapshots,
            final(self).visible_value(key@, None) == opt_view(r),
            exists|a: (Option<&Vec<u8>>,), y: Option<Vec<u8>>|
                #![auto]
                call_ensures(f, a, y) && opt_ref_view(a.0) == old(self).visible_value(key@, None)
                    && opt_view(y) == opt_view(r),
            forall|k: Seq<u8>|
                k != key@ ==> #[trigger] final(self).visible_value(k, None) == old(
                    self,
                ).visible_value(k, None),
    {
        let fetched = self.get(key);
        let next = f(
            match &fetched {
                Some(v) => Some(v),
                None => None,
            },
        );
        let cas = self.compare_and_swap(
            key,
            match &fetched {
                Some(v) => Some(v),
                None => None,
            },
            match &next {
                Some(v) => Some(v),
                None => None,
            },
        );
        match cas {
            Ok(()) => next,
            Err(e) => {
                proof {
                    assert(false);
                }
                e.next
            },
        }
    }

    /// Removes the key and returns the value it held, if any.
    pub fn remove_entry(&mut self, key: &Vec<u8>) -> (r: Option<Vec<u8>>)
        requires
            old(self).wf(),
            old(self).lsn < u64::MAX,
            key@.len() < 0x1_0000_0000,
        ensures
            final(self).wf(),
            final(self).lsn == old(self).lsn + 1,
            final(self).open_snapshots == old(self).open_snapshots,
            opt_view(r) == old(self).visible_value(key@, None),
            final(self).visible_value(key@, None) is None,
            forall|k: Seq<u8>|
                k != key@ ==> #[trigger] final(self).visible_value(k, None) == old(
                    self,
                ).visible_value(k, None),
    {
        let fetched = self.get(key);
        let cas = self.compare_and_swap(
            key,
            match &fetched {
                Some(v) => Some(v),
                None => None,
            },
            None,
        );
        match cas {
            Ok(()) => fetched,
            Err(e) => {
                proof {
                    assert(false);
                }
                e.prev
            },
        }
    }
}

/// One end of a key range.
#[derive(Debug)]
pub enum KeyBound {
    /// No bound on this end.
    Unbounded,
    /// The bound itself belongs to the range.
    Included(Vec<u8>),
    /// Everything strictly past the bound belongs to the range.
    Excluded(Vec<u8>),
}

/// Whether `k` lies within the bounds.
pub open spec fn in_bounds(k: Seq<u8>, lo: &KeyBound, hi: &KeyBound) -> bool {
    (match lo {
        KeyBound::Unbounded => true,
        KeyBound::Included(b) => crate::value::lex_le(b@, k),
        KeyBound::Excluded(b) => lex_lt(b@, k),
    }) && (match hi {
        KeyBound::Unbounded => true,
        KeyBound::Included(b) => crate::value::lex_le(k, b@),
        KeyBound::Excluded(b) => lex_lt(k, b@),
    })
}

/// Checks the bounds of one key.
fn check_bounds(k: &Vec<u8>, lo: &KeyBound, hi: &KeyBound) -> (r: bool)
    ensures
        r == in_bounds(k@, lo, hi),
{
    let lo_ok = match lo {
        KeyBound::Unbounded => true,
        KeyBound::Included(b) => !matches!(crate::value::key_cmp(k, b), crate::value::KeyOrd::Less),
        KeyBound::Excluded(b) => matches!(crate::value::key_cmp(b, k), crate::value::KeyOrd::Less),
    };
    proof {
        match lo {
            KeyBound::Included(b) => {
                crate::value::lemma_lex_total(b@, k@);
                crate::value::lemma_lex_asym(b@, k@);
            },
            _ => {},
        }
    }
    let hi_ok = match hi {
        KeyBound::Unbounded => true,
        KeyBound::Included(b) => !matches!(crate::value::key_cmp(b, k), crate::value::KeyOrd::Less),
        KeyBound::Excluded(b) => matches!(crate::value::key_cmp(k, b), crate::value::KeyOrd::Less),
    };
    proof {
        match hi {
            KeyBound::Included(b) => {
                crate::value::lemma_lex_total(k@, b@);
                crate::value::lemma_lex_asym(k@, b@);
            },
            _ => {},
        }
    }
    lo_ok && hi_ok
}

/// Whether some key of the list views as `k`.
pub open spec fn keys_contain(ks: Seq<Vec<u8>>, k: Seq<u8>) -> bool {
    exists|i: int| 0 <= i < ks.len() && (#[trigger] ks[i])@ == k
}

/// Collects, from a run of records, the keys lying within the bounds.
fn collect_run_keys(out: &mut Vec<Vec<u8>>, items: &Vec<Value>, lo: &KeyBound, hi: &KeyBound)
    ensures
        forall|k: Seq<u8>|
            #![auto]
            keys_contain(final(out)@, k) <==> (keys_contain(old(out)@, k) || (exists|j: int|
                0 <= j < items@.len() && (#[trigger] items@[j])@.key == k && in_bounds(k, lo, hi))),
{
    let n = items.len();
    let mut i: usize = 0;
    while i < n
        invariant
            0 <= i <= n,
            n == items@.len(),
            forall|k: Seq<u8>|
                #![auto]
                keys_contain(out@, k) <==> (keys_contain(old(out)@, k) || (exists|j: int|
                    0 <= j < i && (#[trigger] items@[j])@.key == k && in_bounds(k, lo, hi))),
        decreases n - i,
    {
        let ghost pre = out@;
        let hit = check_bounds(&items[i].key, lo, hi);
        if hit {
            out.push(crate::value::copy_bytes(&items[i].key));
        }
        proof {
            assert forall|k: Seq<u8>|
                #![auto]
                keys_contain(out@, k) <==> (keys_contain(old(out)@, k) || (exists|j: int|
                    0 <= j < i + 1 && (#[trigger] items@[j])@.key == k && in_bounds(
                        k,
                        lo,
                        hi,
                    ))) by {
                if keys_contain(out@, k) {
                    let x = choose|x: int| 0 <= x < out@.len() && (#[trigger] out@[x])@ == k;
                    if x < pre.len() {
                        assert(pre[x]@ == k);
                        assert(keys_contain(pre, k));
                    } else {
                        assert(hit && k == items@[i as int]@.key);
                        assert(items@[i as int]@.key == k && in_bounds(k, lo, hi));
                    }
                }
                if keys_contain(old(out)@, k) || (exists|j: int|
                    0 <= j < i + 1 && (#[trigger] items@[j])@.key == k && in_bounds(k, lo, hi)) {
                    if keys_contain(pre, k) {
                        let x = choose|x: int| 0 <= x < pre.len() && (#[trigger] pre[x])@ == k;
                        assert(out@[x]@ == k);
                        assert(keys_contain(out@, k));
                    } else {
                        let j = choose|j: int|
                            0 <= j < i + 1 && (#[trigger] items@[j])@.key == k && in_bounds(
                                k,
                                lo,
                                hi,
                            );
                        assert(j == i);
                        assert(out@[out@.len() - 1]@ == k);
                        assert(keys_contain(out@, k));
                    }
                }
            }
        }
        i += 1;
    }
}

impl Tree {
    /// Collects every key of the tree that lies within the bounds; a key
    /// appears as often as it has records.
    fn collect_keys(&self, lo: &KeyBound, hi: &KeyBound) -> (r: Vec<Vec<u8>>)
        requires
            self.wf(),
        ensures
            forall|k: Seq<u8>|
                #![auto]
                keys_contain(r@, k) <==> (in_bounds(k, lo, hi) && exists|rm: RecordM|
                    self.records().contains(rm) && rm.key == k),
    {
        proof {
            self.lemma_layer_index();
            lemma_concat_membership(self.layers());
        }
        let ghost ls = self.layers();
        let mut out: Vec<Vec<u8>> = Vec::new();
        collect_run_keys(&mut out, &self.active_memtable.items, lo, hi);
        proof {
            assert forall|k: Seq<u8>| #![auto] keys_contain(out@, k) <==> (in_bounds(k, lo, hi)
                && exists|rm: RecordM| #[trigger] ls[0].contains(rm) && rm.key == k) by {
                assert(ls[0] == self.active_memtable@);
                if exists|j: int|
                    0 <= j < self.active_memtable.items@.len() && (
                    #[trigger] self.active_memtable.items@[j])@.key == k && in_bounds(k, lo, hi) {
                    let j = choose|j: int|
                        0 <= j < self.active_memtable.items@.len() && (
                        #[trigger] self.active_memtable.items@[j])@.key == k && in_bounds(
                            k,
                            lo,
                            hi,
                        );
                    assert(ls[0][j].key == k);
                    assert(ls[0].contains(ls[0][j]));
                }
                if in_bounds(k, lo, hi) && exists|rm: RecordM| #[trigger] ls[0].contains(rm)
                    && rm.key == k {
                    let rm = choose|rm: RecordM| #[trigger] ls[0].contains(rm) && rm.key == k;
                    let j = choose|j: int| 0 <= j < ls[0].len() && ls[0][j] == rm;
                    assert(self.active_memtable.items@[j]@.key == k);
                }
            }
        }
        let sealed_count = self.sealed_memtables.len();
        let mut scanned: usize = 0;
        while scanned < sealed_count
            invariant
                0 <= scanned <= sealed_count,
                sealed_count == self.sealed_memtables@.len(),
                self.wf(),
                ls == self.layers(),
                forall|k: Seq<u8>|
                    #![auto]
                    keys_contain(out@, k) <==> (in_bounds(k, lo, hi) && exists|l: int, rm: RecordM|
                        0 <= l < 1 + scanned && #[trigger] ls[l].contains(rm) && rm.key == k),
            decreases sealed_count - scanned,
        {
            let idx = sealed_count - 1 - scanned;
            let ghost pre = out@;
            proof {
                self.lemma_layer_index();
                assert(ls[1 + scanned as int] == self.sealed_memtables@[idx as int].memtable@);
            }
            collect_run_keys(&mut out, &self.sealed_memtables[idx].memtable.items, lo, hi);
            proof {
                let layer = ls[1 + scanned as int];
                let items = self.sealed_memtables@[idx as int].memtable.items;
                assert forall|k: Seq<u8>|
                    #![auto]
                    keys_contain(out@, k) <==> (in_bounds(k, lo, hi) && exists|l: int, rm: RecordM|
                        0 <= l < 1 + scanned + 1 && #[trigger] ls[l].contains(rm) && rm.key
                        == k) by {
                    if keys_contain(out@, k) && !keys_contain(pre, k) {
                        let j = choose|j: int|
                            0 <= j < items@.len() && (#[trigger] items@[j])@.key == k && in_bounds(
                                k,
                                lo,
                                hi,
                            );
                        assert(layer[j].key == k);
                        assert(layer.contains(layer[j]));
                    }
                    if in_bounds(k, lo, hi) && exists|l: int, rm: RecordM|
                        0 <= l < 1 + scanned + 1 && #[trigger] ls[l].contains(rm) && rm.key == k {
                        let (l, rm) = choose|l: int, rm: RecordM|
                            0 <= l < 1 + scanned + 1 && #[trigger] ls[l].contains(rm) && rm.key
                                == k;
                        if l == 1 + scanned {
                            let j = choose|j: int| 0 <= j < layer.len() && layer[j] == rm;
                            assert(items@[j]@.key == k);
                            assert(keys_contain(out@, k));
                        } else {
                            assert(keys_contain(pre, k));
                        }
                    }
                }
            }
            scanned += 1;
        }
        let level_count = self.levels.levels.len();
        let mut l: usize = 0;
        let ghost lv = levels_views(self.levels.levels@);
        proof {
            lemma_levels_views_len(self.levels.levels@);
            lemma_level_offset_nonneg(self.levels.levels@, 0);
        }
        while l < level_count
            invariant
                0 <= l <= level_count,
                level_count == self.levels.levels@.len(),
                self.wf(),
                ls == self.layers(),
                lv == levels_views(self.levels.levels@),
                lv.len() == level_offset(self.levels.levels@, level_count as int),
                level_offset(self.levels.levels@, l as int) >= 0,
                forall|k: Seq<u8>|
                    #![auto]
                    keys_contain(out@, k) <==> (in_bounds(k, lo, hi) && exists|x: int, rm: RecordM|
                        0 <= x < 1 + self.sealed_memtables@.len() + level_offset(
                            self.levels.levels@,
                            l as int,
                        ) && #[trigger] ls[x].contains(rm) && rm.key == k),
            decreases level_count - l,
        {
            let seg_count = self.levels.levels[l].len();
            let mut sg: usize = 0;
            while sg < seg_count
                invariant
                    0 <= sg <= seg_count,
                    0 <= l < level_count,
                    level_count == self.levels.levels@.len(),
                    seg_count == self.levels.levels@[l as int]@.len(),
                    self.wf(),
                    ls == self.layers(),
                    lv == levels_views(self.levels.levels@),
                    lv.len() == level_offset(self.levels.levels@, level_count as int),
                    level_offset(self.levels.levels@, l as int) >= 0,
                    forall|k: Seq<u8>|
                        #![auto]
                        keys_contain(out@, k) <==> (in_bounds(k, lo, hi) && exists|
                            x: int,
                            rm: RecordM,
                        |
                            0 <= x < 1 + self.sealed_memtables@.len() + level_offset(
                                self.levels.levels@,
                                l as int,
                            ) + sg && #[trigger] ls[x].contains(rm) && rm.key == k),
                decreases seg_count - sg,
            {
                let ghost flat = level_offset(self.levels.levels@, l as int) + sg;
                let ghost layer_idx = 1 + self.sealed_memtables@.len() + flat;
                let ghost pre = out@;
                proof {
                    self.lemma_layer_index();
                    lemma_levels_views_index(self.levels.levels@, l as int, sg as int);
                    assert(ls[layer_idx] == self.levels.levels@[l as int]@[sg as int].view_records());
                }
                collect_run_keys(&mut out, &self.levels.levels[l][sg].records, lo, hi);
                proof {
                    let layer = ls[layer_idx];
                    let items = self.levels.levels@[l as int]@[sg as int].records;
                    assert forall|k: Seq<u8>|
                        #![auto]
                        keys_contain(out@, k) <==> (in_bounds(k, lo, hi) && exists|
                            x: int,
                            rm: RecordM,
                        |
                            0 <= x < layer_idx + 1 && #[trigger] ls[x].contains(rm) && rm.key
                            == k) by {
                        if keys_contain(out@, k) && !keys_contain(pre, k) {
                            let j = choose|j: int|
                                0 <= j < items@.len() && (#[trigger] items@[j])@.key == k
                                    && in_bounds(k, lo, hi);
                            assert(layer[j].key == k);
                            assert(layer.contains(layer[j]));
                        }
                        if in_bounds(k, lo, hi) && exists|x: int, rm: RecordM|
                            0 <= x < layer_idx + 1 && #[trigger] ls[x].contains(rm) && rm.key
                                == k {
                            let (x, rm) = choose|x: int, rm: RecordM|
                                0 <= x < layer_idx + 1 && #[trigger] ls[x].contains(rm) && rm.key
                                    == k;
                            if x == layer_idx {
                                let j = choose|j: int| 0 <= j < layer.len() && layer[j] == rm;
                                assert(items@[j]@.key == k);
                                assert(keys_contain(out@, k));
                            } else {
                                assert(keys_contain(pre, k));
                            }
                        }
                    }
                }
                sg += 1;
            }
            proof {
                assert(level_offset(self.levels.levels@, l + 1) == level_offset(
                    self.levels.levels@,
                    l as int,
                ) + seg_count);
                lemma_level_offset_nonneg(self.levels.levels@, l + 1);
            }
            l += 1;
        }
        proof {
            self.lemma_layer_index();
            assert forall|k: Seq<u8>| #![auto] keys_contain(out@, k) <==> (in_bounds(k, lo, hi)
                && exists|rm: RecordM| self.records().contains(rm) && rm.key == k) by {
                if keys_contain(out@, k) {
                    let (x, rm) = choose|x: int, rm: RecordM|
                        0 <= x < 1 + self.sealed_memtables@.len() + level_offset(
                            self.levels.levels@,
                            level_count as int,
                        ) && #[trigger] ls[x].contains(rm) && rm.key == k;
                    assert(self.records().contains(rm));
                }
                if in_bounds(k, lo, hi) && exists|rm: RecordM| self.records().contains(rm)
                    && rm.key == k {
                    let rm = choose|rm: RecordM| self.records().contains(rm) && rm.key == k;
                    let x = choose|x: int| 0 <= x < ls.len() && #[trigger] ls[x].contains(rm);
                    assert(x < 1 + self.sealed_memtables@.len() + level_offset(
                        self.levels.levels@,
                        level_count as int,
                    ));
                }
            }
        }
        out
    }
}

/// Where `key` belongs in a strictly sorted key list, or where it already
/// sits.
fn find_key_pos(out: &Vec<Vec<u8>>, key: &Vec<u8>) -> (r: (usize, bool))
    requires
        forall|a: int, b: int|
            0 <= a < b < out@.len() ==> lex_lt((#[trigger] out@[a])@, (#[trigger] out@[b])@),
    ensures
        r.1 ==> r.0 < out@.len() && (out@[r.0 as int])@ == key@,
        !r.1 ==> r.0 <= out@.len() && (forall|a: int|
            0 <= a < r.0 ==> lex_lt((#[trigger] out@[a])@, key@)) && (r.0 < out@.len() ==> lex_lt(
            key@,
            (out@[r.0 as int])@,
        )),
{
    let m = out.len();
    let mut p: usize = 0;
    while p < m
        invariant
            0 <= p <= m,
            m == out@.len(),
            forall|a: int, b: int|
                0 <= a < b < out@.len() ==> lex_lt((#[trigger] out@[a])@, (#[trigger] out@[b])@),
            forall|a: int| 0 <= a < p ==> lex_lt((#[trigger] out@[a])@, key@),
        decreases m - p,
    {
        match crate::value::key_cmp(&out[p], key) {
            crate::value::KeyOrd::Less => {
                p += 1;
            },
            crate::value::KeyOrd::Equal => {
                return (p, true);
            },
            crate::value::KeyOrd::Greater => {
                return (p, false);
            },
        }
    }
    (p, false)
}

/// Sorts keys ascending and drops duplicates; the set of keys is kept.
fn sort_dedup_keys(keys: &Vec<Vec<u8>>) -> (r: Vec<Vec<u8>>)
    ensures
        forall|a: int, b: int| 0 <= a < b < r@.len() ==> lex_lt((#[trigger] r@[a])@, (#[trigger] r@[b])@),
        forall|k: Seq<u8>| #[trigger] keys_contain(r@, k) <==> keys_contain(keys@, k),
{
    let mut out: Vec<Vec<u8>> = Vec::new();
    let n = keys.len();
    let mut i: usize = 0;
    while i < n
        invariant
            0 <= i <= n,
            n == keys@.len(),
            forall|a: int, b: int|
                0 <= a < b < out@.len() ==> lex_lt((#[trigger] out@[a])@, (#[trigger] out@[b])@),
            forall|k: Seq<u8>| #[trigger]
                keys_contain(out@, k) <==> keys_contain(keys@.subrange(0, i as int), k),
        decreases n - i,
    {
        let key = &keys[i];
        let found = find_key_pos(&out, key);
        let p = found.0;
        let dup = found.1;
        let ghost pre = out@;
        if !dup {
            out.insert(p, crate::value::copy_bytes(key));
            proof {
                // Sortedness after insertion.
                assert forall|a: int| p < a < out@.len() implies lex_lt(
                    key@,
                    (#[trigger] out@[a])@,
                ) by {
                    assert(out@[a] == pre[a - 1]);
                    assert(lex_lt(key@, pre[p as int]@));
                    if a > p + 1 {
                        crate::value::lemma_lex_trans(key@, pre[p as int]@, pre[a - 1]@);
                    }
                }
                assert forall|a: int, b: int| 0 <= a < b < out@.len() implies lex_lt(
                    (#[trigger] out@[a])@,
                    (#[trigger] out@[b])@,
                ) by {
                    if a < p && b < p {
                        assert(out@[a] == pre[a] && out@[b] == pre[b]);
                    } else if a < p && b == p {
                        assert(out@[a] == pre[a]);
                    } else if a < p && b > p {
                        assert(out@[a] == pre[a] && out@[b] == pre[b - 1]);
                    } else if a == p {
                    } else {
                        assert(out@[a] == pre[a - 1] && out@[b] == pre[b - 1]);
                    }
                }
            }
        }
        proof {
            let cur = keys@.subrange(0, i + 1);
            assert(cur.drop_last() =~= keys@.subrange(0, i as int));
            assert(cur.last() == keys@[i as int]);
            assert forall|k: Seq<u8>| #[trigger] keys_contain(out@, k) <==> keys_contain(
                keys@.subrange(0, i + 1),
                k,
            ) by {
                if keys_contain(out@, k) {
                    let x = choose|x: int| 0 <= x < out@.len() && (#[trigger] out@[x])@ == k;
                    if dup {
                        assert(keys_contain(pre, k));
                        let z = choose|z: int|
                            0 <= z < i && (#[trigger] keys@.subrange(0, i as int)[z])@ == k;
                        assert(cur[z]@ == k);
                    } else {
                        if x == p {
                            assert(cur[cur.len() - 1]@ == k);
                        } else {
                            let y: int = if x < p {
                                x
                            } else {
                                x - 1
                            };
                            assert(pre[y]@ == k);
                            assert(keys_contain(pre, k));
                            let z = choose|z: int|
                                0 <= z < i && (#[trigger] keys@.subrange(0, i as int)[z])@ == k;
                            assert(cur[z]@ == k);
                        }
                    }
                }
                if keys_contain(cur, k) {
                    let z = choose|z: int| 0 <= z < cur.len() && (#[trigger] cur[z])@ == k;
                    if z < i {
                        assert(keys@.subrange(0, i as int)[z]@ == k);
                        assert(keys_contain(pre, k));
                        let y = choose|y: int| 0 <= y < pre.len() && (#[trigger] pre[y])@ == k;
                        if dup {
                            assert(out@[y]@ == k);
                        } else {
                            if y < p {
                                assert(out@[y]@ == k);
                            } else {
                                assert(out@[y + 1]@ == k);
                            }
                        }
                        assert(keys_contain(out@, k));
                    } else {
                        // The key just handled.
                        assert(out@[p as int]@ == k);
                        assert(keys_contain(out@, k));
                    }
                }
            }
        }
        i += 1;
    }
    proof {
        assert(keys@.subrange(0, n as int) =~= keys@);
    }
    out
}

impl Tree {
    /// All live key-value pairs within the bounds, visible below `ceiling`,
    /// keys strictly ascending.
    #[verifier::rlimit(60)]
    fn create_range(&self, lo: &KeyBound, hi: &KeyBound, ceiling: Option<u64>) -> (r: Vec<
        (Vec<u8>, Vec<u8>),
    >)
        requires
            self.wf(),
        ensures
            forall|a: int, b: int|
                0 <= a < b < r@.len() ==> lex_lt((#[trigger] r@[a]).0@, (#[trigger] r@[b]).0@),
            forall|a: int|
                0 <= a < r@.len() ==> in_bounds((#[trigger] r@[a]).0@, lo, hi)
                    && self.visible_value(r@[a].0@, ceiling) == Some(r@[a].1@),
            forall|k: Seq<u8>|
                in_bounds(k, lo, hi) && (#[trigger] self.visible_value(k, ceiling)) is Some
                    ==> exists|a: int| 0 <= a < r@.len() && (#[trigger] r@[a]).0@ == k,
    {
        let raw = self.collect_keys(lo, hi);
        let keys = sort_dedup_keys(&raw);
        let mut out: Vec<(Vec<u8>, Vec<u8>)> = Vec::new();
        let n = keys.len();
        let mut i: usize = 0;
        while i < n
            invariant
                0 <= i <= n,
                n == keys@.len(),
                self.wf(),
                forall|a: int, b: int|
                    0 <= a < b < keys@.len() ==> lex_lt(
                        (#[trigger] keys@[a])@,
                        (#[trigger] keys@[b])@,
                    ),
                forall|a: int|
                    0 <= a < out@.len() ==> exists|x: int|
                        0 <= x < i && (#[trigger] out@[a]).0@ == (#[trigger] keys@[x])@,
                forall|a: int, b: int|
                    0 <= a < b < out@.len() ==> lex_lt(
                        (#[trigger] out@[a]).0@,
                        (#[trigger] out@[b]).0@,
                    ),
                forall|a: int|
                    0 <= a < out@.len() ==> in_bounds((#[trigger] out@[a]).0@, lo, hi)
                        && self.visible_value(out@[a].0@, ceiling) == Some(out@[a].1@),
                forall|x: int|
                    0 <= x < i && (#[trigger] self.visible_value(keys@[x]@, ceiling)) is Some
                        ==> exists|a: int| 0 <= a < out@.len() && (#[trigger] out@[a]).0@
                        == keys@[x]@,
                forall|k: Seq<u8>| #[trigger] keys_contain(keys@, k) <==> keys_contain(raw@, k),
                forall|k: Seq<u8>|
                    #![auto]
                    keys_contain(raw@, k) <==> (in_bounds(k, lo, hi) && exists|rm: RecordM|
                        self.records().contains(rm) && rm.key == k),
            decreases n - i,
        {
            let ghost pre = out@;
            if let Some(v) = self.get_internal_entry(&keys[i], true, ceiling) {
                let key_copy = crate::value::copy_bytes(&keys[i]);
                proof {
                    assert(keys_contain(keys@, keys@[i as int]@)) by {
                        let witness = keys@[i as int];
                        assert((keys@[i as int])@ == witness@);
                    }
                }
                out.push((key_copy, v.value));
                proof {
                    assert forall|a: int, b: int| 0 <= a < b < out@.len() implies lex_lt(
                        (#[trigger] out@[a]).0@,
                        (#[trigger] out@[b]).0@,
                    ) by {
                        if b == out@.len() - 1 {
                            assert(out@[a] == pre[a]);
                            let x = choose|x: int|
                                0 <= x < i && (#[trigger] pre[a]).0@ == (#[trigger] keys@[x])@;
                            assert(lex_lt(keys@[x]@, keys@[i as int]@));
                        } else {
                            assert(out@[a] == pre[a] && out@[b] == pre[b]);
                        }
                    }
                }
            }
            proof {
                assert forall|x: int|
                    0 <= x < i + 1 && (#[trigger] self.visible_value(
                        keys@[x]@,
                        ceiling,
                    )) is Some implies exists|a: int|
                    0 <= a < out@.len() && (#[trigger] out@[a]).0@ == keys@[x]@ by {
                    if x < i {
                        let a = choose|a: int|
                            0 <= a < pre.len() && (#[trigger] pre[a]).0@ == keys@[x]@;
                        assert(out@[a].0@ == keys@[x]@);
                    } else {
                        assert(out@[out@.len() - 1].0@ == keys@[x]@);
                    }
                }
            }
            i += 1;
        }
        proof {
            assert forall|k: Seq<u8>|
                in_bounds(k, lo, hi) && (#[trigger] self.visible_value(k, ceiling)) is Some
                    implies exists|a: int| 0 <= a < out@.len() && (#[trigger] out@[a]).0@ == k by {
                crate::lookup::lemma_nv_props(self.records(), k, ceiling);
                let rm = self.visible_record(k, ceiling).unwrap();
                assert(self.records().contains(rm) && rm.key == k);
                assert(keys_contain(raw@, k));
                assert(keys_contain(keys@, k));
                let x = choose|x: int| 0 <= x < keys@.len() && (#[trigger] keys@[x])@ == k;
                assert(self.visible_value(keys@[x]@, ceiling) is Some);
            }
        }
        out
    }

    /// All live key-value pairs, keys strictly ascending.
    pub fn iter(&self) -> (r: Vec<(Vec<u8>, Vec<u8>)>)
        requires
            self.wf(),
        ensures
            forall|a: int, b: int|
                0 <= a < b < r@.len() ==> lex_lt((#[trigger] r@[a]).0@, (#[trigger] r@[b]).0@),
            forall|a: int|
                0 <= a < r@.len() ==> self.visible_value((#[trigger] r@[a]).0@, None) == Some(
                    r@[a].1@,
                ),
            forall|k: Seq<u8>|
                (#[trigger] self.visible_value(k, None)) is Some ==> exists|a: int|
                    0 <= a < r@.len() && (#[trigger] r@[a]).0@ == k,
    {
        self.create_range(&KeyBound::Unbounded, &KeyBound::Unbounded, None)
    }

    /// The live key-value pairs within the bounds as a snapshot sees them,
    /// keys strictly ascending.
    pub fn snapshot_range(&self, snapshot: &Snapshot, lo: &KeyBound, hi: &KeyBound) -> (r: Vec<
        (Vec<u8>, Vec<u8>),
    >)
        requires
            self.wf(),
        ensures
            forall|a: int, b: int|
                0 <= a < b < r@.len() ==> lex_lt((#[trigger] r@[a]).0@, (#[trigger] r@[b]).0@),
            forall|a: int|
                0 <= a < r@.len() ==> in_bounds((#[trigger] r@[a]).0@, lo, hi)
                    && self.visible_value(r@[a].0@, Some(snapshot.seqno_ceiling)) == Some(
                    r@[a].1@,
                ),
            forall|k: Seq<u8>|
                in_bounds(k, lo, hi) && (#[trigger] self.visible_value(
                    k,
                    Some(snapshot.seqno_ceiling),
                )) is Some ==> exists|a: int| 0 <= a < r@.len() && (#[trigger] r@[a]).0@ == k,
    {
        self.create_range(lo, hi, Some(snapshot.seqno_ceiling))
    }

    /// The live key-value pairs within the bounds, keys strictly ascending.
    pub fn range(&self, lo: &KeyBound, hi: &KeyBound) -> (r: Vec<(Vec<u8>, Vec<u8>)>)
        requires
            self.wf(),
        ensures
            forall|a: int, b: int|
                0 <= a < b < r@.len() ==> lex_lt((#[trigger] r@[a]).0@, (#[trigger] r@[b]).0@),
            forall|a: int|
                0 <= a < r@.len() ==> in_bounds((#[trigger] r@[a]).0@, lo, hi)
                    && self.visible_value(r@[a].0@, None) == Some(r@[a].1@),
            forall|k: Seq<u8>|
                in_bounds(k, lo, hi) && (#[trigger] self.visible_value(k, None)) is Some
                    ==> exists|a: int| 0 <= a < r@.len() && (#[trigger] r@[a]).0@ == k,
    {
        self.create_range(lo, hi, None)
    }

    /// The first (smallest-key) live pair, if any.
    pub fn first_key_value(&self) -> (r: Option<(Vec<u8>, Vec<u8>)>)
        requires
            self.wf(),
        ensures
            match r {
                Some(p) => self.visible_value(p.0@, None) == Some(p.1@) && forall|k: Seq<u8>|
                    (#[trigger] self.visible_value(k, None)) is Some ==> crate::value::lex_le(
                        p.0@,
                        k,
                    ),
                None => forall|k: Seq<u8>| (#[trigger] self.visible_value(k, None)) is None,
            },
    {
        let mut all = self.iter();
        if all.len() == 0 {
            proof {
                assert forall|k: Seq<u8>| (#[trigger] self.visible_value(k, None)) is None by {
                    if self.visible_value(k, None) is Some {
                        let a = choose|a: int|
                            0 <= a < all@.len() && (#[trigger] all@[a]).0@ == k;
                    }
                }
            }
            return None;
        }
        let ghost allv = all@;
        let first = all.remove(0);
        proof {
            assert(first == allv[0]);
            assert forall|k: Seq<u8>|
                (#[trigger] self.visible_value(k, None)) is Some implies crate::value::lex_le(
                first.0@,
                k,
            ) by {
                let a = choose|a: int| 0 <= a < allv.len() && (#[trigger] allv[a]).0@ == k;
                if a > 0 {
                    assert(lex_lt(allv[0].0@, allv[a].0@));
                }
            }
        }
        Some(first)
    }

    /// The last (largest-key) live pair, if any.
    pub fn last_key_value(&self) -> (r: Option<(Vec<u8>, Vec<u8>)>)
        requires
            self.wf(),
        ensures
            match r {
                Some(p) => self.visible_value(p.0@, None) == Some(p.1@) && forall|k: Seq<u8>|
                    (#[trigger] self.visible_value(k, None)) is Some ==> crate::value::lex_le(
                        k,
                        p.0@,
                    ),
                None => forall|k: Seq<u8>| (#[trigger] self.visible_value(k, None)) is None,
            },
    {
        let mut all = self.iter();
        let n = all.len();
        if n == 0 {
            proof {
                assert forall|k: Seq<u8>| (#[trigger] self.visible_value(k, None)) is None by {
                    if self.visible_value(k, None) is Some {
                        let a = choose|a: int|
                            0 <= a < all@.len() && (#[trigger] all@[a]).0@ == k;
                    }
                }
            }
            return None;
        }
        let ghost allv = all@;
        let last = all.remove(n - 1);
        proof {
            assert(last == allv[allv.len() - 1]);
            assert forall|k: Seq<u8>|
                (#[trigger] self.visible_value(k, None)) is Some implies crate::value::lex_le(
                k,
                last.0@,
            ) by {
                let a = choose|a: int| 0 <= a < allv.len() && (#[trigger] allv[a]).0@ == k;
                if a < allv.len() - 1 {
                    assert(lex_lt(allv[a].0@, allv[allv.len() - 1].0@));
                }
            }
        }
        Some(last)
    }

    /// Counts the live keys.  This scans the whole tree.
    pub fn len(&self) -> (r: usize)
        requires
            self.wf(),
        ensures
            exists|ks: Seq<(Vec<u8>, Vec<u8>)>|
                #![auto]
                r == ks.len() && (forall|a: int, b: int|
                    0 <= a < b < ks.len() ==> lex_lt(ks[a].0@, ks[b].0@)) && (forall|a: int|
                    0 <= a < ks.len() ==> self.visible_value(ks[a].0@, None) == Some(ks[a].1@)) && (
                forall|k: Seq<u8>|
                    self.visible_value(k, None) is Some ==> exists|a: int|
                        0 <= a < ks.len() && ks[a].0@ == k),
            r == 0 <==> (forall|k: Seq<u8>| (#[trigger] self.visible_value(k, None)) is None),
    {
        let all = self.iter();
        proof {
            if all@.len() > 0 {
                assert(self.visible_value(all@[0].0@, None) is Some);
            } else {
                assert forall|k: Seq<u8>| (#[trigger] self.visible_value(k, None)) is None by {
                    if self.visible_value(k, None) is Some {
                        let a = choose|a: int|
                            0 <= a < all@.len() && (#[trigger] all@[a]).0@ == k;
                    }
                }
            }
        }
        all.len()
    }

    /// Whether the tree holds no live key.
    pub fn is_empty(&self) -> (r: bool)
        requires
            self.wf(),
        ensures
            r <==> (forall|k: Seq<u8>| (#[trigger] self.visible_value(k, None)) is None),
    {
        self.first_key_value().is_none()
    }
}

/// An empty first layer changes no lookup.
proof fn lemma_concat_prepend_empty(ls: Seq<Seq<RecordM>>)
    ensures
        seq_concat(seq![Seq::<RecordM>::empty()] + ls) == seq_concat(ls),
    decreases ls.len(),
{
    let full = seq![Seq::<RecordM>::empty()] + ls;
    if ls.len() == 0 {
        assert(full.drop_last() =~= Seq::<Seq<RecordM>>::empty());
        assert(seq_concat(full.drop_last()) == Seq::<RecordM>::empty());
        assert(full.last() =~= Seq::<RecordM>::empty());
        assert(seq_concat(full) =~= Seq::<RecordM>::empty());
        assert(seq_concat(ls) == Seq::<RecordM>::empty());
    } else {
        assert(full.drop_last() =~= seq![Seq::<RecordM>::empty()] + ls.drop_last());
        assert(full.last() == ls.last());
        lemma_concat_prepend_empty(ls.drop_last());
    }
}

impl Tree {
    /// The live key-value pairs under the given prefix, keys strictly
    /// ascending.
    #[verifier::rlimit(60)]
    pub fn prefix(&self, prefix: &Vec<u8>) -> (r: Vec<(Vec<u8>, Vec<u8>)>)
        requires
            self.wf(),
        ensures
            forall|a: int, b: int|
                0 <= a < b < r@.len() ==> lex_lt((#[trigger] r@[a]).0@, (#[trigger] r@[b]).0@),
            forall|a: int|
                0 <= a < r@.len() ==> crate::value::is_prefix(prefix@, (#[trigger] r@[a]).0@)
                    && self.visible_value(r@[a].0@, None) == Some(r@[a].1@),
            forall|k: Seq<u8>|
                crate::value::is_prefix(prefix@, k) && (#[trigger] self.visible_value(
                    k,
                    None,
                )) is Some ==> exists|a: int| 0 <= a < r@.len() && (#[trigger] r@[a]).0@ == k,
    {
        let lo = KeyBound::Included(crate::value::copy_bytes(prefix));
        let hi = KeyBound::Unbounded;
        let mut wide = self.create_range(&lo, &hi, None);
        let ghost widev = wide@;
        let mut out: Vec<(Vec<u8>, Vec<u8>)> = Vec::new();
        let n = wide.len();
        let mut i: usize = 0;
        while i < n
            invariant
                0 <= i <= n,
                n == widev.len(),
                wide@ == widev.subrange(i as int, n as int),
                self.wf(),
                forall|a: int, b: int|
                    0 <= a < b < widev.len() ==> lex_lt(
                        (#[trigger] widev[a]).0@,
                        (#[trigger] widev[b]).0@,
                    ),
                forall|a: int|
                    0 <= a < widev.len() ==> self.visible_value((#[trigger] widev[a]).0@, None)
                        == Some(widev[a].1@),
                forall|a: int|
                    0 <= a < out@.len() ==> exists|x: int|
                        0 <= x < i && #[trigger] out@[a] == #[trigger] widev[x],
                forall|a: int, b: int|
                    0 <= a < b < out@.len() ==> lex_lt(
                        (#[trigger] out@[a]).0@,
                        (#[trigger] out@[b]).0@,
                    ),
                forall|a: int|
                    0 <= a < out@.len() ==> crate::value::is_prefix(
                        prefix@,
                        (#[trigger] out@[a]).0@,
                    ) && self.visible_value(out@[a].0@, None) == Some(out@[a].1@),
                forall|x: int|
                    0 <= x < i && crate::value::is_prefix(prefix@, (#[trigger] widev[x]).0@)
                        ==> exists|a: int| 0 <= a < out@.len() && #[trigger] out@[a] == widev[x],
            decreases n - i,
        {
            let ghost pre = out@;
            let pair = wide.remove(0);
            proof {
                assert(pair == widev[i as int]);
                assert(wide@ =~= widev.subrange(i + 1, n as int));
            }
            if crate::value::starts_with(&pair.0, prefix) {
                out.push(pair);
                proof {
                    assert(out@[out@.len() - 1] == widev[i as int]);
                    assert forall|a: int|
                        0 <= a < out@.len() implies exists|x: int|
                        0 <= x < i + 1 && #[trigger] out@[a] == #[trigger] widev[x] by {
                        if a < pre.len() {
                            let x = choose|x: int|
                                0 <= x < i && #[trigger] pre[a] == #[trigger] widev[x];
                            assert(out@[a] == widev[x]);
                        }
                    }
                    assert forall|a: int, b: int| 0 <= a < b < out@.len() implies lex_lt(
                        (#[trigger] out@[a]).0@,
                        (#[trigger] out@[b]).0@,
                    ) by {
                        if b == out@.len() - 1 {
                            assert(out@[a] == pre[a]);
                            let x = choose|x: int|
                                0 <= x < i && #[trigger] pre[a] == #[trigger] widev[x];
                            assert(lex_lt(widev[x].0@, widev[i as int].0@));
                        } else {
                            assert(out@[a] == pre[a] && out@[b] == pre[b]);
                        }
                    }
                }
            }
            proof {
                assert forall|x: int|
                    0 <= x < i + 1 && crate::value::is_prefix(
                        prefix@,
                        (#[trigger] widev[x]).0@,
                    ) implies exists|a: int| 0 <= a < out@.len() && #[trigger] out@[a]
                    == widev[x] by {
                    if x < i {
                        let a = choose|a: int|
                            0 <= a < pre.len() && #[trigger] pre[a] == widev[x];
                        assert(out@[a] == widev[x]);
                    } else {
                        assert(out@[out@.len() - 1] == widev[x]);
                    }
                }
            }
            i += 1;
        }
        proof {
            assert forall|k: Seq<u8>|
                crate::value::is_prefix(prefix@, k) && (#[trigger] self.visible_value(
                    k,
                    None,
                )) is Some implies exists|a: int| 0 <= a < out@.len() && (#[trigger] out@[a]).0@
                == k by {
                crate::value::lemma_prefix_le(prefix@, k);
                assert(in_bounds(k, &lo, &hi));
                let x = choose|x: int| 0 <= x < widev.len() && (#[trigger] widev[x]).0@ == k;
                let a = choose|a: int| 0 <= a < out@.len() && #[trigger] out@[a] == widev[x];
                assert(out@[a].0@ == k);
            }
        }
        out
    }

    /// Seals the active memtable, if it holds anything: the memtable and
    /// its journal shard retire together, and a fresh memtable and shard at
    /// `new_journal_path` take their place.  Returns the sealed id.
    pub fn seal_active_memtable(&mut self, new_journal_path: String) -> (r: Option<u64>)
        requires
            old(self).wf(),
            old(self).next_id < u64::MAX,
        ensures
            final(self).wf(),
            final(self).lsn == old(self).lsn,
            final(self).open_snapshots == old(self).open_snapshots,
            final(self).config == old(self).config,
            final(self).records() == old(self).records(),
            final(self).levels == old(self).levels,
            // An empty memtable is never sealed; a non-empty one always is.
            r is Some <==> old(self).active_memtable@.len() > 0,
            r is Some ==> r.unwrap() == old(self).next_id,
            r is Some ==> final(self).next_id == old(self).next_id + 1,
            // The new sealed entry is exactly the old active memtable with
            // its retired shard, synced in full before it was closed.
            r is Some ==> final(self).sealed_memtables@
                == old(self).sealed_memtables@.push(final(self).sealed_memtables@.last()),
            r is Some ==> final(self).sealed_memtables@.last().id == old(self).next_id,
            r is Some ==> final(self).sealed_memtables@.last().memtable
                == old(self).active_memtable,
            r is Some ==> final(self).sealed_memtables@.last().journal.buf@
                == old(self).journal.buf@,
            r is Some ==> final(self).sealed_memtables@.last().journal.synced_len
                == old(self).journal.buf@.len(),
            // A fresh memtable and shard take their place.
            r is Some ==> final(self).active_memtable@ == Seq::<RecordM>::empty(),
            r is Some ==> final(self).journal.buf@ == Seq::<u8>::empty(),
            r is Some ==> final(self).journal.path == new_journal_path,
            r is Some ==> final(self).approx_active_memtable_size == 0,
            r is None ==> *final(self) == *old(self),
    {
        if self.active_memtable.len() == 0 {
            return None;
        }
        let id = self.next_id;
        self.next_id = self.next_id + 1;
        // The retiring shard is synced before it is closed.
        self.journal.flush();
        let mut memtable = Memtable::new();
        core::mem::swap(&mut memtable, &mut self.active_memtable);
        let mut journal = JournalShard::create_new(new_journal_path);
        core::mem::swap(&mut journal, &mut self.journal);
        self.sealed_memtables.push(SealedMemtable { id, memtable, journal });
        self.approx_active_memtable_size = 0;
        proof {
            self.journal_base@ = Seq::empty();
            self.journal_batches@ = Seq::empty();
        }
        proof {
            let pre = *old(self);
            let post = *self;
            pre.lemma_layer_index();
            post.lemma_layer_index();
            assert(post.layers() =~= seq![Seq::<RecordM>::empty()] + pre.layers()) by {
                let pre_rev = pre.sealed_memtables@.map_values(
                    |x: SealedMemtable| x.memtable@,
                ).reverse();
                let post_rev = post.sealed_memtables@.map_values(
                    |x: SealedMemtable| x.memtable@,
                ).reverse();
                assert(post_rev.len() == pre_rev.len() + 1);
                assert(post_rev[0] == pre.active_memtable@);
                assert forall|j: int| 1 <= j < post_rev.len() implies #[trigger] post_rev[j]
                    == pre_rev[j - 1] by {
                    assert(post.sealed_memtables@[post.sealed_memtables@.len() - 1 - j]
                        == pre.sealed_memtables@[pre.sealed_memtables@.len() - 1 - (j - 1)]);
                }
                assert(levels_views(post.levels.levels@) == levels_views(pre.levels.levels@));
            }
            lemma_concat_prepend_empty(pre.layers());
            assert(post.records() == pre.records());
            // The invariant survives: the new first layer is empty.
            assert forall|i: int| 0 <= i < post.layers().len() implies records_sorted(
                #[trigger] post.layers()[i],
            ) by {
                if i > 0 {
                    assert(post.layers()[i] == pre.layers()[i - 1]);
                }
            }
            assert forall|l1: int, l2: int, r1: RecordM, r2: RecordM|
                0 <= l1 < l2 < post.layers().len() && #[trigger] post.layers()[l1].contains(r1)
                    && #[trigger] post.layers()[l2].contains(r2) && r1.key == r2.key implies
                r1.seqno > r2.seqno by {
                if l1 > 0 {
                    assert(post.layers()[l1] == pre.layers()[l1 - 1]);
                    assert(post.layers()[l2] == pre.layers()[l2 - 1]);
                }
            }
            assert forall|l: int, r: RecordM|
                0 <= l < post.layers().len() && #[trigger] post.layers()[l].contains(r) implies
                r.seqno < post.lsn by {
                if l > 0 {
                    assert(post.layers()[l] == pre.layers()[l - 1]);
                }
            }
            assert(post.journal_base@ + journal_bytes(post.journal_batches@) =~= Seq::<
                u8,
            >::empty());
        }
        Some(id)
    }

    /// Flushes the oldest sealed memtable into a fresh level-0 segment and
    /// discards its retired journal shard.  The records merely change
    /// residence: every lookup is unchanged.
    pub fn flush_oldest_sealed(&mut self) -> (r: Option<u64>)
        requires
            old(self).wf(),
            old(self).next_id < u64::MAX,
        ensures
            final(self).wf(),
            final(self).lsn == old(self).lsn,
            final(self).open_snapshots == old(self).open_snapshots,
            final(self).config == old(self).config,
            final(self).records() == old(self).records(),
            final(self).journal == old(self).journal,
            final(self).journal_batches == old(self).journal_batches,
            final(self).journal_base == old(self).journal_base,
            final(self).active_memtable == old(self).active_memtable,
            final(self).approx_active_memtable_size == old(self).approx_active_memtable_size,
            // A flush serves the oldest sealed memtable exactly.
            r is Some <==> old(self).sealed_memtables@.len() > 0,
            r is Some ==> r.unwrap() == old(self).next_id,
            r is Some ==> final(self).next_id == old(self).next_id + 1,
            r is Some ==> final(self).sealed_memtables@
                == old(self).sealed_memtables@.drop_first(),
            // Its records now live in a fresh segment at the front of
            // level 0, under the returned id.
            r is Some ==> final(self).levels.levels@.len() >= 1
                && final(self).levels.levels@[0]@.len() >= 1,
            r is Some ==> final(self).levels.levels@[0]@[0].view_records()
                == old(self).sealed_memtables@[0].memtable@,
            r is Some ==> final(self).levels.levels@[0]@[0].id == old(self).next_id,
            r is None ==> *final(self) == *old(self),
    {
        if self.sealed_memtables.len() == 0 {
            return None;
        }
        if self.levels.levels.len() == 0 {
            let ghost pre0 = *self;
            self.levels.levels.push(Vec::new());
            proof {
                let post0 = *self;
                assert(levels_views(post0.levels.levels@) =~= levels_views(pre0.levels.levels@)
                    + level_views(Seq::<Segment>::empty())) by {
                    assert(post0.levels.levels@.drop_last() =~= pre0.levels.levels@);
                }
                assert(level_views(Seq::<Segment>::empty()) =~= Seq::<Seq<RecordM>>::empty());
                assert(post0.layers() =~= pre0.layers());
            }
        }
        let ghost pre = *self;
        let id = self.next_id;
        self.next_id = self.next_id + 1;
        let sealed = self.sealed_memtables.remove(0);
        let memtable = sealed.memtable;
        // The retired shard is dropped: its records are now in the segment.
        let file_size = segment_size_of(&memtable.items);
        let segment = Segment { id, file_size, records: memtable.items };
        let ghost segv = segment.view_records();
        let pair = self.levels.levels.remove(0);
        let mut level0 = pair;
        level0.insert(0, segment);
        self.levels.levels.insert(0, level0);
        proof {
            assert(self.sealed_memtables@ =~= pre.sealed_memtables@.drop_first());
            let post = *self;
            pre.lemma_layer_index();
            post.lemma_layer_index();
            assert(post.layers() =~= pre.layers()) by {
                let pre_rev = pre.sealed_memtables@.map_values(
                    |x: SealedMemtable| x.memtable@,
                ).reverse();
                let post_rev = post.sealed_memtables@.map_values(
                    |x: SealedMemtable| x.memtable@,
                ).reverse();
                assert(post_rev.len() + 1 == pre_rev.len());
                assert forall|j: int| 0 <= j < post_rev.len() implies #[trigger] post_rev[j]
                    == pre_rev[j] by {
                    assert(post.sealed_memtables@[post.sealed_memtables@.len() - 1 - j]
                        == pre.sealed_memtables@[pre.sealed_memtables@.len() - 1 - j]);
                }
                assert(pre_rev[pre_rev.len() - 1] == pre.sealed_memtables@[0].memtable@);
                // The flushed run keeps its contents.
                assert(segv == pre.sealed_memtables@[0].memtable@);
                // Level 0 gained the run at its front.
                assert(post.levels.levels@.len() == pre.levels.levels@.len());
                assert(post.levels.levels@[0]@ =~= seq![segment].add(pre.levels.levels@[0]@));
                lemma_levels_views_first_front(pre.levels.levels@, post.levels.levels@, segment);
                assert forall|x: int| 0 <= x < post.layers().len() implies #[trigger] post.layers()[x]
                    == pre.layers()[x] by {
                    let sc = post.sealed_memtables@.len() as int;
                    if x == 0 {
                    } else if x <= sc {
                        assert(post.layers()[x] == post_rev[x - 1]);
                        assert(pre.layers()[x] == pre_rev[x - 1]);
                    } else if x == sc + 1 {
                        assert(post.layers()[x] == levels_views(post.levels.levels@)[0]);
                        assert(pre.layers()[x] == pre_rev[pre_rev.len() - 1]);
                    } else {
                        assert(post.layers()[x] == levels_views(post.levels.levels@)[x - sc - 1]);
                        assert(pre.layers()[x] == levels_views(pre.levels.levels@)[x - sc - 2]);
                    }
                }
            }
        }
        Some(id)
    }

    /// Seals the active memtable and flushes every sealed memtable to disk,
    /// oldest first.  Reads are unaffected.
    pub fn force_memtable_flush(&mut self, new_journal_path: String)
        requires
            old(self).wf(),
            old(self).next_id + old(self).sealed_memtables@.len() + 2 <= u64::MAX,
        ensures
            final(self).wf(),
            final(self).lsn == old(self).lsn,
            final(self).open_snapshots == old(self).open_snapshots,
            final(self).config == old(self).config,
            final(self).records() == old(self).records(),
            // Every record now resides in segments: the active memtable is
            // empty and nothing is left sealed.
            final(self).active_memtable@ == Seq::<RecordM>::empty(),
            final(self).sealed_memtables@.len() == 0,
            old(self).next_id <= final(self).next_id,
            final(self).next_id <= old(self).next_id + old(self).sealed_memtables@.len() + 2,
    {
        self.seal_active_memtable(new_journal_path);
        proof {
            if old(self).active_memtable@.len() == 0 {
                assert(self.active_memtable@ =~= Seq::<RecordM>::empty());
            }
        }
        let mut remaining = self.sealed_memtables.len();
        while remaining > 0
            invariant
                self.wf(),
                remaining == self.sealed_memtables@.len(),
                self.active_memtable@ == Seq::<RecordM>::empty(),
                old(self).next_id <= self.next_id,
                self.next_id + remaining <= old(self).next_id
                    + old(self).sealed_memtables@.len() + 2,
                self.next_id + remaining <= u64::MAX,
                self.lsn == old(self).lsn,
                self.open_snapshots == old(self).open_snapshots,
                self.config == old(self).config,
                self.records() == old(self).records(),
            decreases remaining,
        {
            self.flush_oldest_sealed();
            remaining = remaining - 1;
        }
    }
}

/// The bytes a run of records occupies when written out, roughly.
fn segment_size_of(items: &Vec<Value>) -> (r: u64)
{
    let mut total: u64 = 0;
    let n = items.len();
    let mut i: usize = 0;
    while i < n
        invariant
            0 <= i <= n,
            n == items@.len(),
        decreases n - i,
    {
        let it = &items[i];
        let klen = it.key.len();
        let vlen = it.value.len();
        let row = if klen <= usize::MAX - vlen {
            klen + vlen
        } else {
            usize::MAX
        };
        let row64 = row as u64;
        let grow = if row64 <= u64::MAX - 32 {
            row64 + 32
        } else {
            u64::MAX
        };
        total = if total <= u64::MAX - grow {
            total + grow
        } else {
            u64::MAX
        };
        i += 1;
    }
    total
}

/// Pushing a segment to the front of level 0 prepends its run.
proof fn lemma_levels_views_first_front(
    pre: Seq<Vec<Segment>>,
    post: Seq<Vec<Segment>>,
    seg: Segment,
)
    requires
        pre.len() > 0,
        post.len() == pre.len(),
        post[0]@ == seq![seg] + pre[0]@,
        forall|i: int| 1 <= i < pre.len() ==> post[i] == pre[i],
    ensures
        levels_views(post) == seq![seg.view_records()] + levels_views(pre),
    decreases pre.len(),
{
    if pre.len() == 1 {
        assert(post.drop_last() =~= Seq::<Vec<Segment>>::empty());
        assert(pre.drop_last() =~= Seq::<Vec<Segment>>::empty());
        assert(levels_views(post.drop_last()) == Seq::<Seq<RecordM>>::empty());
        assert(levels_views(pre.drop_last()) == Seq::<Seq<RecordM>>::empty());
        assert(level_views(post[0]@) =~= seq![seg.view_records()] + level_views(pre[0]@)) by {
            assert(post[0]@.len() == 1 + pre[0]@.len());
            assert forall|j: int| 0 <= j < post[0]@.len() implies #[trigger] level_views(
                post[0]@,
            )[j] == (seq![seg.view_records()] + level_views(pre[0]@))[j] by {
                if j == 0 {
                    assert(post[0]@[0] == seg);
                } else {
                    assert(post[0]@[j] == pre[0]@[j - 1]);
                    assert(level_views(pre[0]@)[j - 1] == pre[0]@[j - 1].view_records());
                }
            }
        }
        assert(post.last() == post[0] && pre.last() == pre[0]);
        assert(levels_views(post) =~= seq![seg.view_records()] + levels_views(pre));
    } else {
        assert(post.drop_last()[0]@ == seq![seg] + pre.drop_last()[0]@);
        assert forall|i: int| 1 <= i < pre.drop_last().len() implies post.drop_last()[i]
            == pre.drop_last()[i] by {
            assert(post.drop_last()[i] == post[i]);
        }
        lemma_levels_views_first_front(pre.drop_last(), post.drop_last(), seg);
        assert(post.last() == pre.last());
        assert(levels_views(post) =~= seq![seg.view_records()] + levels_views(pre));
    }
}

/// Whether a record of the list views as `rm`.
pub open spec fn recs_contain(vs: Seq<Value>, rm: RecordM) -> bool {
    exists|i: int| 0 <= i < vs.len() && (#[trigger] vs[i])@ == rm
}

impl Tree {
    /// The records held by segments alone.
    pub open spec fn segment_records(self) -> Seq<RecordM> {
        seq_concat(levels_views(self.levels.levels@))
    }

    /// Facts about the segment region of the layer stack: each run is
    /// sorted, runs are mutually ordered, and their records are the tree's
    /// records minus the memtables'.
    proof fn lemma_segment_region(self)
        requires
            self.wf(),
        ensures
            forall|x: int|
                0 <= x < levels_views(self.levels.levels@).len() ==> records_sorted(
                    #[trigger] levels_views(self.levels.levels@)[x],
                ),
            layers_ordered(levels_views(self.levels.levels@)),
            forall|rm: RecordM| #[trigger]
                self.segment_records().contains(rm) ==> self.records().contains(rm),
            forall|rm: RecordM| #[trigger]
                self.segment_records().contains(rm) ==> rm.seqno < self.lsn,
    {
        self.lemma_layer_index();
        let lv = levels_views(self.levels.levels@);
        let off = 1 + self.sealed_memtables@.len() as int;
        assert forall|x: int| 0 <= x < lv.len() implies records_sorted(#[trigger] lv[x]) by {
            assert(self.layers()[off + x] == lv[x]);
        }
        assert forall|l1: int, l2: int, r1: RecordM, r2: RecordM|
            0 <= l1 < l2 < lv.len() && #[trigger] lv[l1].contains(r1) && #[trigger] lv[l2].contains(
                r2,
            ) && r1.key == r2.key implies r1.seqno > r2.seqno by {
            assert(self.layers()[off + l1] == lv[l1]);
            assert(self.layers()[off + l2] == lv[l2]);
        }
        lemma_concat_membership(lv);
        lemma_concat_membership(self.layers());
        assert forall|rm: RecordM| #[trigger] self.segment_records().contains(rm) implies
            self.records().contains(rm) && rm.seqno < self.lsn by {
            let x = choose|x: int| 0 <= x < lv.len() && #[trigger] lv[x].contains(rm);
            assert(self.layers()[off + x].contains(rm));
        }
    }

    /// Collects every record the segments hold.
    fn collect_segment_records(&self) -> (r: Vec<Value>)
        requires
            self.wf(),
        ensures
            forall|rm: RecordM| #[trigger]
                recs_contain(r@, rm) <==> self.segment_records().contains(rm),
    {
        let ghost lv = levels_views(self.levels.levels@);
        proof {
            lemma_concat_membership(lv);
            lemma_levels_views_len(self.levels.levels@);
            lemma_level_offset_nonneg(self.levels.levels@, 0);
        }
        let mut out: Vec<Value> = Vec::new();
        let level_count = self.levels.levels.len();
        let mut l: usize = 0;
        while l < level_count
            invariant
                0 <= l <= level_count,
                level_count == self.levels.levels@.len(),
                self.wf(),
                lv == levels_views(self.levels.levels@),
                lv.len() == level_offset(self.levels.levels@, level_count as int),
                level_offset(self.levels.levels@, l as int) >= 0,
                forall|rm: RecordM| #[trigger]
                    recs_contain(out@, rm) <==> exists|x: int|
                        0 <= x < level_offset(self.levels.levels@, l as int) && #[trigger] lv[x].contains(
                            rm,
                        ),
            decreases level_count - l,
        {
            let seg_count = self.levels.levels[l].len();
            let mut sg: usize = 0;
            while sg < seg_count
                invariant
                    0 <= sg <= seg_count,
                    0 <= l < level_count,
                    level_count == self.levels.levels@.len(),
                    seg_count == self.levels.levels@[l as int]@.len(),
                    self.wf(),
                    lv == levels_views(self.levels.levels@),
                    lv.len() == level_offset(self.levels.levels@, level_count as int),
                    level_offset(self.levels.levels@, l as int) >= 0,
                    forall|rm: RecordM| #[trigger]
                        recs_contain(out@, rm) <==> exists|x: int|
                            0 <= x < level_offset(self.levels.levels@, l as int) + sg
                                && #[trigger] lv[x].contains(rm),
                decreases seg_count - sg,
            {
                let ghost flat = level_offset(self.levels.levels@, l as int) + sg;
                proof {
                    lemma_levels_views_index(self.levels.levels@, l as int, sg as int);
                    assert(lv[flat] == self.levels.levels@[l as int]@[sg as int].view_records());
                }
                let items = &self.levels.levels[l][sg].records;
                let m = items.len();
                let mut j: usize = 0;
                while j < m
                    invariant
                        0 <= j <= m,
                        0 <= l < level_count,
                        0 <= sg < seg_count,
                        level_count == self.levels.levels@.len(),
                        seg_count == self.levels.levels@[l as int]@.len(),
                        m == self.levels.levels@[l as int]@[sg as int].records@.len(),
                        items == &self.levels.levels@[l as int]@[sg as int].records,
                        self.wf(),
                        lv == levels_views(self.levels.levels@),
                        flat == level_offset(self.levels.levels@, l as int) + sg,
                        0 <= flat < lv.len(),
                        lv[flat] == self.levels.levels@[l as int]@[sg as int].view_records(),
                        forall|rm: RecordM| #[trigger]
                            recs_contain(out@, rm) <==> ((exists|x: int|
                                0 <= x < flat && #[trigger] lv[x].contains(rm)) || exists|y: int|
                                0 <= y < j && (#[trigger] items@[y])@ == rm),
                    decreases m - j,
                {
                    let ghost pre = out@;
                    out.push(items[j].duplicate());
                    proof {
                        assert forall|rm: RecordM| #[trigger] recs_contain(out@, rm) <==> ((exists|
                            x: int,
                        |
                            0 <= x < flat && #[trigger] lv[x].contains(rm)) || exists|y: int|
                            0 <= y < j + 1 && (#[trigger] items@[y])@ == rm) by {
                            if recs_contain(out@, rm) {
                                let a = choose|a: int|
                                    0 <= a < out@.len() && (#[trigger] out@[a])@ == rm;
                                if a < pre.len() {
                                    assert(pre[a]@ == rm);
                                    assert(recs_contain(pre, rm));
                                } else {
                                    assert(items@[j as int]@ == rm);
                                }
                            }
                            if exists|y: int| 0 <= y < j + 1 && (#[trigger] items@[y])@ == rm {
                                let y = choose|y: int|
                                    0 <= y < j + 1 && (#[trigger] items@[y])@ == rm;
                                if y < j {
                                    assert(recs_contain(pre, rm));
                                    let a = choose|a: int|
                                        0 <= a < pre.len() && (#[trigger] pre[a])@ == rm;
                                    assert(out@[a]@ == rm);
                                } else {
                                    assert(out@[out@.len() - 1]@ == rm);
                                }
                            }
                            if (exists|x: int| 0 <= x < flat && #[trigger] lv[x].contains(rm))
                                && !recs_contain(out@, rm) {
                                assert(recs_contain(pre, rm));
                                let a = choose|a: int|
                                    0 <= a < pre.len() && (#[trigger] pre[a])@ == rm;
                                assert(out@[a]@ == rm);
                            }
                        }
                    }
                    j += 1;
                }
                proof {
                    assert forall|rm: RecordM| #[trigger] recs_contain(out@, rm) <==> exists|
                        x: int,
                    |
                        0 <= x < flat + 1 && #[trigger] lv[x].contains(rm) by {
                        if recs_contain(out@, rm) {
                            if exists|y: int|
                                0 <= y < m && (#[trigger] items@[y])@ == rm {
                                let y = choose|y: int|
                                    0 <= y < m && (#[trigger] items@[y])@ == rm;
                                assert(lv[flat][y] == rm);
                                assert(lv[flat].contains(rm));
                            }
                        }
                        if exists|x: int| 0 <= x < flat + 1 && #[trigger] lv[x].contains(rm) {
                            let x = choose|x: int|
                                0 <= x < flat + 1 && #[trigger] lv[x].contains(rm);
                            if x == flat {
                                let y = choose|y: int|
                                    0 <= y < lv[flat].len() && lv[flat][y] == rm;
                                assert(items@[y]@ == rm);
                            }
                        }
                    }
                }
                sg += 1;
            }
            proof {
                assert(level_offset(self.levels.levels@, l + 1) == level_offset(
                    self.levels.levels@,
                    l as int,
                ) + seg_count);
                lemma_level_offset_nonneg(self.levels.levels@, l + 1);
            }
            l += 1;
        }
        proof {
            assert forall|rm: RecordM| #[trigger]
                recs_contain(out@, rm) <==> self.segment_records().contains(rm) by {
                if self.segment_records().contains(rm) {
                    let x = choose|x: int| 0 <= x < lv.len() && #[trigger] lv[x].contains(rm);
                }
            }
        }
        out
    }
}

/// A record is the newest its key has among `rs`.
pub open spec fn top_of_key(rs: Seq<RecordM>, rm: RecordM) -> bool {
    forall|r2: RecordM| rs.contains(r2) && r2.key == rm.key ==> r2.seqno <= rm.seqno
}

impl Tree {
    /// Merges every segment into one: duplicate keys keep only their
    /// newest record, and, when no snapshot is open, a newest record that
    /// is a tombstone is dropped altogether.  No read at the newest view
    /// changes.
    #[verifier::rlimit(100)]
    pub fn do_major_compaction(&mut self)
        requires
            old(self).wf(),
            old(self).next_id < u64::MAX,
        ensures
            final(self).wf(),
            final(self).lsn == old(self).lsn,
            final(self).open_snapshots == old(self).open_snapshots,
            final(self).config == old(self).config,
            final(self).journal == old(self).journal,
            final(self).journal_batches == old(self).journal_batches,
            final(self).active_memtable == old(self).active_memtable,
            final(self).sealed_memtables == old(self).sealed_memtables,
            final(self).journal_base == old(self).journal_base,
            final(self).approx_active_memtable_size == old(self).approx_active_memtable_size,
            // All segments merge into a single run under a fresh id.
            final(self).levels.levels@.len() == 1,
            final(self).levels.levels@[0]@.len() == 1,
            final(self).levels.levels@[0]@[0].id == old(self).next_id,
            final(self).next_id == old(self).next_id + 1,
            // The output holds exactly each key's newest segment record,
            // minus newest tombstones exactly when no snapshot is open.
            forall|rm: RecordM| #[trigger]
                final(self).segment_records().contains(rm) <==> (old(
                    self,
                ).segment_records().contains(rm) && top_of_key(old(self).segment_records(), rm)
                    && !(old(self).open_snapshots == 0 && rm.tombstone)),
            // Every read at the newest view is unchanged.
            forall|k: Seq<u8>| #[trigger]
                final(self).visible_value(k, None) == old(self).visible_value(k, None),
    {
        proof {
            self.lemma_segment_region();
            self.lemma_layer_index();
        }
        let ghost pre = *self;
        let ghost segs = pre.segment_records();
        let collected = self.collect_segment_records();
        // Order them into one run.
        let mut merged = Memtable::new();
        let n = collected.len();
        let mut i: usize = 0;
        while i < n
            invariant
                0 <= i <= n,
                n == collected@.len(),
                pre == *self,
                pre.wf(),
                segs == pre.segment_records(),
                forall|rm: RecordM| #[trigger]
                    recs_contain(collected@, rm) <==> segs.contains(rm),
                merged.wf(),
                forall|rm: RecordM| #[trigger]
                    merged@.contains(rm) <==> exists|y: int|
                        0 <= y < i && (#[trigger] collected@[y])@ == rm,
            decreases n - i,
        {
            let ghost prev = merged@;
            let ghost vm = collected@[i as int]@;
            proof {
                // The incoming record clashes with nothing different: any
                // record sharing its slot is the record itself.
                assert(recs_contain(collected@, vm)) by {
                    assert(collected@[i as int]@ == vm);
                }
                pre.lemma_segment_region();
                assert forall|rm: RecordM|
                    prev.contains(rm) && crate::memtable::same_slot(rm, vm) implies rm == vm by {
                    let y = choose|y: int|
                        0 <= y < i && (#[trigger] collected@[y])@ == rm;
                    assert(recs_contain(collected@, rm)) by {
                        assert(collected@[y]@ == rm);
                    }
                    assert(segs.contains(rm) && segs.contains(vm));
                    lemma_global_unique(levels_views(pre.levels.levels@), rm, vm);
                }
            }
            merged.insert(collected[i].duplicate());
            proof {
                assert forall|rm: RecordM| #[trigger] merged@.contains(rm) <==> exists|y: int|
                    0 <= y < i + 1 && (#[trigger] collected@[y])@ == rm by {
                    if merged@.contains(rm) {
                        if rm == vm {
                            assert(collected@[i as int]@ == rm);
                        } else {
                            let y = choose|y: int|
                                0 <= y < i && (#[trigger] collected@[y])@ == rm;
                        }
                    }
                    if exists|y: int| 0 <= y < i + 1 && (#[trigger] collected@[y])@ == rm {
                        let y = choose|y: int|
                            0 <= y < i + 1 && (#[trigger] collected@[y])@ == rm;
                        if y < i && crate::memtable::same_slot(rm, vm) {
                            assert(prev.contains(rm));
                            assert(rm == vm);
                        }
                    }
                }
            }
            i += 1;
        }
        proof {
            assert forall|rm: RecordM| #[trigger] merged@.contains(rm) <==> segs.contains(rm) by {
                if segs.contains(rm) {
                    assert(recs_contain(collected@, rm));
                    let y = choose|y: int|
                        0 <= y < collected@.len() && (#[trigger] collected@[y])@ == rm;
                }
                if merged@.contains(rm) {
                    let y = choose|y: int|
                        0 <= y < collected@.len() && (#[trigger] collected@[y])@ == rm;
                    assert(recs_contain(collected@, rm)) by {
                        assert(collected@[y]@ == rm);
                    }
                }
            }
        }
        // Keep each key's newest record; evict newest tombstones only when
        // no snapshot could still observe an older state through them.
        let evict_tombstones = self.open_snapshots == 0;
        let mut out: Vec<Value> = Vec::new();
        let m = merged.items.len();
        let ghost mergedv = merged@;
        let mut j: usize = 0;
        while j < m
            invariant
                0 <= j <= m,
                m == mergedv.len(),
                mergedv == merged@,
                merged.wf(),
                evict_tombstones == (self.open_snapshots == 0),
                pre == *self,
                forall|a: int|
                    0 <= a < out@.len() ==> exists|x: int|
                        0 <= x < j && (#[trigger] out@[a])@ == mergedv[x] && top_of_key(
                            mergedv,
                            mergedv[x],
                        ) && !(evict_tombstones && mergedv[x].tombstone),
                forall|a: int, b: int|
                    0 <= a < b < out@.len() ==> rec_before(
                        (#[trigger] out@[a])@,
                        (#[trigger] out@[b])@,
                    ),
                forall|x: int|
                    0 <= x < j && top_of_key(mergedv, #[trigger] mergedv[x]) && !(evict_tombstones
                        && mergedv[x].tombstone) ==> recs_contain(out@, mergedv[x]),
            decreases m - j,
        {
            let ghost prev_out = out@;
            let first_of_key = j == 0 || !bytes_eq(&merged.items[j - 1].key, &merged.items[j].key);
            proof {
                // First of its key exactly when it is the key's newest.
                if first_of_key {
                    assert forall|r2: RecordM|
                        mergedv.contains(r2) && r2.key == mergedv[j as int].key implies r2.seqno
                        <= mergedv[j as int].seqno by {
                        let y = choose|y: int| 0 <= y < mergedv.len() && mergedv[y] == r2;
                        if y < j as int - 1 {
                            assert(rec_before(mergedv[y], mergedv[j - 1]));
                            assert(rec_before(mergedv[j - 1], mergedv[j as int]));
                            crate::value::lemma_lex_asym(mergedv[j - 1].key, mergedv[j as int].key);
                            crate::value::lemma_lex_irrefl(mergedv[j as int].key);
                            crate::value::lemma_lex_trans(
                                mergedv[y].key,
                                mergedv[j - 1].key,
                                mergedv[j as int].key,
                            );
                        } else if y == j as int - 1 {
                        } else if y > j {
                            assert(rec_before(mergedv[j as int], mergedv[y]));
                            crate::value::lemma_lex_irrefl(mergedv[j as int].key);
                        }
                    }
                    assert(top_of_key(mergedv, mergedv[j as int]));
                } else {
                    assert(rec_before(mergedv[j - 1], mergedv[j as int]));
                    crate::value::lemma_lex_irrefl(mergedv[j as int].key);
                    assert(mergedv[j - 1].seqno > mergedv[j as int].seqno);
                    assert(mergedv.contains(mergedv[j - 1]));
                    assert(!top_of_key(mergedv, mergedv[j as int]));
                }
            }
            let keep = first_of_key && !(evict_tombstones && merged.items[j].is_tombstone());
            if keep {
                out.push(merged.items[j].duplicate());
                proof {
                    assert(out@[out@.len() - 1]@ == mergedv[j as int]);
                    assert forall|a: int, b: int| 0 <= a < b < out@.len() implies rec_before(
                        (#[trigger] out@[a])@,
                        (#[trigger] out@[b])@,
                    ) by {
                        if b == out@.len() - 1 {
                            assert(out@[a] == prev_out[a]);
                            let x = choose|x: int|
                                0 <= x < j && (#[trigger] prev_out[a])@ == mergedv[x]
                                    && top_of_key(mergedv, mergedv[x]) && !(evict_tombstones
                                    && mergedv[x].tombstone);
                            assert(rec_before(mergedv[x], mergedv[j as int]));
                        } else {
                            assert(out@[a] == prev_out[a] && out@[b] == prev_out[b]);
                        }
                    }
                }
            }
            proof {
                assert forall|x: int|
                    0 <= x < j + 1 && top_of_key(mergedv, #[trigger] mergedv[x]) && !(
                    evict_tombstones && mergedv[x].tombstone) implies recs_contain(
                    out@,
                    mergedv[x],
                ) by {
                    if x < j {
                        assert(recs_contain(prev_out, mergedv[x]));
                        let a = choose|a: int|
                            0 <= a < prev_out.len() && (#[trigger] prev_out[a])@ == mergedv[x];
                        assert(out@[a]@ == mergedv[x]);
                    } else {
                        assert(out@[out@.len() - 1]@ == mergedv[x]);
                    }
                }
                assert forall|a: int|
                    0 <= a < out@.len() implies exists|x: int|
                    0 <= x < j + 1 && (#[trigger] out@[a])@ == mergedv[x] && top_of_key(
                        mergedv,
                        mergedv[x],
                    ) && !(evict_tombstones && mergedv[x].tombstone) by {
                    if a < prev_out.len() {
                        let x = choose|x: int|
                            0 <= x < j && (#[trigger] prev_out[a])@ == mergedv[x] && top_of_key(
                                mergedv,
                                mergedv[x],
                            ) && !(evict_tombstones && mergedv[x].tombstone);
                        assert(out@[a]@ == mergedv[x]);
                    }
                }
            }
            j += 1;
        }
        // Install the compacted run.
        let id = self.next_id;
        self.next_id = self.next_id + 1;
        let file_size = segment_size_of(&out);
        let ghost outv = out@.map_values(|v: Value| v@);
        let segment = Segment { id, file_size, records: out };
        let mut new_levels: Vec<Vec<Segment>> = Vec::new();
        let mut level0: Vec<Segment> = Vec::new();
        level0.push(segment);
        new_levels.push(level0);
        self.levels = Levels { levels: new_levels };
        proof {
            let post = *self;
            post.lemma_layer_index();
            pre.lemma_layer_index();
            let lvp = levels_views(post.levels.levels@);
            assert(lvp =~= seq![outv]) by {
                assert(post.levels.levels@.drop_last() =~= Seq::<Vec<Segment>>::empty());
                assert(levels_views(post.levels.levels@.drop_last()) =~= Seq::<
                    Seq<RecordM>,
                >::empty());
                assert(level_views(post.levels.levels@.last()@) =~= seq![outv]) by {
                    assert(post.levels.levels@.last()@[0].view_records() =~= outv);
                }
            }
            assert(post.segment_records() =~= outv) by {
                assert(lvp.drop_last() =~= Seq::<Seq<RecordM>>::empty());
                assert(lvp.last() == outv);
                assert(seq_concat(Seq::<Seq<RecordM>>::empty()) == Seq::<RecordM>::empty());
            }
            assert forall|rm: RecordM|
                segs.contains(rm) implies top_of_key(mergedv, rm) == top_of_key(segs, rm) by {
                if top_of_key(mergedv, rm) {
                    assert forall|r2: RecordM|
                        segs.contains(r2) && r2.key == rm.key implies r2.seqno <= rm.seqno by {
                        assert(mergedv.contains(r2));
                    }
                }
                if top_of_key(segs, rm) {
                    assert forall|r2: RecordM|
                        mergedv.contains(r2) && r2.key == rm.key implies r2.seqno <= rm.seqno by {
                        assert(segs.contains(r2));
                    }
                }
            }
            let mem_count = 1 + pre.sealed_memtables@.len() as int;
            assert(post.layers().len() == mem_count + 1);
            assert forall|x: int| 0 <= x < mem_count implies #[trigger] post.layers()[x]
                == pre.layers()[x] by {}
            assert(post.layers()[mem_count] == outv);
            // The run's membership.
            assert forall|rm: RecordM| #[trigger] outv.contains(rm) <==> (segs.contains(rm)
                && top_of_key(mergedv, rm) && !(evict_tombstones && rm.tombstone)) by {
                if outv.contains(rm) {
                    let a = choose|a: int| 0 <= a < outv.len() && outv[a] == rm;
                    let x = choose|x: int|
                        0 <= x < mergedv.len() && (#[trigger] segment.records@[a])@ == mergedv[x]
                            && top_of_key(mergedv, mergedv[x]) && !(evict_tombstones
                            && mergedv[x].tombstone);
                    assert(mergedv.contains(mergedv[x]));
                } else {
                    if segs.contains(rm) && top_of_key(mergedv, rm) && !(evict_tombstones
                        && rm.tombstone) {
                        assert(mergedv.contains(rm));
                        let x = choose|x: int| 0 <= x < mergedv.len() && mergedv[x] == rm;
                        assert(recs_contain(segment.records@, mergedv[x]));
                        let a = choose|a: int|
                            0 <= a < segment.records@.len() && (
                            #[trigger] segment.records@[a])@ == rm;
                        assert(outv[a] == rm);
                    }
                }
            }
            // Well-formedness of the new stack.
            assert(records_sorted(outv));
            assert forall|x: int| 0 <= x < post.layers().len() implies records_sorted(
                #[trigger] post.layers()[x],
            ) by {
                if x < mem_count {
                    assert(post.layers()[x] == pre.layers()[x]);
                }
            }
            pre.lemma_segment_region();
            lemma_concat_membership(pre.layers());
            lemma_concat_membership(post.layers());
            assert forall|l1: int, l2: int, r1: RecordM, r2: RecordM|
                0 <= l1 < l2 < post.layers().len() && #[trigger] post.layers()[l1].contains(r1)
                    && #[trigger] post.layers()[l2].contains(r2) && r1.key == r2.key implies
                r1.seqno > r2.seqno by {
                assert(post.layers()[l1] == pre.layers()[l1]);
                assert(pre.layers()[l1].contains(r1));
                if l2 < mem_count {
                    assert(post.layers()[l2] == pre.layers()[l2]);
                } else {
                    // r2 came from some old segment layer.
                    assert(outv.contains(r2));
                    assert(segs.contains(r2));
                    let lv_old = levels_views(pre.levels.levels@);
                    lemma_concat_membership(lv_old);
                    let x = choose|x: int|
                        0 <= x < lv_old.len() && #[trigger] lv_old[x].contains(r2);
                    assert(pre.layers()[mem_count + x].contains(r2));
                }
            }
            assert forall|l: int, r: RecordM|
                0 <= l < post.layers().len() && #[trigger] post.layers()[l].contains(r) implies
                r.seqno < post.lsn by {
                if l < mem_count {
                    assert(pre.layers()[l].contains(r));
                } else {
                    assert(segs.contains(r));
                }
            }
            // Reads at the newest view are unchanged.
            assert forall|k: Seq<u8>| #[trigger] post.visible_value(k, None)
                == pre.visible_value(k, None) by {
                lemma_nv_props(pre.records(), k, None);
                lemma_nv_props(post.records(), k, None);
                match newest_visible(pre.records(), k, None) {
                    Some(rstar) => {
                        let lv_old = levels_views(pre.levels.levels@);
                        lemma_concat_membership(lv_old);
                        let lstar = choose|l: int|
                            0 <= l < pre.layers().len() && #[trigger] pre.layers()[l].contains(
                                rstar,
                            );
                        if lstar < mem_count {
                            // The winner lives in a memtable: it stays put and
                            // still outranks everything.
                            assert(post.layers()[lstar].contains(rstar));
                            assert(post.records().contains(rstar));
                            assert forall|r2: RecordM|
                                post.records().contains(r2) && matches_key(r2, k, None) implies
                                r2.seqno <= rstar.seqno by {
                                let l2 = choose|l2: int|
                                    0 <= l2 < post.layers().len()
                                        && #[trigger] post.layers()[l2].contains(r2);
                                if l2 < mem_count {
                                    assert(pre.layers()[l2].contains(r2));
                                    assert(pre.records().contains(r2));
                                } else {
                                    assert(outv.contains(r2));
                                    assert(segs.contains(r2));
                                    assert(pre.records().contains(r2));
                                }
                            }
                            assert forall|r2: RecordM|
                                post.records().contains(r2) && matches_key(r2, k, None)
                                    && r2.seqno == rstar.seqno implies r2 == rstar by {
                                lemma_global_unique(post.layers(), r2, rstar);
                            }
                            lemma_nv_pin(post.records(), k, None, rstar);
                        } else {
                            // The winner lives in the segments: no memtable
                            // candidate exists, and the winner is its key's top.
                            assert(lv_old[lstar - mem_count].contains(rstar));
                            assert(segs.contains(rstar));
                            assert(mergedv.contains(rstar));
                            assert forall|r2: RecordM|
                                mergedv.contains(r2) && r2.key == rstar.key implies r2.seqno
                                <= rstar.seqno by {
                                assert(segs.contains(r2));
                                assert(pre.records().contains(r2));
                                assert(matches_key(r2, k, None));
                            }
                            assert(top_of_key(mergedv, rstar));
                            // No memtable layer holds a candidate.
                            assert forall|l2: int, r2: RecordM|
                                0 <= l2 < mem_count && #[trigger] pre.layers()[l2].contains(r2)
                                    implies r2.key != k by {
                                if r2.key == k {
                                    assert(r2.seqno > rstar.seqno);
                                    assert(pre.records().contains(r2));
                                    assert(matches_key(r2, k, None));
                                }
                            }
                            if evict_tombstones && rstar.tombstone {
                                // Dropped: the key reads as absent both ways.
                                assert(newest_visible(post.records(), k, None) is None) by {
                                    if newest_visible(post.records(), k, None) is Some {
                                        let b = newest_visible(
                                            post.records(),
                                            k,
                                            None,
                                        ).unwrap();
                                        let lb = choose|lb: int|
                                            0 <= lb < post.layers().len()
                                                && #[trigger] post.layers()[lb].contains(b);
                                        if lb < mem_count {
                                            assert(pre.layers()[lb].contains(b));
                                        } else {
                                            assert(outv.contains(b));
                                            assert(top_of_key(mergedv, b));
                                            assert(mergedv.contains(rstar));
                                            assert(rstar.seqno <= b.seqno);
                                            assert(b.seqno <= rstar.seqno);
                                            lemma_global_unique(pre.layers(), b, rstar);
                                        }
                                    }
                                }
                            } else {
                                assert(outv.contains(rstar));
                                assert(post.layers()[mem_count].contains(rstar));
                                assert(post.records().contains(rstar));
                                assert forall|r2: RecordM|
                                    post.records().contains(r2) && matches_key(r2, k, None)
                                        implies r2.seqno <= rstar.seqno by {
                                    let l2 = choose|l2: int|
                                        0 <= l2 < post.layers().len()
                                            && #[trigger] post.layers()[l2].contains(r2);
                                    if l2 < mem_count {
                                        assert(pre.layers()[l2].contains(r2));
                                    } else {
                                        assert(outv.contains(r2));
                                        assert(segs.contains(r2));
                                        assert(pre.records().contains(r2));
                                    }
                                }
                                assert forall|r2: RecordM|
                                    post.records().contains(r2) && matches_key(r2, k, None)
                                        && r2.seqno == rstar.seqno implies r2 == rstar by {
                                    lemma_global_unique(post.layers(), r2, rstar);
                                }
                                lemma_nv_pin(post.records(), k, None, rstar);
                            }
                        }
                    },
                    None => {
                        assert(newest_visible(post.records(), k, None) is None) by {
                            if newest_visible(post.records(), k, None) is Some {
                                let b = newest_visible(post.records(), k, None).unwrap();
                                let lb = choose|lb: int|
                                    0 <= lb < post.layers().len()
                                        && #[trigger] post.layers()[lb].contains(b);
                                if lb < mem_count {
                                    assert(pre.layers()[lb].contains(b));
                                    assert(pre.records().contains(b));
                                } else {
                                    assert(outv.contains(b));
                                    assert(segs.contains(b));
                                    assert(pre.records().contains(b));
                                }
                            }
                        }
                    },
                }
            }
        }
    }
}

/// The total file size of a level's segments.
pub open spec fn level_size(level: Seq<Segment>) -> int
    decreases level.len(),
{
    if level.len() == 0 {
        0
    } else {
        level_size(level.drop_last()) + level.last().file_size
    }
}

/// The total file size of all segments.
pub open spec fn levels_size(levels: Seq<Vec<Segment>>) -> int
    decreases levels.len(),
{
    if levels.len() == 0 {
        0
    } else {
        levels_size(levels.drop_last()) + level_size(levels.last()@)
    }
}

/// The total size of the retired journal shards of sealed memtables.
pub open spec fn sealed_journals_size(sealed: Seq<SealedMemtable>) -> int
    decreases sealed.len(),
{
    if sealed.len() == 0 {
        0
    } else {
        sealed_journals_size(sealed.drop_last()) + sealed.last().journal.buf@.len()
    }
}

/// The number of segments over all levels.
pub open spec fn levels_segment_count(levels: Seq<Vec<Segment>>) -> int
    decreases levels.len(),
{
    if levels.len() == 0 {
        0
    } else {
        levels_segment_count(levels.drop_last()) + levels.last()@.len()
    }
}

/// `x`, capped at the largest 32-bit value.
pub open spec fn sat32(x: int) -> int {
    if x <= u32::MAX {
        x
    } else {
        u32::MAX as int
    }
}

/// `x`, capped at the largest 64-bit value.
pub open spec fn sat64(x: int) -> int {
    if x <= u64::MAX {
        x
    } else {
        u64::MAX as int
    }
}

/// `x`, capped at the largest address-sized value.
pub open spec fn sat_usize(x: int) -> int {
    if x <= usize::MAX {
        x
    } else {
        usize::MAX as int
    }
}

/// Adds while saturating at the largest 64-bit value.
fn sat_add(total: u64, grow: u64) -> (r: u64)
    ensures
        r as int == sat64(total + grow),
{
    if total <= u64::MAX - grow {
        total + grow
    } else {
        u64::MAX
    }
}

/// Level sizes never go negative.
proof fn lemma_level_size_nonneg(level: Seq<Segment>)
    ensures
        level_size(level) >= 0,
    decreases level.len(),
{
    if level.len() > 0 {
        lemma_level_size_nonneg(level.drop_last());
    }
}

/// Totals over levels never go negative.
proof fn lemma_levels_size_nonneg(levels: Seq<Vec<Segment>>)
    ensures
        levels_size(levels) >= 0,
    decreases levels.len(),
{
    if levels.len() > 0 {
        lemma_levels_size_nonneg(levels.drop_last());
        lemma_level_size_nonneg(levels.last()@);
    }
}

/// Totals over retired shards never go negative.
proof fn lemma_sealed_size_nonneg(sealed: Seq<SealedMemtable>)
    ensures
        sealed_journals_size(sealed) >= 0,
    decreases sealed.len(),
{
    if sealed.len() > 0 {
        lemma_sealed_size_nonneg(sealed.drop_last());
    }
}

/// Segment counts never go negative.
proof fn lemma_segment_count_nonneg(levels: Seq<Vec<Segment>>)
    ensures
        levels_segment_count(levels) >= 0,
    decreases levels.len(),
{
    if levels.len() > 0 {
        lemma_segment_count_nonneg(levels.drop_last());
    }
}

impl Tree {
    /// How much disk the tree occupies: segment files plus the journal
    /// shards, active and retired.  Saturates rather than overflowing.
    pub fn disk_space(&self) -> (r: u64)
        ensures
            r as int == sat64(
                levels_size(self.levels.levels@) + sealed_journals_size(self.sealed_memtables@)
                    + self.journal.buf@.len(),
            ),
    {
        let mut total: u64 = 0;
        let level_count = self.levels.levels.len();
        let mut l: usize = 0;
        proof {
            assert(self.levels.levels@.subrange(0, 0) =~= Seq::<Vec<Segment>>::empty());
        }
        while l < level_count
            invariant
                0 <= l <= level_count,
                level_count == self.levels.levels@.len(),
                total as int == sat64(levels_size(self.levels.levels@.subrange(0, l as int))),
            decreases level_count - l,
        {
            let seg_count = self.levels.levels[l].len();
            let mut sg: usize = 0;
            proof {
                assert(self.levels.levels@[l as int]@.subrange(0, 0) =~= Seq::<Segment>::empty());
            }
            while sg < seg_count
                invariant
                    0 <= sg <= seg_count,
                    0 <= l < level_count,
                    level_count == self.levels.levels@.len(),
                    seg_count == self.levels.levels@[l as int]@.len(),
                    total as int == sat64(
                        levels_size(self.levels.levels@.subrange(0, l as int)) + level_size(
                            self.levels.levels@[l as int]@.subrange(0, sg as int),
                        ),
                    ),
                decreases seg_count - sg,
            {
                total = sat_add(total, self.levels.levels[l][sg].file_size);
                proof {
                    let lvl = self.levels.levels@[l as int]@;
                    assert(lvl.subrange(0, sg + 1).drop_last() =~= lvl.subrange(0, sg as int));
                    assert(lvl.subrange(0, sg + 1).last() == lvl[sg as int]);
                    lemma_level_size_nonneg(lvl.subrange(0, sg as int));
                    lemma_levels_size_nonneg(self.levels.levels@.subrange(0, l as int));
                }
                sg += 1;
            }
            proof {
                let pre = self.levels.levels@.subrange(0, l as int);
                let cur = self.levels.levels@.subrange(0, l + 1);
                assert(cur.drop_last() =~= pre);
                assert(cur.last() == self.levels.levels@[l as int]);
                assert(self.levels.levels@[l as int]@.subrange(0, seg_count as int)
                    =~= self.levels.levels@[l as int]@);
            }
            l += 1;
        }
        proof {
            assert(self.levels.levels@.subrange(0, level_count as int) =~= self.levels.levels@);
            assert(self.sealed_memtables@.subrange(0, 0) =~= Seq::<SealedMemtable>::empty());
        }
        let sealed_count = self.sealed_memtables.len();
        let mut i: usize = 0;
        while i < sealed_count
            invariant
                0 <= i <= sealed_count,
                sealed_count == self.sealed_memtables@.len(),
                total as int == sat64(
                    levels_size(self.levels.levels@) + sealed_journals_size(
                        self.sealed_memtables@.subrange(0, i as int),
                    ),
                ),
            decreases sealed_count - i,
        {
            let shard_size = self.sealed_memtables[i].journal.disk_size();
            total = sat_add(total, shard_size as u64);
            proof {
                let pre = self.sealed_memtables@.subrange(0, i as int);
                let cur = self.sealed_memtables@.subrange(0, i + 1);
                assert(cur.drop_last() =~= pre);
                assert(cur.last() == self.sealed_memtables@[i as int]);
                lemma_sealed_size_nonneg(pre);
                lemma_levels_size_nonneg(self.levels.levels@);
            }
            i += 1;
        }
        proof {
            assert(self.sealed_memtables@.subrange(0, sealed_count as int)
                =~= self.sealed_memtables@);
            lemma_sealed_size_nonneg(self.sealed_memtables@);
            lemma_levels_size_nonneg(self.levels.levels@);
        }
        let own_size = self.journal.disk_size();
        sat_add(total, own_size as u64)
    }

    /// Counts the segments over all levels; saturates rather than
    /// overflowing.
    pub fn segment_count(&self) -> (r: usize)
        ensures
            r as int == sat_usize(levels_segment_count(self.levels.levels@)),
    {
        let mut total: usize = 0;
        let level_count = self.levels.levels.len();
        let mut l: usize = 0;
        proof {
            assert(self.levels.levels@.subrange(0, 0) =~= Seq::<Vec<Segment>>::empty());
        }
        while l < level_count
            invariant
                0 <= l <= level_count,
                level_count == self.levels.levels@.len(),
                total as int == sat_usize(
                    levels_segment_count(self.levels.levels@.subrange(0, l as int)),
                ),
            decreases level_count - l,
        {
            let here = self.levels.levels[l].len();
            proof {
                let pre = self.levels.levels@.subrange(0, l as int);
                let cur = self.levels.levels@.subrange(0, l + 1);
                assert(cur.drop_last() =~= pre);
                assert(cur.last() == self.levels.levels@[l as int]);
                lemma_segment_count_nonneg(pre);
            }
            total = if total <= usize::MAX - here {
                total + here
            } else {
                usize::MAX
            };
            l += 1;
        }
        proof {
            assert(self.levels.levels@.subrange(0, level_count as int) =~= self.levels.levels@);
        }
        total
    }

    /// The tree's configuration.
    pub fn config(&self) -> (r: &Config)
        ensures
            r == self.config,
    {
        &self.config
    }

    /// Syncs the journal: everything committed so far becomes durable.
    pub fn flush(&mut self)
        ensures
            final(self).journal.buf@ == old(self).journal.buf@,
            final(self).journal.synced_len == old(self).journal.buf@.len(),
            final(self).journal_batches == old(self).journal_batches,
            final(self).lsn == old(self).lsn,
            final(self).open_snapshots == old(self).open_snapshots,
            final(self).config == old(self).config,
            final(self).records() == old(self).records(),
            old(self).wf() ==> final(self).wf(),
            forall|k: Seq<u8>, c: Option<u64>| #[trigger]
                final(self).visible_value(k, c) == old(self).visible_value(k, c),
    {
        self.journal.flush();
        proof {
            assert(final(self).layers() == old(self).layers());
        }
    }
}

/// Drops a tombstone record: a read that reaches one reports the key as
/// absent.
pub fn ignore_tombstone_value(item: Value) -> (r: Option<Value>)
    ensures
        match r {
            Some(v) => v == item && !item@.tombstone,
            None => item@.tombstone,
        },
{
    if item.is_tombstone() {
        None
    } else {
        Some(item)
    }
}

impl Tree {
    /// Monotonicity of sequence numbers: every write consumes the counter,
    /// so the batches of the journal carry strictly increasing seqnos, in
    /// journal order, all below the counter's next value.
    pub proof fn lemma_seqno_monotone(self)
        requires
            self.wf(),
        ensures
            forall|i: int, j: int|
                0 <= i < j < self.journal_batches@.len() ==> (
                #[trigger] self.journal_batches@[i]).seqno < (
                #[trigger] self.journal_batches@[j]).seqno,
            forall|i: int|
                0 <= i < self.journal_batches@.len() ==> (
                #[trigger] self.journal_batches@[i]).seqno < self.lsn,
    {
    }

    /// Durability: after a sync, recovering the journal bytes of a tree
    /// opened fresh replays exactly the committed batches, in order.
    pub proof fn lemma_synced_journal_recovers(self, wl: Option<Seq<Seq<u8>>>)
        requires
            self.wf(),
            self.journal_base@.len() == 0,
        ensures
            crate::journal::spec_recover(self.journal.buf@, wl)
                == (crate::journal::RecoveryResultM::Recovered {
                applied: crate::journal::applied_of(self.journal_batches@, wl),
                truncate_to: self.journal.buf@.len() as int,
            }),
    {
        assert(self.journal.buf@ =~= journal_bytes(self.journal_batches@));
        crate::journal::lemma_durability_after_sync(self.journal_batches@, wl);
    }
}

impl Tree {
    /// Whether the active memtable has outgrown its cap and should be
    /// sealed and flushed.
    pub fn memtable_exceeds_threshold(&self) -> (r: bool)
        ensures
            r == (self.approx_active_memtable_size > self.config.max_memtable_size),
    {
        self.approx_active_memtable_size > self.config.max_memtable_size
    }
}

} // verus!
