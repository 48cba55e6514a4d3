//! Opening a tree from what a crash left on disk.
//!
//! The planning functions decide, from directory listings alone, what to
//! recover, flush or delete; the caller performs the file work and hands
//! the recovered parts to [`Tree::recover`], which refuses to open on an
//! impossible state.

use crate::config::Config;
use crate::journal::JournalShard;
use crate::memtable::{rec_before, records_sorted, Memtable};
use crate::tree::{layers_ordered, levels_views, seqnos_below, Levels, Segment, Tree};
use crate::value::{bytes_eq, RecordM, Value};
use vstd::prelude::*;

verus! {

/// Whether some key of the list views as `k` (shared with the tree module).
pub open spec fn ids_contain(ids: Seq<Vec<u8>>, k: Seq<u8>) -> bool {
    exists|i: int| 0 <= i < ids.len() && (#[trigger] ids[i])@ == k
}

/// Why a tree refuses to open.
#[derive(Clone, Copy, Debug, PartialEq, Eq, Structural)]
pub enum OpenError {
    /// The manifest names a segment that is not on disk.
    MissingSegment,
    /// Two journal directories both claim to be the active one.
    SecondActiveJournal,
    /// A recovered run is not strictly ordered.
    UnsortedRun,
    /// A newer layer holds an older record for some key.
    LayerOrderViolation,
    /// The sequence counter cannot move past the recovered records.
    SeqnoExhausted,
}

/// What to do with the segment directories found on disk.
#[derive(Debug)]
pub struct SegmentRecoveryPlan {
    /// Directories the manifest names: recover them, in disk order.
    pub recover: Vec<Vec<u8>>,
    /// Directories the manifest does not name: half-written leftovers,
    /// delete them.
    pub delete: Vec<Vec<u8>>,
}

/// Decides the fate of each segment directory.  The manifest must not name
/// a directory that is absent; unnamed directories are safe to delete.
pub fn plan_segment_recovery(manifest_ids: &Vec<Vec<u8>>, disk_ids: &Vec<Vec<u8>>) -> (r: Result<
    SegmentRecoveryPlan,
    OpenError,
>)
    ensures
        r is Ok <==> (forall|j: int|
            0 <= j < manifest_ids@.len() ==> ids_contain(
                disk_ids@,
                (#[trigger] manifest_ids@[j])@,
            )),
        match r {
            Ok(plan) => {
                &&& forall|k: Seq<u8>|
                    #![auto]
                    ids_contain(plan.recover@, k) <==> (ids_contain(disk_ids@, k) && ids_contain(
                        manifest_ids@,
                        k,
                    ))
                &&& forall|k: Seq<u8>|
                    #![auto]
                    ids_contain(plan.delete@, k) <==> (ids_contain(disk_ids@, k) && !ids_contain(
                        manifest_ids@,
                        k,
                    ))
            },
            Err(e) => e == OpenError::MissingSegment,
        },
{
    // Every segment the manifest references must exist on disk.
    let mn = manifest_ids.len();
    let mut j: usize = 0;
    while j < mn
        invariant
            0 <= j <= mn,
            mn == manifest_ids@.len(),
            forall|x: int| 0 <= x < j ==> ids_contain(disk_ids@, (#[trigger] manifest_ids@[x])@),
        decreases mn - j,
    {
        if !contains_id(disk_ids, &manifest_ids[j]) {
            return Err(OpenError::MissingSegment);
        }
        j += 1;
    }
    // Partition the disk directories.
    let mut recover: Vec<Vec<u8>> = Vec::new();
    let mut delete: Vec<Vec<u8>> = Vec::new();
    let dn = disk_ids.len();
    let mut i: usize = 0;
    while i < dn
        invariant
            0 <= i <= dn,
            dn == disk_ids@.len(),
            forall|k: Seq<u8>|
                #![auto]
                ids_contain(recover@, k) <==> (exists|x: int|
                    0 <= x < i && (#[trigger] disk_ids@[x])@ == k && ids_contain(
                        manifest_ids@,
                        k,
                    )),
            forall|k: Seq<u8>|
                #![auto]
                ids_contain(delete@, k) <==> (exists|x: int|
                    0 <= x < i && (#[trigger] disk_ids@[x])@ == k && !ids_contain(
                        manifest_ids@,
                        k,
                    )),
        decreases dn - i,
    {
        let ghost pre_r = recover@;
        let ghost pre_d = delete@;
        let named = contains_id(manifest_ids, &disk_ids[i]);
        if named {
            recover.push(crate::value::copy_bytes(&disk_ids[i]));
        } else {
            delete.push(crate::value::copy_bytes(&disk_ids[i]));
        }
        proof {
            assert forall|k: Seq<u8>| #![auto] ids_contain(recover@, k) <==> (exists|x: int|
                0 <= x < i + 1 && (#[trigger] disk_ids@[x])@ == k && ids_contain(
                    manifest_ids@,
                    k,
                )) by {
                if ids_contain(recover@, k) {
                    let a = choose|a: int|
                        0 <= a < recover@.len() && (#[trigger] recover@[a])@ == k;
                    if a < pre_r.len() {
                        assert(pre_r[a]@ == k);
                        assert(ids_contain(pre_r, k));
                    } else {
                        assert(disk_ids@[i as int]@ == k);
                    }
                }
                if exists|x: int|
                    0 <= x < i + 1 && (#[trigger] disk_ids@[x])@ == k && ids_contain(
                        manifest_ids@,
                        k,
                    ) {
                    let x = choose|x: int|
                        0 <= x < i + 1 && (#[trigger] disk_ids@[x])@ == k && ids_contain(
                            manifest_ids@,
                            k,
                        );
                    if x < i {
                        assert(ids_contain(pre_r, k));
                        let a = choose|a: int|
                            0 <= a < pre_r.len() && (#[trigger] pre_r[a])@ == k;
                        assert(recover@[a]@ == k);
                    } else {
                        assert(named);
                        assert(recover@[recover@.len() - 1]@ == k);
                    }
                }
            }
            assert forall|k: Seq<u8>| #![auto] ids_contain(delete@, k) <==> (exists|x: int|
                0 <= x < i + 1 && (#[trigger] disk_ids@[x])@ == k && !ids_contain(
                    manifest_ids@,
                    k,
                )) by {
                if ids_contain(delete@, k) {
                    let a = choose|a: int| 0 <= a < delete@.len() && (#[trigger] delete@[a])@ == k;
                    if a < pre_d.len() {
                        assert(pre_d[a]@ == k);
                        assert(ids_contain(pre_d, k));
                    } else {
                        assert(disk_ids@[i as int]@ == k);
                    }
                }
                if exists|x: int|
                    0 <= x < i + 1 && (#[trigger] disk_ids@[x])@ == k && !ids_contain(
                        manifest_ids@,
                        k,
                    ) {
                    let x = choose|x: int|
                        0 <= x < i + 1 && (#[trigger] disk_ids@[x])@ == k && !ids_contain(
                            manifest_ids@,
                            k,
                        );
                    if x < i {
                        assert(ids_contain(pre_d, k));
                        let a = choose|a: int|
                            0 <= a < pre_d.len() && (#[trigger] pre_d[a])@ == k;
                        assert(delete@[a]@ == k);
                    } else {
                        assert(!named);
                        assert(delete@[delete@.len() - 1]@ == k);
                    }
                }
            }
        }
        i += 1;
    }
    proof {
        assert forall|k: Seq<u8>| #![auto] ids_contain(recover@, k) <==> (ids_contain(
            disk_ids@,
            k,
        ) && ids_contain(manifest_ids@, k)) by {
            if ids_contain(disk_ids@, k) {
                let x = choose|x: int|
                    0 <= x < disk_ids@.len() && (#[trigger] disk_ids@[x])@ == k;
            }
        }
        assert forall|k: Seq<u8>| #![auto] ids_contain(delete@, k) <==> (ids_contain(disk_ids@, k)
            && !ids_contain(manifest_ids@, k)) by {
            if ids_contain(disk_ids@, k) {
                let x = choose|x: int|
                    0 <= x < disk_ids@.len() && (#[trigger] disk_ids@[x])@ == k;
            }
        }
    }
    Ok(SegmentRecoveryPlan { recover, delete })
}

/// Whether `id` occurs in `ids`.
fn contains_id(ids: &Vec<Vec<u8>>, id: &Vec<u8>) -> (r: bool)
    ensures
        r == ids_contain(ids@, id@),
{
    let n = ids.len();
    let mut i: usize = 0;
    while i < n
        invariant
            0 <= i <= n,
            n == ids@.len(),
            forall|j: int| 0 <= j < i ==> (#[trigger] ids@[j])@ != id@,
        decreases n - i,
    {
        if bytes_eq(&ids[i], id) {
            proof {
                assert(ids@[i as int]@ == id@);
            }
            return true;
        }
        i += 1;
    }
    proof {
        if ids_contain(ids@, id@) {
            let j = choose|j: int| 0 <= j < ids@.len() && (#[trigger] ids@[j])@ == id@;
        }
    }
    false
}

/// What was found in one journal directory.
#[derive(Debug)]
pub struct JournalDirInfo {
    /// The directory name.
    pub id: Vec<u8>,
    /// Total size of the directory's files, in bytes.
    pub size: u64,
    /// Whether the directory carries the marker that says its memtable was
    /// flushed.
    pub has_flush_marker: bool,
}

/// What to do with one journal directory.
#[derive(Debug, PartialEq, Eq, Structural)]
pub enum JournalDisposition {
    /// Empty: delete it.
    Delete,
    /// Becomes the active journal: replay it into the active memtable.
    Active,
    /// Orphaned or oversized: replay it, write a segment from it when the
    /// manifest lacks one, then delete it.
    FlushToSegment {
        /// Whether a segment still has to be written from it.
        write_segment: bool,
    },
}

/// A journal directory that would become the active journal: it has data,
/// no flush marker, and fits under the memtable cap.
pub open spec fn active_candidate(j: JournalDirInfo, max_memtable_size: u64) -> bool {
    j.size > 0 && !j.has_flush_marker && j.size < max_memtable_size
}

/// Decides the fate of each journal directory, in order.  At most one
/// directory without a flush marker may hold data once an active journal
/// was found; a second one is an impossible state.
pub fn plan_journal_recovery(
    journals: &Vec<JournalDirInfo>,
    manifest_ids: &Vec<Vec<u8>>,
    max_memtable_size: u64,
) -> (r: Result<Vec<JournalDisposition>, OpenError>)
    ensures
        r is Err <==> (exists|x: int, y: int|
            0 <= x < y < journals@.len() && active_candidate(
                #[trigger] journals@[x],
                max_memtable_size,
            ) && (#[trigger] journals@[y]).size > 0 && !journals@[y].has_flush_marker),
        match r {
            Ok(plan) => {
                &&& plan@.len() == journals@.len()
                &&& forall|x: int|
                    0 <= x < journals@.len() ==> #[trigger] plan@[x] == (if journals@[x].size
                        == 0 {
                        JournalDisposition::Delete
                    } else if active_candidate(journals@[x], max_memtable_size) {
                        JournalDisposition::Active
                    } else {
                        JournalDisposition::FlushToSegment {
                            write_segment: !ids_contain(manifest_ids@, journals@[x].id@),
                        }
                    })
            },
            Err(e) => e == OpenError::SecondActiveJournal,
        },
{
    let mut plan: Vec<JournalDisposition> = Vec::new();
    let n = journals.len();
    let mut i: usize = 0;
    let mut active_seen = false;
    while i < n
        invariant
            0 <= i <= n,
            n == journals@.len(),
            plan@.len() == i,
            active_seen == (exists|x: int|
                0 <= x < i && active_candidate(#[trigger] journals@[x], max_memtable_size)),
            forall|x: int, y: int|
                0 <= x < y < i ==> !(active_candidate(#[trigger] journals@[x], max_memtable_size)
                    && (#[trigger] journals@[y]).size > 0 && !journals@[y].has_flush_marker),
            forall|x: int|
                0 <= x < i ==> #[trigger] plan@[x] == (if journals@[x].size == 0 {
                    JournalDisposition::Delete
                } else if active_candidate(journals@[x], max_memtable_size) {
                    JournalDisposition::Active
                } else {
                    JournalDisposition::FlushToSegment {
                        write_segment: !ids_contain(manifest_ids@, journals@[x].id@),
                    }
                }),
        decreases n - i,
    {
        let entry = &journals[i];
        if entry.size == 0 {
            plan.push(JournalDisposition::Delete);
        } else if !entry.has_flush_marker {
            if active_seen {
                proof {
                    let x = choose|x: int|
                        0 <= x < i && active_candidate(
                            #[trigger] journals@[x],
                            max_memtable_size,
                        );
                }
                return Err(OpenError::SecondActiveJournal);
            }
            if entry.size < max_memtable_size {
                active_seen = true;
                plan.push(JournalDisposition::Active);
            } else {
                // Too large to keep writing to: flush it like an orphan.
                let write_segment = !contains_id(manifest_ids, &entry.id);
                plan.push(JournalDisposition::FlushToSegment { write_segment });
            }
        } else {
            let write_segment = !contains_id(manifest_ids, &entry.id);
            plan.push(JournalDisposition::FlushToSegment { write_segment });
        }
        i += 1;
    }
    proof {
        if exists|x: int, y: int|
            0 <= x < y < journals@.len() && active_candidate(
                #[trigger] journals@[x],
                max_memtable_size,
            ) && (#[trigger] journals@[y]).size > 0 && !journals@[y].has_flush_marker {
            let (x, y) = choose|x: int, y: int|
                0 <= x < y < journals@.len() && active_candidate(
                    #[trigger] journals@[x],
                    max_memtable_size,
                ) && (#[trigger] journals@[y]).size > 0 && !journals@[y].has_flush_marker;
            assert(false);
        }
    }
    Ok(plan)
}

/// Records of `upper` strictly outrank same-key records of `lower`.
pub open spec fn pair_ordered(upper: Seq<RecordM>, lower: Seq<RecordM>) -> bool {
    forall|r1: RecordM, r2: RecordM|
        #[trigger] upper.contains(r1) && #[trigger] lower.contains(r2) && r1.key == r2.key
            ==> r1.seqno > r2.seqno
}

/// Strict order between every adjacent pair orders the whole run.
proof fn lemma_adjacent_sorted(rs: Seq<RecordM>)
    requires
        forall|i: int| 0 <= i < rs.len() - 1 ==> rec_before(#[trigger] rs[i], rs[i + 1]),
    ensures
        records_sorted(rs),
{
    assert forall|i: int, j: int| 0 <= i < j < rs.len() implies rec_before(
        #[trigger] rs[i],
        #[trigger] rs[j],
    ) by {
        lemma_span(rs, i, j);
    }
}

/// Helper: chains adjacent order across a span.
proof fn lemma_span(rs: Seq<RecordM>, i: int, j: int)
    requires
        forall|x: int| 0 <= x < rs.len() - 1 ==> rec_before(#[trigger] rs[x], rs[x + 1]),
        0 <= i < j < rs.len(),
    ensures
        rec_before(rs[i], rs[j]),
    decreases j - i,
{
    if j == i + 1 {
    } else {
        lemma_span(rs, i, j - 1);
        crate::memtable::lemma_rec_trans(rs[i], rs[j - 1], rs[j]);
    }
}

/// Whether a run is strictly ordered.
fn check_run_sorted(items: &Vec<Value>) -> (r: bool)
    ensures
        r == records_sorted(items@.map_values(|v: Value| v@)),
{
    let ghost view = items@.map_values(|v: Value| v@);
    let n = items.len();
    if n == 0 {
        return true;
    }
    let mut i: usize = 0;
    while i < n - 1
        invariant
            0 <= i <= n - 1,
            n == view.len(),
            n >= 1,
            view == items@.map_values(|v: Value| v@),
            forall|x: int| 0 <= x < i ==> rec_before(#[trigger] view[x], view[x + 1]),
        decreases n - 1 - i,
    {
        let a = &items[i];
        let b = &items[i + 1];
        let here_ok = match crate::value::key_cmp(&a.key, &b.key) {
            crate::value::KeyOrd::Less => true,
            crate::value::KeyOrd::Equal => a.seqno > b.seqno,
            crate::value::KeyOrd::Greater => false,
        };
        if !here_ok {
            proof {
                assert(!rec_before(view[i as int], view[i + 1]));
            }
            return false;
        }
        i += 1;
    }
    proof {
        lemma_adjacent_sorted(view);
    }
    true
}

/// Whether every record of `upper` outranks the same-key records of
/// `lower`.
fn check_pair_ordered(upper: &Vec<Value>, lower: &Vec<Value>) -> (r: bool)
    ensures
        r == pair_ordered(
            upper@.map_values(|v: Value| v@),
            lower@.map_values(|v: Value| v@),
        ),
{
    let ghost uv = upper@.map_values(|v: Value| v@);
    let ghost lv = lower@.map_values(|v: Value| v@);
    let un = upper.len();
    let mut i: usize = 0;
    while i < un
        invariant
            0 <= i <= un,
            un == uv.len(),
            uv == upper@.map_values(|v: Value| v@),
            lv == lower@.map_values(|v: Value| v@),
            forall|x: int, y: int|
                0 <= x < i && 0 <= y < lv.len() && (#[trigger] uv[x]).key == (
                #[trigger] lv[y]).key ==> uv[x].seqno > lv[y].seqno,
        decreases un - i,
    {
        let ln = lower.len();
        let mut j: usize = 0;
        while j < ln
            invariant
                0 <= j <= ln,
                0 <= i < un,
                un == uv.len(),
                ln == lv.len(),
                uv == upper@.map_values(|v: Value| v@),
                lv == lower@.map_values(|v: Value| v@),
                forall|y: int|
                    0 <= y < j && (uv[i as int]).key == (#[trigger] lv[y]).key
                        ==> uv[i as int].seqno > lv[y].seqno,
            decreases ln - j,
        {
            if bytes_eq(&upper[i].key, &lower[j].key) && upper[i].seqno <= lower[j].seqno {
                proof {
                    assert(uv.contains(uv[i as int]));
                    assert(lv.contains(lv[j as int]));
                }
                return false;
            }
            j += 1;
        }
        i += 1;
    }
    proof {
        assert forall|r1: RecordM, r2: RecordM|
            #[trigger] uv.contains(r1) && #[trigger] lv.contains(r2) && r1.key == r2.key implies
            r1.seqno > r2.seqno by {
            let x = choose|x: int| 0 <= x < uv.len() && uv[x] == r1;
            let y = choose|y: int| 0 <= y < lv.len() && lv[y] == r2;
        }
    }
    true
}

impl Tree {
    /// Rebuilds a tree from the recovered parts: the repaired active
    /// journal (path and truncated contents), the memtable its replay
    /// produced, and the segments the manifest names, grouped into levels.
    /// Refuses to open when the parts contradict the tree invariant.  The
    /// sequence counter resumes just past the newest recovered record.
    pub fn recover(
        config: Config,
        journal_path: String,
        journal_contents: Vec<u8>,
        memtable: Memtable,
        levels: Vec<Vec<Segment>>,
    ) -> (r: Result<Tree, OpenError>)
        ensures
            r is Ok <==> (records_sorted(memtable@) && (forall|x: int|
                0 <= x < levels_views(levels@).len() ==> records_sorted(
                    #[trigger] levels_views(levels@)[x],
                )) && layers_ordered(seq![memtable@] + levels_views(levels@)) && (forall|
                l: int,
                rm: RecordM,
            |
                0 <= l < 1 + levels_views(levels@).len() && #[trigger] (seq![memtable@]
                    + levels_views(levels@))[l].contains(rm) ==> rm.seqno < u64::MAX)),
            match r {
                Ok(t) => {
                    &&& t.wf()
                    &&& t.layers() == seq![memtable@] + levels_views(levels@)
                    &&& t.config == config
                    &&& t.open_snapshots == 0
                    &&& t.journal.buf@ == journal_contents@
                    &&& t.journal.synced_len == journal_contents@.len()
                    &&& (forall|l: int, rm: RecordM|
                        0 <= l < t.layers().len() && #[trigger] t.layers()[l].contains(rm)
                            ==> rm.seqno < t.lsn)
                },
                Err(OpenError::UnsortedRun) => !(records_sorted(memtable@) && (forall|x: int|
                    0 <= x < levels_views(levels@).len() ==> records_sorted(
                        #[trigger] levels_views(levels@)[x],
                    ))),
                Err(OpenError::LayerOrderViolation) => !layers_ordered(
                    seq![memtable@] + levels_views(levels@),
                ),
                Err(OpenError::SeqnoExhausted) => exists|l: int, rm: RecordM|
                    0 <= l < 1 + levels_views(levels@).len() && #[trigger] (seq![memtable@]
                        + levels_views(levels@))[l].contains(rm) && rm.seqno == u64::MAX,
                Err(_) => false,
            },
    {
        let ghost ils = seq![memtable@] + levels_views(levels@);
        // Gather one reference per run, newest layer first.
        if !check_run_sorted(&memtable.items) {
            return Err(OpenError::UnsortedRun);
        }
        let level_count = levels.len();
        let mut l: usize = 0;
        proof {
            crate::tree::lemma_levels_views_len(levels@);
            crate::tree::lemma_level_offset_nonneg(levels@, 0);
        }
        while l < level_count
            invariant
                0 <= l <= level_count,
                level_count == levels@.len(),
                levels_views(levels@).len() == crate::tree::level_offset(
                    levels@,
                    level_count as int,
                ),
                crate::tree::level_offset(levels@, l as int) >= 0,
                forall|x: int|
                    0 <= x < crate::tree::level_offset(levels@, l as int) ==> records_sorted(
                        #[trigger] levels_views(levels@)[x],
                    ),
            decreases level_count - l,
        {
            let seg_count = levels[l].len();
            let mut sg: usize = 0;
            while sg < seg_count
                invariant
                    0 <= sg <= seg_count,
                    0 <= l < level_count,
                    level_count == levels@.len(),
                    seg_count == levels@[l as int]@.len(),
                    levels_views(levels@).len() == crate::tree::level_offset(
                        levels@,
                        level_count as int,
                    ),
                    crate::tree::level_offset(levels@, l as int) >= 0,
                    forall|x: int|
                        0 <= x < crate::tree::level_offset(levels@, l as int) + sg
                            ==> records_sorted(#[trigger] levels_views(levels@)[x]),
                decreases seg_count - sg,
            {
                proof {
                    crate::tree::lemma_levels_views_index(levels@, l as int, sg as int);
                }
                if !check_run_sorted(&levels[l][sg].records) {
                    return Err(OpenError::UnsortedRun);
                }
                sg += 1;
            }
            proof {
                assert(crate::tree::level_offset(levels@, l + 1) == crate::tree::level_offset(
                    levels@,
                    l as int,
                ) + seg_count);
                crate::tree::lemma_level_offset_nonneg(levels@, l + 1);
            }
            l += 1;
        }
        proof {
            assert forall|x: int| 0 <= x < ils.len() implies records_sorted(
                #[trigger] ils[x],
            ) by {
                if x == 0 {
                    assert(ils[0] == memtable@);
                } else {
                    assert(ils[x] == levels_views(levels@)[x - 1]);
                }
            }
        }
        // Cross-layer ordering and the seqno bound, via a flat list of runs.
        match Self::assemble(config, journal_path, journal_contents, memtable, levels) {
            Ok(t) => Ok(t),
            Err(e) => Err(e),
        }
    }
}

impl Tree {
    /// Second half of [`Tree::recover`]: with every run known sorted,
    /// checks the cross-layer order and the seqno headroom, then builds
    /// the tree.
    fn assemble(
        config: Config,
        journal_path: String,
        journal_contents: Vec<u8>,
        memtable: Memtable,
        levels: Vec<Vec<Segment>>,
    ) -> (r: Result<Tree, OpenError>)
        requires
            records_sorted(memtable@),
            forall|x: int|
                0 <= x < levels_views(levels@).len() ==> records_sorted(
                    #[trigger] levels_views(levels@)[x],
                ),
        ensures
            r is Ok <==> (layers_ordered(seq![memtable@] + levels_views(levels@)) && (forall|
                l: int,
                rm: RecordM,
            |
                0 <= l < 1 + levels_views(levels@).len() && #[trigger] (seq![memtable@]
                    + levels_views(levels@))[l].contains(rm) ==> rm.seqno < u64::MAX)),
            match r {
                Ok(t) => {
                    &&& t.wf()
                    &&& t.layers() == seq![memtable@] + levels_views(levels@)
                    &&& t.config == config
                    &&& t.open_snapshots == 0
                    &&& t.journal.buf@ == journal_contents@
                    &&& t.journal.synced_len == journal_contents@.len()
                    &&& (forall|l: int, rm: RecordM|
                        0 <= l < t.layers().len() && #[trigger] t.layers()[l].contains(rm)
                            ==> rm.seqno < t.lsn)
                },
                Err(OpenError::LayerOrderViolation) => !layers_ordered(
                    seq![memtable@] + levels_views(levels@),
                ),
                Err(OpenError::SeqnoExhausted) => exists|l: int, rm: RecordM|
                    0 <= l < 1 + levels_views(levels@).len() && #[trigger] (seq![memtable@]
                        + levels_views(levels@))[l].contains(rm) && rm.seqno == u64::MAX,
                Err(_) => false,
            },
    {
        let ghost ils = seq![memtable@] + levels_views(levels@);
        // One reference per run, in layer order.
        let mut runs: Vec<&Vec<Value>> = Vec::new();
        runs.push(&memtable.items);
        proof {
            assert(runs@.len() == 1);
            assert(runs@[0]@.map_values(|v: Value| v@) == ils[0]);
            crate::tree::lemma_levels_views_len(levels@);
            crate::tree::lemma_level_offset_nonneg(levels@, 0);
        }
        let level_count = levels.len();
        let mut l: usize = 0;
        while l < level_count
            invariant
                0 <= l <= level_count,
                level_count == levels@.len(),
                ils == seq![memtable@] + levels_views(levels@),
                ils.len() == 1 + levels_views(levels@).len(),
                levels_views(levels@).len() == crate::tree::level_offset(
                    levels@,
                    level_count as int,
                ),
                crate::tree::level_offset(levels@, l as int) >= 0,
                runs@.len() == 1 + crate::tree::level_offset(levels@, l as int),
                forall|x: int|
                    0 <= x < runs@.len() ==> (#[trigger] runs@[x])@.map_values(|v: Value| v@)
                        == ils[x],
            decreases level_count - l,
        {
            let seg_count = levels[l].len();
            let mut sg: usize = 0;
            while sg < seg_count
                invariant
                    0 <= sg <= seg_count,
                    0 <= l < level_count,
                    level_count == levels@.len(),
                    seg_count == levels@[l as int]@.len(),
                    ils == seq![memtable@] + levels_views(levels@),
                    ils.len() == 1 + levels_views(levels@).len(),
                    levels_views(levels@).len() == crate::tree::level_offset(
                        levels@,
                        level_count as int,
                    ),
                    crate::tree::level_offset(levels@, l as int) >= 0,
                    runs@.len() == 1 + crate::tree::level_offset(levels@, l as int) + sg,
                    forall|x: int|
                        0 <= x < runs@.len() ==> (#[trigger] runs@[x])@.map_values(|v: Value| v@)
                            == ils[x],
                decreases seg_count - sg,
            {
                proof {
                    crate::tree::lemma_levels_views_index(levels@, l as int, sg as int);
                }
                runs.push(&levels[l][sg].records);
                proof {
                    let x = runs@.len() - 1;
                    assert(runs@[x]@.map_values(|v: Value| v@) == levels_views(levels@)[x - 1]);
                    assert(ils[x] == levels_views(levels@)[x - 1]);
                }
                sg += 1;
            }
            proof {
                assert(crate::tree::level_offset(levels@, l + 1) == crate::tree::level_offset(
                    levels@,
                    l as int,
                ) + seg_count);
                crate::tree::lemma_level_offset_nonneg(levels@, l + 1);
            }
            l += 1;
        }
        proof {
            assert(runs@.len() == ils.len());
        }
        // Cross-layer order over every pair of runs.
        let m = runs.len();
        let mut a: usize = 0;
        while a < m
            invariant
                0 <= a <= m,
                m == runs@.len(),
                m == ils.len(),
                ils == seq![memtable@] + levels_views(levels@),
                forall|x: int|
                    0 <= x < m ==> (#[trigger] runs@[x])@.map_values(|v: Value| v@) == ils[x],
                forall|x: int, y: int|
                    0 <= x < a && x < y < m ==> pair_ordered(#[trigger] ils[x], #[trigger] ils[y]),
            decreases m - a,
        {
            let mut b: usize = a + 1;
            while b < m
                invariant
                    0 <= a < m,
                    a < b <= m,
                    m == runs@.len(),
                    m == ils.len(),
                    ils == seq![memtable@] + levels_views(levels@),
                    forall|x: int|
                        0 <= x < m ==> (#[trigger] runs@[x])@.map_values(|v: Value| v@) == ils[x],
                    forall|y: int|
                        a < y < b ==> pair_ordered(ils[a as int], #[trigger] ils[y]),
                decreases m - b,
            {
                if !check_pair_ordered(runs[a], runs[b]) {
                    proof {
                        let (r1, r2) = choose|r1: RecordM, r2: RecordM|
                            #[trigger] ils[a as int].contains(r1)
                                && #[trigger] ils[b as int].contains(r2) && r1.key == r2.key && !(
                            r1.seqno > r2.seqno);
                        assert(ils[a as int].contains(r1) && ils[b as int].contains(r2));
                        assert(!layers_ordered(ils));
                    }
                    return Err(OpenError::LayerOrderViolation);
                }
                b += 1;
            }
            a += 1;
        }
        // Seqno headroom: the counter must resume past every record.
        let mut next_seqno: u64 = 0;
        let mut x: usize = 0;
        while x < m
            invariant
                0 <= x <= m,
                m == runs@.len(),
                m == ils.len(),
                ils == seq![memtable@] + levels_views(levels@),
                forall|z: int|
                    0 <= z < m ==> (#[trigger] runs@[z])@.map_values(|v: Value| v@) == ils[z],
                forall|z: int, rm: RecordM|
                    0 <= z < x && #[trigger] ils[z].contains(rm) ==> rm.seqno < next_seqno,
            decreases m - x,
        {
            let run = runs[x];
            let rn = run.len();
            let mut j: usize = 0;
            while j < rn
                invariant
                    0 <= j <= rn,
                    0 <= x < m,
                    m == runs@.len(),
                    m == ils.len(),
                    ils == seq![memtable@] + levels_views(levels@),
                    rn == runs@[x as int]@.len(),
                    run == runs@[x as int],
                    forall|z: int|
                        0 <= z < m ==> (#[trigger] runs@[z])@.map_values(|v: Value| v@) == ils[z],
                    forall|z: int, rm: RecordM|
                        0 <= z < x && #[trigger] ils[z].contains(rm) ==> rm.seqno < next_seqno,
                    forall|y: int| 0 <= y < j ==> (#[trigger] ils[x as int][y]).seqno < next_seqno,
                decreases rn - j,
            {
                let s = run[j].seqno;
                if s == u64::MAX {
                    proof {
                        assert(ils[x as int][j as int] == runs@[x as int]@[j as int]@);
                        assert(ils[x as int].contains(ils[x as int][j as int]));
                    }
                    return Err(OpenError::SeqnoExhausted);
                }
                if s >= next_seqno {
                    next_seqno = s + 1;
                }
                proof {
                    assert(ils[x as int][j as int] == runs@[x as int]@[j as int]@);
                }
                j += 1;
            }
            proof {
                assert forall|rm: RecordM| #[trigger] ils[x as int].contains(rm) implies rm.seqno
                    < next_seqno by {
                    let y = choose|y: int| 0 <= y < ils[x as int].len() && ils[x as int][y] == rm;
                }
            }
            x += 1;
        }
        let lsn = next_seqno;
        let ghost base = journal_contents@;
        let tree = Tree {
            config,
            journal: JournalShard::from_file(journal_path, journal_contents),
            journal_base: Ghost(base),
            journal_batches: Ghost(Seq::empty()),
            active_memtable: memtable,
            sealed_memtables: Vec::new(),
            levels: Levels { levels },
            lsn,
            open_snapshots: 0,
            approx_active_memtable_size: 0,
            next_id: 0,
        };
        proof {
            // Fix the ghost view of the recovered journal bytes.
            tree.lemma_layer_index();
            assert(tree.sealed_memtables@.map_values(
                |se: crate::tree::SealedMemtable| se.memtable@,
            ).reverse() =~= Seq::<Seq<RecordM>>::empty());
            assert(tree.layers() =~= ils);
            assert forall|i: int| 0 <= i < tree.layers().len() implies records_sorted(
                #[trigger] tree.layers()[i],
            ) by {
                assert(tree.layers()[i] == ils[i]);
            }
            assert(layers_ordered(tree.layers())) by {
                assert forall|l1: int, l2: int, r1: RecordM, r2: RecordM|
                    0 <= l1 < l2 < tree.layers().len() && #[trigger] tree.layers()[l1].contains(
                        r1,
                    ) && #[trigger] tree.layers()[l2].contains(r2) && r1.key == r2.key implies
                    r1.seqno > r2.seqno by {
                    assert(pair_ordered(ils[l1], ils[l2]));
                    assert(ils[l1].contains(r1) && ils[l2].contains(r2));
                }
            }
            assert(seqnos_below(tree.layers(), tree.lsn)) by {
                assert forall|l2: int, rm: RecordM|
                    0 <= l2 < tree.layers().len() && #[trigger] tree.layers()[l2].contains(
                        rm,
                    ) implies rm.seqno < tree.lsn by {
                    assert(ils[l2].contains(rm));
                }
            }
            assert(tree.journal.buf@ =~= tree.journal_base@ + crate::journal::journal_bytes(
                tree.journal_batches@,
            ));
            assert forall|l2: int, rm: RecordM|
                0 <= l2 < ils.len() && #[trigger] ils[l2].contains(rm) implies rm.seqno
                < u64::MAX by {
                assert(rm.seqno < next_seqno);
            }
        }
        Ok(tree)
    }
}

} // verus!
