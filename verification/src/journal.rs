//! The write-ahead journal.
//!
//! A shard is an append-only byte stream of CRC-framed batches.  Writers
//! append whole batches under the shard lock, so the stream is a
//! concatenation of batch encodings, possibly followed by a torn tail after
//! a crash.  Recovery walks the markers, applies every complete batch whose
//! checksum holds, and truncates the stream at the last valid position.

use crate::crc::{crc32, crc32_of};
use crate::marker::{parse_marker, DeserializeError, ParseOutcome};
use crate::memtable::{same_slot, Memtable};
use crate::value::{RecordM, Value};
use crate::marker::{item_bytes, item_wf, marker_bytes, ItemM, JournalItem, Marker, MarkerM};
use vstd::prelude::*;

verus! {

/// One committed batch: a shared seqno and its writes in order.
pub struct BatchM {
    pub seqno: u64,
    pub items: Seq<ItemM>,
}

/// A batch small enough to encode: the item count and every length prefix
/// fit 32 bits.
pub open spec fn batch_wf(b: BatchM) -> bool {
    &&& b.items.len() < 0x1_0000_0000
    &&& forall|i: int| 0 <= i < b.items.len() ==> item_wf(#[trigger] b.items[i])
}

/// The concatenated encodings of a batch's items, in order; the batch
/// checksum covers exactly these bytes.
pub open spec fn items_bytes(items: Seq<ItemM>) -> Seq<u8>
    decreases items.len(),
{
    if items.len() == 0 {
        Seq::empty()
    } else {
        items_bytes(items.drop_last()) + item_bytes(items.last())
    }
}

/// The encoding of a whole batch: `Start`, the items, then `End` carrying
/// the checksum of the item bytes.
pub open spec fn batch_bytes(b: BatchM) -> Seq<u8> {
    marker_bytes(MarkerM::Start { item_count: b.items.len() as u32, seqno: b.seqno })
        + items_bytes(b.items) + marker_bytes(MarkerM::End(crc32_of(items_bytes(b.items))))
}

/// The byte stream of a sequence of committed batches.
pub open spec fn journal_bytes(batches: Seq<BatchM>) -> Seq<u8>
    decreases batches.len(),
{
    if batches.len() == 0 {
        Seq::empty()
    } else {
        journal_bytes(batches.drop_last()) + batch_bytes(batches.last())
    }
}

/// One shard of the journal: the bytes of the backing file, how much of
/// them is known durable, and whether a sync is owed.
#[derive(Debug)]
pub struct JournalShard {
    /// Where the backing file lives.
    pub path: String,
    /// The bytes of the backing file, in order of appending.
    pub buf: Vec<u8>,
    /// The prefix of `buf` known to have reached disk.
    pub synced_len: usize,
    /// Whether bytes were appended since the last sync.
    pub should_sync: bool,
}

impl JournalShard {
    /// A sync never covers more than what was written.
    pub open spec fn wf(&self) -> bool {
        self.synced_len <= self.buf@.len()
    }

    /// Creates a shard over a fresh, empty file.
    pub fn create_new(path: String) -> (r: JournalShard)
        ensures
            r.path == path,
            r.buf@ == Seq::<u8>::empty(),
            r.synced_len == 0,
            r.should_sync == false,
            r.wf(),
    {
        JournalShard { path, buf: Vec::new(), synced_len: 0, should_sync: false }
    }

    /// Reopens a shard over a file whose bytes are `contents`; everything
    /// in the file is already durable.
    pub fn from_file(path: String, contents: Vec<u8>) -> (r: JournalShard)
        ensures
            r.path == path,
            r.buf@ == contents@,
            r.synced_len == contents@.len(),
            r.should_sync == false,
            r.wf(),
    {
        let synced_len = contents.len();
        JournalShard { path, buf: contents, synced_len, should_sync: false }
    }

    /// Closes the current file and starts a fresh one at `path`.  The old
    /// file is synced before it is closed, so rotation never discards
    /// bytes: the caller flushes first.
    pub fn rotate(&mut self, path: String)
        requires
            old(self).synced_len == old(self).buf@.len(),
        ensures
            final(self).buf@ == Seq::<u8>::empty(),
            final(self).synced_len == 0,
            final(self).should_sync == false,
            final(self).path == path,
            final(self).wf(),
    {
        self.should_sync = false;
        self.path = path;
        self.buf = Vec::new();
        self.synced_len = 0;
    }

    /// Marks everything appended so far as durable.  The caller syncs the
    /// backing file before relying on this.
    pub fn flush(&mut self)
        ensures
            final(self).buf@ == old(self).buf@,
            final(self).synced_len == old(self).buf@.len(),
            final(self).should_sync == false,
            final(self).path == old(self).path,
            final(self).wf(),
    {
        self.synced_len = self.buf.len();
        self.should_sync = false;
    }

    /// The number of bytes the shard holds.
    pub fn disk_size(&self) -> (r: usize)
        ensures
            r == self.buf@.len(),
    {
        self.buf.len()
    }

    /// Appends one whole batch: `Start`, the items, `End` with the checksum
    /// of the item bytes.  Returns the number of bytes appended.
    pub fn write_batch(&mut self, items: &Vec<JournalItem>, seqno: u64) -> (written: usize)
        requires
            items@.len() < 0x1_0000_0000,
            forall|i: int| 0 <= i < items@.len() ==> item_wf(#[trigger] items@[i]@),
        ensures
            final(self).buf@ == old(self).buf@ + batch_bytes(
                BatchM { seqno, items: items@.map_values(|x: JournalItem| x@) },
            ),
            written == batch_bytes(
                BatchM { seqno, items: items@.map_values(|x: JournalItem| x@) },
            ).len(),
            final(self).synced_len == old(self).synced_len,
            final(self).should_sync == true,
            final(self).path == old(self).path,
            old(self).wf() ==> final(self).wf(),
    {
        let ghost itemsm = items@.map_values(|x: JournalItem| x@);
        let ghost base = self.buf@;
        let start_len = self.buf.len();
        #[verifier::truncate]
        let count = items.len() as u32;
        let start_marker = Marker::Start { item_count: count, seqno };
        start_marker.serialize(&mut self.buf);
        let ghost start_bytes = marker_bytes(MarkerM::Start { item_count: count, seqno });
        let mut crc_buf: Vec<u8> = Vec::new();
        let n = items.len();
        let mut i: usize = 0;
        while i < n
            invariant
                0 <= i <= n,
                n == items@.len(),
                n < 0x1_0000_0000,
                forall|k: int| 0 <= k < items@.len() ==> item_wf(#[trigger] items@[k]@),
                itemsm == items@.map_values(|x: JournalItem| x@),
                crc_buf@ == items_bytes(itemsm.subrange(0, i as int)),
                self.buf@ == base + start_bytes + items_bytes(itemsm.subrange(0, i as int)),
                self.synced_len == old(self).synced_len,
                self.path == old(self).path,
            decreases n - i,
        {
            let enc = items[i].encoded();
            crate::marker::append_bytes(&mut self.buf, &enc);
            crate::marker::append_bytes(&mut crc_buf, &enc);
            proof {
                let pre = itemsm.subrange(0, i as int);
                let cur = itemsm.subrange(0, i + 1);
                assert(cur.drop_last() =~= pre);
                assert(cur.last() == itemsm[i as int]);
                assert(items_bytes(cur) == items_bytes(pre) + item_bytes(itemsm[i as int]));
            }
            i += 1;
        }
        proof {
            assert(itemsm.subrange(0, n as int) =~= itemsm);
        }
        let crc = crc32(&crc_buf);
        let end_marker = Marker::End(crc);
        end_marker.serialize(&mut self.buf);
        self.should_sync = true;
        proof {
            assert(itemsm.len() as u32 == count);
            assert(self.buf@ =~= base + batch_bytes(BatchM { seqno, items: itemsm }));
        }
        self.buf.len() - start_len
    }

    /// Appends a batch of one item.
    pub fn write(&mut self, item: &JournalItem, seqno: u64) -> (written: usize)
        requires
            item_wf(item@),
        ensures
            final(self).buf@ == old(self).buf@ + batch_bytes(BatchM { seqno, items: seq![item@] }),
            written == batch_bytes(BatchM { seqno, items: seq![item@] }).len(),
            final(self).synced_len == old(self).synced_len,
            final(self).should_sync == true,
            final(self).path == old(self).path,
            old(self).wf() ==> final(self).wf(),
    {
        let mut items: Vec<JournalItem> = Vec::new();
        items.push(item.duplicate());
        let written = self.write_batch(&items, seqno);
        proof {
            assert(items@.map_values(|x: JournalItem| x@) =~= seq![item@]);
        }
        written
    }
}

// ---------------------------------------------------------------------------
// Recovery: specification
// ---------------------------------------------------------------------------
/// Errors that can end journal recovery.
#[derive(Clone, Copy, Debug, PartialEq, Eq, Structural)]
pub enum RecoveryError {
    /// A batch closed with fewer items than its `Start` announced.
    InsufficientLength,
    /// A batch was never closed.
    MissingTerminator,
    /// A batch carried more items than its `Start` announced.
    TooManyItems,
    /// A batch's stored checksum does not match its items.
    CrcCheck,
}

/// Everything recovery can surface to the caller.
#[derive(Clone, Copy, Debug, PartialEq, Eq, Structural)]
pub enum RecoverFault {
    /// The marker stream violated the batch protocol.
    JournalRecovery(RecoveryError),
    /// A marker could not be read at all.
    Deserialize(crate::marker::DeserializeError),
}

/// One write that recovery applied: the partition and the record.
pub struct AppliedM {
    pub partition: Seq<u8>,
    pub record: RecordM,
}

/// Whether a whitelist admits a partition; no whitelist admits all.
pub open spec fn admits(wl: Option<Seq<Seq<u8>>>, p: Seq<u8>) -> bool {
    match wl {
        None => true,
        Some(l) => l.contains(p),
    }
}

/// The writes a valid batch contributes, in order, keeping only admitted
/// partitions; every item carries the batch's seqno.
pub open spec fn apply_items(pending: Seq<ItemM>, seqno: u64, wl: Option<Seq<Seq<u8>>>) -> Seq<
    AppliedM,
>
    decreases pending.len(),
{
    if pending.len() == 0 {
        Seq::empty()
    } else {
        let rest = apply_items(pending.drop_last(), seqno, wl);
        let it = pending.last();
        if admits(wl, it.partition) {
            rest.push(
                AppliedM {
                    partition: it.partition,
                    record: RecordM {
                        key: it.key,
                        value: it.value,
                        seqno,
                        tombstone: it.tombstone,
                    },
                },
            )
        } else {
            rest
        }
    }
}

/// What recovering a byte stream yields.
pub enum RecoveryResultM {
    /// The applied writes in order, and the position the stream is
    /// truncated to (the end of the last valid batch).
    Recovered { applied: Seq<AppliedM>, truncate_to: int },
    /// Recovery failed on a protocol violation.
    Failed(RecoveryError),
    /// Recovery failed on an unreadable marker.
    Rejected(u8),
}

/// The recovery state machine, from `pos` with the given batch state.
///
/// It mirrors what a reader does: a torn or misplaced marker truncates the
/// stream to `last_valid`; a malformed batch fails; a complete batch whose
/// checksum holds is applied and advances `last_valid`.
pub open spec fn run_recovery(
    bytes: Seq<u8>,
    wl: Option<Seq<Seq<u8>>>,
    pos: int,
    last_valid: int,
    applied: Seq<AppliedM>,
    in_batch: bool,
    remaining: u32,
    batch_seqno: u64,
    crc_bytes: Seq<u8>,
    pending: Seq<ItemM>,
) -> RecoveryResultM
    recommends
        0 <= pos <= bytes.len(),
    decreases bytes.len() - pos,
{
    match parse_marker(bytes, pos) {
        ParseOutcome::Eof => RecoveryResultM::Recovered { applied, truncate_to: last_valid },
        ParseOutcome::BadTag(t) => RecoveryResultM::Rejected(t),
        ParseOutcome::Parsed(m, end) => if !(pos < end <= bytes.len()) {
            // A parsed marker always advances; this arm is never taken.
            RecoveryResultM::Recovered { applied, truncate_to: last_valid }
        } else {
            match m {
                MarkerM::Start { item_count, seqno } => if in_batch {
                    RecoveryResultM::Recovered { applied, truncate_to: last_valid }
                } else {
                    run_recovery(
                        bytes,
                        wl,
                        end,
                        last_valid,
                        applied,
                        true,
                        item_count,
                        seqno,
                        Seq::empty(),
                        Seq::empty(),
                    )
                },
                MarkerM::Item(it) => if !in_batch {
                    RecoveryResultM::Recovered { applied, truncate_to: last_valid }
                } else if remaining == 0 {
                    RecoveryResultM::Failed(RecoveryError::TooManyItems)
                } else {
                    run_recovery(
                        bytes,
                        wl,
                        end,
                        last_valid,
                        applied,
                        true,
                        (remaining - 1) as u32,
                        batch_seqno,
                        crc_bytes + item_bytes(it),
                        pending.push(it),
                    )
                },
                MarkerM::End(crc) => if in_batch && remaining > 0 {
                    RecoveryResultM::Failed(RecoveryError::InsufficientLength)
                } else if !in_batch {
                    RecoveryResultM::Recovered { applied, truncate_to: last_valid }
                } else if crc != crc32_of(crc_bytes) {
                    RecoveryResultM::Failed(RecoveryError::CrcCheck)
                } else {
                    run_recovery(
                        bytes,
                        wl,
                        end,
                        end,
                        applied + apply_items(pending, batch_seqno, wl),
                        false,
                        0,
                        batch_seqno,
                        Seq::empty(),
                        Seq::empty(),
                    )
                },
            }
        },
    }
}

/// Recovery of a whole stream, from a clean start.
pub open spec fn spec_recover(bytes: Seq<u8>, wl: Option<Seq<Seq<u8>>>) -> RecoveryResultM {
    run_recovery(bytes, wl, 0, 0, Seq::empty(), false, 0, 0, Seq::empty(), Seq::empty())
}

/// The records a partition ends up holding after replaying `applied` over
/// `base`: later writes to the same key and seqno replace earlier ones.
pub open spec fn set_after_applies(base: Set<RecordM>, applied: Seq<AppliedM>, p: Seq<u8>) -> Set<
    RecordM,
>
    decreases applied.len(),
{
    if applied.len() == 0 {
        base
    } else {
        let rest = set_after_applies(base, applied.drop_last(), p);
        let a = applied.last();
        if a.partition == p {
            rest.filter(|x: RecordM| !same_slot(x, a.record)).insert(a.record)
        } else {
            rest
        }
    }
}

/// The records a partition holds after replaying `applied` from nothing.
pub open spec fn replayed(applied: Seq<AppliedM>, p: Seq<u8>) -> Set<RecordM> {
    set_after_applies(Set::empty(), applied, p)
}

/// Replaying a concatenation replays the parts in order.
pub proof fn lemma_saa_append(base: Set<RecordM>, s1: Seq<AppliedM>, s2: Seq<AppliedM>, p: Seq<u8>)
    ensures
        set_after_applies(base, s1 + s2, p) == set_after_applies(
            set_after_applies(base, s1, p),
            s2,
            p,
        ),
    decreases s2.len(),
{
    if s2.len() == 0 {
        assert(s1 + s2 =~= s1);
    } else {
        lemma_saa_append(base, s1, s2.drop_last(), p);
        assert((s1 + s2).drop_last() =~= s1 + s2.drop_last());
        assert((s1 + s2).last() == s2.last());
    }
}

// ---------------------------------------------------------------------------
// Recovery: per-partition memtables
// ---------------------------------------------------------------------------
/// The records of the memtable entered under partition `p`, or nothing.
pub open spec fn assoc_records(entries: Seq<(Vec<u8>, Memtable)>, p: Seq<u8>) -> Seq<RecordM>
    decreases entries.len(),
{
    if entries.len() == 0 {
        Seq::empty()
    } else if entries[0].0@ == p {
        entries[0].1@
    } else {
        assoc_records(entries.drop_first(), p)
    }
}

/// Some entry of the table is named `p`.
pub open spec fn has_key(cur: Seq<(Vec<u8>, Memtable)>, p: Seq<u8>) -> bool {
    exists|k: int| 0 <= k < cur.len() && (#[trigger] cur[k]).0@ == p
}

/// Every partition named in `base` is still named in `cur`.
pub open spec fn keys_subset(base: Seq<(Vec<u8>, Memtable)>, cur: Seq<(Vec<u8>, Memtable)>) -> bool {
    forall|j: int| 0 <= j < base.len() ==> has_key(cur, (#[trigger] base[j]).0@)
}

/// A well-formed partition table: one entry per partition, each memtable
/// well-formed.
pub open spec fn mts_wf(entries: Seq<(Vec<u8>, Memtable)>) -> bool {
    &&& forall|i: int, j: int|
        0 <= i < j < entries.len() ==> (#[trigger] entries[i]).0@ != (#[trigger] entries[j]).0@
    &&& forall|i: int| 0 <= i < entries.len() ==> (#[trigger] entries[i]).1.wf()
}

/// The entry at `i` is what `assoc_records` finds for its partition.
pub proof fn lemma_assoc_of_index(entries: Seq<(Vec<u8>, Memtable)>, i: int)
    requires
        0 <= i < entries.len(),
        forall|a: int, b: int|
            0 <= a < b < entries.len() ==> (#[trigger] entries[a]).0@ != (#[trigger] entries[b]).0@,
    ensures
        assoc_records(entries, entries[i].0@) == entries[i].1@,
    decreases entries.len(),
{
    if i == 0 {
    } else {
        assert(entries[0].0@ != entries[i].0@);
        assert forall|a: int, b: int|
            0 <= a < b < entries.drop_first().len() implies (#[trigger] entries.drop_first()[a]).0@
            != (#[trigger] entries.drop_first()[b]).0@ by {
            assert(entries.drop_first()[a] == entries[a + 1]);
            assert(entries.drop_first()[b] == entries[b + 1]);
        }
        assert(entries.drop_first()[i - 1] == entries[i]);
        lemma_assoc_of_index(entries.drop_first(), i - 1);
    }
}

/// A partition no entry carries has no records.
pub proof fn lemma_assoc_absent(entries: Seq<(Vec<u8>, Memtable)>, p: Seq<u8>)
    requires
        forall|i: int| 0 <= i < entries.len() ==> (#[trigger] entries[i]).0@ != p,
    ensures
        assoc_records(entries, p) == Seq::<RecordM>::empty(),
    decreases entries.len(),
{
    if entries.len() > 0 {
        assert(entries[0].0@ != p);
        assert forall|i: int| 0 <= i < entries.drop_first().len() implies (
        #[trigger] entries.drop_first()[i]).0@ != p by {
            assert(entries.drop_first()[i] == entries[i + 1]);
        }
        lemma_assoc_absent(entries.drop_first(), p);
    }
}

/// Replacing the memtable of entry `i` changes only that partition.
pub proof fn lemma_assoc_update(
    entries: Seq<(Vec<u8>, Memtable)>,
    entries2: Seq<(Vec<u8>, Memtable)>,
    i: int,
)
    requires
        0 <= i < entries.len(),
        entries2.len() == entries.len(),
        entries2[i].0@ == entries[i].0@,
        forall|j: int| 0 <= j < entries.len() && j != i ==> entries2[j] == entries[j],
        forall|a: int, b: int|
            0 <= a < b < entries.len() ==> (#[trigger] entries[a]).0@ != (#[trigger] entries[b]).0@,
    ensures
        assoc_records(entries2, entries[i].0@) == entries2[i].1@,
        forall|p: Seq<u8>| p != entries[i].0@ ==> assoc_records(entries2, p) == assoc_records(
            entries,
            p,
        ),
    decreases entries.len(),
{
    assert forall|a: int, b: int| 0 <= a < b < entries2.len() implies (#[trigger] entries2[a]).0@
        != (#[trigger] entries2[b]).0@ by {
        assert(entries2[a].0@ == entries[a].0@ && entries2[b].0@ == entries[b].0@);
    }
    lemma_assoc_of_index(entries2, i);
    assert(entries2[i].0@ == entries[i].0@);
    assert forall|p: Seq<u8>| p != entries[i].0@ implies assoc_records(entries2, p)
        == assoc_records(entries, p) by {
        lemma_assoc_other(entries, entries2, i, p);
    }
}

/// Helper: for a partition other than entry `i`'s, the lookup ignores the
/// replaced entry.
proof fn lemma_assoc_other(
    entries: Seq<(Vec<u8>, Memtable)>,
    entries2: Seq<(Vec<u8>, Memtable)>,
    i: int,
    p: Seq<u8>,
)
    requires
        0 <= i < entries.len(),
        entries2.len() == entries.len(),
        entries2[i].0@ == entries[i].0@,
        forall|j: int| 0 <= j < entries.len() && j != i ==> entries2[j] == entries[j],
        p != entries[i].0@,
    ensures
        assoc_records(entries2, p) == assoc_records(entries, p),
    decreases entries.len(),
{
    if entries.len() > 0 {
        if i == 0 {
            assert(entries2[0].0@ == entries[0].0@);
            assert(entries[0].0@ != p);
            assert(entries.drop_first() =~= entries2.drop_first()) by {
                assert forall|j: int| 0 <= j < entries.drop_first().len() implies entries
                    .drop_first()[j] == entries2.drop_first()[j] by {
                    assert(entries.drop_first()[j] == entries[j + 1]);
                    assert(entries2.drop_first()[j] == entries2[j + 1]);
                }
            }
        } else {
            assert(entries2[0] == entries[0]);
            if entries[0].0@ != p {
                assert forall|j: int|
                    0 <= j < entries.drop_first().len() && j != i - 1 implies entries2.drop_first()[j]
                    == entries.drop_first()[j] by {
                    assert(entries.drop_first()[j] == entries[j + 1]);
                    assert(entries2.drop_first()[j] == entries2[j + 1]);
                }
                assert(entries2.drop_first()[i - 1].0@ == entries.drop_first()[i - 1].0@) by {
                    assert(entries.drop_first()[i - 1] == entries[i]);
                    assert(entries2.drop_first()[i - 1] == entries2[i]);
                }
                lemma_assoc_other(entries.drop_first(), entries2.drop_first(), i - 1, p);
            }
        }
    }
}

/// Appending a fresh entry serves its partition and leaves the rest alone.
pub proof fn lemma_assoc_push(entries: Seq<(Vec<u8>, Memtable)>, entry: (Vec<u8>, Memtable))
    requires
        forall|i: int| 0 <= i < entries.len() ==> (#[trigger] entries[i]).0@ != entry.0@,
    ensures
        assoc_records(entries.push(entry), entry.0@) == entry.1@,
        forall|p: Seq<u8>| p != entry.0@ ==> assoc_records(entries.push(entry), p) == assoc_records(
            entries,
            p,
        ),
    decreases entries.len(),
{
    let pushed = entries.push(entry);
    if entries.len() == 0 {
        assert(pushed[0] == entry);
        assert forall|p: Seq<u8>| p != entry.0@ implies assoc_records(pushed, p) == assoc_records(
            entries,
            p,
        ) by {
            assert(pushed.drop_first() =~= Seq::<(Vec<u8>, Memtable)>::empty());
            assert(assoc_records(pushed, p) == assoc_records(pushed.drop_first(), p));
            assert(assoc_records(pushed.drop_first(), p) == Seq::<RecordM>::empty());
            assert(assoc_records(entries, p) == Seq::<RecordM>::empty());
        }
    } else {
        assert(pushed[0] == entries[0]);
        assert(entries[0].0@ != entry.0@);
        assert(pushed.drop_first() =~= entries.drop_first().push(entry)) by {
            assert forall|j: int| 0 <= j < pushed.drop_first().len() implies pushed.drop_first()[j]
                == entries.drop_first().push(entry)[j] by {
                assert(pushed.drop_first()[j] == pushed[j + 1]);
                if j < entries.len() - 1 {
                    assert(entries.drop_first().push(entry)[j] == entries[j + 1]);
                } else {
                    assert(entries.drop_first().push(entry)[j] == entry);
                }
            }
        }
        assert forall|i: int| 0 <= i < entries.drop_first().len() implies (
        #[trigger] entries.drop_first()[i]).0@ != entry.0@ by {
            assert(entries.drop_first()[i] == entries[i + 1]);
        }
        lemma_assoc_push(entries.drop_first(), entry);
        assert(assoc_records(pushed, entry.0@) == assoc_records(
            entries.drop_first().push(entry),
            entry.0@,
        ));
        assert forall|p: Seq<u8>| p != entry.0@ implies assoc_records(pushed, p) == assoc_records(
            entries,
            p,
        ) by {
            if entries[0].0@ == p {
                assert(assoc_records(pushed, p) == entries[0].1@);
                assert(assoc_records(entries, p) == entries[0].1@);
            } else {
                assert(assoc_records(pushed, p) == assoc_records(
                    entries.drop_first().push(entry),
                    p,
                ));
                assert(assoc_records(entries.drop_first().push(entry), p) == assoc_records(
                    entries.drop_first(),
                    p,
                ));
                assert(assoc_records(entries, p) == assoc_records(entries.drop_first(), p));
            }
        }
    }
}

// ---------------------------------------------------------------------------
// Recovery: executable
// ---------------------------------------------------------------------------
/// The view of an optional whitelist of partitions.
pub open spec fn wl_view(w: Option<&Vec<Vec<u8>>>) -> Option<Seq<Seq<u8>>> {
    match w {
        None => None,
        Some(v) => Some(v@.map_values(|x: Vec<u8>| x@)),
    }
}

/// Whether the whitelist admits partition `p`.
fn admitted(whitelist: Option<&Vec<Vec<u8>>>, p: &Vec<u8>) -> (r: bool)
    ensures
        r == admits(wl_view(whitelist), p@),
{
    match whitelist {
        None => true,
        Some(list) => {
            let n = list.len();
            let mut i: usize = 0;
            while i < n
                invariant
                    0 <= i <= n,
                    n == list@.len(),
                    whitelist == Some(list),
                    forall|j: int| 0 <= j < i ==> (#[trigger] list@[j])@ != p@,
                decreases n - i,
            {
                if crate::value::bytes_eq(&list[i], p) {
                    proof {
                        let lv = wl_view(whitelist).unwrap();
                        assert(lv[i as int] == (list@[i as int])@);
                        assert(lv.contains(p@)) by {
                            assert(lv[i as int] == p@);
                        }
                    }
                    return true;
                }
                i += 1;
            }
            proof {
                let lv = wl_view(whitelist).unwrap();
                if lv.contains(p@) {
                    let j = choose|j: int| 0 <= j < lv.len() && lv[j] == p@;
                    assert(lv[j] == (list@[j])@);
                    assert((list@[j])@ != p@);
                }
            }
            false
        },
    }
}

/// The index of the entry for partition `p`, if one exists.
fn find_partition(memtables: &Vec<(Vec<u8>, Memtable)>, p: &Vec<u8>) -> (r: Option<usize>)
    ensures
        match r {
            Some(i) => i < memtables@.len() && memtables@[i as int].0@ == p@,
            None => forall|j: int|
                0 <= j < memtables@.len() ==> (#[trigger] memtables@[j]).0@ != p@,
        },
{
    let n = memtables.len();
    let mut i: usize = 0;
    while i < n
        invariant
            0 <= i <= n,
            n == memtables@.len(),
            forall|j: int| 0 <= j < i ==> (#[trigger] memtables@[j]).0@ != p@,
        decreases n - i,
    {
        if crate::value::bytes_eq(&memtables[i].0, p) {
            return Some(i);
        }
        i += 1;
    }
    None
}

/// Applies one valid batch to the partition tables: every admitted item is
/// inserted, under the batch's seqno, into its partition's memtable.
fn apply_batch(
    memtables: &mut Vec<(Vec<u8>, Memtable)>,
    pending: &Vec<JournalItem>,
    seqno: u64,
    whitelist: Option<&Vec<Vec<u8>>>,
)
    requires
        mts_wf(old(memtables)@),
    ensures
        mts_wf(final(memtables)@),
        keys_subset(old(memtables)@, final(memtables)@),
        forall|p: Seq<u8>, rm: RecordM| #[trigger]
            assoc_records(final(memtables)@, p).contains(rm) <==> set_after_applies(
                assoc_records(old(memtables)@, p).to_set(),
                apply_items(pending@.map_values(|x: JournalItem| x@), seqno, wl_view(whitelist)),
                p,
            ).contains(rm),
{
    let ghost pendm = pending@.map_values(|x: JournalItem| x@);
    let ghost wl = wl_view(whitelist);
    let ghost base = old(memtables)@;
    proof {
        assert(keys_subset(base, memtables@)) by {
            assert forall|j: int| 0 <= j < base.len() implies has_key(
                memtables@,
                (#[trigger] base[j]).0@,
            ) by {
                assert(memtables@[j].0@ == base[j].0@);
            }
        }
        assert(apply_items(pendm.subrange(0, 0), seqno, wl) =~= Seq::<AppliedM>::empty());
    }
    let n = pending.len();
    let mut i: usize = 0;
    while i < n
        invariant
            0 <= i <= n,
            n == pendm.len(),
            pendm == pending@.map_values(|x: JournalItem| x@),
            wl == wl_view(whitelist),
            base == old(memtables)@,
            mts_wf(memtables@),
            mts_wf(base),
            keys_subset(base, memtables@),
            forall|p: Seq<u8>, rm: RecordM| #[trigger]
                assoc_records(memtables@, p).contains(rm) <==> set_after_applies(
                    assoc_records(base, p).to_set(),
                    apply_items(pendm.subrange(0, i as int), seqno, wl),
                    p,
                ).contains(rm),
        decreases n - i,
    {
        let ghost pre_mts = memtables@;
        let ghost ap_pre = apply_items(pendm.subrange(0, i as int), seqno, wl);
        let it = &pending[i];
        let is_admitted = admitted(whitelist, &it.partition);
        proof {
            let cur = pendm.subrange(0, i + 1);
            assert(cur.drop_last() =~= pendm.subrange(0, i as int));
            assert(cur.last() == pendm[i as int]);
            assert(pendm[i as int] == it@);
        }
        if is_admitted {
            let ghost a = AppliedM {
                partition: it.partition@,
                record: RecordM {
                    key: it.key@,
                    value: it.value@,
                    seqno,
                    tombstone: it.value_type is Tombstone,
                },
            };
            proof {
                assert(apply_items(pendm.subrange(0, i + 1), seqno, wl) == ap_pre.push(a));
            }
            let rec = Value {
                key: crate::value::copy_bytes(&it.key),
                value: crate::value::copy_bytes(&it.value),
                seqno,
                value_type: it.value_type,
            };
            proof {
                assert(rec@ == a.record);
            }
            match find_partition(memtables, &it.partition) {
                Some(idx) => {
                    let pair = memtables.remove(idx);
                    let name = pair.0;
                    let mut mt = pair.1;
                    let ghost old_mt = mt@;
                    proof {
                        assert(pre_mts[idx as int].1.wf());
                        lemma_assoc_of_index(pre_mts, idx as int);
                    }
                    mt.insert(rec);
                    let ghost new_mt = mt@;
                    memtables.insert(idx, (name, mt));
                    proof {
                        assert(memtables@ =~= pre_mts.update(idx as int, memtables@[idx as int]));
                        assert(memtables@[idx as int].0@ == pre_mts[idx as int].0@);
                        assert(memtables@[idx as int].1@ == new_mt);
                        lemma_assoc_update(pre_mts, memtables@, idx as int);
                        assert forall|p: Seq<u8>, rm: RecordM| #[trigger]
                            assoc_records(memtables@, p).contains(rm) <==> set_after_applies(
                                assoc_records(base, p).to_set(),
                                ap_pre.push(a),
                                p,
                            ).contains(rm) by {
                            let saa_pre = set_after_applies(
                                assoc_records(base, p).to_set(),
                                ap_pre,
                                p,
                            );
                            assert(ap_pre.push(a).drop_last() =~= ap_pre);
                            assert(ap_pre.push(a).last() == a);
                            if p == a.partition {
                                assert(assoc_records(memtables@, p) == new_mt);
                                assert(assoc_records(pre_mts, p) == old_mt);
                                assert(set_after_applies(
                                    assoc_records(base, p).to_set(),
                                    ap_pre.push(a),
                                    p,
                                ) == saa_pre.filter(|x: RecordM| !same_slot(x, a.record)).insert(
                                    a.record,
                                ));
                            } else {
                                assert(assoc_records(memtables@, p) == assoc_records(pre_mts, p));
                                assert(set_after_applies(
                                    assoc_records(base, p).to_set(),
                                    ap_pre.push(a),
                                    p,
                                ) == saa_pre);
                            }
                        }
                        assert(mts_wf(memtables@)) by {
                            assert forall|x: int, y: int|
                                0 <= x < y < memtables@.len() implies (
                            #[trigger] memtables@[x]).0@ != (#[trigger] memtables@[y]).0@ by {
                                assert(memtables@[x].0@ == pre_mts[x].0@);
                                assert(memtables@[y].0@ == pre_mts[y].0@);
                            }
                            assert forall|x: int|
                                0 <= x < memtables@.len() implies (
                            #[trigger] memtables@[x]).1.wf() by {
                                if x != idx {
                                    assert(memtables@[x] == pre_mts[x]);
                                }
                            }
                        }
                    }
                },
                None => {
                    let mut mt = Memtable::new();
                    mt.insert(rec);
                    let ghost new_mt = mt@;
                    let name = crate::value::copy_bytes(&it.partition);
                    memtables.push((name, mt));
                    proof {
                        let tup = memtables@.last();
                        assert(memtables@ == pre_mts.push(tup));
                        assert(tup.0@ == a.partition);
                        assert(tup.1@ == new_mt);
                        lemma_assoc_push(pre_mts, tup);
                        lemma_assoc_absent(pre_mts, a.partition);
                        // Absent now means absent in the starting table as well.
                        assert forall|j: int|
                            0 <= j < base.len() implies (#[trigger] base[j]).0@ != a.partition by {
                            if base[j].0@ == a.partition {
                                assert(has_key(pre_mts, base[j].0@));
                                let k = choose|k: int|
                                    0 <= k < pre_mts.len() && (#[trigger] pre_mts[k]).0@ == base[j].0@;
                                assert(pre_mts[k].0@ != a.partition);
                            }
                        }
                        lemma_assoc_absent(base, a.partition);
                        assert forall|p: Seq<u8>, rm: RecordM| #[trigger]
                            assoc_records(memtables@, p).contains(rm) <==> set_after_applies(
                                assoc_records(base, p).to_set(),
                                ap_pre.push(a),
                                p,
                            ).contains(rm) by {
                            let saa_pre = set_after_applies(
                                assoc_records(base, p).to_set(),
                                ap_pre,
                                p,
                            );
                            assert(ap_pre.push(a).drop_last() =~= ap_pre);
                            assert(ap_pre.push(a).last() == a);
                            if p == a.partition {
                                assert(assoc_records(memtables@, p) == new_mt);
                                assert(assoc_records(pre_mts, p) =~= Seq::<RecordM>::empty());
                                assert(set_after_applies(
                                    assoc_records(base, p).to_set(),
                                    ap_pre.push(a),
                                    p,
                                ) == saa_pre.filter(|x: RecordM| !same_slot(x, a.record)).insert(
                                    a.record,
                                ));
                                assert forall|rm2: RecordM| !saa_pre.contains(rm2) by {
                                    assert(!assoc_records(pre_mts, p).contains(rm2));
                                }
                            } else {
                                assert(assoc_records(memtables@, p) == assoc_records(pre_mts, p));
                                assert(set_after_applies(
                                    assoc_records(base, p).to_set(),
                                    ap_pre.push(a),
                                    p,
                                ) == saa_pre);
                            }
                        }
                        assert(mts_wf(memtables@)) by {
                            assert forall|x: int, y: int|
                                0 <= x < y < memtables@.len() implies (
                            #[trigger] memtables@[x]).0@ != (#[trigger] memtables@[y]).0@ by {
                                if y < pre_mts.len() {
                                    assert(memtables@[x] == pre_mts[x]);
                                    assert(memtables@[y] == pre_mts[y]);
                                } else {
                                    assert(memtables@[x] == pre_mts[x]);
                                    assert(memtables@[y] == tup);
                                }
                            }
                            assert forall|x: int|
                                0 <= x < memtables@.len() implies (
                            #[trigger] memtables@[x]).1.wf() by {
                                if x < pre_mts.len() {
                                    assert(memtables@[x] == pre_mts[x]);
                                }
                            }
                        }
                    }
                },
            }
        } else {
            proof {
                assert(apply_items(pendm.subrange(0, i + 1), seqno, wl) == ap_pre);
            }
        }
        proof {
            // Keys present at the start remain present.
            assert(keys_subset(base, memtables@)) by {
                assert forall|j: int| 0 <= j < base.len() implies has_key(
                    memtables@,
                    (#[trigger] base[j]).0@,
                ) by {
                    assert(has_key(pre_mts, base[j].0@));
                    let k = choose|k: int|
                        0 <= k < pre_mts.len() && (#[trigger] pre_mts[k]).0@ == base[j].0@;
                    assert(memtables@[k].0@ == pre_mts[k].0@);
                }
            }
        }
        i += 1;
    }
    proof {
        assert(pendm.subrange(0, n as int) =~= pendm);
    }
}

/// What recovery hands back: the per-partition memtables rebuilt from the
/// stream, and the position the backing file is truncated to.
pub struct RecoveryOutcome {
    /// One entry per partition seen, each memtable well-formed.
    pub memtables: Vec<(Vec<u8>, Memtable)>,
    /// The byte offset just after the last valid batch.
    pub truncate_to: usize,
}

impl JournalShard {
    /// Recovers a journal shard's byte stream.
    ///
    /// Walks the marker stream from the start.  Every complete batch whose
    /// checksum holds is applied to its partitions' memtables (restricted to
    /// `whitelist` when one is given).  A torn or misplaced marker ends the
    /// walk; the stream is to be truncated to the end of the last valid
    /// batch, which preserves batch atomicity.  A batch with the wrong item
    /// count or checksum fails recovery.
    pub fn recover_and_repair(bytes: &Vec<u8>, whitelist: Option<&Vec<Vec<u8>>>) -> (r: Result<
        RecoveryOutcome,
        RecoverFault,
    >)
        ensures
            match r {
                Ok(out) => match spec_recover(bytes@, wl_view(whitelist)) {
                    RecoveryResultM::Recovered { applied, truncate_to } => {
                        &&& out.truncate_to == truncate_to
                        &&& out.truncate_to <= bytes@.len()
                        &&& mts_wf(out.memtables@)
                        &&& forall|p: Seq<u8>, rm: RecordM| #[trigger]
                            assoc_records(out.memtables@, p).contains(rm) <==> replayed(
                                applied,
                                p,
                            ).contains(rm)
                    },
                    _ => false,
                },
                Err(RecoverFault::JournalRecovery(e)) => spec_recover(bytes@, wl_view(whitelist))
                    == RecoveryResultM::Failed(e),
                Err(RecoverFault::Deserialize(e)) => match e {
                    crate::marker::DeserializeError::InvalidTag(t) => spec_recover(
                        bytes@,
                        wl_view(whitelist),
                    ) == RecoveryResultM::Rejected(t),
                    crate::marker::DeserializeError::UnexpectedEof => false,
                },
            },
    {
        let ghost wl = wl_view(whitelist);
        let mut pos: usize = 0;
        let mut last_valid: usize = 0;
        let mut in_batch: bool = false;
        let mut remaining: u32 = 0;
        let mut batch_seqno: u64 = 0;
        let mut crc_buf: Vec<u8> = Vec::new();
        let mut pending: Vec<JournalItem> = Vec::new();
        let mut memtables: Vec<(Vec<u8>, Memtable)> = Vec::new();
        let ghost mut applied: Seq<AppliedM> = Seq::empty();
        proof {
            assert(pending@.map_values(|x: JournalItem| x@) =~= Seq::<ItemM>::empty());
            assert(crc_buf@ =~= Seq::<u8>::empty());
            assert(memtables@ =~= Seq::<(Vec<u8>, Memtable)>::empty());
        }
        loop
            invariant
                pos <= bytes@.len(),
                last_valid <= pos,
                wl == wl_view(whitelist),
                mts_wf(memtables@),
                forall|p: Seq<u8>, rm: RecordM| #[trigger]
                    assoc_records(memtables@, p).contains(rm) <==> replayed(applied, p).contains(
                        rm,
                    ),
                run_recovery(
                    bytes@,
                    wl,
                    pos as int,
                    last_valid as int,
                    applied,
                    in_batch,
                    remaining,
                    batch_seqno,
                    crc_buf@,
                    pending@.map_values(|x: JournalItem| x@),
                ) == spec_recover(bytes@, wl),
            decreases bytes@.len() - pos,
        {
            let ghost pendm = pending@.map_values(|x: JournalItem| x@);
            match Marker::deserialize(bytes, pos) {
                Err(crate::marker::DeserializeError::UnexpectedEof) => {
                    return Ok(RecoveryOutcome { memtables, truncate_to: last_valid });
                },
                Err(crate::marker::DeserializeError::InvalidTag(t)) => {
                    return Err(RecoverFault::Deserialize(
                        crate::marker::DeserializeError::InvalidTag(t),
                    ));
                },
                Ok(parsed) => {
                    let end = parsed.1;
                    match parsed.0 {
                        Marker::Start { item_count, seqno } => {
                            if in_batch {
                                return Ok(
                                    RecoveryOutcome { memtables, truncate_to: last_valid },
                                );
                            }
                            in_batch = true;
                            remaining = item_count;
                            batch_seqno = seqno;
                            crc_buf = Vec::new();
                            pending = Vec::new();
                            pos = end;
                            proof {
                                assert(pending@.map_values(|x: JournalItem| x@) =~= Seq::<
                                    ItemM,
                                >::empty());
                                assert(crc_buf@ =~= Seq::<u8>::empty());
                            }
                        },
                        Marker::Item(it) => {
                            if !in_batch {
                                return Ok(
                                    RecoveryOutcome { memtables, truncate_to: last_valid },
                                );
                            }
                            if remaining == 0 {
                                return Err(RecoverFault::JournalRecovery(
                                    RecoveryError::TooManyItems,
                                ));
                            }
                            remaining = remaining - 1;
                            let enc = it.encoded();
                            crate::marker::append_bytes(&mut crc_buf, &enc);
                            pending.push(it);
                            pos = end;
                            proof {
                                assert(pending@.map_values(|x: JournalItem| x@) =~= pendm.push(
                                    pending@.last()@,
                                ));
                            }
                        },
                        Marker::End(crc) => {
                            if in_batch && remaining > 0 {
                                return Err(RecoverFault::JournalRecovery(
                                    RecoveryError::InsufficientLength,
                                ));
                            }
                            if !in_batch {
                                return Ok(
                                    RecoveryOutcome { memtables, truncate_to: last_valid },
                                );
                            }
                            let expected = crc32(&crc_buf);
                            if crc != expected {
                                return Err(RecoverFault::JournalRecovery(
                                    RecoveryError::CrcCheck,
                                ));
                            }
                            let ghost pre_mts = memtables@;
                            let ghost batch_applied = apply_items(pendm, batch_seqno, wl);
                            apply_batch(&mut memtables, &pending, batch_seqno, whitelist);
                            proof {
                                lemma_saa_append(Set::empty(), applied, batch_applied, Seq::empty());
                                assert forall|p: Seq<u8>, rm: RecordM| #[trigger]
                                    assoc_records(memtables@, p).contains(rm) <==> replayed(
                                        applied + batch_applied,
                                        p,
                                    ).contains(rm) by {
                                    lemma_saa_append(Set::empty(), applied, batch_applied, p);
                                    assert(assoc_records(pre_mts, p).to_set() =~= replayed(
                                        applied,
                                        p,
                                    ));
                                }
                            }
                            proof {
                                applied = applied + batch_applied;
                            }
                            in_batch = false;
                            remaining = 0;
                            crc_buf = Vec::new();
                            pending = Vec::new();
                            last_valid = end;
                            pos = end;
                            proof {
                                assert(pending@.map_values(|x: JournalItem| x@) =~= Seq::<
                                    ItemM,
                                >::empty());
                                assert(crc_buf@ =~= Seq::<u8>::empty());
                            }
                        },
                    }
                },
            }
        }
    }
}

// ---------------------------------------------------------------------------
// Batch atomicity across a crash
// ---------------------------------------------------------------------------
/// The writes a sequence of batches applies, in order.
pub open spec fn applied_of(batches: Seq<BatchM>, wl: Option<Seq<Seq<u8>>>) -> Seq<AppliedM>
    decreases batches.len(),
{
    if batches.len() == 0 {
        Seq::empty()
    } else {
        applied_of(batches.drop_last(), wl) + apply_items(
            batches.last().items,
            batches.last().seqno,
            wl,
        )
    }
}

/// Item encodings split at any point.
proof fn lemma_items_bytes_split(items: Seq<ItemM>, k: int)
    requires
        0 <= k <= items.len(),
    ensures
        items_bytes(items) == items_bytes(items.subrange(0, k)) + items_bytes(
            items.subrange(k, items.len() as int),
        ),
    decreases items.len(),
{
    if k == items.len() {
        assert(items.subrange(0, k) =~= items);
        assert(items.subrange(k, items.len() as int) =~= Seq::<ItemM>::empty());
        assert(items_bytes(items) =~= items_bytes(items) + items_bytes(Seq::<ItemM>::empty()));
    } else {
        let dl = items.drop_last();
        lemma_items_bytes_split(dl, k);
        assert(dl.subrange(0, k) =~= items.subrange(0, k));
        let mid_dl = dl.subrange(k, dl.len() as int);
        let mid = items.subrange(k, items.len() as int);
        assert(mid.drop_last() =~= mid_dl);
        assert(mid.last() == items.last());
        assert(items_bytes(mid) == items_bytes(mid_dl) + item_bytes(items.last()));
        assert(items_bytes(items) =~= items_bytes(items.subrange(0, k)) + items_bytes(mid));
    }
}

/// Journal encodings split at any batch boundary.
proof fn lemma_journal_bytes_split(batches: Seq<BatchM>, j: int)
    requires
        0 <= j <= batches.len(),
    ensures
        journal_bytes(batches) == journal_bytes(batches.subrange(0, j)) + journal_bytes(
            batches.subrange(j, batches.len() as int),
        ),
    decreases batches.len(),
{
    if j == batches.len() {
        assert(batches.subrange(0, j) =~= batches);
        assert(batches.subrange(j, batches.len() as int) =~= Seq::<BatchM>::empty());
        assert(journal_bytes(batches) =~= journal_bytes(batches) + journal_bytes(
            Seq::<BatchM>::empty(),
        ));
    } else {
        let dl = batches.drop_last();
        lemma_journal_bytes_split(dl, j);
        assert(dl.subrange(0, j) =~= batches.subrange(0, j));
        let mid_dl = dl.subrange(j, dl.len() as int);
        let mid = batches.subrange(j, batches.len() as int);
        assert(mid.drop_last() =~= mid_dl);
        assert(mid.last() == batches.last());
        assert(journal_bytes(mid) == journal_bytes(mid_dl) + batch_bytes(batches.last()));
        assert(journal_bytes(batches) =~= journal_bytes(batches.subrange(0, j)) + journal_bytes(
            mid,
        ));
    }
}

/// Applied writes split at any batch boundary.
proof fn lemma_applied_of_split(batches: Seq<BatchM>, j: int, wl: Option<Seq<Seq<u8>>>)
    requires
        0 <= j <= batches.len(),
    ensures
        applied_of(batches, wl) == applied_of(batches.subrange(0, j), wl) + applied_of(
            batches.subrange(j, batches.len() as int),
            wl,
        ),
    decreases batches.len(),
{
    if j == batches.len() {
        assert(batches.subrange(0, j) =~= batches);
        assert(batches.subrange(j, batches.len() as int) =~= Seq::<BatchM>::empty());
        assert(applied_of(batches, wl) =~= applied_of(batches, wl) + applied_of(
            Seq::<BatchM>::empty(),
            wl,
        ));
    } else {
        let dl = batches.drop_last();
        lemma_applied_of_split(dl, j, wl);
        assert(dl.subrange(0, j) =~= batches.subrange(0, j));
        let mid_dl = dl.subrange(j, dl.len() as int);
        let mid = batches.subrange(j, batches.len() as int);
        assert(mid.drop_last() =~= mid_dl);
        assert(mid.last() == batches.last());
        assert(applied_of(mid, wl) == applied_of(mid_dl, wl) + apply_items(
            batches.last().items,
            batches.last().seqno,
            wl,
        ));
        assert(applied_of(batches, wl) =~= applied_of(batches.subrange(0, j), wl) + applied_of(
            mid,
            wl,
        ));
    }
}

/// The byte offset of item `k` inside a batch encoding.
pub open spec fn item_pos(b: BatchM, pos_b: int, k: int) -> int {
    pos_b + 13 + items_bytes(b.items.subrange(0, k)).len()
}

/// A batch encoding is embedded at `pos_b` of the stream.
pub open spec fn batch_embedded(bytes: Seq<u8>, pos_b: int, b: BatchM) -> bool {
    &&& 0 <= pos_b
    &&& pos_b + batch_bytes(b).len() <= bytes.len()
    &&& bytes.subrange(pos_b, pos_b + batch_bytes(b).len() as int) == batch_bytes(b)
}

/// The item encodings of an embedded batch sit at their offsets.
proof fn lemma_batch_item_embedded(bytes: Seq<u8>, pos_b: int, b: BatchM, k: int)
    requires
        batch_wf(b),
        batch_embedded(bytes, pos_b, b),
        0 <= k < b.items.len(),
    ensures
        item_pos(b, pos_b, k) + item_bytes(b.items[k]).len() == item_pos(b, pos_b, k + 1),
        item_pos(b, pos_b, k + 1) + 5 <= pos_b + batch_bytes(b).len(),
        bytes.subrange(item_pos(b, pos_b, k), item_pos(b, pos_b, k + 1)) == item_bytes(
            b.items[k],
        ),
{
    let bb = batch_bytes(b);
    let ib_all = items_bytes(b.items);
    let pre = items_bytes(b.items.subrange(0, k));
    let one = item_bytes(b.items[k]);
    let post = items_bytes(b.items.subrange(k + 1, b.items.len() as int));
    // items_bytes(all) == pre + one + post.
    lemma_items_bytes_split(b.items, k + 1);
    assert(b.items.subrange(0, k + 1).drop_last() =~= b.items.subrange(0, k));
    assert(b.items.subrange(0, k + 1).last() == b.items[k]);
    assert(items_bytes(b.items.subrange(0, k + 1)) == pre + one);
    assert(ib_all == (pre + one) + post);
    // Offsets.
    assert(item_pos(b, pos_b, k + 1) == item_pos(b, pos_b, k) + one.len());
    assert(bb.len() == 13 + ib_all.len() + 5);
    // Bytes agree with the item encoding.
    assert forall|t: int| 0 <= t < one.len() implies bytes[item_pos(b, pos_b, k) + t]
        == one[t] by {
        let off = 13 + pre.len() + t;
        assert(bytes.subrange(pos_b, pos_b + bb.len() as int)[off] == bytes[pos_b + off]);
        assert(bb[off] == ib_all[pre.len() + t]) by {
            assert(bb == marker_bytes(
                MarkerM::Start { item_count: b.items.len() as u32, seqno: b.seqno },
            ) + ib_all + marker_bytes(MarkerM::End(crc32_of(ib_all))));
        }
        assert(ib_all[pre.len() + t] == one[t]) by {
            assert(ib_all == (pre + one) + post);
            assert((pre + one)[pre.len() + t] == one[t]);
        }
    }
    assert(bytes.subrange(item_pos(b, pos_b, k), item_pos(b, pos_b, k + 1)) =~= one);
}

/// From inside an embedded batch, the recovery machine walks the remaining
/// items and ends up just before the closing marker.
proof fn lemma_run_items(
    bytes: Seq<u8>,
    wl: Option<Seq<Seq<u8>>>,
    b: BatchM,
    pos_b: int,
    lv: int,
    applied: Seq<AppliedM>,
    k: int,
)
    requires
        batch_wf(b),
        batch_embedded(bytes, pos_b, b),
        0 <= k <= b.items.len(),
    ensures
        run_recovery(
            bytes,
            wl,
            item_pos(b, pos_b, k),
            lv,
            applied,
            true,
            (b.items.len() - k) as u32,
            b.seqno,
            items_bytes(b.items.subrange(0, k)),
            b.items.subrange(0, k),
        ) == run_recovery(
            bytes,
            wl,
            item_pos(b, pos_b, b.items.len() as int),
            lv,
            applied,
            true,
            0,
            b.seqno,
            items_bytes(b.items),
            b.items,
        ),
    decreases b.items.len() - k,
{
    let n = b.items.len() as int;
    if k == n {
        assert(b.items.subrange(0, n) =~= b.items);
    } else {
        lemma_batch_item_embedded(bytes, pos_b, b, k);
        let pk = item_pos(b, pos_b, k);
        let pk1 = item_pos(b, pos_b, k + 1);
        let it = b.items[k];
        crate::marker::lemma_marker_bytes_len(MarkerM::Item(it));
        crate::marker::lemma_parse_marker_embed(bytes, pk, MarkerM::Item(it));
        assert(parse_marker(bytes, pk) == ParseOutcome::Parsed(MarkerM::Item(it), pk1));
        // One step of the machine.
        assert(items_bytes(b.items.subrange(0, k)).len() >= 0);
        assert(pk < pk1 <= bytes.len());
        assert(items_bytes(b.items.subrange(0, k + 1)) == items_bytes(b.items.subrange(0, k))
            + item_bytes(it)) by {
            assert(b.items.subrange(0, k + 1).drop_last() =~= b.items.subrange(0, k));
            assert(b.items.subrange(0, k + 1).last() == it);
        }
        assert(b.items.subrange(0, k + 1) =~= b.items.subrange(0, k).push(it));
        assert(((b.items.len() - k) as u32 - 1) as u32 == (b.items.len() - (k + 1)) as u32);
        lemma_run_items(bytes, wl, b, pos_b, lv, applied, k + 1);
    }
}

/// From a clean state at an embedded batch, the machine applies exactly
/// that batch and lands cleanly after it.
proof fn lemma_run_batch(
    bytes: Seq<u8>,
    wl: Option<Seq<Seq<u8>>>,
    pos_b: int,
    applied: Seq<AppliedM>,
    s0: u64,
    b: BatchM,
)
    requires
        batch_wf(b),
        batch_embedded(bytes, pos_b, b),
    ensures
        run_recovery(bytes, wl, pos_b, pos_b, applied, false, 0, s0, Seq::empty(), Seq::empty())
            == run_recovery(
            bytes,
            wl,
            pos_b + batch_bytes(b).len(),
            pos_b + batch_bytes(b).len(),
            applied + apply_items(b.items, b.seqno, wl),
            false,
            0,
            b.seqno,
            Seq::empty(),
            Seq::empty(),
        ),
{
    let bb = batch_bytes(b);
    let n = b.items.len() as int;
    let start_m = MarkerM::Start { item_count: b.items.len() as u32, seqno: b.seqno };
    let end_m = MarkerM::End(crc32_of(items_bytes(b.items)));
    crate::marker::lemma_marker_bytes_len(start_m);
    crate::marker::lemma_marker_bytes_len(end_m);
    assert(bb == marker_bytes(start_m) + items_bytes(b.items) + marker_bytes(end_m));
    // The opening marker.
    assert(bytes.subrange(pos_b, pos_b + 13) =~= marker_bytes(start_m)) by {
        assert forall|t: int| 0 <= t < 13 implies bytes[pos_b + t] == marker_bytes(start_m)[t] by {
            assert(bytes.subrange(pos_b, pos_b + bb.len() as int)[t] == bytes[pos_b + t]);
            assert(bb[t] == marker_bytes(start_m)[t]) by {
                assert((marker_bytes(start_m) + items_bytes(b.items))[t] == marker_bytes(
                    start_m,
                )[t]);
            }
        }
    }
    crate::marker::lemma_parse_marker_embed(bytes, pos_b, start_m);
    assert(parse_marker(bytes, pos_b) == ParseOutcome::Parsed(start_m, pos_b + 13));
    // The machine enters the batch.
    assert(items_bytes(b.items.subrange(0, 0)) =~= Seq::<u8>::empty());
    assert(b.items.subrange(0, 0) =~= Seq::<ItemM>::empty());
    assert(item_pos(b, pos_b, 0) == pos_b + 13);
    assert((b.items.len() - 0) as u32 == b.items.len() as u32);
    lemma_run_items(bytes, wl, b, pos_b, pos_b, applied, 0);
    // The closing marker.
    let pe = item_pos(b, pos_b, n);
    assert(pe == pos_b + 13 + items_bytes(b.items).len()) by {
        assert(b.items.subrange(0, n) =~= b.items);
    }
    assert(bytes.subrange(pe, pe + 5) =~= marker_bytes(end_m)) by {
        assert forall|t: int| 0 <= t < 5 implies bytes[pe + t] == marker_bytes(end_m)[t] by {
            let off = 13 + items_bytes(b.items).len() + t;
            assert(bytes.subrange(pos_b, pos_b + bb.len() as int)[off] == bytes[pos_b + off]);
            assert(bb[off] == marker_bytes(end_m)[t]);
        }
    }
    crate::marker::lemma_parse_marker_embed(bytes, pe, end_m);
    assert(parse_marker(bytes, pe) == ParseOutcome::Parsed(end_m, pe + 5));
    assert(pe + 5 == pos_b + bb.len());
    // The checksum holds by construction, so the batch is applied.
    assert(run_recovery(
        bytes,
        wl,
        pe,
        pos_b,
        applied,
        true,
        0,
        b.seqno,
        items_bytes(b.items),
        b.items,
    ) == run_recovery(
        bytes,
        wl,
        pos_b + bb.len(),
        pos_b + bb.len(),
        applied + apply_items(b.items, b.seqno, wl),
        false,
        0,
        b.seqno,
        Seq::empty(),
        Seq::empty(),
    ));
}

/// Where item `k`'s bytes sit inside a batch encoding, without reference
/// to any stream.
proof fn lemma_bb_layout(b: BatchM, k: int)
    requires
        batch_wf(b),
        0 <= k < b.items.len(),
    ensures
        items_bytes(b.items.subrange(0, k + 1)).len() == items_bytes(
            b.items.subrange(0, k),
        ).len() + item_bytes(b.items[k]).len(),
        13 + items_bytes(b.items.subrange(0, k + 1)).len() + 5 <= batch_bytes(b).len(),
        forall|t: int|
            0 <= t < item_bytes(b.items[k]).len() ==> batch_bytes(b)[13 + items_bytes(
                b.items.subrange(0, k),
            ).len() + t] == item_bytes(b.items[k])[t],
{
    let bb = batch_bytes(b);
    let ib_all = items_bytes(b.items);
    let pre = items_bytes(b.items.subrange(0, k));
    let one = item_bytes(b.items[k]);
    let post = items_bytes(b.items.subrange(k + 1, b.items.len() as int));
    lemma_items_bytes_split(b.items, k + 1);
    assert(b.items.subrange(0, k + 1).drop_last() =~= b.items.subrange(0, k));
    assert(b.items.subrange(0, k + 1).last() == b.items[k]);
    assert(items_bytes(b.items.subrange(0, k + 1)) == pre + one);
    assert(ib_all == (pre + one) + post);
    assert(bb.len() == 13 + ib_all.len() + 5);
    assert forall|t: int| 0 <= t < one.len() implies bb[13 + pre.len() + t] == one[t] by {
        assert(bb == marker_bytes(
            MarkerM::Start { item_count: b.items.len() as u32, seqno: b.seqno },
        ) + ib_all + marker_bytes(MarkerM::End(crc32_of(ib_all))));
        assert(ib_all[pre.len() + t] == one[t]) by {
            assert((pre + one)[pre.len() + t] == one[t]);
        }
    }
}

/// From inside a torn batch tail, the machine walks what fits and then
/// truncates: nothing of the torn batch is applied.
#[verifier::rlimit(100)]
proof fn lemma_run_torn_items(
    bytes: Seq<u8>,
    wl: Option<Seq<Seq<u8>>>,
    b: BatchM,
    pos_b: int,
    lv: int,
    applied: Seq<AppliedM>,
    k: int,
    tl: int,
)
    requires
        batch_wf(b),
        0 <= pos_b,
        pos_b + tl == bytes.len(),
        0 <= tl < batch_bytes(b).len(),
        forall|t: int| 0 <= t < tl ==> bytes[pos_b + t] == batch_bytes(b)[t],
        0 <= k <= b.items.len(),
        13 + items_bytes(b.items.subrange(0, k)).len() <= tl,
    ensures
        run_recovery(
            bytes,
            wl,
            pos_b + 13 + items_bytes(b.items.subrange(0, k)).len(),
            lv,
            applied,
            true,
            (b.items.len() - k) as u32,
            b.seqno,
            items_bytes(b.items.subrange(0, k)),
            b.items.subrange(0, k),
        ) == (RecoveryResultM::Recovered { applied, truncate_to: lv }),
    decreases b.items.len() - k,
{
    let n = b.items.len() as int;
    let bb = batch_bytes(b);
    let pk = pos_b + 13 + items_bytes(b.items.subrange(0, k)).len();
    if k == n {
        // Only the closing marker could follow, and it cannot be complete.
        assert(b.items.subrange(0, n) =~= b.items);
        let end_m = MarkerM::End(crc32_of(items_bytes(b.items)));
        crate::marker::lemma_marker_bytes_len(end_m);
        assert(bb == marker_bytes(
            MarkerM::Start { item_count: b.items.len() as u32, seqno: b.seqno },
        ) + items_bytes(b.items) + marker_bytes(end_m));
        assert(bb.len() == pk - pos_b + 5);
        if pk == bytes.len() {
            assert(parse_marker(bytes, pk) is Eof);
        } else {
            assert forall|t: int| 0 <= t < bytes.len() - pk implies bytes[pk + t] == marker_bytes(
                end_m,
            )[t] by {
                let off = pk - pos_b + t;
                assert(bytes[pos_b + off] == bb[off]);
                assert(bb[off] == marker_bytes(end_m)[t]);
            }
            crate::marker::lemma_parse_marker_truncated(bytes, pk, end_m);
        }
    } else {
        lemma_bb_layout(b, k);
        let one = item_bytes(b.items[k]);
        let it = b.items[k];
        let pk1 = pk + one.len();
        crate::marker::lemma_marker_bytes_len(MarkerM::Item(it));
        if pk1 <= bytes.len() {
            // The whole item fits: one more step.
            assert(bytes.subrange(pk, pk1) =~= one) by {
                assert forall|t: int| 0 <= t < one.len() implies bytes[pk + t] == one[t] by {
                    let off = pk - pos_b + t;
                    assert(bytes[pos_b + off] == bb[off]);
                }
            }
            crate::marker::lemma_parse_marker_embed(bytes, pk, MarkerM::Item(it));
            assert(parse_marker(bytes, pk) == ParseOutcome::Parsed(MarkerM::Item(it), pk1));
            assert(items_bytes(b.items.subrange(0, k + 1)) == items_bytes(b.items.subrange(0, k))
                + one) by {
                assert(b.items.subrange(0, k + 1).drop_last() =~= b.items.subrange(0, k));
                assert(b.items.subrange(0, k + 1).last() == it);
            }
            assert(b.items.subrange(0, k + 1) =~= b.items.subrange(0, k).push(it));
            assert(((b.items.len() - k) as u32 - 1) as u32 == (b.items.len() - (k + 1)) as u32);
            lemma_run_torn_items(bytes, wl, b, pos_b, lv, applied, k + 1, tl);
        } else if pk == bytes.len() {
            assert(parse_marker(bytes, pk) is Eof);
        } else {
            // The item is torn.
            assert forall|t: int| 0 <= t < bytes.len() - pk implies bytes[pk + t] == one[t] by {
                let off = pk - pos_b + t;
                assert(bytes[pos_b + off] == bb[off]);
            }
            crate::marker::lemma_parse_marker_truncated(bytes, pk, MarkerM::Item(it));
        }
    }
}

/// A clean state at a torn batch tail ends the walk with nothing applied
/// and the stream truncated at the clean position.
proof fn lemma_run_torn(
    bytes: Seq<u8>,
    wl: Option<Seq<Seq<u8>>>,
    pos_b: int,
    applied: Seq<AppliedM>,
    s0: u64,
    b: BatchM,
    tl: int,
)
    requires
        batch_wf(b),
        0 <= pos_b,
        pos_b + tl == bytes.len(),
        0 <= tl < batch_bytes(b).len(),
        forall|t: int| 0 <= t < tl ==> bytes[pos_b + t] == batch_bytes(b)[t],
    ensures
        run_recovery(bytes, wl, pos_b, pos_b, applied, false, 0, s0, Seq::empty(), Seq::empty())
            == (RecoveryResultM::Recovered { applied, truncate_to: pos_b }),
{
    let bb = batch_bytes(b);
    let start_m = MarkerM::Start { item_count: b.items.len() as u32, seqno: b.seqno };
    crate::marker::lemma_marker_bytes_len(start_m);
    assert(bb == marker_bytes(start_m) + items_bytes(b.items) + marker_bytes(
        MarkerM::End(crc32_of(items_bytes(b.items))),
    ));
    if tl == 0 {
        assert(parse_marker(bytes, pos_b) is Eof);
    } else if tl < 13 {
        // The opening marker itself is torn.
        assert forall|t: int| 0 <= t < tl implies bytes[pos_b + t] == marker_bytes(
            start_m,
        )[t] by {
            assert(bytes[pos_b + t] == bb[t]);
            assert((marker_bytes(start_m) + items_bytes(b.items))[t] == marker_bytes(start_m)[t]);
        }
        crate::marker::lemma_parse_marker_truncated(bytes, pos_b, start_m);
    } else {
        // The opening marker is whole; the items and the close are torn.
        assert(bytes.subrange(pos_b, pos_b + 13) =~= marker_bytes(start_m)) by {
            assert forall|t: int| 0 <= t < 13 implies bytes[pos_b + t] == marker_bytes(
                start_m,
            )[t] by {
                assert(bytes[pos_b + t] == bb[t]);
                assert((marker_bytes(start_m) + items_bytes(b.items))[t] == marker_bytes(
                    start_m,
                )[t]);
            }
        }
        crate::marker::lemma_parse_marker_embed(bytes, pos_b, start_m);
        assert(parse_marker(bytes, pos_b) == ParseOutcome::Parsed(start_m, pos_b + 13));
        assert(items_bytes(b.items.subrange(0, 0)) =~= Seq::<u8>::empty());
        assert(b.items.subrange(0, 0) =~= Seq::<ItemM>::empty());
        assert((b.items.len() - 0) as u32 == b.items.len() as u32);
        lemma_run_torn_items(bytes, wl, b, pos_b, pos_b, applied, 0, tl);
    }
}

/// Peeling the first batch off a journal splits its bytes and its writes.
proof fn lemma_front_split(batches: Seq<BatchM>, wl: Option<Seq<Seq<u8>>>)
    requires
        batches.len() > 0,
    ensures
        journal_bytes(batches) == batch_bytes(batches[0]) + journal_bytes(
            batches.subrange(1, batches.len() as int),
        ),
        applied_of(batches, wl) == apply_items(batches[0].items, batches[0].seqno, wl)
            + applied_of(batches.subrange(1, batches.len() as int), wl),
{
    lemma_journal_bytes_split(batches, 1);
    lemma_applied_of_split(batches, 1, wl);
    let first = batches.subrange(0, 1);
    assert(first.drop_last() =~= Seq::<BatchM>::empty());
    assert(first.last() == batches[0]);
    assert(journal_bytes(first.drop_last()) == Seq::<u8>::empty());
    assert(journal_bytes(first) == Seq::<u8>::empty() + batch_bytes(batches[0]));
    assert(journal_bytes(first) =~= batch_bytes(batches[0]));
    assert(applied_of(first.drop_last(), wl) == Seq::<AppliedM>::empty());
    assert(applied_of(first, wl) == Seq::<AppliedM>::empty() + apply_items(
        batches[0].items,
        batches[0].seqno,
        wl,
    ));
    assert(applied_of(first, wl) =~= apply_items(batches[0].items, batches[0].seqno, wl));
}

/// Decomposes a batch stream at its front: the first batch's encoding sits
/// at `pos`, and the rest of the stream is the remaining batches and tail.
proof fn lemma_stream_front(bytes: Seq<u8>, pos: int, batches: Seq<BatchM>, tail: Seq<u8>)
    requires
        batches.len() > 0,
        0 <= pos,
        bytes.len() == pos + journal_bytes(batches).len() + tail.len(),
        bytes.subrange(pos, bytes.len() as int) == journal_bytes(batches) + tail,
        journal_bytes(batches) == batch_bytes(batches[0]) + journal_bytes(
            batches.subrange(1, batches.len() as int),
        ),
    ensures
        bytes.subrange(pos, pos + batch_bytes(batches[0]).len() as int) == batch_bytes(
            batches[0],
        ),
        bytes.subrange(pos + batch_bytes(batches[0]).len(), bytes.len() as int) == journal_bytes(
            batches.subrange(1, batches.len() as int),
        ) + tail,
{
    let bb0 = batch_bytes(batches[0]);
    let rest = batches.subrange(1, batches.len() as int);
    assert(bytes.subrange(pos, pos + bb0.len() as int) =~= bb0) by {
        assert forall|t: int| 0 <= t < bb0.len() implies bytes[pos + t] == bb0[t] by {
            assert(bytes.subrange(pos, bytes.len() as int)[t] == bytes[pos + t]);
            assert((journal_bytes(batches) + tail)[t] == journal_bytes(batches)[t]);
            assert(journal_bytes(batches)[t] == (bb0 + journal_bytes(rest))[t]);
        }
    }
    let pos2 = pos + bb0.len();
    assert(bytes.subrange(pos2, bytes.len() as int) =~= journal_bytes(rest) + tail) by {
        assert forall|t: int|
            0 <= t < bytes.len() - pos2 implies #[trigger] bytes.subrange(
            pos2,
            bytes.len() as int,
        )[t] == (journal_bytes(rest) + tail)[t] by {
            assert(bytes.subrange(pos2, bytes.len() as int)[t] == bytes[pos2 + t]);
            assert(bytes.subrange(pos, bytes.len() as int)[bb0.len() + t] == bytes[pos2 + t]);
            assert((journal_bytes(batches) + tail)[bb0.len() + t] == (journal_bytes(rest)
                + tail)[t]) by {
                if t < journal_bytes(rest).len() {
                    assert(journal_bytes(batches)[bb0.len() + t] == (bb0 + journal_bytes(
                        rest,
                    ))[bb0.len() + t]);
                }
            }
        }
    }
}

/// The recovery machine over a stream of whole batches and a torn tail:
/// every whole batch is applied, in order; the tail is discarded; the
/// stream is truncated exactly at the end of the last whole batch.
#[verifier::rlimit(100)]
proof fn lemma_run_batches(
    bytes: Seq<u8>,
    wl: Option<Seq<Seq<u8>>>,
    pos: int,
    applied: Seq<AppliedM>,
    s0: u64,
    batches: Seq<BatchM>,
    tail: Seq<u8>,
)
    requires
        forall|i: int| 0 <= i < batches.len() ==> batch_wf(#[trigger] batches[i]),
        0 <= pos,
        bytes.len() == pos + journal_bytes(batches).len() + tail.len(),
        bytes.subrange(pos, bytes.len() as int) == journal_bytes(batches) + tail,
        tail.len() == 0 || (exists|b: BatchM|
            batch_wf(b) && tail.len() < batch_bytes(b).len() && tail == #[trigger] batch_bytes(
                b,
            ).subrange(0, tail.len() as int)),
    ensures
        run_recovery(bytes, wl, pos, pos, applied, false, 0, s0, Seq::empty(), Seq::empty())
            == (RecoveryResultM::Recovered {
            applied: applied + applied_of(batches, wl),
            truncate_to: pos + journal_bytes(batches).len(),
        }),
    decreases batches.len(),
{
    if batches.len() == 0 {
        assert(journal_bytes(batches) =~= Seq::<u8>::empty());
        assert(applied + applied_of(batches, wl) =~= applied);
        if tail.len() == 0 {
            assert(pos == bytes.len());
            assert(parse_marker(bytes, pos) is Eof);
        } else {
            let b = choose|b: BatchM|
                batch_wf(b) && tail.len() < batch_bytes(b).len() && tail
                    == #[trigger] batch_bytes(b).subrange(0, tail.len() as int);
            assert forall|t: int| 0 <= t < tail.len() implies bytes[pos + t] == batch_bytes(
                b,
            )[t] by {
                assert(bytes.subrange(pos, bytes.len() as int)[t] == bytes[pos + t]);
                assert((journal_bytes(batches) + tail)[t] == tail[t]);
                assert(tail[t] == batch_bytes(b).subrange(0, tail.len() as int)[t]);
            }
            lemma_run_torn(bytes, wl, pos, applied, s0, b, tail.len() as int);
        }
    } else {
        let b0 = batches[0];
        let rest = batches.subrange(1, batches.len() as int);
        lemma_front_split(batches, wl);
        lemma_stream_front(bytes, pos, batches, tail);
        let bb0 = batch_bytes(b0);
        lemma_run_batch(bytes, wl, pos, applied, s0, b0);
        let pos2 = pos + bb0.len();
        assert forall|i: int| 0 <= i < rest.len() implies batch_wf(#[trigger] rest[i]) by {
            assert(rest[i] == batches[i + 1]);
        }
        lemma_run_batches(
            bytes,
            wl,
            pos2,
            applied + apply_items(b0.items, b0.seqno, wl),
            b0.seqno,
            rest,
            tail,
        );
        // Reassemble the applied writes.
        assert(applied + apply_items(b0.items, b0.seqno, wl) + applied_of(rest, wl) =~= applied
            + applied_of(batches, wl));
    }
}

/// A cut of a batch stream splits into the whole batches before it and a
/// strict prefix of the cut batch's encoding.
proof fn lemma_cut_decomposition(batches: Seq<BatchM>, j: int, cut: int)
    requires
        0 <= j <= batches.len(),
        journal_bytes(batches.subrange(0, j)).len() <= cut <= journal_bytes(batches).len(),
        j < batches.len() ==> cut < journal_bytes(batches.subrange(0, j + 1)).len(),
    ensures
        ({
            let bytes = journal_bytes(batches).subrange(0, cut);
            let jbp = journal_bytes(batches.subrange(0, j));
            let tail = bytes.subrange(jbp.len() as int, cut);
            bytes.subrange(0, bytes.len() as int) == jbp + tail && (j < batches.len()
                ==> tail.len() < batch_bytes(batches[j]).len() && tail == batch_bytes(
                batches[j],
            ).subrange(0, tail.len() as int)) && (j == batches.len() ==> tail
                == Seq::<u8>::empty())
        }),
{
    let whole = batches.subrange(0, j);
    let jbp = journal_bytes(whole);
    let bytes = journal_bytes(batches).subrange(0, cut);
    lemma_journal_bytes_split(batches, j);
    let tail = bytes.subrange(jbp.len() as int, cut);
    assert(bytes.subrange(0, bytes.len() as int) =~= jbp + tail) by {
        assert forall|t: int| 0 <= t < cut implies bytes[t] == (jbp + tail)[t] by {
            if t < jbp.len() {
                assert(bytes[t] == journal_bytes(batches)[t]);
                assert(journal_bytes(batches)[t] == (jbp + journal_bytes(
                    batches.subrange(j, batches.len() as int),
                ))[t]);
            } else {
                assert((jbp + tail)[t] == tail[t - jbp.len()]);
                assert(tail[t - jbp.len()] == bytes[t]);
            }
        }
    }
    if j < batches.len() {
        let bj = batches[j as int];
        lemma_journal_bytes_split(batches, j + 1);
        assert(batches.subrange(0, j + 1).drop_last() =~= whole);
        assert(batches.subrange(0, j + 1).last() == bj);
        assert(journal_bytes(batches.subrange(0, j + 1)) == jbp + batch_bytes(bj));
        assert(tail.len() < batch_bytes(bj).len());
        assert(tail =~= batch_bytes(bj).subrange(0, tail.len() as int)) by {
            assert forall|t: int| 0 <= t < tail.len() implies tail[t] == batch_bytes(bj)[t] by {
                assert(tail[t] == journal_bytes(batches)[jbp.len() + t]);
                assert(journal_bytes(batches)[jbp.len() + t] == (journal_bytes(
                    batches.subrange(0, j + 1),
                ) + journal_bytes(batches.subrange(j + 1, batches.len() as int)))[jbp.len() + t]);
                assert((jbp + batch_bytes(bj))[jbp.len() + t] == batch_bytes(bj)[t]);
            }
        }
    } else {
        assert(tail =~= Seq::<u8>::empty());
    }
}

/// Batch atomicity across a crash: recovering a journal cut anywhere
/// inside batch `j` replays exactly the first `j` batches — each one whole
/// — and truncates the stream at the end of batch `j - 1`.  Nothing of the
/// torn batch survives; nothing of a whole batch is lost.
#[verifier::rlimit(100)]
pub proof fn lemma_crash_recovery(
    batches: Seq<BatchM>,
    j: int,
    cut: int,
    wl: Option<Seq<Seq<u8>>>,
)
    requires
        forall|i: int| 0 <= i < batches.len() ==> batch_wf(#[trigger] batches[i]),
        0 <= j <= batches.len(),
        journal_bytes(batches.subrange(0, j)).len() <= cut <= journal_bytes(batches).len(),
        j < batches.len() ==> cut < journal_bytes(batches.subrange(0, j + 1)).len(),
        j == batches.len() ==> cut == journal_bytes(batches).len(),
    ensures
        spec_recover(journal_bytes(batches).subrange(0, cut), wl)
            == (RecoveryResultM::Recovered {
            applied: applied_of(batches.subrange(0, j), wl),
            truncate_to: journal_bytes(batches.subrange(0, j)).len() as int,
        }),
{
    let whole = batches.subrange(0, j);
    let jbp = journal_bytes(whole);
    let bytes = journal_bytes(batches).subrange(0, cut);
    let tail = bytes.subrange(jbp.len() as int, cut);
    lemma_cut_decomposition(batches, j, cut);
    assert forall|i: int| 0 <= i < whole.len() implies batch_wf(#[trigger] whole[i]) by {
        assert(whole[i] == batches[i]);
    }
    if j < batches.len() {
        lemma_run_batches(bytes, wl, 0, Seq::empty(), 0, whole, tail);
    } else {
        assert(whole =~= batches);
        lemma_run_batches(bytes, wl, 0, Seq::empty(), 0, whole, tail);
    }
    assert(Seq::<AppliedM>::empty() + applied_of(whole, wl) =~= applied_of(whole, wl));
}

/// Durability: once the whole journal is synced, recovering its bytes
/// replays every committed batch, in order, with nothing lost and nothing
/// added.
#[verifier::rlimit(100)]
pub proof fn lemma_durability_after_sync(batches: Seq<BatchM>, wl: Option<Seq<Seq<u8>>>)
    requires
        forall|i: int| 0 <= i < batches.len() ==> batch_wf(#[trigger] batches[i]),
    ensures
        spec_recover(journal_bytes(batches), wl) == (RecoveryResultM::Recovered {
            applied: applied_of(batches, wl),
            truncate_to: journal_bytes(batches).len() as int,
        }),
{
    assert(batches.subrange(0, batches.len() as int) =~= batches);
    lemma_crash_recovery(batches, batches.len() as int, journal_bytes(batches).len() as int, wl);
    assert(journal_bytes(batches).subrange(0, journal_bytes(batches).len() as int)
        =~= journal_bytes(batches));
}

} // verus!
