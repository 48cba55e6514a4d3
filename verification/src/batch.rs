//! Atomic write batches.
//!
//! A batch gathers writes in memory.  Committing assigns one shared seqno
//! to every item, appends them to the journal as a single CRC-framed batch,
//! syncs it, and only then applies the items to the active memtable.  After
//! a crash, recovery replays either the whole batch or none of it.

use crate::journal::{batch_bytes, BatchM};
use crate::lookup::{fits, newest_visible};
use crate::marker::{ItemM, JournalItem};
use crate::memtable::records_sorted;
use crate::tree::Tree;
use crate::value::{RecordM, Value, ValueType};
use vstd::prelude::*;

verus! {

/// An atomic write batch.
#[derive(Debug)]
pub struct Batch {
    /// The gathered writes, in order; their seqnos are assigned at commit.
    pub data: Vec<Value>,
}

/// The records a batch commits: its items, all under the shared seqno.
pub open spec fn batch_records(data: Seq<RecordM>, seqno: u64) -> Seq<RecordM> {
    data.map_values(|r: RecordM| RecordM { seqno, ..r })
}

/// The journal items of a batch.
pub open spec fn batch_items(data: Seq<RecordM>) -> Seq<ItemM> {
    data.map_values(
        |r: RecordM| ItemM {
            partition: Seq::empty(),
            key: r.key,
            value: r.value,
            tombstone: r.tombstone,
        },
    )
}

/// The item that decides a key's outcome: the last one in the batch that
/// carries the key, if any.
pub open spec fn batch_last_for(data: Seq<RecordM>, k: Seq<u8>) -> Option<RecordM>
    decreases data.len(),
{
    if data.len() == 0 {
        None
    } else if data.last().key == k {
        Some(data.last())
    } else {
        batch_last_for(data.drop_last(), k)
    }
}

impl View for Batch {
    type V = Seq<RecordM>;

    open spec fn view(&self) -> Seq<RecordM> {
        self.data@.map_values(|v: Value| v@)
    }
}

impl Batch {
    /// Every gathered item fits the journal's length prefixes.
    pub open spec fn wf(&self) -> bool {
        forall|i: int|
            0 <= i < self@.len() ==> (#[trigger] self@[i]).key.len() < 0x1_0000_0000 && self@[i].value.len()
                < 0x1_0000_0000
    }

    /// Starts an empty batch.
    pub fn new() -> (r: Batch)
        ensures
            r@ == Seq::<RecordM>::empty(),
            r.wf(),
    {
        let r = Batch { data: Vec::new() };
        proof {
            assert(r@ =~= Seq::<RecordM>::empty());
        }
        r
    }

    /// Gathers an insert of a key-value pair.
    pub fn insert(&mut self, key: Vec<u8>, value: Vec<u8>)
        requires
            key@.len() < 0x1_0000_0000,
            value@.len() < 0x1_0000_0000,
        ensures
            final(self)@ == old(self)@.push(
                RecordM { key: key@, value: value@, seqno: 0, tombstone: false },
            ),
            old(self).wf() ==> final(self).wf(),
    {
        let ghost pre = self@;
        self.data.push(Value::new(key, value, 0, ValueType::Value));
        proof {
            assert(self@ =~= pre.push(self.data@.last()@));
        }
    }

    /// Gathers a deletion of a key.
    pub fn remove(&mut self, key: Vec<u8>)
        requires
            key@.len() < 0x1_0000_0000,
        ensures
            final(self)@ == old(self)@.push(
                RecordM { key: key@, value: Seq::empty(), seqno: 0, tombstone: true },
            ),
            old(self).wf() ==> final(self).wf(),
    {
        let ghost pre = self@;
        self.data.push(Value::new(key, Vec::new(), 0, ValueType::Tombstone));
        proof {
            assert(self.data@.last()@.value =~= Seq::<u8>::empty());
            assert(self@ =~= pre.push(self.data@.last()@));
        }
    }

    /// Commits the batch atomically: one shared seqno, one journal batch,
    /// synced before the items reach the memtable.  Within the batch, the
    /// last write to a key wins.
    pub fn commit(self, tree: &mut Tree)
        requires
            old(tree).wf(),
            old(tree).lsn < u64::MAX,
            self.wf(),
            self@.len() < 0x1_0000_0000,
        ensures
            final(tree).wf(),
            final(tree).lsn == old(tree).lsn + 1,
            final(tree).open_snapshots == old(tree).open_snapshots,
            final(tree).config == old(tree).config,
            final(tree).next_id == old(tree).next_id,
            final(tree).sealed_memtables == old(tree).sealed_memtables,
            final(tree).levels == old(tree).levels,
            final(tree).journal_base == old(tree).journal_base,
            final(tree).journal.path == old(tree).journal.path,
            // Batched writes do not feed the memtable size estimate; the
            // flush trigger follows single writes.
            final(tree).approx_active_memtable_size == old(tree).approx_active_memtable_size,
            // Per key: the batch's last item decides, other keys are as before.
            forall|k: Seq<u8>| #[trigger]
                final(tree).visible_value(k, None) == (match batch_last_for(
                    batch_records(self@, old(tree).lsn),
                    k,
                ) {
                    Some(r) => if r.tombstone {
                        None::<Seq<u8>>
                    } else {
                        Some(r.value)
                    },
                    None => old(tree).visible_value(k, None),
                }),
            // Snapshot isolation.
            forall|k: Seq<u8>, c: u64|
                c <= old(tree).lsn ==> #[trigger] final(tree).visible_record(k, Some(c)) == old(
                    tree,
                ).visible_record(k, Some(c)),
            // The journal gains exactly this batch, durably.
            final(tree).journal_batches@ == old(tree).journal_batches@.push(
                BatchM { seqno: old(tree).lsn, items: batch_items(self@) },
            ),
            final(tree).journal.buf@ == old(tree).journal.buf@ + batch_bytes(
                BatchM { seqno: old(tree).lsn, items: batch_items(self@) },
            ),
            final(tree).journal.synced_len == final(tree).journal.buf@.len(),
    {
        let ghost datam = self@;
        let seqno = tree.lsn;
        tree.lsn = tree.lsn + 1;
        proof {
            assert(tree.layers() == old(tree).layers());
        }
        // Serialize the items for the journal.
        let mut jitems: Vec<JournalItem> = Vec::new();
        let n = self.data.len();
        let mut i: usize = 0;
        proof {
            assert(jitems@.map_values(|x: JournalItem| x@) =~= batch_items(
                datam.subrange(0, 0),
            ));
        }
        while i < n
            invariant
                0 <= i <= n,
                n == datam.len(),
                datam == self@,
                self.wf(),
                jitems@.map_values(|x: JournalItem| x@) == batch_items(datam.subrange(0, i as int)),
            decreases n - i,
        {
            let it = &self.data[i];
            let ghost pre_items = jitems@.map_values(|x: JournalItem| x@);
            jitems.push(
                JournalItem {
                    partition: Vec::new(),
                    key: crate::value::copy_bytes(&it.key),
                    value: crate::value::copy_bytes(&it.value),
                    value_type: it.value_type,
                },
            );
            proof {
                let last = jitems@.last();
                assert(last@.partition =~= Seq::<u8>::empty());
                assert(last@ == batch_items(datam)[i as int]);
                assert(jitems@.map_values(|x: JournalItem| x@) =~= pre_items.push(last@));
                assert(batch_items(datam.subrange(0, i + 1)) =~= batch_items(
                    datam.subrange(0, i as int),
                ).push(batch_items(datam)[i as int]));
            }
            i += 1;
        }
        proof {
            assert(datam.subrange(0, n as int) =~= datam);
            assert forall|j: int| 0 <= j < jitems@.len() implies crate::marker::item_wf(
                #[trigger] jitems@[j]@,
            ) by {
                assert(jitems@[j]@ == batch_items(datam)[j]);
            }
        }
        let ghost pre_journal = *tree;
        let _written = tree.journal.write_batch(&jitems, seqno);
        tree.journal.flush();
        let ghost batch = BatchM { seqno, items: batch_items(datam) };
        proof {
            tree.journal_batches@ = pre_journal.journal_batches@.push(batch);
            assert(jitems@.map_values(|x: JournalItem| x@) == batch_items(datam));
            crate::tree::lemma_journal_push(pre_journal.journal_batches@, batch);
            if pre_journal.wf() {
                assert(tree.journal.buf@ =~= tree.journal_base@ + crate::journal::journal_bytes(
                    tree.journal_batches@,
                ));
            }
            assert(crate::journal::batch_wf(batch)) by {
                assert forall|j: int| 0 <= j < batch.items.len() implies crate::marker::item_wf(
                    #[trigger] batch.items[j],
                ) by {
                    assert(batch.items[j] == batch_items(datam)[j]);
                }
            }
        }
        // Apply the items to the active memtable, in order.
        let ghost s = seqno;
        let ghost after_journal = *tree;
        let mut i: usize = 0;
        proof {
            assert(batch_records(datam, s).subrange(0, 0) =~= Seq::<RecordM>::empty());
            assert(tree.layers() == old(tree).layers());
            old(tree).lemma_layer_index();
            tree.lemma_layer_index();
            assert forall|r: RecordM| #[trigger]
                tree.active_memtable@.contains(r) implies r.seqno <= s by {
                assert(old(tree).layers()[0].contains(r));
            }
            assert forall|l: int, r: RecordM|
                1 <= l < tree.layers().len() && #[trigger] tree.layers()[l].contains(r) implies
                r.seqno < s by {
                assert(old(tree).layers()[l].contains(r));
            }
        }
        while i < n
            invariant
                0 <= i <= n,
                n == datam.len(),
                datam == self@,
                self.wf(),
                s == old(tree).lsn,
                seqno == s,
                tree.lsn == old(tree).lsn + 1,
                s < tree.lsn,
                tree.sealed_memtables == old(tree).sealed_memtables,
                tree.levels == old(tree).levels,
                tree.open_snapshots == old(tree).open_snapshots,
                tree.config == old(tree).config,
                tree.journal == after_journal.journal,
                tree.journal_batches == after_journal.journal_batches,
                tree.journal_base == old(tree).journal_base,
                after_journal.journal_base == old(tree).journal_base,
                tree.approx_active_memtable_size == old(tree).approx_active_memtable_size,
                tree.journal.path == old(tree).journal.path,
                after_journal.journal.buf@ == old(tree).journal.buf@ + batch_bytes(
                    BatchM { seqno: s, items: batch_items(datam) },
                ),
                after_journal.journal.synced_len == after_journal.journal.buf@.len(),
                after_journal.journal_batches@ == old(tree).journal_batches@.push(
                    BatchM { seqno: s, items: batch_items(datam) },
                ),
                tree.next_id == old(tree).next_id,
                forall|l: int|
                    0 <= l < tree.layers().len() ==> records_sorted(#[trigger] tree.layers()[l]),
                crate::tree::layers_ordered(tree.layers()),
                crate::tree::seqnos_below(tree.layers(), tree.lsn),
                forall|l: int, r: RecordM|
                    1 <= l < tree.layers().len() && #[trigger] tree.layers()[l].contains(r)
                        ==> r.seqno < s,
                forall|r: RecordM| #[trigger]
                    tree.active_memtable@.contains(r) ==> r.seqno <= s,
                forall|k: Seq<u8>| #[trigger]
                    newest_visible(tree.records(), k, None) == (match batch_last_for(
                        batch_records(datam, s).subrange(0, i as int),
                        k,
                    ) {
                        Some(r) => Some(r),
                        None => newest_visible(old(tree).records(), k, None),
                    }),
                forall|k: Seq<u8>, c: u64|
                    c <= s ==> #[trigger] newest_visible(tree.records(), k, Some(c))
                        == newest_visible(old(tree).records(), k, Some(c)),
            decreases n - i,
        {
            let it = &self.data[i];
            let rec = Value {
                key: crate::value::copy_bytes(&it.key),
                value: crate::value::copy_bytes(&it.value),
                seqno,
                value_type: it.value_type,
            };
            let ghost vm = rec@;
            let ghost pre = *tree;
            proof {
                pre.lemma_layer_index();
                assert(pre.layers()[0] == pre.active_memtable@);
                assert(records_sorted(pre.active_memtable@));
                assert(datam[i as int] == self.data@[i as int]@);
                assert(batch_records(datam, s)[i as int] == (RecordM {
                    seqno: s,
                    ..datam[i as int]
                }));
                assert(vm == batch_records(datam, s)[i as int]);
            }
            tree.active_memtable.insert(rec);
            proof {
                crate::tree::lemma_insert_into_active(pre, *tree, vm);
                tree.lemma_layer_index();
                assert(tree.layers()[0] == tree.active_memtable@);
                // Deeper layers are untouched.
                assert forall|l: int, r: RecordM|
                    1 <= l < tree.layers().len() && #[trigger] tree.layers()[l].contains(r)
                        implies r.seqno < s by {
                    assert(tree.layers()[l] == pre.layers()[l]);
                }
                // The per-key outcome after one more item.
                let prefix_pre = batch_records(datam, s).subrange(0, i as int);
                let prefix_cur = batch_records(datam, s).subrange(0, i + 1);
                assert(prefix_cur.drop_last() =~= prefix_pre);
                assert(prefix_cur.last() == vm);
                assert forall|k: Seq<u8>| #[trigger]
                    newest_visible(tree.records(), k, None) == (match batch_last_for(
                        prefix_cur,
                        k,
                    ) {
                        Some(r) => Some(r),
                        None => newest_visible(old(tree).records(), k, None),
                    }) by {
                    if k == vm.key {
                        assert(batch_last_for(prefix_cur, k) == Some(vm));
                    } else {
                        assert(batch_last_for(prefix_cur, k) == batch_last_for(prefix_pre, k));
                        assert(newest_visible(tree.records(), k, None) == newest_visible(
                            pre.records(),
                            k,
                            None,
                        ));
                    }
                }
                assert forall|k: Seq<u8>, c: u64| c <= s implies #[trigger] newest_visible(
                    tree.records(),
                    k,
                    Some(c),
                ) == newest_visible(old(tree).records(), k, Some(c)) by {
                    assert(!fits(vm, Some(c)));
                    assert(newest_visible(tree.records(), k, Some(c)) == newest_visible(
                        pre.records(),
                        k,
                        Some(c),
                    ));
                }
            }
            i += 1;
        }
        proof {
            assert(batch_records(datam, s).subrange(0, n as int) =~= batch_records(datam, s));
            assert(tree.journal.buf@ =~= tree.journal_base@ + crate::journal::journal_bytes(
                tree.journal_batches@,
            ));
            assert forall|x: int, y: int|
                0 <= x < y < tree.journal_batches@.len() implies (
            #[trigger] tree.journal_batches@[x]).seqno < (
            #[trigger] tree.journal_batches@[y]).seqno by {
                if y < old(tree).journal_batches@.len() {
                    assert(tree.journal_batches@[x] == old(tree).journal_batches@[x]);
                    assert(tree.journal_batches@[y] == old(tree).journal_batches@[y]);
                } else {
                    assert(tree.journal_batches@[x] == old(tree).journal_batches@[x]);
                    assert(tree.journal_batches@[y].seqno == s);
                }
            }
        }
    }
}

impl Tree {
    /// Starts an atomic write batch; commit it with [`Batch::commit`].
    pub fn batch(&self) -> (r: Batch)
        ensures
            r@ == Seq::<RecordM>::empty(),
            r.wf(),
    {
        Batch::new()
    }
}

} // verus!
