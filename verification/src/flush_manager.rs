//! Scheduling of memtable flushes across partitions.
//!
//! The flush manager keeps one queue of flush tasks per partition, and a
//! least-recently-used list of partitions so that, when journal space runs
//! low, the partition whose last flush is longest past is served first.

use crate::value::bytes_eq;
use vstd::prelude::*;

verus! {

/// One pending flush: a sealed memtable, named by id, of a partition.
#[derive(Debug)]
pub struct Task {
    /// Id of the sealed memtable to flush.
    pub id: u64,
    /// The partition the memtable belongs to.
    pub partition: Vec<u8>,
}

/// The mathematical shadow of a [`Task`].
pub struct TaskM {
    pub id: u64,
    pub partition: Seq<u8>,
}

impl View for Task {
    type V = TaskM;

    open spec fn view(&self) -> TaskM {
        TaskM { id: self.id, partition: self.partition@ }
    }
}

impl Task {
    /// Copies a task; the copy has the same view as the original.
    pub fn duplicate(&self) -> (r: Task)
        ensures
            r@ == self@,
    {
        Task { id: self.id, partition: crate::value::copy_bytes(&self.partition) }
    }
}

/// A least-recently-used list of partitions: the front is the partition
/// longest unserved.
#[derive(Debug)]
pub struct LruList {
    /// Partition names, least recently used first.
    pub items: Vec<Vec<u8>>,
}

impl View for LruList {
    type V = Seq<Seq<u8>>;

    open spec fn view(&self) -> Seq<Seq<u8>> {
        self.items@.map_values(|v: Vec<u8>| v@)
    }
}

/// The predicate "differs from `p`", shared by spec and proofs.
pub open spec fn not_key(p: Seq<u8>) -> spec_fn(Seq<u8>) -> bool {
    |x: Seq<u8>| x != p
}

/// The list after marking `p` as most recently used: `p` moves (or is
/// added) to the back; everything else keeps its order.
pub open spec fn lru_after_refresh(items: Seq<Seq<u8>>, p: Seq<u8>) -> Seq<Seq<u8>> {
    items.filter(not_key(p)).push(p)
}

impl LruList {
    /// Creates an empty list.
    pub fn new() -> (r: LruList)
        ensures
            r@ == Seq::<Seq<u8>>::empty(),
    {
        let r = LruList { items: Vec::new() };
        proof {
            assert(r@ =~= Seq::<Seq<u8>>::empty());
        }
        r
    }

    /// Marks `partition` as most recently used.
    pub fn refresh(&mut self, partition: Vec<u8>)
        ensures
            final(self)@ == lru_after_refresh(old(self)@, partition@),
    {
        let ghost old_view = self@;
        let ghost pred = not_key(partition@);
        let mut kept: Vec<Vec<u8>> = Vec::new();
        let n = self.items.len();
        let mut i: usize = 0;
        proof {
            reveal(Seq::filter);
            assert(kept@.map_values(|v: Vec<u8>| v@) =~= old_view.subrange(0, 0).filter(pred));
        }
        while i < n
            invariant
                0 <= i <= n,
                n == old_view.len(),
                self@ == old_view,
                old_view == self.items@.map_values(|v: Vec<u8>| v@),
                pred == not_key(partition@),
                kept@.map_values(|v: Vec<u8>| v@) == old_view.subrange(0, i as int).filter(pred),
            decreases n - i,
        {
            let keep = !bytes_eq(&self.items[i], &partition);
            let ghost pre = kept@.map_values(|v: Vec<u8>| v@);
            if keep {
                let item = crate::value::copy_bytes(&self.items[i]);
                kept.push(item);
            }
            proof {
                reveal(Seq::filter);
                let cur = old_view.subrange(0, i + 1);
                assert(cur.drop_last() =~= old_view.subrange(0, i as int));
                assert(cur.last() == old_view[i as int]);
                assert(pred(old_view[i as int]) == (old_view[i as int] != partition@));
                if keep {
                    assert(kept@.map_values(|v: Vec<u8>| v@) =~= pre.push(old_view[i as int]));
                    assert(cur.filter(pred) == cur.drop_last().filter(pred).push(cur.last()));
                } else {
                    assert(cur.filter(pred) == cur.drop_last().filter(pred));
                }
            }
            i += 1;
        }
        kept.push(partition);
        self.items = kept;
        proof {
            assert(old_view.subrange(0, n as int) =~= old_view);
            assert(self@ =~= old_view.filter(pred).push(partition@));
        }
    }

    /// Takes the least recently used partition, marks it most recently
    /// used, and returns it.
    pub fn get_least_recently_used(&mut self) -> (r: Option<Vec<u8>>)
        ensures
            match r {
                None => old(self)@.len() == 0 && final(self)@ == old(self)@,
                Some(p) => old(self)@.len() > 0 && p@ == old(self)@[0] && final(self)@
                    == lru_after_refresh(old(self)@.drop_first(), old(self)@[0]),
            },
    {
        if self.items.len() == 0 {
            return None;
        }
        let ghost old_view = self@;
        let front = self.items.remove(0);
        proof {
            assert(self@ =~= old_view.drop_first());
        }
        let copy = crate::value::copy_bytes(&front);
        self.refresh(copy);
        Some(front)
    }
}

/// The queues of pending flush tasks, one per partition, and the fairness
/// list.
#[derive(Debug)]
pub struct FlushManager {
    /// Task queues keyed by partition, oldest task first.
    pub queues: Vec<(Vec<u8>, Vec<Task>)>,
    /// The fairness list over partitions.
    pub lru_list: LruList,
}

/// The view of one task queue: the partition and its tasks in order.
pub open spec fn queue_view(q: (Vec<u8>, Vec<Task>)) -> (Seq<u8>, Seq<TaskM>) {
    (q.0@, q.1@.map_values(|t: Task| t@))
}

/// The tasks queued for partition `p`.
pub open spec fn queued_tasks(queues: Seq<(Vec<u8>, Vec<Task>)>, p: Seq<u8>) -> Seq<TaskM>
    decreases queues.len(),
{
    if queues.len() == 0 {
        Seq::empty()
    } else if queues[0].0@ == p {
        queues[0].1@.map_values(|t: Task| t@)
    } else {
        queued_tasks(queues.drop_first(), p)
    }
}

/// What a bounded collection pass yields: walking the queues in order,
/// taking tasks from the front of each until `limit` tasks are gathered.
pub open spec fn collect_spec(queues: Seq<(Seq<u8>, Seq<TaskM>)>, limit: int) -> Seq<
    (Seq<u8>, Seq<TaskM>),
>
    decreases queues.len(),
{
    if queues.len() == 0 || limit <= 0 {
        Seq::empty()
    } else {
        let q0 = queues[0];
        let take = if q0.1.len() <= limit {
            q0.1.len() as int
        } else {
            limit
        };
        if take > 0 {
            seq![(q0.0, q0.1.subrange(0, take))] + collect_spec(queues.drop_first(), limit - take)
        } else {
            collect_spec(queues.drop_first(), limit)
        }
    }
}

impl FlushManager {
    /// The queue keys are unique: one queue per partition.
    pub open spec fn wf(&self) -> bool {
        forall|i: int, j: int|
            0 <= i < j < self.queues@.len() ==> (#[trigger] self.queues@[i]).0@ != (
            #[trigger] self.queues@[j]).0@
    }

    /// Creates an empty manager.
    pub fn new() -> (r: FlushManager)
        ensures
            r.queues@.len() == 0,
            r.lru_list@ == Seq::<Seq<u8>>::empty(),
            r.wf(),
    {
        FlushManager { queues: Vec::new(), lru_list: LruList::new() }
    }

    /// Serves the partition whose last flush is longest past, marking it
    /// most recently used.
    pub fn flush_least_recently_used_partition(&mut self) -> (r: Option<Vec<u8>>)
        ensures
            final(self).queues == old(self).queues,
            match r {
                None => old(self).lru_list@.len() == 0 && final(self).lru_list@ == old(
                    self,
                ).lru_list@,
                Some(p) => old(self).lru_list@.len() > 0 && p@ == old(self).lru_list@[0]
                    && final(self).lru_list@ == lru_after_refresh(
                    old(self).lru_list@.drop_first(),
                    old(self).lru_list@[0],
                ),
            },
            old(self).wf() ==> final(self).wf(),
    {
        self.lru_list.get_least_recently_used()
    }

    /// Appends a flush task to its partition's queue, creating the queue
    /// when the partition has none yet.
    pub fn enqueue_task(&mut self, partition_name: Vec<u8>, task: Task)
        requires
            old(self).wf(),
        ensures
            final(self).wf(),
            final(self).lru_list == old(self).lru_list,
            queued_tasks(final(self).queues@, partition_name@) == queued_tasks(
                old(self).queues@,
                partition_name@,
            ).push(task@),
            forall|p: Seq<u8>|
                p != partition_name@ ==> queued_tasks(final(self).queues@, p) == queued_tasks(
                    old(self).queues@,
                    p,
                ),
    {
        let ghost old_queues = self.queues@;
        let n = self.queues.len();
        let mut i: usize = 0;
        while i < n
            invariant
                0 <= i <= n,
                n == self.queues@.len(),
                self.queues@ == old_queues,
                old_queues == old(self).queues@,
                self.lru_list == old(self).lru_list,
                forall|a: int, b: int|
                    0 <= a < b < old_queues.len() ==> (#[trigger] old_queues[a]).0@ != (
                    #[trigger] old_queues[b]).0@,
                forall|j: int| 0 <= j < i ==> (#[trigger] old_queues[j]).0@ != partition_name@,
            decreases n - i,
        {
            if bytes_eq(&self.queues[i].0, &partition_name) {
                let pair = self.queues.remove(i);
                let name = pair.0;
                let mut queue = pair.1;
                let ghost old_q = queue@.map_values(|t: Task| t@);
                queue.push(task);
                self.queues.insert(i, (name, queue));
                proof {
                    assert(self.queues@ =~= old_queues.update(
                        i as int,
                        self.queues@[i as int],
                    ));
                    assert(self.queues@[i as int].0@ == old_queues[i as int].0@);
                    assert(self.queues@[i as int].1@.map_values(|t: Task| t@) =~= old_q.push(
                        task@,
                    ));
                    Self::lemma_queued_of_index(old_queues, i as int);
                    Self::lemma_queued_update(old_queues, self.queues@, i as int);
                    assert forall|a: int, b: int|
                        0 <= a < b < self.queues@.len() implies (#[trigger] self.queues@[a]).0@
                        != (#[trigger] self.queues@[b]).0@ by {
                        assert(self.queues@[a].0@ == old_queues[a].0@);
                        assert(self.queues@[b].0@ == old_queues[b].0@);
                    }
                }
                return ;
            }
            i += 1;
        }
        let ghost taskm = task@;
        let mut queue: Vec<Task> = Vec::new();
        queue.push(task);
        self.queues.push((partition_name, queue));
        proof {
            let tup = self.queues@.last();
            assert(self.queues@ == old_queues.push(tup));
            assert(tup.1@.map_values(|t: Task| t@) =~= seq![taskm]);
            Self::lemma_queued_push(old_queues, tup);
            Self::lemma_queued_absent(old_queues, tup.0@);
            assert(queued_tasks(self.queues@, tup.0@) =~= queued_tasks(
                old_queues,
                tup.0@,
            ).push(taskm));
            assert forall|a: int, b: int|
                0 <= a < b < self.queues@.len() implies (#[trigger] self.queues@[a]).0@ != (
                #[trigger] self.queues@[b]).0@ by {
                if b < old_queues.len() {
                    assert(self.queues@[a] == old_queues[a]);
                    assert(self.queues@[b] == old_queues[b]);
                } else {
                    assert(self.queues@[a] == old_queues[a]);
                    assert(self.queues@[b] == tup);
                }
            }
        }
    }

    /// The queue at `i` is what `queued_tasks` finds for its partition.
    proof fn lemma_queued_of_index(queues: Seq<(Vec<u8>, Vec<Task>)>, i: int)
        requires
            0 <= i < queues.len(),
            forall|a: int, b: int|
                0 <= a < b < queues.len() ==> (#[trigger] queues[a]).0@ != (
                #[trigger] queues[b]).0@,
        ensures
            queued_tasks(queues, queues[i].0@) == queues[i].1@.map_values(|t: Task| t@),
        decreases queues.len(),
    {
        if i > 0 {
            assert(queues[0].0@ != queues[i].0@);
            assert forall|a: int, b: int|
                0 <= a < b < queues.drop_first().len() implies (
            #[trigger] queues.drop_first()[a]).0@ != (#[trigger] queues.drop_first()[b]).0@ by {
                assert(queues.drop_first()[a] == queues[a + 1]);
                assert(queues.drop_first()[b] == queues[b + 1]);
            }
            assert(queues.drop_first()[i - 1] == queues[i]);
            Self::lemma_queued_of_index(queues.drop_first(), i - 1);
        }
    }

    /// A partition with no queue has no tasks.
    proof fn lemma_queued_absent(queues: Seq<(Vec<u8>, Vec<Task>)>, p: Seq<u8>)
        requires
            forall|i: int| 0 <= i < queues.len() ==> (#[trigger] queues[i]).0@ != p,
        ensures
            queued_tasks(queues, p) == Seq::<TaskM>::empty(),
        decreases queues.len(),
    {
        if queues.len() > 0 {
            assert forall|i: int| 0 <= i < queues.drop_first().len() implies (
            #[trigger] queues.drop_first()[i]).0@ != p by {
                assert(queues.drop_first()[i] == queues[i + 1]);
            }
            Self::lemma_queued_absent(queues.drop_first(), p);
        }
    }

    /// Replacing the queue of entry `i` changes only that partition.
    proof fn lemma_queued_update(
        queues: Seq<(Vec<u8>, Vec<Task>)>,
        queues2: Seq<(Vec<u8>, Vec<Task>)>,
        i: int,
    )
        requires
            0 <= i < queues.len(),
            queues2.len() == queues.len(),
            queues2[i].0@ == queues[i].0@,
            forall|j: int| 0 <= j < queues.len() && j != i ==> queues2[j] == queues[j],
            forall|a: int, b: int|
                0 <= a < b < queues.len() ==> (#[trigger] queues[a]).0@ != (
                #[trigger] queues[b]).0@,
        ensures
            queued_tasks(queues2, queues[i].0@) == queues2[i].1@.map_values(|t: Task| t@),
            forall|p: Seq<u8>|
                p != queues[i].0@ ==> queued_tasks(queues2, p) == queued_tasks(queues, p),
        decreases queues.len(),
    {
        assert forall|a: int, b: int| 0 <= a < b < queues2.len() implies (
        #[trigger] queues2[a]).0@ != (#[trigger] queues2[b]).0@ by {
            assert(queues2[a].0@ == queues[a].0@ && queues2[b].0@ == queues[b].0@);
        }
        Self::lemma_queued_of_index(queues2, i);
        assert forall|p: Seq<u8>| p != queues[i].0@ implies queued_tasks(queues2, p)
            == queued_tasks(queues, p) by {
            Self::lemma_queued_other(queues, queues2, i, p);
        }
    }

    /// Helper for [`Self::lemma_queued_update`]: partitions other than entry
    /// `i`'s are unaffected.
    proof fn lemma_queued_other(
        queues: Seq<(Vec<u8>, Vec<Task>)>,
        queues2: Seq<(Vec<u8>, Vec<Task>)>,
        i: int,
        p: Seq<u8>,
    )
        requires
            0 <= i < queues.len(),
            queues2.len() == queues.len(),
            queues2[i].0@ == queues[i].0@,
            forall|j: int| 0 <= j < queues.len() && j != i ==> queues2[j] == queues[j],
            p != queues[i].0@,
        ensures
            queued_tasks(queues2, p) == queued_tasks(queues, p),
        decreases queues.len(),
    {
        if queues.len() > 0 {
            if i == 0 {
                assert(queues2.drop_first() =~= queues.drop_first()) by {
                    assert forall|j: int| 0 <= j < queues.drop_first().len() implies queues
                        .drop_first()[j] == queues2.drop_first()[j] by {
                        assert(queues.drop_first()[j] == queues[j + 1]);
                        assert(queues2.drop_first()[j] == queues2[j + 1]);
                    }
                }
            } else {
                assert(queues2[0] == queues[0]);
                if queues[0].0@ != p {
                    assert forall|j: int|
                        0 <= j < queues.drop_first().len() && j != i - 1 implies queues2
                        .drop_first()[j] == queues.drop_first()[j] by {
                        assert(queues.drop_first()[j] == queues[j + 1]);
                        assert(queues2.drop_first()[j] == queues2[j + 1]);
                    }
                    assert(queues2.drop_first()[i - 1].0@ == queues.drop_first()[i - 1].0@) by {
                        assert(queues.drop_first()[i - 1] == queues[i]);
                        assert(queues2.drop_first()[i - 1] == queues2[i]);
                    }
                    Self::lemma_queued_other(queues.drop_first(), queues2.drop_first(), i - 1, p);
                }
            }
        }
    }

    /// Appending a queue for a fresh partition serves it and leaves the
    /// rest alone.
    proof fn lemma_queued_push(queues: Seq<(Vec<u8>, Vec<Task>)>, entry: (Vec<u8>, Vec<Task>))
        requires
            forall|i: int| 0 <= i < queues.len() ==> (#[trigger] queues[i]).0@ != entry.0@,
        ensures
            queued_tasks(queues.push(entry), entry.0@) == entry.1@.map_values(|t: Task| t@),
            forall|p: Seq<u8>|
                p != entry.0@ ==> queued_tasks(queues.push(entry), p) == queued_tasks(queues, p),
        decreases queues.len(),
    {
        let pushed = queues.push(entry);
        if queues.len() == 0 {
            assert(pushed[0] == entry);
            assert forall|p: Seq<u8>| p != entry.0@ implies queued_tasks(pushed, p)
                == queued_tasks(queues, p) by {
                assert(pushed.drop_first() =~= Seq::<(Vec<u8>, Vec<Task>)>::empty());
                assert(queued_tasks(pushed, p) == queued_tasks(pushed.drop_first(), p));
                assert(queued_tasks(pushed.drop_first(), p) == Seq::<TaskM>::empty());
                assert(queued_tasks(queues, p) == Seq::<TaskM>::empty());
            }
        } else {
            assert(pushed[0] == queues[0]);
            assert(queues[0].0@ != entry.0@);
            assert(pushed.drop_first() =~= queues.drop_first().push(entry)) by {
                assert forall|j: int| 0 <= j < pushed.drop_first().len() implies pushed
                    .drop_first()[j] == queues.drop_first().push(entry)[j] by {
                    assert(pushed.drop_first()[j] == pushed[j + 1]);
                    if j < queues.len() - 1 {
                        assert(queues.drop_first().push(entry)[j] == queues[j + 1]);
                    } else {
                        assert(queues.drop_first().push(entry)[j] == entry);
                    }
                }
            }
            assert forall|i: int| 0 <= i < queues.drop_first().len() implies (
            #[trigger] queues.drop_first()[i]).0@ != entry.0@ by {
                assert(queues.drop_first()[i] == queues[i + 1]);
            }
            Self::lemma_queued_push(queues.drop_first(), entry);
            assert forall|p: Seq<u8>| p != entry.0@ implies queued_tasks(pushed, p)
                == queued_tasks(queues, p) by {
                if queues[0].0@ == p {
                } else {
                    assert(queued_tasks(pushed, p) == queued_tasks(
                        queues.drop_first().push(entry),
                        p,
                    ));
                    assert(queued_tasks(queues, p) == queued_tasks(queues.drop_first(), p));
                }
            }
        }
    }
}

/// The view of a list of task queues.
pub open spec fn queues_view(qs: Seq<(Vec<u8>, Vec<Task>)>) -> Seq<(Seq<u8>, Seq<TaskM>)> {
    qs.map_values(|q: (Vec<u8>, Vec<Task>)| queue_view(q))
}

/// Copies the first `k` tasks of a queue.
fn copy_task_prefix(tasks: &Vec<Task>, k: usize) -> (r: Vec<Task>)
    requires
        k <= tasks@.len(),
    ensures
        r@.map_values(|t: Task| t@) == tasks@.map_values(|t: Task| t@).subrange(0, k as int),
{
    let mut out: Vec<Task> = Vec::new();
    let mut i: usize = 0;
    proof {
        assert(out@.map_values(|t: Task| t@) =~= tasks@.map_values(|t: Task| t@).subrange(0, 0));
    }
    while i < k
        invariant
            0 <= i <= k,
            k <= tasks@.len(),
            out@.map_values(|t: Task| t@) == tasks@.map_values(|t: Task| t@).subrange(0, i as int),
        decreases k - i,
    {
        let ghost pre = out@.map_values(|t: Task| t@);
        out.push(tasks[i].duplicate());
        proof {
            let full = tasks@.map_values(|t: Task| t@);
            assert(out@.map_values(|t: Task| t@) =~= pre.push(full[i as int]));
            assert(full.subrange(0, i + 1) =~= full.subrange(0, i as int).push(full[i as int]));
        }
        i += 1;
    }
    out
}

impl FlushManager {
    /// Gathers up to `limit` tasks, walking the queues in order and taking
    /// tasks from the front of each.  Taking several tasks of one partition
    /// at once is sound: they are flushed together, so no older record ever
    /// shadows a newer one.
    pub fn collect_tasks(&self, limit: usize) -> (r: Vec<(Vec<u8>, Vec<Task>)>)
        ensures
            queues_view(r@) == collect_spec(queues_view(self.queues@), limit as int),
    {
        let ghost full = queues_view(self.queues@);
        let mut out: Vec<(Vec<u8>, Vec<Task>)> = Vec::new();
        let mut cnt: usize = 0;
        let n = self.queues.len();
        let mut i: usize = 0;
        proof {
            assert(full.subrange(0, n as int) =~= full);
            assert(queues_view(out@) =~= Seq::<(Seq<u8>, Seq<TaskM>)>::empty());
        }
        while i < n && cnt < limit
            invariant
                0 <= i <= n,
                0 <= cnt <= limit,
                n == self.queues@.len(),
                full == queues_view(self.queues@),
                collect_spec(full, limit as int) == queues_view(out@) + collect_spec(
                    full.subrange(i as int, n as int),
                    limit - cnt,
                ),
            decreases n - i,
        {
            let ghost suffix = full.subrange(i as int, n as int);
            let qlen = self.queues[i].1.len();
            let room = limit - cnt;
            let take = if qlen <= room {
                qlen
            } else {
                room
            };
            proof {
                assert(suffix[0] == full[i as int]);
                assert(full[i as int] == queue_view(self.queues@[i as int]));
                assert(suffix.drop_first() =~= full.subrange(i + 1, n as int));
            }
            if take > 0 {
                let name = crate::value::copy_bytes(&self.queues[i].0);
                let tasks = copy_task_prefix(&self.queues[i].1, take);
                let ghost pre_out = queues_view(out@);
                out.push((name, tasks));
                proof {
                    let tup = out@.last();
                    assert(queues_view(out@) =~= pre_out.push(queue_view(tup)));
                    assert(queue_view(tup) == (
                        full[i as int].0,
                        full[i as int].1.subrange(0, take as int),
                    ));
                    assert(pre_out.push(queue_view(tup)) =~= pre_out + seq![queue_view(tup)]);
                    assert(queues_view(out@) + collect_spec(
                        full.subrange(i + 1, n as int),
                        limit - (cnt + take),
                    ) =~= pre_out + (seq![queue_view(tup)] + collect_spec(
                        full.subrange(i + 1, n as int),
                        limit - (cnt + take),
                    )));
                }
                cnt = cnt + take;
            }
            i += 1;
        }
        proof {
            if i < n {
                // Stopped because the limit was reached.
                assert(collect_spec(full.subrange(i as int, n as int), limit - cnt) =~= Seq::<
                    (Seq<u8>, Seq<TaskM>),
                >::empty());
            } else {
                assert(full.subrange(i as int, n as int) =~= Seq::<(Seq<u8>, Seq<TaskM>)>::empty());
            }
            assert(queues_view(out@) =~= queues_view(out@) + Seq::<
                (Seq<u8>, Seq<TaskM>),
            >::empty());
        }
        out
    }

    /// Removes the first `cnt` tasks of a partition's queue, after marking
    /// the partition of the queue's front task as most recently used.
    pub fn dequeue_tasks(&mut self, partition_name: Vec<u8>, cnt: usize)
        requires
            old(self).wf(),
            cnt <= queued_tasks(old(self).queues@, partition_name@).len(),
        ensures
            final(self).wf(),
            queued_tasks(final(self).queues@, partition_name@) == queued_tasks(
                old(self).queues@,
                partition_name@,
            ).skip(cnt as int),
            forall|p: Seq<u8>|
                p != partition_name@ ==> queued_tasks(final(self).queues@, p) == queued_tasks(
                    old(self).queues@,
                    p,
                ),
            final(self).lru_list@ == (if queued_tasks(
                old(self).queues@,
                partition_name@,
            ).len() > 0 {
                lru_after_refresh(
                    old(self).lru_list@,
                    queued_tasks(old(self).queues@, partition_name@)[0].partition,
                )
            } else {
                old(self).lru_list@
            }),
    {
        let ghost old_queues = self.queues@;
        let ghost p = partition_name@;
        let idx_opt = Self::find_queue(&self.queues, &partition_name);
        let idx = match idx_opt {
            Some(idx) => idx,
            None => {
                proof {
                    Self::lemma_queued_absent(old_queues, p);
                    assert(queued_tasks(old_queues, p).skip(0) =~= queued_tasks(old_queues, p));
                }
                return ;
            },
        };
        proof {
            Self::lemma_queued_of_index(old_queues, idx as int);
        }
        let pair = self.queues.remove(idx);
        let name = pair.0;
        let mut queue = pair.1;
        let ghost old_q = queue@.map_values(|t: Task| t@);
        if queue.len() > 0 {
            let front_partition = crate::value::copy_bytes(&queue[0].partition);
            proof {
                assert(old_q[0] == queue@[0]@);
            }
            self.lru_list.refresh(front_partition);
        }
        let mut k: usize = 0;
        proof {
            assert(queue@.map_values(|t: Task| t@) =~= old_q.skip(0));
        }
        while k < cnt
            invariant
                0 <= k <= cnt,
                cnt <= old_q.len(),
                queue@.map_values(|t: Task| t@) == old_q.skip(k as int),
            decreases cnt - k,
        {
            let ghost pre = queue@.map_values(|t: Task| t@);
            let _ = queue.remove(0);
            proof {
                assert(queue@.map_values(|t: Task| t@) =~= pre.drop_first());
                assert(old_q.skip(k as int).drop_first() =~= old_q.skip(k + 1));
            }
            k += 1;
        }
        self.queues.insert(idx, (name, queue));
        proof {
            assert(self.queues@ =~= old_queues.update(idx as int, self.queues@[idx as int]));
            assert(self.queues@[idx as int].0@ == old_queues[idx as int].0@);
            Self::lemma_queued_update(old_queues, self.queues@, idx as int);
            assert forall|a: int, b: int|
                0 <= a < b < self.queues@.len() implies (#[trigger] self.queues@[a]).0@ != (
                #[trigger] self.queues@[b]).0@ by {
                assert(self.queues@[a].0@ == old_queues[a].0@);
                assert(self.queues@[b].0@ == old_queues[b].0@);
            }
        }
    }

    /// The index of the queue for partition `p`, if one exists.
    fn find_queue(queues: &Vec<(Vec<u8>, Vec<Task>)>, p: &Vec<u8>) -> (r: Option<usize>)
        ensures
            match r {
                Some(i) => i < queues@.len() && queues@[i as int].0@ == p@,
                None => forall|j: int| 0 <= j < queues@.len() ==> (#[trigger] queues@[j]).0@ != p@,
            },
    {
        let n = queues.len();
        let mut i: usize = 0;
        while i < n
            invariant
                0 <= i <= n,
                n == queues@.len(),
                forall|j: int| 0 <= j < i ==> (#[trigger] queues@[j]).0@ != p@,
            decreases n - i,
        {
            if bytes_eq(&queues[i].0, p) {
                return Some(i);
            }
            i += 1;
        }
        None
    }
}

} // verus!
