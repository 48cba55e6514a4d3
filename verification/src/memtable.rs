//! The in-memory table of recent writes.
//!
//! A memtable holds records sorted by key ascending and, within one key, by
//! seqno descending, so that a scan for a key meets the newest record first.
//! No two records share both key and seqno.

use crate::lookup::{fits, matches_key, newest_visible};
use crate::value::{bytes_eq, key_cmp, lex_lt, KeyOrd, RecordM, Value};
use vstd::prelude::*;

verus! {

/// The memtable order: key ascending, then seqno descending.
pub open spec fn rec_before(a: RecordM, b: RecordM) -> bool {
    lex_lt(a.key, b.key) || (a.key == b.key && a.seqno > b.seqno)
}

/// A strictly ordered run: sorted in memtable order, no clashes.
pub open spec fn records_sorted(rs: Seq<RecordM>) -> bool {
    forall|i: int, j: int| 0 <= i < j < rs.len() ==> rec_before(#[trigger] rs[i], #[trigger] rs[j])
}

/// Two records clash when they share key and seqno.
pub open spec fn same_slot(a: RecordM, b: RecordM) -> bool {
    a.key == b.key && a.seqno == b.seqno
}

/// Of two records, either one is ordered before the other or they clash.
pub proof fn lemma_rec_total(a: RecordM, b: RecordM)
    ensures
        rec_before(a, b) || rec_before(b, a) || same_slot(a, b),
{
    crate::value::lemma_lex_total(a.key, b.key);
}

/// The memtable order is irreflexive and asymmetric.
pub proof fn lemma_rec_asym(a: RecordM, b: RecordM)
    ensures
        !(rec_before(a, b) && rec_before(b, a)),
        !(rec_before(a, b) && same_slot(a, b)),
{
    crate::value::lemma_lex_asym(a.key, b.key);
    crate::value::lemma_lex_irrefl(a.key);
}

/// The memtable order is transitive.
pub proof fn lemma_rec_trans(a: RecordM, b: RecordM, c: RecordM)
    requires
        rec_before(a, b),
        rec_before(b, c),
    ensures
        rec_before(a, c),
{
    if lex_lt(a.key, b.key) && lex_lt(b.key, c.key) {
        crate::value::lemma_lex_trans(a.key, b.key, c.key);
    }
}

/// An in-memory ordered table of records.
#[derive(Debug)]
pub struct Memtable {
    /// The records, in memtable order.
    pub items: Vec<Value>,
}

impl View for Memtable {
    type V = Seq<RecordM>;

    open spec fn view(&self) -> Seq<RecordM> {
        self.items@.map_values(|v: Value| v@)
    }
}

impl Memtable {
    /// Records are strictly ordered: sorted and free of clashes.
    pub open spec fn wf(&self) -> bool {
        records_sorted(self@)
    }

    /// Creates an empty memtable.
    pub fn new() -> (r: Memtable)
        ensures
            r@ == Seq::<RecordM>::empty(),
            r.wf(),
    {
        let r = Memtable { items: Vec::new() };
        proof {
            assert(r@ =~= Seq::<RecordM>::empty());
        }
        r
    }

    /// The number of records held.
    pub fn len(&self) -> (r: usize)
        ensures
            r == self@.len(),
    {
        self.items.len()
    }

    /// The position where `v` belongs: after everything ordered before it.
    fn find_pos(&self, v: &Value) -> (i: usize)
        requires
            self.wf(),
        ensures
            0 <= i <= self@.len(),
            forall|j: int| 0 <= j < i ==> rec_before(#[trigger] self@[j], v@),
            i < self@.len() ==> !rec_before(self@[i as int], v@),
    {
        let n = self.items.len();
        let mut i: usize = 0;
        while i < n
            invariant
                0 <= i <= n,
                n == self@.len(),
                self.wf(),
                forall|j: int| 0 <= j < i ==> rec_before(#[trigger] self@[j], v@),
            decreases n - i,
        {
            let ord = key_cmp(&self.items[i].key, &v.key);
            let here_first = match ord {
                KeyOrd::Less => true,
                KeyOrd::Equal => self.items[i].seqno > v.seqno,
                KeyOrd::Greater => false,
            };
            if !here_first {
                return i;
            }
            i += 1;
        }
        i
    }

    /// Inserts a record.  A record already in the slot (same key and seqno)
    /// is replaced; everything else stays.
    pub fn insert(&mut self, v: Value)
        requires
            old(self).wf(),
        ensures
            final(self).wf(),
            forall|r: RecordM| #[trigger]
                final(self)@.contains(r) <==> (r == v@ || (old(self)@.contains(r) && !same_slot(
                    r,
                    v@,
                ))),
    {
        let ghost old_view = self@;
        let i = self.find_pos(&v);
        let ghost vm = v@;
        if i < self.items.len() {
            let same = {
                let cand = &self.items[i];
                bytes_eq(&cand.key, &v.key) && cand.seqno == v.seqno
            };
            if same {
                // Replace the clashing record in place.
                self.items.set(i, v);
                proof {
                    assert(self@ =~= old_view.update(i as int, vm));
                    Self::lemma_replace_membership(old_view, self@, i as int, vm);
                }
                return ;
            }
            proof {
                lemma_rec_total(old_view[i as int], vm);
            }
        }
        self.items.insert(i, v);
        proof {
            assert(self@ =~= old_view.insert(i as int, vm));
            Self::lemma_insert_membership(old_view, self@, i as int, vm);
        }
    }

    /// Replacing the record at `i` (which clashes with `vm`) in a strictly
    /// ordered table keeps the order and swaps the membership.
    proof fn lemma_replace_membership(
        old_view: Seq<RecordM>,
        new_view: Seq<RecordM>,
        i: int,
        vm: RecordM,
    )
        requires
            0 <= i < old_view.len(),
            new_view == old_view.update(i, vm),
            same_slot(old_view[i], vm),
            forall|a: int, b: int|
                0 <= a < b < old_view.len() ==> rec_before(
                    #[trigger] old_view[a],
                    #[trigger] old_view[b],
                ),
        ensures
            forall|a: int, b: int|
                0 <= a < b < new_view.len() ==> rec_before(
                    #[trigger] new_view[a],
                    #[trigger] new_view[b],
                ),
            forall|r: RecordM| #[trigger]
                new_view.contains(r) <==> (r == vm || (old_view.contains(r) && !same_slot(r, vm))),
    {
        assert forall|a: int, b: int| 0 <= a < b < new_view.len() implies rec_before(
            #[trigger] new_view[a],
            #[trigger] new_view[b],
        ) by {
            assert(rec_before(old_view[a], old_view[b]));
        }
        assert forall|r: RecordM| #[trigger]
            new_view.contains(r) implies (r == vm || (old_view.contains(r) && !same_slot(
            r,
            vm,
        ))) by {
            let j = choose|j: int| 0 <= j < new_view.len() && new_view[j] == r;
            if j != i {
                assert(old_view[j] == r);
                if same_slot(r, vm) {
                    // Two clashing records at distinct positions contradict the order.
                    if j < i {
                        lemma_rec_asym(old_view[j], old_view[i]);
                    } else {
                        lemma_rec_asym(old_view[i], old_view[j]);
                    }
                }
            }
        }
        assert forall|r: RecordM|
            (r == vm || (old_view.contains(r) && !same_slot(r, vm))) implies #[trigger] new_view
            .contains(r) by {
            if r == vm {
                assert(new_view[i] == r);
            } else {
                let j = choose|j: int| 0 <= j < old_view.len() && old_view[j] == r;
                assert(j != i);
                assert(new_view[j] == r);
            }
        }
    }

    /// Inserting a record at its ordered position keeps the order and adds
    /// exactly that record.
    proof fn lemma_insert_membership(
        old_view: Seq<RecordM>,
        new_view: Seq<RecordM>,
        i: int,
        vm: RecordM,
    )
        requires
            0 <= i <= old_view.len(),
            new_view == old_view.insert(i, vm),
            forall|j: int| 0 <= j < i ==> rec_before(#[trigger] old_view[j], vm),
            i < old_view.len() ==> !rec_before(old_view[i], vm) && !same_slot(old_view[i], vm),
            forall|a: int, b: int|
                0 <= a < b < old_view.len() ==> rec_before(
                    #[trigger] old_view[a],
                    #[trigger] old_view[b],
                ),
        ensures
            forall|a: int, b: int|
                0 <= a < b < new_view.len() ==> rec_before(
                    #[trigger] new_view[a],
                    #[trigger] new_view[b],
                ),
            forall|r: RecordM| #[trigger]
                new_view.contains(r) <==> (r == vm || (old_view.contains(r) && !same_slot(r, vm))),
    {
        if i < old_view.len() {
            lemma_rec_total(old_view[i], vm);
            assert(rec_before(vm, old_view[i]));
        }
        // Everything at or after position i in the old order comes after vm.
        assert forall|j: int| i <= j < old_view.len() implies rec_before(
            vm,
            #[trigger] old_view[j],
        ) by {
            if j > i {
                lemma_rec_trans(vm, old_view[i], old_view[j]);
            }
        }
        assert forall|a: int, b: int| 0 <= a < b < new_view.len() implies rec_before(
            #[trigger] new_view[a],
            #[trigger] new_view[b],
        ) by {
            if a < i && b < i {
                assert(rec_before(old_view[a], old_view[b]));
            } else if a < i && b == i {
                assert(new_view[a] == old_view[a]);
            } else if a < i && b > i {
                assert(new_view[a] == old_view[a] && new_view[b] == old_view[b - 1]);
            } else if a == i {
                assert(new_view[b] == old_view[b - 1]);
            } else {
                assert(new_view[a] == old_view[a - 1] && new_view[b] == old_view[b - 1]);
            }
        }
        assert forall|r: RecordM| #[trigger]
            new_view.contains(r) implies (r == vm || (old_view.contains(r) && !same_slot(
            r,
            vm,
        ))) by {
            let j = choose|j: int| 0 <= j < new_view.len() && new_view[j] == r;
            if j != i {
                let j0 = if j < i {
                    j
                } else {
                    j - 1
                };
                assert(old_view[j0] == r);
                if same_slot(r, vm) {
                    if j0 < i {
                        lemma_rec_asym(old_view[j0], vm);
                    } else {
                        lemma_rec_asym(vm, old_view[j0]);
                    }
                }
            }
        }
        assert forall|r: RecordM|
            (r == vm || (old_view.contains(r) && !same_slot(r, vm))) implies #[trigger] new_view
            .contains(r) by {
            if r == vm {
                assert(new_view[i] == r);
            } else {
                let j = choose|j: int| 0 <= j < old_view.len() && old_view[j] == r;
                if j < i {
                    assert(new_view[j] == r);
                } else {
                    assert(new_view[j + 1] == r);
                }
            }
        }
    }

    /// Returns the newest record for `key` visible below `seqno`, or nothing.
    pub fn get(&self, key: &Vec<u8>, seqno: Option<u64>) -> (r: Option<Value>)
        requires
            self.wf(),
        ensures
            match r {
                Some(v) => newest_visible(self@, key@, seqno) == Some(v@),
                None => newest_visible(self@, key@, seqno) is None,
            },
    {
        sorted_get(&self.items, key, seqno)
    }
}

/// Returns the newest record for `key` visible below `seqno` in a strictly
/// ordered run, or nothing.
pub fn sorted_get(items: &Vec<Value>, key: &Vec<u8>, seqno: Option<u64>) -> (r: Option<Value>)
    requires
        records_sorted(items@.map_values(|v: Value| v@)),
    ensures
        match r {
            Some(v) => newest_visible(items@.map_values(|v: Value| v@), key@, seqno) == Some(v@),
            None => newest_visible(items@.map_values(|v: Value| v@), key@, seqno) is None,
        },
{
    let ghost view = items@.map_values(|v: Value| v@);
    let n = items.len();
    let mut i: usize = 0;
    while i < n
        invariant
            0 <= i <= n,
            n == view.len(),
            view == items@.map_values(|v: Value| v@),
            records_sorted(view),
            forall|j: int| 0 <= j < i ==> !matches_key(#[trigger] view[j], key@, seqno),
        decreases n - i,
    {
        let cand = &items[i];
        let key_hit = bytes_eq(&cand.key, key);
        let fits_here = match seqno {
            Some(c) => cand.seqno < c,
            None => true,
        };
        if key_hit && fits_here {
            let found = items[i].duplicate();
            proof {
                let rm = view[i as int];
                assert(matches_key(rm, key@, seqno));
                assert forall|r2: RecordM|
                    view.contains(r2) && matches_key(r2, key@, seqno) implies r2.seqno
                    <= rm.seqno by {
                    let j = choose|j: int| 0 <= j < view.len() && view[j] == r2;
                    if j < i {
                        assert(!matches_key(view[j], key@, seqno));
                    } else if j > i {
                        assert(rec_before(view[i as int], view[j]));
                        crate::value::lemma_lex_irrefl(key@);
                    }
                }
                assert forall|r2: RecordM|
                    view.contains(r2) && matches_key(r2, key@, seqno) && r2.seqno
                    == rm.seqno implies r2 == rm by {
                    let j = choose|j: int| 0 <= j < view.len() && view[j] == r2;
                    if j < i {
                        assert(!matches_key(view[j], key@, seqno));
                    } else if j > i {
                        lemma_rec_asym(view[i as int], view[j]);
                    }
                }
                assert(view.contains(rm)) by {
                    assert(view[i as int] == rm);
                }
                crate::lookup::lemma_nv_pin(view, key@, seqno, rm);
            }
            return Some(found);
        }
        i += 1;
    }
    proof {
        crate::lookup::lemma_nv_props(view, key@, seqno);
    }
    None
}

} // verus!
