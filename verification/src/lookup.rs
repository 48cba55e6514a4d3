//! The mathematical model of a layered lookup.
//!
//! A read of a key at a sequence-number ceiling returns the record with the
//! highest seqno among all records for that key whose seqno lies below the
//! ceiling.  [`newest_visible`] states that once and for all; every layer
//! (memtable, segment, whole tree) promises its reads against it.

use crate::value::RecordM;
use vstd::prelude::*;

verus! {

/// A record is visible below a ceiling.  The ceiling is exclusive
/// (`seqno < c`); the `None` ceiling admits every record.
pub open spec fn fits(r: RecordM, ceiling: Option<u64>) -> bool {
    match ceiling {
        None => true,
        Some(c) => r.seqno < c,
    }
}

/// A record is a candidate for a read of `key` at `ceiling`.
pub open spec fn matches_key(r: RecordM, key: Seq<u8>, ceiling: Option<u64>) -> bool {
    r.key == key && fits(r, ceiling)
}

/// The newest (highest-seqno) candidate record for `key` at `ceiling`,
/// regardless of where in `rs` it sits.
pub open spec fn newest_visible(rs: Seq<RecordM>, key: Seq<u8>, ceiling: Option<u64>) -> Option<
    RecordM,
>
    decreases rs.len(),
{
    if rs.len() == 0 {
        None
    } else {
        let rest = newest_visible(rs.drop_last(), key, ceiling);
        let last = rs.last();
        if matches_key(last, key, ceiling) {
            match rest {
                None => Some(last),
                Some(b) => if last.seqno > b.seqno {
                    Some(last)
                } else {
                    Some(b)
                },
            }
        } else {
            rest
        }
    }
}

/// What [`newest_visible`] returns: nothing when no candidate exists, and
/// otherwise a candidate that no other candidate outranks.
pub proof fn lemma_nv_props(rs: Seq<RecordM>, key: Seq<u8>, ceiling: Option<u64>)
    ensures
        match newest_visible(rs, key, ceiling) {
            None => forall|r: RecordM| rs.contains(r) ==> !matches_key(r, key, ceiling),
            Some(b) => rs.contains(b) && matches_key(b, key, ceiling) && forall|r: RecordM|
                rs.contains(r) && matches_key(r, key, ceiling) ==> r.seqno <= b.seqno,
        },
    decreases rs.len(),
{
    if rs.len() > 0 {
        lemma_nv_props(rs.drop_last(), key, ceiling);
        assert(rs.contains(rs.last())) by {
            assert(rs[rs.len() - 1] == rs.last());
        }
        assert forall|r: RecordM| rs.contains(r) implies r == rs.last() || rs.drop_last().contains(
            r,
        ) by {
            let i = choose|i: int| 0 <= i < rs.len() && rs[i] == r;
            if i < rs.len() - 1 {
                assert(rs.drop_last()[i] == r);
            }
        }
        assert forall|r: RecordM| rs.drop_last().contains(r) implies rs.contains(r) by {
            let i = choose|i: int| 0 <= i < rs.drop_last().len() && rs.drop_last()[i] == r;
            assert(rs[i] == r);
        }
    }
}

/// A candidate that outranks every other candidate, and that no distinct
/// candidate ties with, is exactly what [`newest_visible`] returns.
pub proof fn lemma_nv_pin(rs: Seq<RecordM>, key: Seq<u8>, ceiling: Option<u64>, r: RecordM)
    requires
        rs.contains(r),
        matches_key(r, key, ceiling),
        forall|r2: RecordM| rs.contains(r2) && matches_key(r2, key, ceiling) ==> r2.seqno
            <= r.seqno,
        forall|r2: RecordM|
            rs.contains(r2) && matches_key(r2, key, ceiling) && r2.seqno == r.seqno ==> r2 == r,
    ensures
        newest_visible(rs, key, ceiling) == Some(r),
    decreases rs.len(),
{
    let last = rs.last();
    assert(rs.contains(last)) by {
        assert(rs[rs.len() - 1] == last);
    }
    assert forall|r2: RecordM| rs.drop_last().contains(r2) implies rs.contains(r2) by {
        let i = choose|i: int| 0 <= i < rs.drop_last().len() && rs.drop_last()[i] == r2;
        assert(rs[i] == r2);
    }
    lemma_nv_props(rs.drop_last(), key, ceiling);
    assert forall|r2: RecordM|
        rs.drop_last().contains(r2) && matches_key(r2, key, ceiling) implies r2.seqno
        <= r.seqno by {
        let i = choose|i: int| 0 <= i < rs.drop_last().len() && rs.drop_last()[i] == r2;
        assert(rs[i] == r2);
        assert(rs.contains(r2));
    }
    assert forall|r2: RecordM|
        rs.drop_last().contains(r2) && matches_key(r2, key, ceiling) && r2.seqno
        == r.seqno implies r2 == r by {
        let i = choose|i: int| 0 <= i < rs.drop_last().len() && rs.drop_last()[i] == r2;
        assert(rs[i] == r2);
        assert(rs.contains(r2));
    }
    if last == r {
        if rs.drop_last().contains(r) {
            lemma_nv_pin(rs.drop_last(), key, ceiling, r);
        }
    } else {
        // `r` sits strictly before the last position.
        let i = choose|i: int| 0 <= i < rs.len() && rs[i] == r;
        assert(i < rs.len() - 1);
        assert(rs.drop_last()[i] == r);
        lemma_nv_pin(rs.drop_last(), key, ceiling, r);
        if matches_key(last, key, ceiling) {
            assert(last.seqno < r.seqno);
        }
    }
}

/// Concatenating record sequences concatenates their members.
pub proof fn lemma_add_contains(s1: Seq<RecordM>, s2: Seq<RecordM>)
    ensures
        forall|r: RecordM| (s1 + s2).contains(r) <==> s1.contains(r) || s2.contains(r),
{
    assert forall|r: RecordM| (s1 + s2).contains(r) implies s1.contains(r) || s2.contains(r) by {
        let i = choose|i: int| 0 <= i < (s1 + s2).len() && (s1 + s2)[i] == r;
        if i < s1.len() {
            assert(s1[i] == r);
        } else {
            assert(s2[i - s1.len()] == r);
        }
    }
    assert forall|r: RecordM| s1.contains(r) || s2.contains(r) implies (s1 + s2).contains(r) by {
        if s1.contains(r) {
            let i = choose|i: int| 0 <= i < s1.len() && s1[i] == r;
            assert((s1 + s2)[i] == r);
        } else {
            let i = choose|i: int| 0 <= i < s2.len() && s2[i] == r;
            assert((s1 + s2)[s1.len() + i] == r);
        }
    }
}

/// Concatenation of a sequence of layers, first layer first.
pub open spec fn seq_concat(layers: Seq<Seq<RecordM>>) -> Seq<RecordM>
    decreases layers.len(),
{
    if layers.len() == 0 {
        Seq::empty()
    } else {
        seq_concat(layers.drop_last()) + layers.last()
    }
}

/// A record lies in the concatenation of layers exactly when some layer holds it.
pub proof fn lemma_concat_membership(layers: Seq<Seq<RecordM>>)
    ensures
        forall|r: RecordM| #[trigger]
            seq_concat(layers).contains(r) <==> exists|l: int|
                0 <= l < layers.len() && #[trigger] layers[l].contains(r),
    decreases layers.len(),
{
    if layers.len() > 0 {
        lemma_concat_membership(layers.drop_last());
        lemma_add_contains(seq_concat(layers.drop_last()), layers.last());
        assert forall|r: RecordM| #[trigger] seq_concat(layers).contains(r) implies exists|l: int|
            0 <= l < layers.len() && #[trigger] layers[l].contains(r) by {
            if seq_concat(layers.drop_last()).contains(r) {
                let l = choose|l: int|
                    0 <= l < layers.drop_last().len() && #[trigger] layers.drop_last()[l].contains(
                        r,
                    );
                assert(layers[l].contains(r));
            } else {
                assert(layers[layers.len() - 1].contains(r));
            }
        }
        assert forall|r: RecordM, l: int|
            0 <= l < layers.len() && #[trigger] layers[l].contains(r) implies #[trigger] seq_concat(
            layers,
        ).contains(r) by {
            if l < layers.len() - 1 {
                assert(layers.drop_last()[l].contains(r));
                assert(seq_concat(layers.drop_last()).contains(r));
            } else {
                assert(layers.last().contains(r));
            }
        }
    }
}

/// Two record pools with the same candidates for `(key, ceiling)`, free of
/// ties among them, answer a lookup alike.
pub proof fn lemma_nv_same_candidates(
    rs1: Seq<RecordM>,
    rs2: Seq<RecordM>,
    key: Seq<u8>,
    ceiling: Option<u64>,
)
    requires
        forall|r: RecordM|
            (#[trigger] rs1.contains(r) && matches_key(r, key, ceiling)) <==> (
            #[trigger] rs2.contains(r) && matches_key(r, key, ceiling)),
        forall|r1: RecordM, r2: RecordM|
            rs1.contains(r1) && rs1.contains(r2) && matches_key(r1, key, ceiling) && matches_key(
                r2,
                key,
                ceiling,
            ) && r1.key == r2.key && r1.seqno == r2.seqno ==> r1 == r2,
    ensures
        newest_visible(rs1, key, ceiling) == newest_visible(rs2, key, ceiling),
{
    lemma_nv_props(rs1, key, ceiling);
    lemma_nv_props(rs2, key, ceiling);
    match newest_visible(rs1, key, ceiling) {
        Some(b) => {
            assert(rs2.contains(b) && matches_key(b, key, ceiling));
            assert forall|r2: RecordM|
                rs2.contains(r2) && matches_key(r2, key, ceiling) implies r2.seqno <= b.seqno by {
                assert(rs1.contains(r2) && matches_key(r2, key, ceiling));
            }
            assert forall|r2: RecordM|
                rs2.contains(r2) && matches_key(r2, key, ceiling) && r2.seqno
                == b.seqno implies r2 == b by {
                assert(rs1.contains(r2) && matches_key(r2, key, ceiling));
            }
            lemma_nv_pin(rs2, key, ceiling, b);
        },
        None => {
            if newest_visible(rs2, key, ceiling) is Some {
                let b2 = newest_visible(rs2, key, ceiling).unwrap();
                assert(rs1.contains(b2) && matches_key(b2, key, ceiling));
            }
        },
    }
}

} // verus!
