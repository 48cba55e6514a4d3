//! Value records and the lexicographic key order.

use vstd::prelude::*;

verus! {

/// Discriminates live values from deletion markers.
#[derive(Clone, Copy, PartialEq, Eq, Structural, Debug)]
pub enum ValueType {
    /// A regular value.
    Value,
    /// A deletion marker ("tombstone"); it carries empty bytes.
    Tombstone,
}

/// A single record: a key, its bytes, the sequence number of the write that
/// produced it, and whether it is a live value or a tombstone.
#[derive(Clone, Debug)]
pub struct Value {
    pub key: Vec<u8>,
    pub value: Vec<u8>,
    pub seqno: u64,
    pub value_type: ValueType,
}

/// The mathematical shadow of a [`Value`].
pub struct RecordM {
    pub key: Seq<u8>,
    pub value: Seq<u8>,
    pub seqno: u64,
    pub tombstone: bool,
}

impl Value {
    pub open spec fn is_tombstone_spec(&self) -> bool {
        self.value_type is Tombstone
    }

    #[verifier::when_used_as_spec(is_tombstone_spec)]
    pub fn is_tombstone(&self) -> (r: bool)
        ensures
            r == self.is_tombstone_spec(),
    {
        matches!(self.value_type, ValueType::Tombstone)
    }

    pub fn new(key: Vec<u8>, value: Vec<u8>, seqno: u64, value_type: ValueType) -> (r: Value)
        ensures
            r@ == (RecordM {
                key: key@,
                value: value@,
                seqno,
                tombstone: value_type is Tombstone,
            }),
    {
        Value { key, value, seqno, value_type }
    }
}

impl View for Value {
    type V = RecordM;

    open spec fn view(&self) -> RecordM {
        RecordM {
            key: self.key@,
            value: self.value@,
            seqno: self.seqno,
            tombstone: self.value_type is Tombstone,
        }
    }
}

/// Strict lexicographic order on byte strings: `a` comes before `b`.
pub open spec fn lex_lt(a: Seq<u8>, b: Seq<u8>) -> bool
    decreases a.len(),
{
    if b.len() == 0 {
        false
    } else if a.len() == 0 {
        true
    } else if a[0] < b[0] {
        true
    } else if a[0] > b[0] {
        false
    } else {
        lex_lt(a.drop_first(), b.drop_first())
    }
}

/// Non-strict lexicographic order.
pub open spec fn lex_le(a: Seq<u8>, b: Seq<u8>) -> bool {
    lex_lt(a, b) || a == b
}

/// Of two distinct byte strings, one is strictly below the other.
pub proof fn lemma_lex_total(a: Seq<u8>, b: Seq<u8>)
    ensures
        lex_lt(a, b) || lex_lt(b, a) || a == b,
    decreases a.len(),
{
    if b.len() == 0 {
        if a.len() == 0 {
            assert(a =~= b);
        }
    } else if a.len() == 0 {
    } else if a[0] < b[0] {
    } else if a[0] > b[0] {
    } else {
        lemma_lex_total(a.drop_first(), b.drop_first());
        if a.drop_first() == b.drop_first() {
            assert forall|k: int| 0 <= k < a.len() implies a[k] == b[k] by {
                if k > 0 {
                    assert(a.drop_first()[k - 1] == a[k]);
                    assert(b.drop_first()[k - 1] == b[k]);
                }
            }
            assert(a.drop_first().len() == b.drop_first().len());
            assert(a =~= b);
        }
    }
}

/// The lexicographic order is irreflexive: no string is below itself.
pub proof fn lemma_lex_irrefl(a: Seq<u8>)
    ensures
        !lex_lt(a, a),
    decreases a.len(),
{
    if a.len() > 0 {
        lemma_lex_irrefl(a.drop_first());
    }
}

/// The lexicographic order is asymmetric.
pub proof fn lemma_lex_asym(a: Seq<u8>, b: Seq<u8>)
    ensures
        !(lex_lt(a, b) && lex_lt(b, a)),
    decreases a.len(),
{
    if a.len() > 0 && b.len() > 0 && a[0] == b[0] {
        lemma_lex_asym(a.drop_first(), b.drop_first());
    }
}

/// The lexicographic order is transitive.
pub proof fn lemma_lex_trans(a: Seq<u8>, b: Seq<u8>, c: Seq<u8>)
    requires
        lex_lt(a, b),
        lex_lt(b, c),
    ensures
        lex_lt(a, c),
    decreases a.len(),
{
    if a.len() == 0 {
    } else if a[0] < b[0] {
        if b[0] > c[0] {
        } else if b[0] < c[0] {
        } else {
        }
    } else {
        // a[0] == b[0]
        if b[0] < c[0] {
        } else {
            lemma_lex_trans(a.drop_first(), b.drop_first(), c.drop_first());
        }
    }
}

/// Three-way comparison outcome for keys.
#[derive(Clone, Copy, PartialEq, Eq, Structural, Debug)]
pub enum KeyOrd {
    Less,
    Equal,
    Greater,
}

/// Extending the shorter of two byte strings that agree on a common prefix
/// decides the order at the first difference.
proof fn lemma_lex_from_prefix(a: Seq<u8>, b: Seq<u8>, i: int)
    requires
        0 <= i <= a.len(),
        i <= b.len(),
        forall|j: int| 0 <= j < i ==> a[j] == b[j],
    ensures
        i < a.len() && i < b.len() && a[i] < b[i] ==> lex_lt(a, b),
        i < a.len() && i < b.len() && a[i] > b[i] ==> lex_lt(b, a),
        i == a.len() && i < b.len() ==> lex_lt(a, b),
        i == b.len() && i < a.len() ==> lex_lt(b, a),
        i == a.len() && i == b.len() ==> a == b,
    decreases i,
{
    if i == 0 {
        if a.len() == 0 && b.len() == 0 {
            assert(a =~= b);
        }
    } else {
        assert(a[0] == b[0]);
        assert forall|j: int| 0 <= j < i - 1 implies #[trigger] a.drop_first()[j]
            == b.drop_first()[j] by {
            assert(a[j + 1] == b[j + 1]);
        }
        lemma_lex_from_prefix(a.drop_first(), b.drop_first(), i - 1);
        if i == a.len() && i == b.len() {
            assert(a =~= b);
        }
    }
}

/// Compares two keys in lexicographic byte order.
pub fn key_cmp(a: &Vec<u8>, b: &Vec<u8>) -> (r: KeyOrd)
    ensures
        r == KeyOrd::Less <==> lex_lt(a@, b@),
        r == KeyOrd::Equal <==> a@ == b@,
        r == KeyOrd::Greater <==> lex_lt(b@, a@),
{
    let mut i: usize = 0;
    let a_len = a.len();
    let b_len = b.len();
    while i < a_len && i < b_len
        invariant
            0 <= i <= a_len,
            0 <= i <= b_len,
            a_len == a@.len(),
            b_len == b@.len(),
            forall|j: int| 0 <= j < i ==> a@[j] == b@[j],
        decreases a_len - i,
    {
        let x = a[i];
        let y = b[i];
        if x < y {
            proof {
                lemma_lex_from_prefix(a@, b@, i as int);
                lemma_lex_asym(a@, b@);
                lemma_lex_irrefl(a@);
            }
            return KeyOrd::Less;
        }
        if x > y {
            proof {
                lemma_lex_from_prefix(a@, b@, i as int);
                lemma_lex_asym(a@, b@);
                lemma_lex_irrefl(a@);
            }
            return KeyOrd::Greater;
        }
        i += 1;
    }
    proof {
        lemma_lex_from_prefix(a@, b@, i as int);
        lemma_lex_asym(a@, b@);
        lemma_lex_irrefl(a@);
    }
    if a_len < b_len {
        KeyOrd::Less
    } else if a_len > b_len {
        KeyOrd::Greater
    } else {
        KeyOrd::Equal
    }
}

/// Byte-string equality, stated over the views.
pub fn bytes_eq(a: &Vec<u8>, b: &Vec<u8>) -> (r: bool)
    ensures
        r <==> a@ == b@,
{
    matches!(key_cmp(a, b), KeyOrd::Equal)
}

/// Copies a byte string; the copy has the same view as the original.
pub fn copy_bytes(v: &Vec<u8>) -> (r: Vec<u8>)
    ensures
        r@ == v@,
{
    let r = v.clone();
    proof {
        assert(r@ =~= v@);
    }
    r
}

impl Value {
    /// Copies a record; the copy has the same view as the original.
    pub fn duplicate(&self) -> (r: Value)
        ensures
            r@ == self@,
    {
        Value {
            key: copy_bytes(&self.key),
            value: copy_bytes(&self.value),
            seqno: self.seqno,
            value_type: self.value_type,
        }
    }
}

/// `p` is a prefix of `k`.
pub open spec fn is_prefix(p: Seq<u8>, k: Seq<u8>) -> bool {
    p.len() <= k.len() && k.subrange(0, p.len() as int) == p
}

/// A proper prefix comes strictly first in the lexicographic order.
pub proof fn lemma_prefix_le(p: Seq<u8>, k: Seq<u8>)
    requires
        is_prefix(p, k),
    ensures
        lex_le(p, k),
{
    assert forall|j: int| 0 <= j < p.len() implies p[j] == k[j] by {
        assert(k.subrange(0, p.len() as int)[j] == k[j]);
    }
    lemma_lex_from_prefix(p, k, p.len() as int);
}

/// Tests whether `p` is a prefix of `k`.
pub fn starts_with(k: &Vec<u8>, p: &Vec<u8>) -> (r: bool)
    ensures
        r == is_prefix(p@, k@),
{
    let plen = p.len();
    if plen > k.len() {
        return false;
    }
    let mut i: usize = 0;
    while i < plen
        invariant
            0 <= i <= plen,
            plen == p@.len(),
            plen <= k@.len(),
            forall|j: int| 0 <= j < i ==> p@[j] == k@[j],
        decreases plen - i,
    {
        if k[i] != p[i] {
            proof {
                assert(k@.subrange(0, plen as int)[i as int] == k@[i as int]);
            }
            return false;
        }
        i += 1;
    }
    proof {
        assert(k@.subrange(0, plen as int) =~= p@);
    }
    true
}

} // verus!
