//! The journal record format.
//!
//! A journal is a byte stream of markers.  A batch is written as
//! `Start { item_count, seqno }`, then `item_count` `Item` markers, then
//! `End(crc)` where the checksum covers the serialized `Item` markers of the
//! batch.  Integers are big-endian; length prefixes are 32 bits wide.

use crate::value::ValueType;
use vstd::prelude::*;

verus! {

// ---------------------------------------------------------------------------
// Big-endian integers
// ---------------------------------------------------------------------------
/// The four big-endian bytes of a 32-bit integer.
pub open spec fn u32_be(x: u32) -> Seq<u8> {
    seq![(x >> 24) as u8, (x >> 16) as u8, (x >> 8) as u8, x as u8]
}

/// The eight big-endian bytes of a 64-bit integer.
pub open spec fn u64_be(x: u64) -> Seq<u8> {
    seq![
        (x >> 56) as u8,
        (x >> 48) as u8,
        (x >> 40) as u8,
        (x >> 32) as u8,
        (x >> 24) as u8,
        (x >> 16) as u8,
        (x >> 8) as u8,
        x as u8,
    ]
}

/// The 32-bit integer read big-endian at `pos`.
pub open spec fn be_u32_at(bytes: Seq<u8>, pos: int) -> u32
    recommends
        0 <= pos,
        pos + 4 <= bytes.len(),
{
    (((bytes[pos] as u32) << 24) | ((bytes[pos + 1] as u32) << 16) | ((bytes[pos + 2] as u32) << 8)
        | (bytes[pos + 3] as u32))
}

/// The 64-bit integer read big-endian at `pos`.
pub open spec fn be_u64_at(bytes: Seq<u8>, pos: int) -> u64
    recommends
        0 <= pos,
        pos + 8 <= bytes.len(),
{
    (((bytes[pos] as u64) << 56) | ((bytes[pos + 1] as u64) << 48) | ((bytes[pos + 2] as u64) << 40)
        | ((bytes[pos + 3] as u64) << 32) | ((bytes[pos + 4] as u64) << 24) | ((bytes[pos
        + 5] as u64) << 16) | ((bytes[pos + 6] as u64) << 8) | (bytes[pos + 7] as u64))
}

/// Reading back the four big-endian bytes of `x` yields `x`.
pub proof fn lemma_u32_be_roundtrip(x: u32, bytes: Seq<u8>, pos: int)
    requires
        0 <= pos,
        pos + 4 <= bytes.len(),
        bytes.subrange(pos, pos + 4) == u32_be(x),
    ensures
        be_u32_at(bytes, pos) == x,
{
    assert(bytes[pos] == u32_be(x)[0] && bytes[pos + 1] == u32_be(x)[1] && bytes[pos + 2] == u32_be(
        x,
    )[2] && bytes[pos + 3] == u32_be(x)[3]) by {
        assert(bytes.subrange(pos, pos + 4)[0] == bytes[pos]);
        assert(bytes.subrange(pos, pos + 4)[1] == bytes[pos + 1]);
        assert(bytes.subrange(pos, pos + 4)[2] == bytes[pos + 2]);
        assert(bytes.subrange(pos, pos + 4)[3] == bytes[pos + 3]);
    }
    assert((((((x >> 24) as u8) as u32) << 24) | ((((x >> 16) as u8) as u32) << 16) | ((((x
        >> 8) as u8) as u32) << 8) | ((x as u8) as u32)) == x) by (bit_vector);
}

/// Reading back the eight big-endian bytes of `x` yields `x`.
pub proof fn lemma_u64_be_roundtrip(x: u64, bytes: Seq<u8>, pos: int)
    requires
        0 <= pos,
        pos + 8 <= bytes.len(),
        bytes.subrange(pos, pos + 8) == u64_be(x),
    ensures
        be_u64_at(bytes, pos) == x,
{
    assert forall|k: int| 0 <= k < 8 implies bytes[pos + k] == u64_be(x)[k] by {
        assert(bytes.subrange(pos, pos + 8)[k] == bytes[pos + k]);
    }
    assert(bytes[pos] == u64_be(x)[0] && bytes[pos + 1] == u64_be(x)[1] && bytes[pos + 2] == u64_be(
        x,
    )[2] && bytes[pos + 3] == u64_be(x)[3] && bytes[pos + 4] == u64_be(x)[4] && bytes[pos + 5]
        == u64_be(x)[5] && bytes[pos + 6] == u64_be(x)[6] && bytes[pos + 7] == u64_be(x)[7]);
    assert((((((x >> 56) as u8) as u64) << 56) | ((((x >> 48) as u8) as u64) << 48) | ((((x
        >> 40) as u8) as u64) << 40) | ((((x >> 32) as u8) as u64) << 32) | ((((x
        >> 24) as u8) as u64) << 24) | ((((x >> 16) as u8) as u64) << 16) | ((((x
        >> 8) as u8) as u64) << 8) | ((x as u8) as u64)) == x) by (bit_vector);
}

/// Appends the big-endian bytes of a 32-bit integer.
pub fn push_u32_be(out: &mut Vec<u8>, x: u32)
    ensures
        final(out)@ == old(out)@ + u32_be(x),
{
    #[verifier::truncate]
    let b0 = (x >> 24) as u8;
    #[verifier::truncate]
    let b1 = (x >> 16) as u8;
    #[verifier::truncate]
    let b2 = (x >> 8) as u8;
    #[verifier::truncate]
    let b3 = x as u8;
    out.push(b0);
    out.push(b1);
    out.push(b2);
    out.push(b3);
    proof {
        assert(final(out)@ =~= old(out)@ + u32_be(x));
    }
}

/// Appends the big-endian bytes of a 64-bit integer.
pub fn push_u64_be(out: &mut Vec<u8>, x: u64)
    ensures
        final(out)@ == old(out)@ + u64_be(x),
{
    #[verifier::truncate]
    let b0 = (x >> 56) as u8;
    #[verifier::truncate]
    let b1 = (x >> 48) as u8;
    #[verifier::truncate]
    let b2 = (x >> 40) as u8;
    #[verifier::truncate]
    let b3 = (x >> 32) as u8;
    #[verifier::truncate]
    let b4 = (x >> 24) as u8;
    #[verifier::truncate]
    let b5 = (x >> 16) as u8;
    #[verifier::truncate]
    let b6 = (x >> 8) as u8;
    #[verifier::truncate]
    let b7 = x as u8;
    out.push(b0);
    out.push(b1);
    out.push(b2);
    out.push(b3);
    out.push(b4);
    out.push(b5);
    out.push(b6);
    out.push(b7);
    proof {
        assert(final(out)@ =~= old(out)@ + u64_be(x));
    }
}

/// Reads the big-endian 32-bit integer at `pos`.
pub fn read_u32_be(bytes: &Vec<u8>, pos: usize) -> (r: u32)
    requires
        pos + 4 <= bytes@.len(),
    ensures
        r == be_u32_at(bytes@, pos as int),
{
    let n = bytes.len();
    assert(pos + 4 <= n);
    let b0 = bytes[pos];
    let b1 = bytes[pos + 1];
    let b2 = bytes[pos + 2];
    let b3 = bytes[pos + 3];
    ((b0 as u32) << 24) | ((b1 as u32) << 16) | ((b2 as u32) << 8) | (b3 as u32)
}

/// Reads the big-endian 64-bit integer at `pos`.
pub fn read_u64_be(bytes: &Vec<u8>, pos: usize) -> (r: u64)
    requires
        pos + 8 <= bytes@.len(),
    ensures
        r == be_u64_at(bytes@, pos as int),
{
    let n = bytes.len();
    assert(pos + 8 <= n);
    let b0 = bytes[pos];
    let b1 = bytes[pos + 1];
    let b2 = bytes[pos + 2];
    let b3 = bytes[pos + 3];
    let b4 = bytes[pos + 4];
    let b5 = bytes[pos + 5];
    let b6 = bytes[pos + 6];
    let b7 = bytes[pos + 7];
    ((b0 as u64) << 56) | ((b1 as u64) << 48) | ((b2 as u64) << 40) | ((b3 as u64) << 32) | ((
    b4 as u64) << 24) | ((b5 as u64) << 16) | ((b6 as u64) << 8) | (b7 as u64)
}

// ---------------------------------------------------------------------------
// Journal items and markers
// ---------------------------------------------------------------------------
/// One write of a batch: the partition it belongs to, the key, the value
/// bytes, and whether it is a live value or a tombstone.
#[derive(Debug)]
pub struct JournalItem {
    pub partition: Vec<u8>,
    pub key: Vec<u8>,
    pub value: Vec<u8>,
    pub value_type: ValueType,
}

/// The mathematical shadow of a [`JournalItem`].
pub struct ItemM {
    pub partition: Seq<u8>,
    pub key: Seq<u8>,
    pub value: Seq<u8>,
    pub tombstone: bool,
}

impl View for JournalItem {
    type V = ItemM;

    open spec fn view(&self) -> ItemM {
        ItemM {
            partition: self.partition@,
            key: self.key@,
            value: self.value@,
            tombstone: self.value_type is Tombstone,
        }
    }
}

impl JournalItem {
    /// Copies an item; the copy has the same view as the original.
    pub fn duplicate(&self) -> (r: JournalItem)
        ensures
            r@ == self@,
    {
        JournalItem {
            partition: crate::value::copy_bytes(&self.partition),
            key: crate::value::copy_bytes(&self.key),
            value: crate::value::copy_bytes(&self.value),
            value_type: self.value_type,
        }
    }
}

/// An item's byte strings each fit a 32-bit length prefix.
pub open spec fn item_wf(i: ItemM) -> bool {
    &&& i.partition.len() < 0x1_0000_0000
    &&& i.key.len() < 0x1_0000_0000
    &&& i.value.len() < 0x1_0000_0000
}

/// One marker of the journal byte stream.
#[derive(Debug)]
pub enum Marker {
    /// Opens a batch of `item_count` writes that all carry `seqno`.
    Start { item_count: u32, seqno: u64 },
    /// One write of the open batch.
    Item(JournalItem),
    /// Closes the open batch; carries the CRC-32 of the batch's item bytes.
    End(u32),
}

/// The mathematical shadow of a [`Marker`].
pub enum MarkerM {
    Start { item_count: u32, seqno: u64 },
    Item(ItemM),
    End(u32),
}

impl View for Marker {
    type V = MarkerM;

    open spec fn view(&self) -> MarkerM {
        match self {
            Marker::Start { item_count, seqno } => MarkerM::Start {
                item_count: *item_count,
                seqno: *seqno,
            },
            Marker::Item(i) => MarkerM::Item(i@),
            Marker::End(crc) => MarkerM::End(*crc),
        }
    }
}

/// A marker's variable-length fields fit their length prefixes.
pub open spec fn marker_wf(m: MarkerM) -> bool {
    match m {
        MarkerM::Item(i) => item_wf(i),
        _ => true,
    }
}

/// The encoding of an `Item` marker.
pub open spec fn item_bytes(i: ItemM) -> Seq<u8> {
    seq![1u8] + u32_be(i.partition.len() as u32) + i.partition + u32_be(i.key.len() as u32) + i.key
        + seq![if i.tombstone { 1u8 } else { 0u8 }] + u32_be(i.value.len() as u32) + i.value
}

/// The encoding of a marker.
pub open spec fn marker_bytes(m: MarkerM) -> Seq<u8> {
    match m {
        MarkerM::Start { item_count, seqno } => seq![0u8] + u32_be(item_count) + u64_be(seqno),
        MarkerM::Item(i) => item_bytes(i),
        MarkerM::End(crc) => seq![2u8] + u32_be(crc),
    }
}

/// Every marker encoding starts with its tag byte and is non-empty.
pub proof fn lemma_marker_bytes_len(m: MarkerM)
    ensures
        marker_bytes(m).len() >= 5,
        match m {
            MarkerM::Start { .. } => marker_bytes(m).len() == 13,
            MarkerM::Item(i) => marker_bytes(m).len() == 14 + i.partition.len() + i.key.len()
                + i.value.len(),
            MarkerM::End(_) => marker_bytes(m).len() == 5,
        },
{
}

impl Marker {
    /// Serializes the marker, appending its encoding to `out`.
    pub fn serialize(&self, out: &mut Vec<u8>)
        requires
            marker_wf(self@),
        ensures
            final(out)@ == old(out)@ + marker_bytes(self@),
    {
        match self {
            Marker::Start { item_count, seqno } => {
                out.push(0u8);
                push_u32_be(out, *item_count);
                push_u64_be(out, *seqno);
                proof {
                    assert(final(out)@ =~= old(out)@ + marker_bytes(self@));
                }
            },
            Marker::Item(item) => {
                out.push(1u8);
                #[verifier::truncate]
                let plen = item.partition.len() as u32;
                push_u32_be(out, plen);
                append_bytes(out, &item.partition);
                #[verifier::truncate]
                let klen = item.key.len() as u32;
                push_u32_be(out, klen);
                append_bytes(out, &item.key);
                if item.is_tombstone() {
                    out.push(1u8);
                } else {
                    out.push(0u8);
                }
                #[verifier::truncate]
                let vlen = item.value.len() as u32;
                push_u32_be(out, vlen);
                append_bytes(out, &item.value);
                proof {
                    assert(final(out)@ =~= old(out)@ + marker_bytes(self@));
                }
            },
            Marker::End(crc) => {
                out.push(2u8);
                push_u32_be(out, *crc);
                proof {
                    assert(final(out)@ =~= old(out)@ + marker_bytes(self@));
                }
            },
        }
    }
}

impl JournalItem {
    /// Returns `true` when the item is a tombstone.
    pub fn is_tombstone(&self) -> (r: bool)
        ensures
            r == self@.tombstone,
    {
        matches!(self.value_type, ValueType::Tombstone)
    }

    /// The encoding of the item alone, as the batch checksum covers it.
    pub fn encoded(&self) -> (r: Vec<u8>)
        requires
            item_wf(self@),
        ensures
            r@ == item_bytes(self@),
    {
        let mut out: Vec<u8> = Vec::new();
        let m = Marker::Item(self.duplicate());
        m.serialize(&mut out);
        proof {
            assert(out@ =~= item_bytes(self@));
        }
        out
    }
}

/// Appends all of `src` to `out`.
pub fn append_bytes(out: &mut Vec<u8>, src: &Vec<u8>)
    ensures
        final(out)@ == old(out)@ + src@,
{
    let mut i: usize = 0;
    let n = src.len();
    while i < n
        invariant
            0 <= i <= n,
            n == src@.len(),
            out@ == old(out)@ + src@.subrange(0, i as int),
        decreases n - i,
    {
        out.push(src[i]);
        proof {
            assert(old(out)@ + src@.subrange(0, i as int) + seq![src@[i as int]] =~= old(out)@
                + src@.subrange(0, i + 1));
        }
        i += 1;
    }
    proof {
        assert(src@.subrange(0, n as int) =~= src@);
    }
}

// ---------------------------------------------------------------------------
// Parsing
// ---------------------------------------------------------------------------
/// What reading one marker out of a byte stream can yield.
pub enum ParseOutcome {
    /// A complete marker and the position just after it.
    Parsed(MarkerM, int),
    /// The stream ends before the marker is complete.
    Eof,
    /// A byte where a tag was expected holds none of the known tags.
    BadTag(u8),
}

/// Reads a length-prefixed byte string at `pos`: four big-endian length
/// bytes, then that many content bytes.
pub open spec fn parse_chunk(bytes: Seq<u8>, pos: int) -> Option<(Seq<u8>, int)>
    recommends
        0 <= pos,
{
    if pos + 4 > bytes.len() {
        None
    } else {
        let n = be_u32_at(bytes, pos) as int;
        if pos + 4 + n > bytes.len() {
            None
        } else {
            Some((bytes.subrange(pos + 4, pos + 4 + n), pos + 4 + n))
        }
    }
}

/// Reads the body of an `Item` marker (everything after its tag byte).
pub open spec fn parse_item(bytes: Seq<u8>, pos: int) -> ParseOutcome
    recommends
        0 <= pos,
{
    match parse_chunk(bytes, pos) {
        None => ParseOutcome::Eof,
        Some((partition, p1)) => match parse_chunk(bytes, p1) {
            None => ParseOutcome::Eof,
            Some((key, p2)) => if p2 + 1 > bytes.len() {
                ParseOutcome::Eof
            } else {
                let vt = bytes[p2];
                if vt > 1 {
                    ParseOutcome::BadTag(vt)
                } else {
                    match parse_chunk(bytes, p2 + 1) {
                        None => ParseOutcome::Eof,
                        Some((value, p3)) => ParseOutcome::Parsed(
                            MarkerM::Item(ItemM { partition, key, value, tombstone: vt == 1 }),
                            p3,
                        ),
                    }
                }
            },
        },
    }
}

/// Reads one marker at `pos`.
pub open spec fn parse_marker(bytes: Seq<u8>, pos: int) -> ParseOutcome
    recommends
        0 <= pos <= bytes.len(),
{
    if pos >= bytes.len() {
        ParseOutcome::Eof
    } else {
        let tag = bytes[pos];
        if tag == 0 {
            if pos + 13 <= bytes.len() {
                ParseOutcome::Parsed(
                    MarkerM::Start {
                        item_count: be_u32_at(bytes, pos + 1),
                        seqno: be_u64_at(bytes, pos + 5),
                    },
                    pos + 13,
                )
            } else {
                ParseOutcome::Eof
            }
        } else if tag == 1 {
            parse_item(bytes, pos + 1)
        } else if tag == 2 {
            if pos + 5 <= bytes.len() {
                ParseOutcome::Parsed(MarkerM::End(be_u32_at(bytes, pos + 1)), pos + 5)
            } else {
                ParseOutcome::Eof
            }
        } else {
            ParseOutcome::BadTag(tag)
        }
    }
}

/// Why a marker could not be read back.
#[derive(Clone, Copy, Debug, PartialEq, Eq, Structural)]
pub enum DeserializeError {
    /// The stream ends before the marker is complete.
    UnexpectedEof,
    /// A byte where a tag was expected holds none of the known tags.
    InvalidTag(u8),
}

/// Copies `bytes[start..end]` into a fresh vector.
pub fn copy_range(bytes: &Vec<u8>, start: usize, end: usize) -> (r: Vec<u8>)
    requires
        start <= end,
        end <= bytes@.len(),
    ensures
        r@ == bytes@.subrange(start as int, end as int),
{
    let mut out: Vec<u8> = Vec::new();
    let mut i: usize = start;
    while i < end
        invariant
            start <= i <= end,
            end <= bytes@.len(),
            out@ == bytes@.subrange(start as int, i as int),
        decreases end - i,
    {
        out.push(bytes[i]);
        proof {
            assert(bytes@.subrange(start as int, i as int).push(bytes@[i as int]) =~= bytes@
                .subrange(start as int, i + 1));
        }
        i += 1;
    }
    out
}

/// Reads a length-prefixed byte string at `pos`.
fn read_chunk(bytes: &Vec<u8>, pos: usize) -> (r: Option<(Vec<u8>, usize)>)
    requires
        pos <= bytes@.len(),
    ensures
        match r {
            Some(c) => parse_chunk(bytes@, pos as int) == Some((c.0@, c.1 as int)) && pos < c.1
                <= bytes@.len(),
            None => parse_chunk(bytes@, pos as int) is None,
        },
{
    let len = bytes.len();
    if len - pos < 4 {
        return None;
    }
    let n32 = read_u32_be(bytes, pos);
    let n = n32 as usize;
    if n > len - (pos + 4) {
        return None;
    }
    let content = copy_range(bytes, pos + 4, pos + 4 + n);
    Some((content, pos + 4 + n))
}

impl Marker {
    /// Reads back one marker at `pos`; the outcome mirrors [`parse_marker`].
    pub fn deserialize(bytes: &Vec<u8>, pos: usize) -> (r: Result<
        (Marker, usize),
        DeserializeError,
    >)
        requires
            pos <= bytes@.len(),
        ensures
            match r {
                Ok(p) => parse_marker(bytes@, pos as int) == ParseOutcome::Parsed(p.0@, p.1 as int)
                    && pos < p.1 <= bytes@.len() && marker_wf(p.0@),
                Err(DeserializeError::UnexpectedEof) => parse_marker(bytes@, pos as int)
                    is Eof,
                Err(DeserializeError::InvalidTag(t)) => parse_marker(bytes@, pos as int)
                    == ParseOutcome::BadTag(t),
            },
    {
        let len = bytes.len();
        if pos >= len {
            return Err(DeserializeError::UnexpectedEof);
        }
        let tag = bytes[pos];
        if tag == 0 {
            if len - pos < 13 {
                return Err(DeserializeError::UnexpectedEof);
            }
            let item_count = read_u32_be(bytes, pos + 1);
            let seqno = read_u64_be(bytes, pos + 5);
            Ok((Marker::Start { item_count, seqno }, pos + 13))
        } else if tag == 1 {
            let (partition, p1) = match read_chunk(bytes, pos + 1) {
                Some(c) => c,
                None => {
                    return Err(DeserializeError::UnexpectedEof);
                },
            };
            let (key, p2) = match read_chunk(bytes, p1) {
                Some(c) => c,
                None => {
                    return Err(DeserializeError::UnexpectedEof);
                },
            };
            if p2 >= len {
                return Err(DeserializeError::UnexpectedEof);
            }
            let vt = bytes[p2];
            if vt > 1 {
                return Err(DeserializeError::InvalidTag(vt));
            }
            let (value, p3) = match read_chunk(bytes, p2 + 1) {
                Some(c) => c,
                None => {
                    return Err(DeserializeError::UnexpectedEof);
                },
            };
            let value_type = if vt == 1 {
                ValueType::Tombstone
            } else {
                ValueType::Value
            };
            Ok((Marker::Item(JournalItem { partition, key, value, value_type }), p3))
        } else if tag == 2 {
            if len - pos < 5 {
                return Err(DeserializeError::UnexpectedEof);
            }
            let crc = read_u32_be(bytes, pos + 1);
            Ok((Marker::End(crc), pos + 5))
        } else {
            Err(DeserializeError::InvalidTag(tag))
        }
    }
}

// ---------------------------------------------------------------------------
// Round trip
// ---------------------------------------------------------------------------
/// A chunk encoding embedded in a stream parses back to its content.
proof fn lemma_parse_chunk_embed(bytes: Seq<u8>, pos: int, c: Seq<u8>)
    requires
        0 <= pos,
        c.len() < 0x1_0000_0000,
        pos + 4 + c.len() <= bytes.len(),
        bytes.subrange(pos, pos + 4) == u32_be(c.len() as u32),
        bytes.subrange(pos + 4, pos + 4 + c.len()) == c,
    ensures
        parse_chunk(bytes, pos) == Some((c, pos + 4 + c.len())),
{
    lemma_u32_be_roundtrip(c.len() as u32, bytes, pos);
    assert(be_u32_at(bytes, pos) as int == c.len());
}

/// A marker encoding embedded in a stream parses back to the marker.
#[verifier::rlimit(100)]
pub proof fn lemma_parse_marker_embed(bytes: Seq<u8>, pos: int, m: MarkerM)
    requires
        marker_wf(m),
        0 <= pos,
        pos + marker_bytes(m).len() <= bytes.len(),
        bytes.subrange(pos, pos + marker_bytes(m).len()) == marker_bytes(m),
    ensures
        parse_marker(bytes, pos) == ParseOutcome::Parsed(m, pos + marker_bytes(m).len()),
{
    let mb = marker_bytes(m);
    let mblen = mb.len() as int;
    assert forall|j: int| 0 <= j < mblen implies bytes[pos + j] == mb[j] by {
        assert(bytes.subrange(pos, pos + mblen)[j] == bytes[pos + j]);
    }
    lemma_marker_bytes_len(m);
    match m {
        MarkerM::Start { item_count, seqno } => {
            assert(bytes[pos] == mb[0]);
            assert(mb[0] == 0u8);
            assert(bytes.subrange(pos + 1, pos + 5) =~= u32_be(item_count)) by {
                assert forall|t: int| 0 <= t < 4 implies #[trigger] bytes.subrange(pos + 1, pos + 5)[t]
                    == u32_be(item_count)[t] by {
                    assert(bytes[pos + 1 + t] == mb[1 + t]);
                    assert(mb[1 + t] == u32_be(item_count)[t]);
                }
            }
            lemma_u32_be_roundtrip(item_count, bytes, pos + 1);
            assert(bytes.subrange(pos + 5, pos + 13) =~= u64_be(seqno)) by {
                assert forall|t: int| 0 <= t < 8 implies #[trigger] bytes.subrange(pos + 5, pos + 13)[t]
                    == u64_be(seqno)[t] by {
                    assert(bytes[pos + 5 + t] == mb[5 + t]);
                    assert(mb[5 + t] == u64_be(seqno)[t]);
                }
            }
            lemma_u64_be_roundtrip(seqno, bytes, pos + 5);
        },
        MarkerM::End(crc) => {
            assert(bytes[pos] == mb[0]);
            assert(mb[0] == 2u8);
            assert(bytes.subrange(pos + 1, pos + 5) =~= u32_be(crc)) by {
                assert forall|t: int| 0 <= t < 4 implies #[trigger] bytes.subrange(pos + 1, pos + 5)[t]
                    == u32_be(crc)[t] by {
                    assert(bytes[pos + 1 + t] == mb[1 + t]);
                    assert(mb[1 + t] == u32_be(crc)[t]);
                }
            }
            lemma_u32_be_roundtrip(crc, bytes, pos + 1);
        },
        MarkerM::Item(i) => {
            let plen = i.partition.len() as int;
            let klen = i.key.len() as int;
            let vlen = i.value.len() as int;
            let o1 = pos + 1;
            let o2 = o1 + 4;
            let o3 = o2 + plen;
            let o4 = o3 + 4;
            let o5 = o4 + klen;
            let o6 = o5 + 1;
            let o7 = o6 + 4;
            let oend = o7 + vlen;
            assert(oend == pos + mblen);
            assert(bytes[pos] == mb[0]);
            assert(mb[0] == 1u8);
            // partition chunk
            assert(bytes.subrange(o1, o1 + 4) =~= u32_be(i.partition.len() as u32)) by {
                assert forall|t: int| 0 <= t < 4 implies #[trigger] bytes.subrange(o1, o1 + 4)[t] == u32_be(
                    i.partition.len() as u32,
                )[t] by {
                    assert(bytes[o1 + t] == mb[1 + t]);
                    assert(mb[1 + t] == u32_be(i.partition.len() as u32)[t]);
                }
            }
            assert(bytes.subrange(o2, o2 + plen) =~= i.partition) by {
                assert forall|t: int| 0 <= t < plen implies #[trigger] bytes.subrange(o2, o2 + plen)[t]
                    == i.partition[t] by {
                    assert(bytes[o2 + t] == mb[5 + t]);
                    assert(mb[5 + t] == i.partition[t]);
                }
            }
            lemma_parse_chunk_embed(bytes, o1, i.partition);
            // key chunk
            assert(bytes.subrange(o3, o3 + 4) =~= u32_be(i.key.len() as u32)) by {
                assert forall|t: int| 0 <= t < 4 implies #[trigger] bytes.subrange(o3, o3 + 4)[t] == u32_be(
                    i.key.len() as u32,
                )[t] by {
                    assert(bytes[o3 + t] == mb[5 + plen + t]);
                    assert(mb[5 + plen + t] == u32_be(i.key.len() as u32)[t]);
                }
            }
            assert(bytes.subrange(o4, o4 + klen) =~= i.key) by {
                assert forall|t: int| 0 <= t < klen implies #[trigger] bytes.subrange(o4, o4 + klen)[t]
                    == i.key[t] by {
                    assert(bytes[o4 + t] == mb[9 + plen + t]);
                    assert(mb[9 + plen + t] == i.key[t]);
                }
            }
            lemma_parse_chunk_embed(bytes, o3, i.key);
            // value-type byte
            assert(bytes[o5] == mb[9 + plen + klen]);
            assert(mb[9 + plen + klen] == (if i.tombstone { 1u8 } else { 0u8 }));
            // value chunk
            assert(bytes.subrange(o6, o6 + 4) =~= u32_be(i.value.len() as u32)) by {
                assert forall|t: int| 0 <= t < 4 implies #[trigger] bytes.subrange(o6, o6 + 4)[t] == u32_be(
                    i.value.len() as u32,
                )[t] by {
                    assert(bytes[o6 + t] == mb[10 + plen + klen + t]);
                    assert(mb[10 + plen + klen + t] == u32_be(i.value.len() as u32)[t]);
                }
            }
            assert(bytes.subrange(o7, o7 + vlen) =~= i.value) by {
                assert forall|t: int| 0 <= t < vlen implies #[trigger] bytes.subrange(o7, o7 + vlen)[t]
                    == i.value[t] by {
                    assert(bytes[o7 + t] == mb[14 + plen + klen + t]);
                    assert(mb[14 + plen + klen + t] == i.value[t]);
                }
            }
            lemma_parse_chunk_embed(bytes, o6, i.value);
            assert(parse_item(bytes, o1) == ParseOutcome::Parsed(MarkerM::Item(i), oend));
        },
    }
}

/// A stream that ends strictly inside a marker encoding yields `Eof` there.
pub proof fn lemma_parse_marker_truncated(bytes: Seq<u8>, pos: int, m: MarkerM)
    requires
        marker_wf(m),
        0 <= pos <= bytes.len(),
        bytes.len() < pos + marker_bytes(m).len(),
        forall|j: int| 0 <= j < bytes.len() - pos ==> bytes[pos + j] == marker_bytes(m)[j],
    ensures
        parse_marker(bytes, pos) is Eof,
{
    let mb = marker_bytes(m);
    let avail = bytes.len() - pos;
    lemma_marker_bytes_len(m);
    if avail == 0 {
        return ;
    }
    assert(bytes[pos] == mb[0]);
    match m {
        MarkerM::Start { item_count, seqno } => {
            assert(mb[0] == 0u8);
            assert(pos + 13 > bytes.len());
        },
        MarkerM::End(crc) => {
            assert(mb[0] == 2u8);
            assert(pos + 5 > bytes.len());
        },
        MarkerM::Item(i) => {
            let plen = i.partition.len() as int;
            let klen = i.key.len() as int;
            let vlen = i.value.len() as int;
            let o1 = pos + 1;
            let o2 = o1 + 4;
            let o3 = o2 + plen;
            let o4 = o3 + 4;
            let o5 = o4 + klen;
            let o6 = o5 + 1;
            let o7 = o6 + 4;
            let oend = o7 + vlen;
            assert(mb[0] == 1u8);
            assert(bytes.len() < oend);
            if o2 > bytes.len() {
                assert(parse_chunk(bytes, o1) is None);
            } else {
                assert(bytes.subrange(o1, o1 + 4) =~= u32_be(i.partition.len() as u32)) by {
                    assert forall|t: int| 0 <= t < 4 implies #[trigger] bytes.subrange(o1, o1 + 4)[t]
                        == u32_be(i.partition.len() as u32)[t] by {
                        assert(bytes[o1 + t] == mb[1 + t]);
                        assert(mb[1 + t] == u32_be(i.partition.len() as u32)[t]);
                    }
                }
                lemma_u32_be_roundtrip(i.partition.len() as u32, bytes, o1);
                if o3 > bytes.len() {
                    assert(parse_chunk(bytes, o1) is None);
                } else {
                    assert(bytes.subrange(o2, o2 + plen) =~= i.partition) by {
                        assert forall|t: int| 0 <= t < plen implies #[trigger] bytes.subrange(
                            o2,
                            o2 + plen,
                        )[t] == i.partition[t] by {
                            assert(bytes[o2 + t] == mb[5 + t]);
                            assert(mb[5 + t] == i.partition[t]);
                        }
                    }
                    lemma_parse_chunk_embed(bytes, o1, i.partition);
                    if o4 > bytes.len() {
                        assert(parse_chunk(bytes, o3) is None);
                    } else {
                        assert(bytes.subrange(o3, o3 + 4) =~= u32_be(i.key.len() as u32)) by {
                            assert forall|t: int| 0 <= t < 4 implies #[trigger] bytes.subrange(
                                o3,
                                o3 + 4,
                            )[t] == u32_be(i.key.len() as u32)[t] by {
                                assert(bytes[o3 + t] == mb[5 + plen + t]);
                                assert(mb[5 + plen + t] == u32_be(i.key.len() as u32)[t]);
                            }
                        }
                        lemma_u32_be_roundtrip(i.key.len() as u32, bytes, o3);
                        if o5 > bytes.len() {
                            assert(parse_chunk(bytes, o3) is None);
                        } else {
                            assert(bytes.subrange(o4, o4 + klen) =~= i.key) by {
                                assert forall|t: int| 0 <= t < klen implies #[trigger] bytes.subrange(
                                    o4,
                                    o4 + klen,
                                )[t] == i.key[t] by {
                                    assert(bytes[o4 + t] == mb[9 + plen + t]);
                                    assert(mb[9 + plen + t] == i.key[t]);
                                }
                            }
                            lemma_parse_chunk_embed(bytes, o3, i.key);
                            if o6 > bytes.len() {
                                assert(o5 + 1 > bytes.len());
                            } else {
                                assert(bytes[o5] == mb[9 + plen + klen]);
                                assert(mb[9 + plen + klen] == (if i.tombstone {
                                    1u8
                                } else {
                                    0u8
                                }));
                                if o7 > bytes.len() {
                                    assert(parse_chunk(bytes, o6) is None);
                                } else {
                                    assert(bytes.subrange(o6, o6 + 4) =~= u32_be(
                                        i.value.len() as u32,
                                    )) by {
                                        assert forall|t: int| 0 <= t < 4 implies #[trigger] bytes.subrange(
                                            o6,
                                            o6 + 4,
                                        )[t] == u32_be(i.value.len() as u32)[t] by {
                                            assert(bytes[o6 + t] == mb[10 + plen + klen + t]);
                                            assert(mb[10 + plen + klen + t] == u32_be(
                                                i.value.len() as u32,
                                            )[t]);
                                        }
                                    }
                                    lemma_u32_be_roundtrip(i.value.len() as u32, bytes, o6);
                                    assert(o6 + 4 + vlen > bytes.len());
                                    assert(parse_chunk(bytes, o6) is None);
                                }
                            }
                        }
                    }
                }
            }
        },
    }
}

} // verus!
