//! Completion records and their fixed binary layout.
//!
//! A record occupies sixteen bytes, big-endian, without padding: the
//! correlation tag (8 bytes), the signed result (4 bytes, two's complement)
//! and the completion flags (4 bytes).

use crate::error::Error;
use vstd::prelude::*;

verus! {

/// Bytes taken by one completion record in an output region.
pub const RECORD_SIZE: usize = 16;

/// One completion as the kernel ring reports it.
#[derive(Clone, Copy, Debug, PartialEq, Eq, Structural)]
pub struct CompletionRecord {
    /// Correlation tag of the submission this completion answers.
    pub tag: u64,
    /// Zero or more on success, a negated platform error code on failure.
    pub result: i32,
    /// Completion flags as reported by the kernel.
    pub flags: u32,
}

/// Big-endian bytes of a 64-bit value, most significant first.
pub open spec fn be_u64(v: u64) -> Seq<u8> {
    seq![
        ((v / 0x100_0000_0000_0000) % 256) as u8,
        ((v / 0x1_0000_0000_0000) % 256) as u8,
        ((v / 0x100_0000_0000) % 256) as u8,
        ((v / 0x1_0000_0000) % 256) as u8,
        ((v / 0x100_0000) % 256) as u8,
        ((v / 0x1_0000) % 256) as u8,
        ((v / 0x100) % 256) as u8,
        (v % 256) as u8,
    ]
}

/// Big-endian bytes of a 32-bit value, most significant first.
pub open spec fn be_u32(v: u32) -> Seq<u8> {
    seq![
        ((v / 0x100_0000) % 256) as u8,
        ((v / 0x1_0000) % 256) as u8,
        ((v / 0x100) % 256) as u8,
        (v % 256) as u8,
    ]
}

/// The 32-bit two's complement pattern of a signed result.
pub open spec fn result_bits(r: i32) -> u32 {
    if r < 0 {
        (r + 0x1_0000_0000) as u32
    } else {
        r as u32
    }
}

/// The 64-bit value whose big-endian bytes are the first eight of `bytes`.
pub open spec fn from_be_u64(bytes: Seq<u8>) -> u64 {
    (bytes[0] * 0x100_0000_0000_0000 + bytes[1] * 0x1_0000_0000_0000 + bytes[2]
        * 0x100_0000_0000 + bytes[3] * 0x1_0000_0000 + bytes[4] * 0x100_0000 + bytes[5] * 0x1_0000
        + bytes[6] * 0x100 + bytes[7]) as u64
}

/// The 32-bit value whose big-endian bytes are the first four of `bytes`.
pub open spec fn from_be_u32(bytes: Seq<u8>) -> u32 {
    (bytes[0] * 0x100_0000 + bytes[1] * 0x1_0000 + bytes[2] * 0x100 + bytes[3]) as u32
}

/// The signed result that a 32-bit two's complement pattern stands for.
pub open spec fn result_of_bits(bits: u32) -> i32 {
    if bits >= 0x8000_0000 {
        (bits - 0x1_0000_0000) as i32
    } else {
        bits as i32
    }
}

/// The record that sixteen bytes in wire layout stand for.
pub open spec fn parse(bytes: Seq<u8>) -> CompletionRecord {
    CompletionRecord {
        tag: from_be_u64(bytes.subrange(0, 8)),
        result: result_of_bits(from_be_u32(bytes.subrange(8, 12))),
        flags: from_be_u32(bytes.subrange(12, 16)),
    }
}

/// A region after `record` was written into its slot number `slot`: the
/// sixteen bytes of the slot hold the record, all others are as before.
pub open spec fn place(region: Seq<u8>, slot: nat, record: CompletionRecord) -> Seq<u8> {
    region.subrange(0, slot as int * 16) + record.wire() + region.subrange(
        (slot as int + 1) * 16,
        region.len() as int,
    )
}

/// What the result of an operation says: the value of a success, or the
/// platform error code of a failure.
pub open spec fn outcome_of(result: i32) -> Result<u32, u32> {
    if result >= 0 {
        Ok(result as u32)
    } else {
        Err((-result) as u32)
    }
}

impl CompletionRecord {
    /// The sixteen bytes that stand for this record in an output region:
    /// tag, result and flags, each big-endian. The definition is opaque to
    /// the solver until it is revealed.
    #[verifier::opaque]
    pub open spec fn wire(self) -> Seq<u8> {
        be_u64(self.tag) + be_u32(result_bits(self.result)) + be_u32(self.flags)
    }

    /// Encodes the record in its wire layout.
    pub fn encode(&self) -> (bytes: [u8; 16])
        ensures
            bytes@ == self.wire(),
    {
        let t: u64 = self.tag;
        let r: u32 = self.result as u32;
        let f: u32 = self.flags;
        proof {
            lemma_split_u64(t);
            lemma_split_u32(r);
            lemma_split_u32(f);
            lemma_result_bits(self.result);
        }
        let bytes: [u8; 16] = [
            (t >> 56) as u8,
            (t >> 48) as u8,
            (t >> 40) as u8,
            (t >> 32) as u8,
            (t >> 24) as u8,
            (t >> 16) as u8,
            (t >> 8) as u8,
            t as u8,
            (r >> 24) as u8,
            (r >> 16) as u8,
            (r >> 8) as u8,
            r as u8,
            (f >> 24) as u8,
            (f >> 16) as u8,
            (f >> 8) as u8,
            f as u8,
        ];
        assert(bytes@ =~= self.wire()) by {
            reveal(CompletionRecord::wire);
        }
        bytes
    }

    /// Reads a record back from exactly sixteen bytes in wire layout.
    pub fn decode(bytes: &[u8]) -> (record: Option<CompletionRecord>)
        ensures
            bytes@.len() != RECORD_SIZE ==> record.is_none(),
            bytes@.len() == RECORD_SIZE ==> record == Some(parse(bytes@)),
    {
        if bytes.len() != RECORD_SIZE {
            return None;
        }
        let tag: u64 = join_u64(
            bytes[0],
            bytes[1],
            bytes[2],
            bytes[3],
            bytes[4],
            bytes[5],
            bytes[6],
            bytes[7],
        );
        let bits: u32 = join_u32(bytes[8], bytes[9], bytes[10], bytes[11]);
        let flags: u32 = join_u32(bytes[12], bytes[13], bytes[14], bytes[15]);
        proof {
            lemma_result_of_bits(bits);
        }
        Some(CompletionRecord { tag, result: bits as i32, flags })
    }

    /// Writes the record into slot number `slot` of `out`. No byte outside
    /// the slot changes. A region that ends before the end of the slot is
    /// refused and stays as it was.
    pub fn write_to(&self, out: &mut [u8], slot: usize) -> (result: Result<(), Error>)
        ensures
            (slot + 1) * RECORD_SIZE > old(out)@.len() ==> result == Err::<(), Error>(
                Error::RegionTooSmall,
            ) && final(out)@ == old(out)@,
            (slot + 1) * RECORD_SIZE <= old(out)@.len() ==> result == Ok::<(), Error>(())
                && final(out)@ == place(old(out)@, slot as nat, *self),
    {
        if out.len() / RECORD_SIZE <= slot {
            return Err(Error::RegionTooSmall);
        }
        let bytes: [u8; 16] = self.encode();
        store(out, slot * RECORD_SIZE, &bytes);
        Ok(())
    }

    /// Tells a success from a failure. A result of zero or more is the value
    /// of a success (bytes transferred, a new descriptor); a negative result
    /// is a failure, and its negation is the platform error code.
    pub fn outcome(&self) -> (outcome: Result<u32, u32>)
        ensures
            outcome == outcome_of(self.result),
    {
        if self.result >= 0 {
            Ok(self.result as u32)
        } else {
            let wide: i64 = self.result as i64;
            Err((-wide) as u32)
        }
    }
}

/// A record takes sixteen bytes on the wire.
pub proof fn lemma_wire_length(record: CompletionRecord)
    ensures
        record.wire().len() == RECORD_SIZE,
{
    reveal(CompletionRecord::wire);
}

/// Decoding what was encoded gives the record back: tag, result and flags
/// survive the wire unchanged.
pub proof fn lemma_round_trip(record: CompletionRecord)
    ensures
        parse(record.wire()) == record,
{
    reveal(CompletionRecord::wire);
    let bytes = record.wire();
    lemma_join_split_u64(record.tag);
    lemma_join_split_u32(result_bits(record.result));
    lemma_join_split_u32(record.flags);
    assert(bytes.subrange(0, 8) =~= be_u64(record.tag));
    assert(bytes.subrange(8, 12) =~= be_u32(result_bits(record.result)));
    assert(bytes.subrange(12, 16) =~= be_u32(record.flags));
}

/// Encoding what was decoded gives the bytes back: every sixteen bytes are
/// the wire form of exactly one record.
pub proof fn lemma_wire_of_parse(bytes: Seq<u8>)
    requires
        bytes.len() == RECORD_SIZE,
    ensures
        parse(bytes).wire() == bytes,
{
    reveal(CompletionRecord::wire);
    let record = parse(bytes);
    lemma_split_join_u64(
        bytes[0],
        bytes[1],
        bytes[2],
        bytes[3],
        bytes[4],
        bytes[5],
        bytes[6],
        bytes[7],
    );
    lemma_split_join_u32(bytes[8], bytes[9], bytes[10], bytes[11]);
    lemma_split_join_u32(bytes[12], bytes[13], bytes[14], bytes[15]);
    assert(be_u64(record.tag) =~= bytes.subrange(0, 8));
    assert(be_u32(result_bits(record.result)) =~= bytes.subrange(8, 12));
    assert(be_u32(record.flags) =~= bytes.subrange(12, 16));
    assert(record.wire() =~= bytes);
}

proof fn lemma_join_split_u64(v: u64)
    by (bit_vector)
    ensures
        v == ((v / 0x100_0000_0000_0000) % 256) * 0x100_0000_0000_0000 + ((v
            / 0x1_0000_0000_0000) % 256) * 0x1_0000_0000_0000 + ((v / 0x100_0000_0000) % 256)
            * 0x100_0000_0000 + ((v / 0x1_0000_0000) % 256) * 0x1_0000_0000 + ((v / 0x100_0000)
            % 256) * 0x100_0000 + ((v / 0x1_0000) % 256) * 0x1_0000 + ((v / 0x100) % 256) * 0x100
            + v % 256,
{
}

proof fn lemma_join_split_u32(v: u32)
    by (bit_vector)
    ensures
        v == ((v / 0x100_0000) % 256) * 0x100_0000 + ((v / 0x1_0000) % 256) * 0x1_0000 + ((v
            / 0x100) % 256) * 0x100 + v % 256,
{
}

proof fn lemma_split_join_u64(b0: u8, b1: u8, b2: u8, b3: u8, b4: u8, b5: u8, b6: u8, b7: u8)
    ensures
        ({
            let v = from_be_u64(seq![b0, b1, b2, b3, b4, b5, b6, b7]);
            be_u64(v) == seq![b0, b1, b2, b3, b4, b5, b6, b7]
        }),
{
    let v = from_be_u64(seq![b0, b1, b2, b3, b4, b5, b6, b7]);
    assert(v == b0 * 0x100_0000_0000_0000 + b1 * 0x1_0000_0000_0000 + b2 * 0x100_0000_0000 + b3
        * 0x1_0000_0000 + b4 * 0x100_0000 + b5 * 0x1_0000 + b6 * 0x100 + b7);
    assert((v / 0x100_0000_0000_0000) % 256 == b0 && (v / 0x1_0000_0000_0000) % 256 == b1 && (v
        / 0x100_0000_0000) % 256 == b2 && (v / 0x1_0000_0000) % 256 == b3 && (v / 0x100_0000)
        % 256 == b4 && (v / 0x1_0000) % 256 == b5 && (v / 0x100) % 256 == b6 && v % 256 == b7)
        by (bit_vector)
        requires
            v == b0 * 0x100_0000_0000_0000 + b1 * 0x1_0000_0000_0000 + b2 * 0x100_0000_0000 + b3
                * 0x1_0000_0000 + b4 * 0x100_0000 + b5 * 0x1_0000 + b6 * 0x100 + b7,
    ;
    assert(be_u64(v) =~= seq![b0, b1, b2, b3, b4, b5, b6, b7]);
}

proof fn lemma_split_join_u32(b0: u8, b1: u8, b2: u8, b3: u8)
    ensures
        ({
            let v = from_be_u32(seq![b0, b1, b2, b3]);
            be_u32(v) == seq![b0, b1, b2, b3]
        }),
{
    let v = from_be_u32(seq![b0, b1, b2, b3]);
    assert(v == b0 * 0x100_0000 + b1 * 0x1_0000 + b2 * 0x100 + b3);
    assert((v / 0x100_0000) % 256 == b0 && (v / 0x1_0000) % 256 == b1 && (v / 0x100) % 256 == b2
        && v % 256 == b3) by (bit_vector)
        requires
            v == b0 * 0x100_0000 + b1 * 0x1_0000 + b2 * 0x100 + b3,
    ;
    assert(be_u32(v) =~= seq![b0, b1, b2, b3]);
}

fn store(out: &mut [u8], base: usize, bytes: &[u8; 16])
    requires
        base + 16 <= old(out)@.len(),
    ensures
        final(out)@ == old(out)@.subrange(0, base as int) + bytes@ + old(out)@.subrange(
            base + 16,
            old(out)@.len() as int,
        ),
{
    let len: usize = out.len();
    let mut k: usize = 0;
    while k < 16
        invariant
            k <= 16,
            base + 16 <= len,
            out@.len() == len,
            out@.len() == old(out)@.len(),
            forall|j: int| 0 <= j < base ==> out@[j] == old(out)@[j],
            forall|j: int| 0 <= j < k ==> out@[base + j] == bytes@[j],
            forall|j: int| base + k <= j < out@.len() ==> out@[j] == old(out)@[j],
        decreases 16 - k,
    {
        out[base + k] = bytes[k];
        k += 1;
    }
    assert(out@ =~= old(out)@.subrange(0, base as int) + bytes@ + old(out)@.subrange(
        base + 16,
        old(out)@.len() as int,
    ));
}

fn join_u64(b0: u8, b1: u8, b2: u8, b3: u8, b4: u8, b5: u8, b6: u8, b7: u8) -> (v: u64)
    ensures
        v == from_be_u64(seq![b0, b1, b2, b3, b4, b5, b6, b7]),
{
    let v: u64 = ((b0 as u64) << 56) | ((b1 as u64) << 48) | ((b2 as u64) << 40) | ((b3 as u64)
        << 32) | ((b4 as u64) << 24) | ((b5 as u64) << 16) | ((b6 as u64) << 8) | (b7 as u64);
    assert(v == b0 * 0x100_0000_0000_0000 + b1 * 0x1_0000_0000_0000 + b2 * 0x100_0000_0000 + b3
        * 0x1_0000_0000 + b4 * 0x100_0000 + b5 * 0x1_0000 + b6 * 0x100 + b7) by (bit_vector)
        requires
            v == ((b0 as u64) << 56) | ((b1 as u64) << 48) | ((b2 as u64) << 40) | ((b3 as u64)
                << 32) | ((b4 as u64) << 24) | ((b5 as u64) << 16) | ((b6 as u64) << 8) | (
            b7 as u64),
    ;
    v
}

fn join_u32(b0: u8, b1: u8, b2: u8, b3: u8) -> (v: u32)
    ensures
        v == from_be_u32(seq![b0, b1, b2, b3]),
{
    let v: u32 = ((b0 as u32) << 24) | ((b1 as u32) << 16) | ((b2 as u32) << 8) | (b3 as u32);
    assert(v == b0 * 0x100_0000 + b1 * 0x1_0000 + b2 * 0x100 + b3) by (bit_vector)
        requires
            v == ((b0 as u32) << 24) | ((b1 as u32) << 16) | ((b2 as u32) << 8) | (b3 as u32),
    ;
    v
}

proof fn lemma_result_of_bits(bits: u32)
    by (bit_vector)
    ensures
        bits as i32 == (if bits >= 0x8000_0000 {
            (bits - 0x1_0000_0000) as i32
        } else {
            bits as i32
        }),
{
}

proof fn lemma_split_u64(v: u64)
    by (bit_vector)
    ensures
        (v >> 56) as u8 == (v / 0x100_0000_0000_0000) % 256,
        (v >> 48) as u8 == (v / 0x1_0000_0000_0000) % 256,
        (v >> 40) as u8 == (v / 0x100_0000_0000) % 256,
        (v >> 32) as u8 == (v / 0x1_0000_0000) % 256,
        (v >> 24) as u8 == (v / 0x100_0000) % 256,
        (v >> 16) as u8 == (v / 0x1_0000) % 256,
        (v >> 8) as u8 == (v / 0x100) % 256,
        v as u8 == v % 256,
{
}

proof fn lemma_split_u32(v: u32)
    by (bit_vector)
    ensures
        (v >> 24) as u8 == (v / 0x100_0000) % 256,
        (v >> 16) as u8 == (v / 0x1_0000) % 256,
        (v >> 8) as u8 == (v / 0x100) % 256,
        v as u8 == v % 256,
{
}

proof fn lemma_result_bits(r: i32)
    by (bit_vector)
    ensures
        r as u32 == (if r < 0 { (r + 0x1_0000_0000) as u32 } else { r as u32 }),
{
}

} // verus!
