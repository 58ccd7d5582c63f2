use vstd::prelude::*;
use vstd::arithmetic::div_mod::{lemma_fundamental_div_mod, lemma_fundamental_div_mod_converse};

use crate::measurement_collection::Measurement;

verus! {

/// Hard ceiling, in bytes, on the encoded size of one persisted record,
/// enforced by the host storage layer.
pub const MAX_ENTRY_BYTES: usize = 4 * 1000 * 1000;

/// Estimated encoded width of one measurement inside a collection record:
/// one reference-sized hash share, one 64-bit timestamp and five 32-bit
/// words.
pub const BITS_PER_MEASUREMENT: usize = 39 + 64 + 32 + 32 + 32 + 32 + 32;

/// Measurement slots held back from every chunk; the envelope fields of the
/// record (device reference, resistor value, framing) must fit in the room
/// this margin reserves.
pub const CHUNK_SAFETY_MARGIN: usize = 10;

/// Bits the safety margin reserves for the envelope fields of one record.
pub const ENVELOPE_OVERHEAD_BITS: usize = CHUNK_SAFETY_MARGIN * BITS_PER_MEASUREMENT;

/// Greatest number of measurements one collection record may carry.
pub const MEASUREMENT_CHUNK_CAPACITY: usize = 121663;

/// The chunk capacity is exactly the record ceiling divided by the width of
/// one measurement, less the safety margin.
pub proof fn lemma_capacity_derivation()
    ensures
        MEASUREMENT_CHUNK_CAPACITY as int == (MAX_ENTRY_BYTES as int) * 8 / (
        BITS_PER_MEASUREMENT as int) - (CHUNK_SAFETY_MARGIN as int),
{
    lemma_fundamental_div_mod_converse(32000000, 263, 121673, 1);
}

/// Left-to-right partition of `s` into maximal chunks of at most `c`
/// elements.  Zero capacity yields no chunks.
pub open spec fn chunks_of<T>(s: Seq<T>, c: nat) -> Seq<Seq<T>>
    decreases s.len(),
{
    if c == 0 || s.len() == 0 {
        Seq::empty()
    } else if s.len() <= c {
        seq![s]
    } else {
        seq![s.take(c as int)] + chunks_of(s.skip(c as int), c)
    }
}

/// Concatenating the chunks in order reproduces the original sequence.
pub proof fn lemma_chunks_round_trip<T>(s: Seq<T>, c: nat)
    requires
        c >= 1,
    ensures
        chunks_of(s, c).flatten() == s,
    decreases s.len(),
{
    if s.len() == 0 {
        assert(chunks_of(s, c).flatten() =~= s);
    } else if s.len() <= c {
        seq![s].lemma_flatten_one_element();
    } else {
        lemma_chunks_round_trip(s.skip(c as int), c);
        let rest = chunks_of(s.skip(c as int), c);
        assert((seq![s.take(c as int)] + rest).drop_first() =~= rest);
        assert(chunks_of(s, c).flatten() =~= s);
    }
}

/// Every chunk is non-empty and holds at most `c` elements, and the number
/// of chunks is exactly the length of `s` divided by `c`, rounded up.
pub proof fn lemma_chunks_shape<T>(s: Seq<T>, c: nat)
    requires
        c >= 1,
    ensures
        forall|i: int|
            0 <= i < chunks_of(s, c).len() ==> 1 <= (#[trigger] chunks_of(s, c)[i]).len() <= c,
        chunks_of(s, c).len() == (s.len() + c - 1) / (c as int),
    decreases s.len(),
{
    let n = s.len() as int;
    let ci = c as int;
    if s.len() == 0 {
        lemma_fundamental_div_mod_converse(n + ci - 1, ci, 0, ci - 1);
    } else if s.len() <= c {
        lemma_fundamental_div_mod_converse(n + ci - 1, ci, 1, n - 1);
    } else {
        lemma_chunks_shape(s.skip(ci), c);
        let m = n - ci;
        let q = (m + ci - 1) / ci;
        let r = (m + ci - 1) % ci;
        lemma_fundamental_div_mod(m + ci - 1, ci);
        assert((q + 1) * ci == q * ci + ci) by (nonlinear_arith);
        lemma_fundamental_div_mod_converse(n + ci - 1, ci, q + 1, r);
        assert forall|i: int| 0 <= i < chunks_of(s, c).len() implies 1 <= (#[trigger] chunks_of(
            s,
            c,
        )[i]).len() <= c by {
            if i > 0 {
                assert(chunks_of(s, c)[i] == chunks_of(s.skip(ci), c)[i - 1]);
            }
        }
    }
}

/// Every chunk cut at the derived capacity stays under the record byte
/// ceiling once the envelope overhead is added on top of its measurements.
pub proof fn lemma_chunk_byte_ceiling(s: Seq<Measurement>)
    ensures
        forall|i: int|
            0 <= i < chunks_of(s, MEASUREMENT_CHUNK_CAPACITY as nat).len()
                ==> (ENVELOPE_OVERHEAD_BITS as int) + (#[trigger] chunks_of(
                s,
                MEASUREMENT_CHUNK_CAPACITY as nat,
            )[i]).len() * (BITS_PER_MEASUREMENT as int) <= (MAX_ENTRY_BYTES as int) * 8,
{
    lemma_chunks_shape(s, MEASUREMENT_CHUNK_CAPACITY as nat);
    assert forall|i: int|
        0 <= i < chunks_of(s, MEASUREMENT_CHUNK_CAPACITY as nat).len() implies (
    ENVELOPE_OVERHEAD_BITS as int) + (#[trigger] chunks_of(
        s,
        MEASUREMENT_CHUNK_CAPACITY as nat,
    )[i]).len() * (BITS_PER_MEASUREMENT as int) <= (MAX_ENTRY_BYTES as int) * 8 by {
        let len = chunks_of(s, MEASUREMENT_CHUNK_CAPACITY as nat)[i].len() as int;
        assert(len <= 121663);
        assert(len * 263 <= 121663 * 263);
    }
}

/// The mathematical contents of a sequence of chunk vectors.
pub open spec fn chunk_views(chunks: Seq<Vec<Measurement>>) -> Seq<Seq<Measurement>> {
    chunks.map_values(|v: Vec<Measurement>| v@)
}

/// Copies `v[from..to]` into a fresh vector.
pub(crate) fn copy_range(v: &Vec<Measurement>, from: usize, to: usize) -> (r: Vec<Measurement>)
    requires
        from <= to <= v@.len(),
    ensures
        r@ == v@.subrange(from as int, to as int),
{
    let mut r: Vec<Measurement> = Vec::new();
    let mut i: usize = from;
    while i < to
        invariant
            from <= i <= to <= v@.len(),
            r@ == v@.subrange(from as int, i as int),
        decreases to - i,
    {
        r.push(v[i]);
        i = i + 1;
        proof {
            assert(r@ =~= v@.subrange(from as int, i as int));
        }
    }
    r
}

/// Splits the measurements from `start` on into maximal chunks of at most
/// `capacity` elements, in order.
fn chunk_from(measurements: &Vec<Measurement>, start: usize, capacity: usize) -> (chunks: Vec<
    Vec<Measurement>,
>)
    requires
        capacity >= 1,
        start <= measurements@.len(),
    ensures
        chunk_views(chunks@) == chunks_of(measurements@.skip(start as int), capacity as nat),
    decreases measurements@.len() - start,
{
    let n = measurements.len();
    if start == n {
        let chunks: Vec<Vec<Measurement>> = Vec::new();
        proof {
            assert(chunk_views(chunks@) =~= chunks_of(
                measurements@.skip(start as int),
                capacity as nat,
            ));
        }
        return chunks;
    }
    let end = if n - start <= capacity {
        n
    } else {
        start + capacity
    };
    let head = copy_range(measurements, start, end);
    let mut rest = chunk_from(measurements, end, capacity);
    let mut chunks: Vec<Vec<Measurement>> = Vec::new();
    chunks.push(head);
    chunks.append(&mut rest);
    proof {
        let s = measurements@.skip(start as int);
        let c = capacity as nat;
        assert(head@ =~= s.take(end - start as int));
        assert(measurements@.skip(end as int) =~= s.skip(end - start as int));
        if measurements@.len() - start <= capacity {
            assert(head@ =~= s);
        }
        assert(chunk_views(chunks@) =~= chunks_of(s, c));
    }
    chunks
}

/// Partitions the measurements into maximal ordered chunks of at most
/// `capacity` elements each.
pub fn chunk_measurements(measurements: &Vec<Measurement>, capacity: usize) -> (chunks: Vec<
    Vec<Measurement>,
>)
    requires
        capacity >= 1,
    ensures
        chunk_views(chunks@) == chunks_of(measurements@, capacity as nat),
{
    let chunks = chunk_from(measurements, 0, capacity);
    proof {
        assert(measurements@.skip(0) =~= measurements@);
    }
    chunks
}

} // verus!
