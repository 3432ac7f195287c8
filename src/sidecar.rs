//! The fixed-width metadata record stored beside each raster.
use vstd::prelude::*;
use crate::codec::{be_bytes, be_value, lemma_be_round_trip, lemma_i64_bits, push_u64, read_u64};

verus! {

/// Length in bytes of an encoded sidecar record.
pub const SIDECAR_LEN: usize = 32;

/// The four values of a sidecar record. Coverages are IEEE-754 binary64 bit
/// patterns; a NaN cloud coverage means that it is unknown.
#[derive(Clone, Copy, Debug, PartialEq, Eq, Structural)]
pub struct SidecarRecord {
    pub start_timestamp: i64,
    pub end_timestamp: i64,
    pub pixel_coverage: u64,
    pub cloud_coverage: u64,
}

#[derive(Clone, Copy, Debug, PartialEq, Eq, Structural)]
pub enum SidecarError {
    /// Fewer than the record's bytes were available.
    Truncated,
}

/// The 32 bytes that encode `r`: the four fields in order, each big-endian.
pub open spec fn sidecar_bytes(r: SidecarRecord) -> Seq<u8> {
    be_bytes(r.start_timestamp as u64) + be_bytes(r.end_timestamp as u64) + be_bytes(
        r.pixel_coverage,
    ) + be_bytes(r.cloud_coverage)
}

/// The record that the first 32 bytes of `b` hold.
pub open spec fn sidecar_of(b: Seq<u8>) -> SidecarRecord {
    SidecarRecord {
        start_timestamp: be_value(b, 0) as i64,
        end_timestamp: be_value(b, 8) as i64,
        pixel_coverage: be_value(b, 16),
        cloud_coverage: be_value(b, 24),
    }
}

/// Encodes a sidecar record.
pub fn encode_sidecar(r: &SidecarRecord) -> (out: Vec<u8>)
    ensures
        out@ == sidecar_bytes(*r),
        out@.len() == SIDECAR_LEN,
{
    let mut out: Vec<u8> = Vec::new();
    push_u64(&mut out, r.start_timestamp as u64);
    push_u64(&mut out, r.end_timestamp as u64);
    push_u64(&mut out, r.pixel_coverage);
    push_u64(&mut out, r.cloud_coverage);
    assert(out@ =~= sidecar_bytes(*r));
    out
}

/// Decodes the sidecar record at the start of `b`; bytes past the record are
/// ignored.
pub fn decode_sidecar(b: &[u8]) -> (r: Result<SidecarRecord, SidecarError>)
    ensures
        b@.len() < SIDECAR_LEN <==> r is Err,
        r is Ok ==> r->Ok_0 == sidecar_of(b@),
{
    if b.len() < SIDECAR_LEN {
        return Err(SidecarError::Truncated);
    }
    Ok(
        SidecarRecord {
            start_timestamp: read_u64(b, 0) as i64,
            end_timestamp: read_u64(b, 8) as i64,
            pixel_coverage: read_u64(b, 16),
            cloud_coverage: read_u64(b, 24),
        },
    )
}

proof fn lemma_be_at(pre: Seq<u8>, n: u64, post: Seq<u8>)
    ensures
        be_value(pre + be_bytes(n) + post, pre.len() as int) == n,
{
    let s = pre + be_bytes(n) + post;
    let k = pre.len() as int;
    assert forall|i: int| 0 <= i < 8 implies s[k + i] == be_bytes(n)[i] by {}
    lemma_be_round_trip(n);
}

/// Writing a record and reading it back gives the same four values, bit for
/// bit (a NaN coverage keeps its exact bit pattern).
pub proof fn lemma_sidecar_round_trip(r: SidecarRecord)
    ensures
        sidecar_bytes(r).len() == SIDECAR_LEN,
        sidecar_of(sidecar_bytes(r)) == r,
{
    let e = Seq::<u8>::empty();
    let b0 = be_bytes(r.start_timestamp as u64);
    let b1 = be_bytes(r.end_timestamp as u64);
    let b2 = be_bytes(r.pixel_coverage);
    let b3 = be_bytes(r.cloud_coverage);
    let s = sidecar_bytes(r);
    assert(s =~= e + b0 + (b1 + b2 + b3));
    lemma_be_at(e, r.start_timestamp as u64, b1 + b2 + b3);
    assert(s =~= b0 + b1 + (b2 + b3));
    lemma_be_at(b0, r.end_timestamp as u64, b2 + b3);
    assert(s =~= (b0 + b1) + b2 + b3);
    lemma_be_at(b0 + b1, r.pixel_coverage, b3);
    assert(s =~= (b0 + b1 + b2) + b3 + e);
    lemma_be_at(b0 + b1 + b2, r.cloud_coverage, e);
    lemma_i64_bits(r.start_timestamp);
    lemma_i64_bits(r.end_timestamp);
}

} // verus!
