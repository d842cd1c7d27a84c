//! The heartbeat checkpoint: one timestamp, stored as the log stores one.
use crate::log::i64_bytes;
use vstd::prelude::*;

verus! {

/// The timestamp whose stored bytes are `b`.
pub fn decode_timestamp(b: [u8; 8]) -> (r: i64)
    ensures
        i64_bytes(r) == b@,
{
    let (b0, b1, b2, b3, b4, b5, b6, b7) = (b[0], b[1], b[2], b[3], b[4], b[5], b[6], b[7]);
    let u: u64 = (b0 as u64) | ((b1 as u64) << 8u64) | ((b2 as u64) << 16u64) | ((b3 as u64) << 24u64)
        | ((b4 as u64) << 32u64) | ((b5 as u64) << 40u64) | ((b6 as u64) << 48u64) | ((b7 as u64) << 56u64);
    assert(
        u as u8 == b0 && (u >> 8u64) as u8 == b1 && (u >> 16u64) as u8 == b2 && (u >> 24u64) as u8 == b3
        && (u >> 32u64) as u8 == b4 && (u >> 40u64) as u8 == b5 && (u >> 48u64) as u8 == b6
        && (u >> 56u64) as u8 == b7
    ) by (bit_vector)
        requires
            u == (b0 as u64) | ((b1 as u64) << 8u64) | ((b2 as u64) << 16u64) | ((b3 as u64) << 24u64)
                | ((b4 as u64) << 32u64) | ((b5 as u64) << 40u64) | ((b6 as u64) << 48u64) | ((b7 as u64) << 56u64),
    ;
    let r = #[verifier::truncate] (u as i64);
    assert(#[verifier::truncate] (r as u64) == u) by (bit_vector)
        requires
            r == #[verifier::truncate] (u as i64),
    ;
    assert(i64_bytes(r) =~= b@);
    r
}

/// A checkpoint written and read back gives the same timestamp.
pub proof fn lemma_checkpoint_round_trip(t: i64, u: i64)
    requires
        i64_bytes(u) == i64_bytes(t),
    ensures
        u == t,
{
    let (a, b) = (#[verifier::truncate] (t as u64), #[verifier::truncate] (u as u64));
    assert(i64_bytes(t)[0] == i64_bytes(u)[0]);
    assert(i64_bytes(t)[1] == i64_bytes(u)[1]);
    assert(i64_bytes(t)[2] == i64_bytes(u)[2]);
    assert(i64_bytes(t)[3] == i64_bytes(u)[3]);
    assert(i64_bytes(t)[4] == i64_bytes(u)[4]);
    assert(i64_bytes(t)[5] == i64_bytes(u)[5]);
    assert(i64_bytes(t)[6] == i64_bytes(u)[6]);
    assert(i64_bytes(t)[7] == i64_bytes(u)[7]);
    assert(a == b) by (bit_vector)
        requires
            a as u8 == b as u8,
            (a >> 8u64) as u8 == (b >> 8u64) as u8,
            (a >> 16u64) as u8 == (b >> 16u64) as u8,
            (a >> 24u64) as u8 == (b >> 24u64) as u8,
            (a >> 32u64) as u8 == (b >> 32u64) as u8,
            (a >> 40u64) as u8 == (b >> 40u64) as u8,
            (a >> 48u64) as u8 == (b >> 48u64) as u8,
            (a >> 56u64) as u8 == (b >> 56u64) as u8,
    ;
    assert(t == u) by (bit_vector)
        requires
            #[verifier::truncate] (t as u64) == #[verifier::truncate] (u as u64),
    ;
}

} // verus!
