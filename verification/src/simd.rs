//! Lane-wise matching of a three-byte pattern, reported as a bitmask.

use vstd::prelude::*;

verus! {

/// Bit `lane` of the mask is set.
pub open spec fn lane_is_set(mask: u64, lane: int) -> bool {
    0 <= lane < 64 && (mask & (1u64 << (lane as u64))) != 0
}

/// A pattern byte accepts a byte: `None` accepts every byte, `Some(b)` only
/// `b`.
pub open spec fn accepts(wanted: Option<u8>, byte: u8) -> bool {
    match wanted {
        Some(b) => byte == b,
        None => true,
    }
}

/// The three bytes at `at` fit the pattern.
pub open spec fn fits_at(bytes: Seq<u8>, at: int, pattern: Seq<Option<u8>>) -> bool {
    &&& 0 <= at && at + 2 < bytes.len()
    &&& accepts(pattern[0], bytes[at])
    &&& accepts(pattern[1], bytes[at + 1])
    &&& accepts(pattern[2], bytes[at + 2])
}

proof fn lemma_empty_mask(lane: u64)
    by (bit_vector)
    requires
        lane < 64,
    ensures
        (0u64 & (1u64 << lane)) == 0,
{
}

proof fn lemma_set_lane(mask: u64, lane: u64, other: u64)
    by (bit_vector)
    requires
        lane < 64,
        other < 64,
    ensures
        ((mask | (1u64 << lane)) & (1u64 << other)) != 0 <==> (other == lane || (mask & (1u64
            << other)) != 0),
{
}

fn byte_accepted(wanted: Option<u8>, byte: u8) -> (ok: bool)
    ensures
        ok == accepts(wanted, byte),
{
    match wanted {
        Some(b) => byte == b,
        None => true,
    }
}

/// Whether bit `lane` of a mask is set.
pub fn lane_set(mask: u64, lane: usize) -> (set: bool)
    requires
        lane < 64,
    ensures
        set == lane_is_set(mask, lane as int),
{
    (mask & (1u64 << (lane as u64))) != 0
}

/// Compares `lanes` windows of three bytes, the first at `i`, the next one
/// byte further and so on, against a pattern. Bit `lane` of the result is
/// set exactly when the window at `i + lane` fits; the bits from `lanes` up
/// are clear.
pub fn get_bitmask(i: usize, bytes: &[u8], pattern: [Option<u8>; 3], lanes: usize) -> (mask: u64)
    requires
        1 <= lanes <= 64,
        i + lanes + 2 <= bytes.len(),
    ensures
        forall|lane: int|
            0 <= lane < 64 ==> (#[trigger] lane_is_set(mask, lane) <==> lane < lanes && fits_at(
                bytes@,
                i + lane,
                pattern@,
            )),
{
    let mut mask: u64 = 0;
    let mut lane: usize = 0;
    proof {
        assert forall|l: int| 0 <= l < 64 implies !#[trigger] lane_is_set(mask, l) by {
            lemma_empty_mask(l as u64);
        }
    }
    while lane < lanes
        invariant
            1 <= lanes <= 64,
            lane <= lanes,
            i + lanes + 2 <= bytes.len(),
            forall|l: int|
                0 <= l < 64 ==> (#[trigger] lane_is_set(mask, l) <==> l < lane && fits_at(
                    bytes@,
                    i + l,
                    pattern@,
                )),
        decreases lanes - lane,
    {
        let at = i + lane;
        if byte_accepted(pattern[0], bytes[at]) && byte_accepted(pattern[1], bytes[at + 1])
            && byte_accepted(pattern[2], bytes[at + 2]) {
            let ghost before = mask;
            mask = mask | (1u64 << (lane as u64));
            proof {
                assert forall|l: int| 0 <= l < 64 implies (#[trigger] lane_is_set(mask, l) <==> l
                    < lane + 1 && fits_at(bytes@, i + l, pattern@)) by {
                    lemma_set_lane(before, lane as u64, l as u64);
                    assert(lane_is_set(before, l) <==> l < lane && fits_at(
                        bytes@,
                        i + l,
                        pattern@,
                    ));
                }
            }
        }
        lane += 1;
    }
    mask
}

} // verus!
