//! Q4_K block layout: 144 bytes per super-block of 256 weights (8 sub-blocks x 32).
//!
//! - bytes[0..2]:   fp16 LE `d`    — super scale for the 6-bit sub-block scales
//! - bytes[2..4]:   fp16 LE `dmin` — super scale for the 6-bit sub-block mins
//! - bytes[4..16]:  `scales[12]`   — packs 8 sub-block 6-bit scale values + 8 sub-block 6-bit min values
//! - bytes[16..144]: `qs[128]`     — 256 weights packed 4-bit nibbles, 2 per byte

use vstd::prelude::*;

verus! {

/// The 6-bit scale and min of sub-block `j` packed in `scales`: sub-blocks
/// 0..4 keep them in the low six bits of bytes `j` and `j + 4`; sub-blocks
/// 4..8 take their low four bits from byte `j + 4` and their high two bits
/// from the top bits of bytes `j - 4` and `j`.
pub open spec fn scale_min(j: int, scales: Seq<u8>) -> (u8, u8) {
    if j < 4 {
        (scales[j] & 63, scales[j + 4] & 63)
    } else {
        (
            (scales[j + 4] & 0xF) | ((scales[j - 4] >> 6u8) << 4u8),
            (scales[j + 4] >> 4u8) | ((scales[j] >> 6u8) << 4u8),
        )
    }
}

/// Unpacks the 6-bit scale and min of Q4_K sub-block `j`.
pub fn get_scale_min(j: usize, scales: &[u8]) -> (r: (u8, u8))
    requires
        j + 4 < scales@.len(),
    ensures
        r == scale_min(j as int, scales@),
        r.0 < 64,
        r.1 < 64,
{
    let n = scales.len();
    assert(j + 4 < n);
    if j < 4 {
        let a = scales[j];
        let b = scales[j + 4];
        let scale = a & 63;
        let min = b & 63;
        assert(scale < 64 && min < 64) by (bit_vector)
            requires
                scale == a & 63,
                min == b & 63,
        ;
        (scale, min)
    } else {
        let a = scales[j + 4];
        let b = scales[j - 4];
        let c = scales[j];
        let scale = (a & 0xF) | ((b >> 6) << 4);
        let min = (a >> 4) | ((c >> 6) << 4);
        assert(scale < 64 && min < 64) by (bit_vector)
            requires
                scale == (a & 0xF) | ((b >> 6u8) << 4u8),
                min == (a >> 4u8) | ((c >> 6u8) << 4u8),
        ;
        (scale, min)
    }
}

} // verus!
