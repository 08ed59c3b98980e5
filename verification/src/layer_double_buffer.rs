//! Layer weight sizes and host layer weight slices of the double-buffered
//! layer weight ring.

use vstd::prelude::*;

verus! {

/// Byte sizes required for each matrix weight tensor in a single transformer layer.
#[derive(Debug, Clone, Copy, PartialEq, Eq, Structural)]
pub struct LayerTensorSizes {
    pub wq_bytes: usize,
    pub wk_bytes: usize,
    pub wv_bytes: usize,
    pub wo_bytes: usize,
    pub wgate_bytes: usize,
    pub wup_bytes: usize,
    pub wdown_bytes: usize,
}

impl LayerTensorSizes {
    /// The sum of the seven tensor sizes.
    pub open spec fn sum(&self) -> int {
        self.wq_bytes + self.wk_bytes + self.wv_bytes + self.wo_bytes + self.wgate_bytes
            + self.wup_bytes + self.wdown_bytes
    }

    /// Sum of all matrix tensor sizes in a single layer slot.
    pub fn total_bytes(&self) -> (t: usize)
        requires
            self.sum() <= usize::MAX,
        ensures
            t == self.sum(),
    {
        self.wq_bytes + self.wk_bytes + self.wv_bytes + self.wo_bytes + self.wgate_bytes
            + self.wup_bytes + self.wdown_bytes
    }
}

/// Host layer weight slices ready for DMA transfer (from pinned memory).
pub struct HostLayerWeights<'a> {
    pub wq_data: &'a [u8],
    pub wk_data: &'a [u8],
    pub wv_data: &'a [u8],
    pub wo_data: &'a [u8],
    pub wgate_data: &'a [u8],
    pub wup_data: &'a [u8],
    pub wdown_data: &'a [u8],
}

} // verus!
