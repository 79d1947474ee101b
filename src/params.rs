//! The parameter-set and slice-header fields read by the loop filter.
use vstd::prelude::*;

verus! {

/// Sequence parameter set fields that fix the coding tree block size.
#[derive(Clone, Copy, Debug)]
pub struct Sps {
    pub log2_min_luma_coding_block_size_minus3: u8,
    pub log2_diff_max_min_luma_coding_block_size: u8,
}

impl Sps {
    /// log2 of the coding tree block size.
    pub open spec fn log2_ctb_size(&self) -> int {
        self.log2_min_luma_coding_block_size_minus3 as int + 3
            + self.log2_diff_max_min_luma_coding_block_size as int
    }

    /// The coding tree block size is one of 16, 32 and 64.
    pub open spec fn wf(&self) -> bool {
        4 <= self.log2_ctb_size() <= 6
    }
}

/// Picture parameter set fields used by the deblocking filter.
#[derive(Clone, Copy, Debug)]
pub struct Pps {
    pub pps_beta_offset_div2: i8,
    pub pps_tc_offset_div2: i8,
}

/// Slice header fields used by the deblocking filter.
#[derive(Clone, Copy, Debug)]
pub struct SliceHeader {
    pub slice_deblocking_filter_disabled_flag: bool,
    pub slice_loop_filter_across_slices_enabled_flag: bool,
}

} // verus!
