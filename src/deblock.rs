//! The HEVC in-loop deblocking filter.
//!
//! Block edges on the 8-sample luma grid are marked per coding tree block,
//! given a boundary strength (0 = skip, 1 = weak, 2 = strong) from the block
//! metadata, and then smoothed in place: vertical edges first, horizontal
//! edges second, luma before chroma within each direction.
use vstd::prelude::*;
use crate::params::{Pps, SliceHeader, Sps};
use crate::picture::{chroma_extent, plane_in_range, DecodedFrame};

verus! {

/// Beta thresholds indexed by QP.
pub const BETA_TABLE: [u8; 52] = [
    0, 0, 0, 0, 0, 0, 0, 0, 0, 0, 0, 0, 0, 0, 0, 0, 6, 7, 8, 9, 10, 11, 12, 13, 14, 15, 16, 17,
    18, 20, 22, 24, 26, 28, 30, 32, 34, 36, 38, 40, 42, 44, 46, 48, 50, 52, 54, 56, 58, 60, 62,
    64,
];

/// tC clipping thresholds indexed by QP.
pub const TC_TABLE: [u8; 54] = [
    0, 0, 0, 0, 0, 0, 0, 0, 0, 0, 0, 0, 0, 0, 0, 0, 0, 0, 1, 1, 1, 1, 1, 1, 1, 1, 1, 2, 2, 2, 2,
    3, 3, 3, 3, 4, 4, 4, 5, 5, 6, 6, 7, 8, 9, 10, 11, 13, 14, 16, 18, 20, 22, 24,
];

/// Direction of a block edge.
#[derive(Clone, Copy, PartialEq, Eq, Debug, Structural)]
pub enum EdgeType {
    Vertical,
    Horizontal,
}

/// Number of 4-sample units needed to cover `n` samples.
pub open spec fn units4(n: nat) -> nat {
    (n + 3) / 4
}

/// Index of the 4x4 cell holding sample `(x, y)` in a grid of the given stride.
pub open spec fn cell_index(stride: nat, x: nat, y: nat) -> nat {
    (y / 4) * stride + x / 4
}

/// `v` limited to `[lo, hi]`.
pub open spec fn clamp(v: int, lo: int, hi: int) -> int {
    if v < lo {
        lo
    } else if v > hi {
        hi
    } else {
        v
    }
}

/// Integer division rounding toward zero.
pub open spec fn div_trunc(a: int, b: int) -> int {
    if a >= 0 {
        a / b
    } else {
        -((-a) / b)
    }
}

fn units4_exec(n: u32) -> (r: usize)
    ensures
        r == units4(n as nat),
{
    (n / 4 + if n % 4 == 0 { 0 } else { 1 }) as usize
}

fn cell_index_exec(stride: usize, len: usize, x: u32, y: u32) -> (r: usize)
    requires
        cell_index(stride as nat, x as nat, y as nat) < len,
    ensures
        r == cell_index(stride as nat, x as nat, y as nat),
{
    let x4 = (x / 4) as usize;
    let y4 = (y / 4) as usize;
    proof {
        assert(y4 as nat * stride as nat <= cell_index(stride as nat, x as nat, y as nat));
    }
    y4 * stride + x4
}

/// Per-4x4 edge flags and boundary strengths for the coding tree block being filtered.
pub struct DeblockingContext {
    ver_edge_flags: Vec<u8>,
    hor_edge_flags: Vec<u8>,
    ver_bs: Vec<u8>,
    hor_bs: Vec<u8>,
    stride: usize,
}

impl DeblockingContext {
    /// Stride of the tables, in 4x4 cells.
    pub closed spec fn stride_view(&self) -> nat {
        self.stride as nat
    }

    /// Edge flags for one direction, one entry per 4x4 cell.
    pub closed spec fn flags_view(&self, edge: EdgeType) -> Seq<u8> {
        match edge {
            EdgeType::Vertical => self.ver_edge_flags@,
            EdgeType::Horizontal => self.hor_edge_flags@,
        }
    }

    /// Boundary strengths for one direction, one entry per 4x4 cell.
    pub closed spec fn bs_view(&self, edge: EdgeType) -> Seq<u8> {
        match edge {
            EdgeType::Vertical => self.ver_bs@,
            EdgeType::Horizontal => self.hor_bs@,
        }
    }

    /// Number of cells in each table.
    pub open spec fn cells(&self) -> nat {
        self.flags_view(EdgeType::Vertical).len()
    }

    /// The four tables have one entry per cell of a `width` x `height` picture.
    pub open spec fn covers(&self, width: nat, height: nat) -> bool {
        &&& self.stride_view() == units4(width)
        &&& self.cells() == units4(width) * units4(height)
        &&& self.flags_view(EdgeType::Horizontal).len() == self.cells()
        &&& self.bs_view(EdgeType::Vertical).len() == self.cells()
        &&& self.bs_view(EdgeType::Horizontal).len() == self.cells()
    }

    /// Every flag and every strength is zero.
    pub open spec fn is_cleared(&self) -> bool {
        &&& forall|i: int| 0 <= i < self.cells() ==> #[trigger] self.flags_view(EdgeType::Vertical)[i] == 0
        &&& forall|i: int| 0 <= i < self.cells() ==> #[trigger] self.flags_view(EdgeType::Horizontal)[i] == 0
        &&& forall|i: int| 0 <= i < self.cells() ==> #[trigger] self.bs_view(EdgeType::Vertical)[i] == 0
        &&& forall|i: int| 0 <= i < self.cells() ==> #[trigger] self.bs_view(EdgeType::Horizontal)[i] == 0
    }

    /// A cleared context for a `width` x `height` picture.
    pub fn new(width: u32, height: u32) -> (r: Self)
        requires
            units4(width as nat) * units4(height as nat) <= usize::MAX,
        ensures
            r.covers(width as nat, height as nat),
            r.is_cleared(),
    {
        let width_4x4 = units4_exec(width);
        let height_4x4 = units4_exec(height);
        let size = width_4x4 * height_4x4;
        DeblockingContext {
            ver_edge_flags: zeros(size),
            hor_edge_flags: zeros(size),
            ver_bs: zeros(size),
            hor_bs: zeros(size),
            stride: width_4x4,
        }
    }

    fn idx(&self, x: u32, y: u32) -> (r: usize)
        requires
            cell_index(self.stride_view(), x as nat, y as nat) < self.cells(),
        ensures
            r == cell_index(self.stride_view(), x as nat, y as nat),
    {
        cell_index_exec(self.stride, self.ver_edge_flags.len(), x, y)
    }

    fn set_edge_flag(&mut self, x: u32, y: u32, edge_type: EdgeType, value: u8)
        requires
            old(self).covers_any(),
            cell_index(old(self).stride_view(), x as nat, y as nat) < old(self).cells(),
        ensures
            final(self).stride_view() == old(self).stride_view(),
            final(self).flags_view(edge_type) == old(self).flags_view(edge_type).update(
                cell_index(old(self).stride_view(), x as nat, y as nat) as int,
                value,
            ),
            final(self).flags_view(other_edge(edge_type)) == old(self).flags_view(other_edge(edge_type)),
            final(self).bs_view(EdgeType::Vertical) == old(self).bs_view(EdgeType::Vertical),
            final(self).bs_view(EdgeType::Horizontal) == old(self).bs_view(EdgeType::Horizontal),
    {
        let idx = self.idx(x, y);
        match edge_type {
            EdgeType::Vertical => self.ver_edge_flags.set(idx, value),
            EdgeType::Horizontal => self.hor_edge_flags.set(idx, value),
        }
    }

    fn get_edge_flag(&self, x: u32, y: u32, edge_type: EdgeType) -> (r: u8)
        requires
            self.covers_any(),
            cell_index(self.stride_view(), x as nat, y as nat) < self.cells(),
        ensures
            r == self.flags_view(edge_type)[cell_index(self.stride_view(), x as nat, y as nat) as int],
    {
        let idx = self.idx(x, y);
        match edge_type {
            EdgeType::Vertical => self.ver_edge_flags[idx],
            EdgeType::Horizontal => self.hor_edge_flags[idx],
        }
    }

    fn set_bs(&mut self, x: u32, y: u32, edge_type: EdgeType, value: u8)
        requires
            old(self).covers_any(),
            cell_index(old(self).stride_view(), x as nat, y as nat) < old(self).cells(),
        ensures
            final(self).stride_view() == old(self).stride_view(),
            final(self).bs_view(edge_type) == old(self).bs_view(edge_type).update(
                cell_index(old(self).stride_view(), x as nat, y as nat) as int,
                value,
            ),
            final(self).bs_view(other_edge(edge_type)) == old(self).bs_view(other_edge(edge_type)),
            final(self).flags_view(EdgeType::Vertical) == old(self).flags_view(EdgeType::Vertical),
            final(self).flags_view(EdgeType::Horizontal) == old(self).flags_view(EdgeType::Horizontal),
    {
        let idx = self.idx(x, y);
        match edge_type {
            EdgeType::Vertical => self.ver_bs.set(idx, value),
            EdgeType::Horizontal => self.hor_bs.set(idx, value),
        }
    }

    fn get_bs(&self, x: u32, y: u32, edge_type: EdgeType) -> (r: u8)
        requires
            self.covers_any(),
            cell_index(self.stride_view(), x as nat, y as nat) < self.cells(),
        ensures
            r == self.bs_view(edge_type)[cell_index(self.stride_view(), x as nat, y as nat) as int],
    {
        let idx = self.idx(x, y);
        match edge_type {
            EdgeType::Vertical => self.ver_bs[idx],
            EdgeType::Horizontal => self.hor_bs[idx],
        }
    }

    /// The four tables have the same length.
    pub open spec fn covers_any(&self) -> bool {
        &&& self.flags_view(EdgeType::Horizontal).len() == self.cells()
        &&& self.bs_view(EdgeType::Vertical).len() == self.cells()
        &&& self.bs_view(EdgeType::Horizontal).len() == self.cells()
    }

    fn clear(&mut self)
        requires
            old(self).covers_any(),
        ensures
            final(self).stride_view() == old(self).stride_view(),
            final(self).cells() == old(self).cells(),
            final(self).covers_any(),
            final(self).is_cleared(),
    {
        fill_zero(&mut self.ver_edge_flags);
        fill_zero(&mut self.hor_edge_flags);
        fill_zero(&mut self.ver_bs);
        fill_zero(&mut self.hor_bs);
    }
}

/// Per-4x4 block metadata read by the boundary-strength derivation.
pub struct DeblockMetadata {
    split_transform: Vec<bool>,
    pred_mode: Vec<u8>,
    nonzero_coeff: Vec<bool>,
    stride: usize,
}

impl DeblockMetadata {
    /// Stride of the grid, in 4x4 cells.
    pub closed spec fn stride_view(&self) -> nat {
        self.stride as nat
    }

    /// Transform-split flags, one per cell.
    pub closed spec fn split_view(&self) -> Seq<bool> {
        self.split_transform@
    }

    /// Prediction modes, one per cell: 1 for intra, 0 for inter.
    pub closed spec fn pred_view(&self) -> Seq<u8> {
        self.pred_mode@
    }

    /// Non-zero-coefficient flags, one per cell.
    pub closed spec fn nonzero_view(&self) -> Seq<bool> {
        self.nonzero_coeff@
    }

    /// Number of cells in the grid.
    pub open spec fn cells(&self) -> nat {
        self.pred_view().len()
    }

    /// The three tables have the same length.
    pub open spec fn wf(&self) -> bool {
        self.split_view().len() == self.cells() && self.nonzero_view().len() == self.cells()
    }

    /// The grid has one cell per 4x4 block of a `width` x `height` picture.
    pub open spec fn covers(&self, width: nat, height: nat) -> bool {
        &&& self.wf()
        &&& self.stride_view() == units4(width)
        &&& self.cells() == units4(width) * units4(height)
    }

    /// The cell holding sample `(x, y)` is inside the grid.
    pub open spec fn holds(&self, x: u32, y: u32) -> bool {
        cell_index(self.stride_view(), x as nat, y as nat) < self.cells()
    }

    /// Grid index of the cell holding sample `(x, y)`.
    pub open spec fn index_of(&self, x: u32, y: u32) -> int {
        cell_index(self.stride_view(), x as nat, y as nat) as int
    }

    /// A grid for a `width` x `height` picture: no splits, inter, no coefficients.
    pub fn new(width: u32, height: u32) -> (r: Self)
        requires
            units4(width as nat) * units4(height as nat) <= usize::MAX,
        ensures
            r.covers(width as nat, height as nat),
            forall|i: int| 0 <= i < r.cells() ==> !#[trigger] r.split_view()[i],
            forall|i: int| 0 <= i < r.cells() ==> #[trigger] r.pred_view()[i] == 0,
            forall|i: int| 0 <= i < r.cells() ==> !#[trigger] r.nonzero_view()[i],
    {
        let width_4x4 = units4_exec(width);
        let height_4x4 = units4_exec(height);
        let size = width_4x4 * height_4x4;
        DeblockMetadata {
            split_transform: falses(size),
            pred_mode: zeros(size),
            nonzero_coeff: falses(size),
            stride: width_4x4,
        }
    }

    fn idx(&self, x: u32, y: u32) -> (r: usize)
        requires
            self.holds(x, y),
        ensures
            r == self.index_of(x, y),
    {
        cell_index_exec(self.stride, self.pred_mode.len(), x, y)
    }

    /// Records whether the transform block at `(x, y)` was split.
    pub fn set_split_transform(&mut self, x: u32, y: u32, split: bool)
        requires
            old(self).wf(),
            old(self).holds(x, y),
        ensures
            final(self).wf(),
            final(self).stride_view() == old(self).stride_view(),
            final(self).split_view() == old(self).split_view().update(old(self).index_of(x, y), split),
            final(self).pred_view() == old(self).pred_view(),
            final(self).nonzero_view() == old(self).nonzero_view(),
    {
        let idx = self.idx(x, y);
        self.split_transform.set(idx, split);
    }

    /// Whether the transform block at `(x, y)` was split.
    pub fn get_split_transform(&self, x: u32, y: u32) -> (r: bool)
        requires
            self.wf(),
            self.holds(x, y),
        ensures
            r == self.split_view()[self.index_of(x, y)],
    {
        let idx = self.idx(x, y);
        self.split_transform[idx]
    }

    /// Records the prediction mode at `(x, y)`: 1 for intra, 0 for inter.
    pub fn set_pred_mode(&mut self, x: u32, y: u32, is_intra: bool)
        requires
            old(self).wf(),
            old(self).holds(x, y),
        ensures
            final(self).wf(),
            final(self).stride_view() == old(self).stride_view(),
            final(self).pred_view() == old(self).pred_view().update(
                old(self).index_of(x, y),
                if is_intra { 1u8 } else { 0u8 },
            ),
            final(self).split_view() == old(self).split_view(),
            final(self).nonzero_view() == old(self).nonzero_view(),
    {
        let idx = self.idx(x, y);
        self.pred_mode.set(idx, if is_intra { 1 } else { 0 });
    }

    /// The prediction mode at `(x, y)`: 1 for intra, 0 for inter.
    pub fn get_pred_mode(&self, x: u32, y: u32) -> (r: u8)
        requires
            self.wf(),
            self.holds(x, y),
        ensures
            r == self.pred_view()[self.index_of(x, y)],
    {
        let idx = self.idx(x, y);
        self.pred_mode[idx]
    }

    /// Records whether the transform unit at `(x, y)` has a non-zero coefficient.
    pub fn set_nonzero_coeff(&mut self, x: u32, y: u32, has_nonzero: bool)
        requires
            old(self).wf(),
            old(self).holds(x, y),
        ensures
            final(self).wf(),
            final(self).stride_view() == old(self).stride_view(),
            final(self).nonzero_view() == old(self).nonzero_view().update(old(self).index_of(x, y), has_nonzero),
            final(self).split_view() == old(self).split_view(),
            final(self).pred_view() == old(self).pred_view(),
    {
        let idx = self.idx(x, y);
        self.nonzero_coeff.set(idx, has_nonzero);
    }

    /// Whether the transform unit at `(x, y)` has a non-zero coefficient.
    pub fn get_nonzero_coeff(&self, x: u32, y: u32) -> (r: bool)
        requires
            self.wf(),
            self.holds(x, y),
        ensures
            r == self.nonzero_view()[self.index_of(x, y)],
    {
        let idx = self.idx(x, y);
        self.nonzero_coeff[idx]
    }
}

fn falses(n: usize) -> (r: Vec<bool>)
    ensures
        r@.len() == n,
        forall|i: int| 0 <= i < n ==> !r@[i],
{
    let mut v: Vec<bool> = Vec::new();
    let mut i: usize = 0;
    while i < n
        invariant
            i <= n,
            v@.len() == i,
            forall|k: int| 0 <= k < i ==> !v@[k],
        decreases n - i,
    {
        v.push(false);
        i += 1;
    }
    v
}

/// The three sample filters applied across an edge.
#[derive(Clone, Copy, PartialEq, Eq, Debug, Structural)]
pub enum FilterKind {
    /// Luma, boundary strength 2.
    Strong,
    /// Luma, boundary strength 1.
    Weak,
    /// Chroma, boundary strength 2.
    Chroma,
}

/// Clamp to the 8-bit sample range.
pub open spec fn clip_sample(v: int) -> u16 {
    clamp(v, 0, 255) as u16
}

/// The amount added to `p0` and taken from `q0` by a filter.
pub open spec fn filter_delta(kind: FilterKind, p0: int, q0: int, tc: int) -> int {
    match kind {
        FilterKind::Strong => div_trunc(clamp(q0 - p0, -tc, tc), 2),
        FilterKind::Weak => clamp(div_trunc(9 * (q0 - p0), 16), -tc, tc),
        FilterKind::Chroma => clamp(div_trunc(q0 - p0, 2), -tc, tc),
    }
}

/// One sample pair filtered in place: both samples are read, then `p` and `q` are written.
pub open spec fn pair_filtered(s: Seq<u16>, p: int, q: int, kind: FilterKind, tc: int) -> Seq<u16> {
    let d = filter_delta(kind, s[p] as int, s[q] as int, tc);
    s.update(p, clip_sample(s[p] + d)).update(q, clip_sample(s[q] - d))
}

/// The first `n` pairs `(p[i], q[i])` filtered in order.
pub open spec fn pairs_filtered(
    s: Seq<u16>,
    p: Seq<usize>,
    q: Seq<usize>,
    n: nat,
    kind: FilterKind,
    tc: int,
) -> Seq<u16>
    decreases n,
{
    if n == 0 {
        s
    } else {
        pair_filtered(pairs_filtered(s, p, q, (n - 1) as nat, kind, tc), p[n - 1] as int, q[n - 1] as int, kind, tc)
    }
}

/// The first `n` entries of `idx` are below `len`.
pub open spec fn all_below(idx: Seq<usize>, n: nat, len: nat) -> bool {
    forall|i: int| 0 <= i < n ==> (#[trigger] idx[i]) < len
}

fn clamp_i32(v: i32, lo: i32, hi: i32) -> (r: i32)
    requires
        lo <= hi,
    ensures
        r == clamp(v as int, lo as int, hi as int),
{
    if v < lo {
        lo
    } else if v > hi {
        hi
    } else {
        v
    }
}

fn div_trunc_i32(a: i32, b: i32) -> (r: i32)
    requires
        b > 0,
        a > i32::MIN,
    ensures
        r == div_trunc(a as int, b as int),
{
    if a >= 0 {
        a / b
    } else {
        -((-a) / b)
    }
}

proof fn lemma_div_trunc_bound(a: int, b: int)
    requires
        b > 0,
    ensures
        -(if a >= 0 { a } else { -a }) <= div_trunc(a, b) <= (if a >= 0 { a } else { -a }),
{
    if a >= 0 {
        assert(a / b <= a) by (nonlinear_arith) requires a >= 0, b > 0;
        assert(a / b >= 0) by (nonlinear_arith) requires a >= 0, b > 0;
    } else {
        assert((-a) / b <= -a) by (nonlinear_arith) requires -a >= 0, b > 0;
        assert((-a) / b >= 0) by (nonlinear_arith) requires -a >= 0, b > 0;
    }
}

/// Filters one pair of samples in place and returns nothing else.
fn filter_pair(samples: &mut Vec<u16>, p: usize, q: usize, kind: FilterKind, tc: i32)
    requires
        tc >= 0,
        p < old(samples)@.len(),
        q < old(samples)@.len(),
    ensures
        final(samples)@ == pair_filtered(old(samples)@, p as int, q as int, kind, tc as int),
{
    let p0 = samples[p] as i32;
    let q0 = samples[q] as i32;
    let delta = match kind {
        FilterKind::Strong => div_trunc_i32(clamp_i32(q0 - p0, -tc, tc), 2),
        FilterKind::Weak => clamp_i32(div_trunc_i32((q0 - p0) * 9, 16), -tc, tc),
        FilterKind::Chroma => clamp_i32(div_trunc_i32(q0 - p0, 2), -tc, tc),
    };
    proof {
        let c = clamp(q0 - p0, -tc as int, tc as int);
        lemma_div_trunc_bound(c, 2);
        lemma_div_trunc_bound(q0 - p0, 2);
        assert(delta == filter_delta(kind, p0 as int, q0 as int, tc as int));
    }
    let np = clamp_i32(p0 + delta, 0, 255) as u16;
    let nq = clamp_i32(q0 - delta, 0, 255) as u16;
    samples.set(p, np);
    samples.set(q, nq);
}

/// Strong luma filter over up to four sample pairs.
fn apply_strong_luma_filter(samples: &mut Vec<u16>, p_idx: &Vec<usize>, q_idx: &Vec<usize>, _beta: i32, tc: i32)
    requires
        tc >= 0,
        all_below(p_idx@, min_lines(4, p_idx@.len(), q_idx@.len()), old(samples)@.len()),
        all_below(q_idx@, min_lines(4, p_idx@.len(), q_idx@.len()), old(samples)@.len()),
    ensures
        final(samples)@ == pairs_filtered(
            old(samples)@,
            p_idx@,
            q_idx@,
            min_lines(4, p_idx@.len(), q_idx@.len()),
            FilterKind::Strong,
            tc as int,
        ),
{
    filter_pairs(samples, p_idx, q_idx, 4, FilterKind::Strong, tc);
}

/// Weak luma filter over up to four sample pairs.
fn apply_weak_luma_filter(samples: &mut Vec<u16>, p_idx: &Vec<usize>, q_idx: &Vec<usize>, _beta: i32, tc: i32)
    requires
        tc >= 0,
        all_below(p_idx@, min_lines(4, p_idx@.len(), q_idx@.len()), old(samples)@.len()),
        all_below(q_idx@, min_lines(4, p_idx@.len(), q_idx@.len()), old(samples)@.len()),
    ensures
        final(samples)@ == pairs_filtered(
            old(samples)@,
            p_idx@,
            q_idx@,
            min_lines(4, p_idx@.len(), q_idx@.len()),
            FilterKind::Weak,
            tc as int,
        ),
{
    filter_pairs(samples, p_idx, q_idx, 4, FilterKind::Weak, tc);
}

/// The smallest of three counts.
pub open spec fn min_lines(n: nat, a: nat, b: nat) -> nat {
    if n <= a && n <= b {
        n
    } else if a <= b {
        a
    } else {
        b
    }
}

/// Filters the first `min(n, |p_idx|, |q_idx|)` pairs in order.
fn filter_pairs(samples: &mut Vec<u16>, p_idx: &Vec<usize>, q_idx: &Vec<usize>, n: usize, kind: FilterKind, tc: i32)
    requires
        tc >= 0,
        all_below(p_idx@, min_lines(n as nat, p_idx@.len(), q_idx@.len()), old(samples)@.len()),
        all_below(q_idx@, min_lines(n as nat, p_idx@.len(), q_idx@.len()), old(samples)@.len()),
    ensures
        final(samples)@ == pairs_filtered(
            old(samples)@,
            p_idx@,
            q_idx@,
            min_lines(n as nat, p_idx@.len(), q_idx@.len()),
            kind,
            tc as int,
        ),
{
    let count = n.min(p_idx.len()).min(q_idx.len());
    assert(count == min_lines(n as nat, p_idx@.len(), q_idx@.len()));
    let mut i: usize = 0;
    while i < count
        invariant
            tc >= 0,
            i <= count,
            count == min_lines(n as nat, p_idx@.len(), q_idx@.len()),
            count <= p_idx@.len(),
            count <= q_idx@.len(),
            all_below(p_idx@, count as nat, old(samples)@.len()),
            all_below(q_idx@, count as nat, old(samples)@.len()),
            samples@.len() == old(samples)@.len(),
            samples@ == pairs_filtered(old(samples)@, p_idx@, q_idx@, i as nat, kind, tc as int),
        decreases count - i,
    {
        filter_pair(samples, p_idx[i], q_idx[i], kind, tc);
        i += 1;
    }
}

/// `v - 1`, saturating at zero.
pub open spec fn sat_dec(v: nat) -> nat {
    if v == 0 {
        0
    } else {
        (v - 1) as nat
    }
}

/// Flat index of the P sample of line `i` across an edge at `(x, y)`.
pub open spec fn edge_p(stride: nat, x: nat, y: nat, edge: EdgeType, i: nat) -> nat {
    match edge {
        EdgeType::Vertical => (y + i) * stride + sat_dec(x),
        EdgeType::Horizontal => sat_dec(y) * stride + x + i,
    }
}

/// Flat index of the Q sample of line `i` across an edge at `(x, y)`.
pub open spec fn edge_q(stride: nat, x: nat, y: nat, edge: EdgeType, i: nat) -> nat {
    match edge {
        EdgeType::Vertical => (y + i) * stride + x,
        EdgeType::Horizontal => y * stride + x + i,
    }
}

/// P indices of the first `n` lines across an edge at `(x, y)`.
pub open spec fn window_p(stride: nat, x: nat, y: nat, edge: EdgeType, n: nat) -> Seq<usize> {
    Seq::new(n, |i: int| edge_p(stride, x, y, edge, i as nat) as usize)
}

/// Q indices of the first `n` lines across an edge at `(x, y)`.
pub open spec fn window_q(stride: nat, x: nat, y: nat, edge: EdgeType, n: nat) -> Seq<usize> {
    Seq::new(n, |i: int| edge_q(stride, x, y, edge, i as nat) as usize)
}

/// Every index of the `n`-line window is below `bound`.
pub open spec fn window_below(bound: nat, stride: nat, x: nat, y: nat, edge: EdgeType, n: nat) -> bool {
    forall|i: nat|
        i < n ==> #[trigger] edge_p(stride, x, y, edge, i) < bound && edge_q(stride, x, y, edge, i) < bound
}

/// The columns of the `n`-line window lie inside one row of `stride`
/// samples: the Q column for a vertical edge, all `n` columns for a
/// horizontal one.
pub open spec fn window_in_row(stride: nat, x: nat, edge: EdgeType, n: nat) -> bool {
    match edge {
        EdgeType::Vertical => x < stride,
        EdgeType::Horizontal => x + n <= stride,
    }
}

/// The whole `n`-line window lies inside a plane of `len` samples in rows of
/// `stride`: no index leaves its row or runs past the end of the plane.
pub open spec fn window_inside(len: nat, stride: nat, x: nat, y: nat, edge: EdgeType, n: nat) -> bool {
    window_in_row(stride, x, edge, n) && window_below(len, stride, x, y, edge, n)
}

/// The indices of the `n`-line window can be computed in `usize`.
pub open spec fn window_addressable(stride: nat, x: nat, y: nat, edge: EdgeType, n: nat) -> bool {
    edge_q(stride, x, y, edge, (n - 1) as nat) < usize::MAX && y + n < usize::MAX && x + n < usize::MAX
}

/// A luma edge filtered: strong for `bs == 2`, weak otherwise; untouched when
/// its window leaves the plane or its row.
pub open spec fn luma_edge_filtered(s: Seq<u16>, stride: nat, x: nat, y: nat, edge: EdgeType, bs: u8, tc: int) -> Seq<u16> {
    if window_inside(s.len(), stride, x, y, edge, 4) {
        pairs_filtered(
            s,
            window_p(stride, x, y, edge, 4),
            window_q(stride, x, y, edge, 4),
            4,
            if bs == 2 { FilterKind::Strong } else { FilterKind::Weak },
            tc,
        )
    } else {
        s
    }
}

/// A chroma edge filtered over two lines; untouched when its window leaves
/// the plane or its row.
pub open spec fn chroma_edge_filtered(s: Seq<u16>, stride: nat, x: nat, y: nat, edge: EdgeType, tc: int) -> Seq<u16> {
    if window_inside(s.len(), stride, x, y, edge, 2) {
        pairs_filtered(s, window_p(stride, x, y, edge, 2), window_q(stride, x, y, edge, 2), 2, FilterKind::Chroma, tc)
    } else {
        s
    }
}

proof fn lemma_window_monotone(stride: nat, x: nat, y: nat, edge: EdgeType, i: nat, n: nat)
    requires
        i < n,
    ensures
        edge_p(stride, x, y, edge, i) <= edge_q(stride, x, y, edge, (n - 1) as nat),
        edge_q(stride, x, y, edge, i) <= edge_q(stride, x, y, edge, (n - 1) as nat),
{
    match edge {
        EdgeType::Vertical => {
            assert((y + i) * stride <= (y + (n - 1) as nat) * stride) by (nonlinear_arith)
                requires i <= (n - 1) as nat;
        },
        EdgeType::Horizontal => {
            assert(sat_dec(y) * stride <= y * stride) by (nonlinear_arith)
                requires sat_dec(y) <= y;
        },
    }
}

/// The P and Q indices of the first `n` lines across an edge at `(x, y)`.
fn edge_window(stride: usize, x: u32, y: u32, edge_type: EdgeType, n: usize) -> (r: (Vec<usize>, Vec<usize>))
    requires
        n > 0,
        window_addressable(stride as nat, x as nat, y as nat, edge_type, n as nat),
    ensures
        r.0@ == window_p(stride as nat, x as nat, y as nat, edge_type, n as nat),
        r.1@ == window_q(stride as nat, x as nat, y as nat, edge_type, n as nat),
{
    let x = x as usize;
    let y = y as usize;
    let mut p: Vec<usize> = Vec::new();
    let mut q: Vec<usize> = Vec::new();
    let mut i: usize = 0;
    while i < n
        invariant
            i <= n,
            n > 0,
            window_addressable(stride as nat, x as nat, y as nat, edge_type, n as nat),
            p@.len() == i,
            q@.len() == i,
            forall|k: int| 0 <= k < i ==> p@[k] == edge_p(stride as nat, x as nat, y as nat, edge_type, k as nat),
            forall|k: int| 0 <= k < i ==> q@[k] == edge_q(stride as nat, x as nat, y as nat, edge_type, k as nat),
        decreases n - i,
    {
        proof {
            lemma_window_monotone(stride as nat, x as nat, y as nat, edge_type, i as nat, n as nat);
        }
        let xp: usize = if x == 0 { 0 } else { x - 1 };
        let yp: usize = if y == 0 { 0 } else { y - 1 };
        match edge_type {
            EdgeType::Vertical => {
                proof {
                    assert((y + i) * stride <= edge_q(stride as nat, x as nat, y as nat, edge_type, i as nat));
                }
                p.push((y + i) * stride + xp);
                q.push((y + i) * stride + x);
            },
            EdgeType::Horizontal => {
                proof {
                    assert(yp * stride <= y * stride) by (nonlinear_arith) requires yp <= y;
                    assert(y * stride <= edge_q(stride as nat, x as nat, y as nat, edge_type, i as nat));
                }
                p.push(yp * stride + x + i);
                q.push(y * stride + x + i);
            },
        }
        i += 1;
    }
    assert(p@ =~= window_p(stride as nat, x as nat, y as nat, edge_type, n as nat));
    assert(q@ =~= window_q(stride as nat, x as nat, y as nat, edge_type, n as nat));
    (p, q)
}

/// Whether the columns of the `n`-line window across an edge at column `x`
/// stay inside one row of `stride` samples.
fn in_row(stride: usize, x: u32, edge_type: EdgeType, n: usize) -> (r: bool)
    requires
        n > 0,
        x as nat + n < usize::MAX,
    ensures
        r == window_in_row(stride as nat, x as nat, edge_type, n as nat),
{
    match edge_type {
        EdgeType::Vertical => (x as usize) < stride,
        EdgeType::Horizontal => x as usize + n <= stride,
    }
}

/// Whether every index in `idx` is below `len`.
fn indices_below(idx: &Vec<usize>, len: usize) -> (r: bool)
    ensures
        r == all_below(idx@, idx@.len(), len as nat),
{
    let mut i: usize = 0;
    while i < idx.len()
        invariant
            i <= idx@.len(),
            all_below(idx@, i as nat, len as nat),
        decreases idx@.len() - i,
    {
        if idx[i] >= len {
            return false;
        }
        i += 1;
    }
    true
}

/// Filters the four luma sample pairs across the edge at `(x, y)` of a plane
/// with rows of `stride` samples: the strong filter where `bs == 2`, the weak
/// one otherwise. A window that leaves its row or the plane leaves the samples
/// untouched.
pub fn filter_luma_edge(
    samples: &mut Vec<u16>,
    stride: usize,
    x: u32,
    y: u32,
    edge_type: EdgeType,
    bs: u8,
    beta: i32,
    tc: i32,
)
    requires
        tc >= 0,
        window_addressable(stride as nat, x as nat, y as nat, edge_type, 4),
    ensures
        final(samples)@ == luma_edge_filtered(old(samples)@, stride as nat, x as nat, y as nat, edge_type, bs, tc as int),
        changes_clipped(old(samples)@, final(samples)@),
{
    proof {
        assert(samples@.len() == samples.len());
        lemma_edge_filters_clip(samples@, stride as nat, x as nat, y as nat, edge_type, bs, tc as int);
    }
    if !in_row(stride, x, edge_type, 4) {
        return;
    }
    let (p_idx, q_idx) = edge_window(stride, x, y, edge_type, 4);
    let len = samples.len();
    if !indices_below(&p_idx, len) || !indices_below(&q_idx, len) {
        proof {
            assert(!window_below(len as nat, stride as nat, x as nat, y as nat, edge_type, 4)) by {
                if window_below(len as nat, stride as nat, x as nat, y as nat, edge_type, 4) {
                    assert forall|i: int| 0 <= i < 4 implies p_idx@[i] < len && q_idx@[i] < len by {
                        assert(edge_p(stride as nat, x as nat, y as nat, edge_type, i as nat) < len);
                    }
                }
            }
        }
        return;
    }
    proof {
        assert forall|i: nat| i < 4 implies #[trigger] edge_p(stride as nat, x as nat, y as nat, edge_type, i) < len
            && edge_q(stride as nat, x as nat, y as nat, edge_type, i) < len by {
            lemma_window_monotone(stride as nat, x as nat, y as nat, edge_type, i, 4);
            assert(p_idx@[i as int] < len);
            assert(q_idx@[i as int] < len);
        }
    }
    if bs == 2 {
        apply_strong_luma_filter(samples, &p_idx, &q_idx, beta, tc);
    } else {
        apply_weak_luma_filter(samples, &p_idx, &q_idx, beta, tc);
    }
}

/// Filters the two chroma sample pairs across the edge at `(x, y)` of a plane
/// with rows of `stride` samples. A window that leaves its row or the plane
/// leaves the samples untouched.
pub fn filter_chroma_edge(samples: &mut Vec<u16>, stride: usize, x: u32, y: u32, edge_type: EdgeType, tc: i32)
    requires
        tc >= 0,
        window_addressable(stride as nat, x as nat, y as nat, edge_type, 2),
    ensures
        final(samples)@ == chroma_edge_filtered(old(samples)@, stride as nat, x as nat, y as nat, edge_type, tc as int),
        changes_clipped(old(samples)@, final(samples)@),
{
    proof {
        assert(samples@.len() == samples.len());
        lemma_edge_filters_clip(samples@, stride as nat, x as nat, y as nat, edge_type, 0, tc as int);
    }
    if !in_row(stride, x, edge_type, 2) {
        return;
    }
    let (p_idx, q_idx) = edge_window(stride, x, y, edge_type, 2);
    let len = samples.len();
    if !indices_below(&p_idx, len) || !indices_below(&q_idx, len) {
        proof {
            assert(!window_below(len as nat, stride as nat, x as nat, y as nat, edge_type, 2)) by {
                if window_below(len as nat, stride as nat, x as nat, y as nat, edge_type, 2) {
                    assert forall|i: int| 0 <= i < 2 implies p_idx@[i] < len && q_idx@[i] < len by {
                        assert(edge_p(stride as nat, x as nat, y as nat, edge_type, i as nat) < len);
                    }
                }
            }
        }
        return;
    }
    proof {
        assert forall|i: nat| i < 2 implies #[trigger] edge_p(stride as nat, x as nat, y as nat, edge_type, i) < len
            && edge_q(stride as nat, x as nat, y as nat, edge_type, i) < len by {
            lemma_window_monotone(stride as nat, x as nat, y as nat, edge_type, i, 2);
            assert(p_idx@[i as int] < len);
            assert(q_idx@[i as int] < len);
        }
    }
    filter_pairs(samples, &p_idx, &q_idx, 2, FilterKind::Chroma, tc);
}

/// Column spacing of the cells visited when marking edges of one direction.
pub open spec fn mark_step_x(edge: EdgeType) -> nat {
    match edge {
        EdgeType::Vertical => 8,
        EdgeType::Horizontal => 4,
    }
}

/// Row spacing of the cells visited when marking edges of one direction.
pub open spec fn mark_step_y(edge: EdgeType) -> nat {
    match edge {
        EdgeType::Vertical => 4,
        EdgeType::Horizontal => 8,
    }
}

/// Number of multiples of `step` below `n`.
pub open spec fn steps(n: nat, step: nat) -> nat {
    ((n + step - 1) as nat) / step
}

/// The placement of one coding tree block: its origin and its size clipped to the picture.
pub open spec fn ctb_fits(pic_w: nat, pic_h: nat, x0: nat, y0: nat, w: nat, h: nat) -> bool {
    x0 + w <= pic_w && y0 + h <= pic_h && pic_w <= u32::MAX && pic_h <= u32::MAX
}

/// Whether the cell at CTB-local `(x, y)` gets an edge flag: on the CTB's own
/// boundary only when `outer` allows it; inside, on the 8-sample grid or at a
/// transform split.
pub open spec fn edge_marked(meta: DeblockMetadata, x0: nat, y0: nat, x: nat, y: nat, edge: EdgeType, outer: bool) -> bool {
    let along = match edge {
        EdgeType::Vertical => x,
        EdgeType::Horizontal => y,
    };
    if along == 0 {
        outer
    } else {
        along % 8 == 0 || meta.split_view()[cell_index(meta.stride_view(), x0 + x, y0 + y) as int]
    }
}

/// Row `r` of the marking pass, its first `nc` cells.
pub open spec fn mark_row(
    f: Seq<u8>,
    stride: nat,
    meta: DeblockMetadata,
    x0: nat,
    y0: nat,
    edge: EdgeType,
    outer: bool,
    r: nat,
    nc: nat,
) -> Seq<u8>
    decreases nc,
{
    if nc == 0 {
        f
    } else {
        let f1 = mark_row(f, stride, meta, x0, y0, edge, outer, r, (nc - 1) as nat);
        let x = mark_step_x(edge) * (nc - 1) as nat;
        let y = mark_step_y(edge) * r;
        if edge_marked(meta, x0, y0, x, y, edge, outer) {
            f1.update(cell_index(stride, x0 + x, y0 + y) as int, 1u8)
        } else {
            f1
        }
    }
}

/// The first `nr` rows of the marking pass over a `w` x `h` CTB.
pub open spec fn mark_rows(
    f: Seq<u8>,
    stride: nat,
    meta: DeblockMetadata,
    x0: nat,
    y0: nat,
    w: nat,
    edge: EdgeType,
    outer: bool,
    nr: nat,
) -> Seq<u8>
    decreases nr,
{
    if nr == 0 {
        f
    } else {
        mark_row(
            mark_rows(f, stride, meta, x0, y0, w, edge, outer, (nr - 1) as nat),
            stride,
            meta,
            x0,
            y0,
            edge,
            outer,
            (nr - 1) as nat,
            steps(w, mark_step_x(edge)),
        )
    }
}

/// Edge flags of one direction after marking a `w` x `h` CTB at `(x0, y0)`.
pub open spec fn edges_marked(
    f: Seq<u8>,
    stride: nat,
    meta: DeblockMetadata,
    x0: nat,
    y0: nat,
    w: nat,
    h: nat,
    edge: EdgeType,
    outer: bool,
) -> Seq<u8> {
    mark_rows(f, stride, meta, x0, y0, w, edge, outer, steps(h, mark_step_y(edge)))
}

pub(crate) proof fn lemma_step_below(c: nat, n: nat, step: nat)
    requires
        step > 0,
        c < steps(n, step),
    ensures
        step * c < n,
        step * c + step <= n + step - 1,
{
    assert(step * c < n) by (nonlinear_arith)
        requires step > 0, c < ((n + step - 1) as nat) / step;
}

pub(crate) proof fn lemma_cell_in_grid(pic_w: nat, pic_h: nat, x: nat, y: nat)
    requires
        x < pic_w,
        y < pic_h,
    ensures
        cell_index(units4(pic_w), x, y) < units4(pic_w) * units4(pic_h),
{
    let a = y / 4;
    let b = x / 4;
    let sw = units4(pic_w);
    let sh = units4(pic_h);
    assert(a < sh && b < sw);
    assert(a * sw + b < sh * sw) by (nonlinear_arith)
        requires a < sh, b < sw;
}

/// Marks the edges of one direction inside the CTB at `(x0, y0)` of clipped
/// size `width` x `height`. `filter_outer_edge` says whether the CTB's own
/// left (or top) boundary is filtered.
fn mark_edges_for_ctb(
    ctx: &mut DeblockingContext,
    metadata: &DeblockMetadata,
    pic_w: Ghost<nat>,
    pic_h: Ghost<nat>,
    x0: u32,
    y0: u32,
    width: u32,
    height: u32,
    edge_type: EdgeType,
    filter_outer_edge: bool,
)
    requires
        old(ctx).covers(pic_w@, pic_h@),
        metadata.covers(pic_w@, pic_h@),
        ctb_fits(pic_w@, pic_h@, x0 as nat, y0 as nat, width as nat, height as nat),
    ensures
        final(ctx).covers(pic_w@, pic_h@),
        final(ctx).flags_view(edge_type) == edges_marked(
            old(ctx).flags_view(edge_type),
            old(ctx).stride_view(),
            *metadata,
            x0 as nat,
            y0 as nat,
            width as nat,
            height as nat,
            edge_type,
            filter_outer_edge,
        ),
        final(ctx).flags_view(other_edge(edge_type)) == old(ctx).flags_view(other_edge(edge_type)),
        final(ctx).bs_view(EdgeType::Vertical) == old(ctx).bs_view(EdgeType::Vertical),
        final(ctx).bs_view(EdgeType::Horizontal) == old(ctx).bs_view(EdgeType::Horizontal),
{
    let ghost f0 = ctx.flags_view(edge_type);
    let ghost stride = ctx.stride_view();
    let (step_x, step_y): (u32, u32) = match edge_type {
        EdgeType::Vertical => (8, 4),
        EdgeType::Horizontal => (4, 8),
    };
    let ncols: u32 = width / step_x + if width % step_x == 0 { 0 } else { 1 };
    let nrows: u32 = height / step_y + if height % step_y == 0 { 0 } else { 1 };
    proof {
        match edge_type {
            EdgeType::Vertical => {
                assert(ncols == steps(width as nat, 8));
                assert(nrows == steps(height as nat, 4));
            },
            EdgeType::Horizontal => {
                assert(ncols == steps(width as nat, 4));
                assert(nrows == steps(height as nat, 8));
            },
        }
    }
    let mut r: u32 = 0;
    while r < nrows
        invariant
            r <= nrows,
            nrows == steps(height as nat, mark_step_y(edge_type)),
            ncols == steps(width as nat, mark_step_x(edge_type)),
            step_x == mark_step_x(edge_type),
            step_y == mark_step_y(edge_type),
            ctx.covers(pic_w@, pic_h@),
            stride == ctx.stride_view(),
            metadata.covers(pic_w@, pic_h@),
            ctb_fits(pic_w@, pic_h@, x0 as nat, y0 as nat, width as nat, height as nat),
            ctx.flags_view(edge_type) == mark_rows(f0, stride, *metadata, x0 as nat, y0 as nat, width as nat, edge_type, filter_outer_edge, r as nat),
            ctx.flags_view(other_edge(edge_type)) == old(ctx).flags_view(other_edge(edge_type)),
            ctx.bs_view(EdgeType::Vertical) == old(ctx).bs_view(EdgeType::Vertical),
            ctx.bs_view(EdgeType::Horizontal) == old(ctx).bs_view(EdgeType::Horizontal),
        decreases nrows - r,
    {
        proof {
            lemma_step_below(r as nat, height as nat, step_y as nat);
        }
        let y = step_y * r;
        let ghost row_start = ctx.flags_view(edge_type);
        let mut c: u32 = 0;
        while c < ncols
            invariant
                r < nrows,
                c <= ncols,
                y == mark_step_y(edge_type) * r,
                (y as nat) < height,
                ncols == steps(width as nat, mark_step_x(edge_type)),
                step_x == mark_step_x(edge_type),
                ctx.covers(pic_w@, pic_h@),
                stride == ctx.stride_view(),
                metadata.covers(pic_w@, pic_h@),
                ctb_fits(pic_w@, pic_h@, x0 as nat, y0 as nat, width as nat, height as nat),
                ctx.flags_view(edge_type) == mark_row(row_start, stride, *metadata, x0 as nat, y0 as nat, edge_type, filter_outer_edge, r as nat, c as nat),
                ctx.flags_view(other_edge(edge_type)) == old(ctx).flags_view(other_edge(edge_type)),
                ctx.bs_view(EdgeType::Vertical) == old(ctx).bs_view(EdgeType::Vertical),
                ctx.bs_view(EdgeType::Horizontal) == old(ctx).bs_view(EdgeType::Horizontal),
            decreases ncols - c,
        {
            proof {
                lemma_step_below(c as nat, width as nat, step_x as nat);
            }
            let x = step_x * c;
            let abs_x = x0 + x;
            let abs_y = y0 + y;
            proof {
                lemma_cell_in_grid(pic_w@, pic_h@, abs_x as nat, abs_y as nat);
            }
            let along = match edge_type {
                EdgeType::Vertical => x,
                EdgeType::Horizontal => y,
            };
            let should_mark = if along == 0 {
                filter_outer_edge
            } else {
                along % 8 == 0 || metadata.get_split_transform(abs_x, abs_y)
            };
            if should_mark {
                ctx.set_edge_flag(abs_x, abs_y, edge_type, 1);
            }
            c += 1;
        }
        r += 1;
    }
}

/// Boundary strength between the blocks holding samples P and Q: 2 when
/// either is intra, else 1 when either has a non-zero coefficient, else 0.
/// Motion is not compared, so two inter blocks without coefficients get 0.
pub open spec fn bs_value(meta: DeblockMetadata, xp: nat, yp: nat, xq: nat, yq: nat) -> u8 {
    let p = cell_index(meta.stride_view(), xp, yp) as int;
    let q = cell_index(meta.stride_view(), xq, yq) as int;
    if meta.pred_view()[p] == 1 || meta.pred_view()[q] == 1 {
        2
    } else if meta.nonzero_view()[p] || meta.nonzero_view()[q] {
        1
    } else {
        0
    }
}

/// Boundary strength of the edge at sample `(x, y)`; P is the left (vertical)
/// or upper (horizontal) neighbour, clamped at the picture border.
pub open spec fn edge_bs(meta: DeblockMetadata, x: nat, y: nat, edge: EdgeType) -> u8 {
    match edge {
        EdgeType::Vertical => bs_value(meta, sat_dec(x), y, x, y),
        EdgeType::Horizontal => bs_value(meta, x, sat_dec(y), x, y),
    }
}

/// Row `r` of the strength pass, its first `nc` cells.
pub open spec fn derive_row(
    bs: Seq<u8>,
    flags: Seq<u8>,
    stride: nat,
    meta: DeblockMetadata,
    x0: nat,
    y0: nat,
    edge: EdgeType,
    r: nat,
    nc: nat,
) -> Seq<u8>
    decreases nc,
{
    if nc == 0 {
        bs
    } else {
        let b1 = derive_row(bs, flags, stride, meta, x0, y0, edge, r, (nc - 1) as nat);
        let x = x0 + 4 * (nc - 1) as nat;
        let y = y0 + 4 * r;
        let i = cell_index(stride, x, y) as int;
        if flags[i] != 0 {
            b1.update(i, edge_bs(meta, x, y, edge))
        } else {
            b1
        }
    }
}

/// The first `nr` rows of the strength pass over a CTB of width `w`.
pub open spec fn derive_rows(
    bs: Seq<u8>,
    flags: Seq<u8>,
    stride: nat,
    meta: DeblockMetadata,
    x0: nat,
    y0: nat,
    w: nat,
    edge: EdgeType,
    nr: nat,
) -> Seq<u8>
    decreases nr,
{
    if nr == 0 {
        bs
    } else {
        derive_row(
            derive_rows(bs, flags, stride, meta, x0, y0, w, edge, (nr - 1) as nat),
            flags,
            stride,
            meta,
            x0,
            y0,
            edge,
            (nr - 1) as nat,
            steps(w, 4),
        )
    }
}

/// Boundary strengths of one direction after the strength pass over a
/// `w` x `h` CTB at `(x0, y0)`: every flagged cell gets `edge_bs`.
pub open spec fn strengths_derived(
    bs: Seq<u8>,
    flags: Seq<u8>,
    stride: nat,
    meta: DeblockMetadata,
    x0: nat,
    y0: nat,
    w: nat,
    h: nat,
    edge: EdgeType,
) -> Seq<u8> {
    derive_rows(bs, flags, stride, meta, x0, y0, w, edge, steps(h, 4))
}

/// Gives every flagged cell of one direction inside the CTB its boundary strength.
fn derive_boundary_strength_ctb(
    ctx: &mut DeblockingContext,
    metadata: &DeblockMetadata,
    pic_w: Ghost<nat>,
    pic_h: Ghost<nat>,
    x0: u32,
    y0: u32,
    width: u32,
    height: u32,
    edge_type: EdgeType,
)
    requires
        old(ctx).covers(pic_w@, pic_h@),
        metadata.covers(pic_w@, pic_h@),
        ctb_fits(pic_w@, pic_h@, x0 as nat, y0 as nat, width as nat, height as nat),
    ensures
        final(ctx).covers(pic_w@, pic_h@),
        final(ctx).bs_view(edge_type) == strengths_derived(
            old(ctx).bs_view(edge_type),
            old(ctx).flags_view(edge_type),
            old(ctx).stride_view(),
            *metadata,
            x0 as nat,
            y0 as nat,
            width as nat,
            height as nat,
            edge_type,
        ),
        final(ctx).bs_view(other_edge(edge_type)) == old(ctx).bs_view(other_edge(edge_type)),
        final(ctx).flags_view(EdgeType::Vertical) == old(ctx).flags_view(EdgeType::Vertical),
        final(ctx).flags_view(EdgeType::Horizontal) == old(ctx).flags_view(EdgeType::Horizontal),
{
    let ghost b0 = ctx.bs_view(edge_type);
    let ghost flags = ctx.flags_view(edge_type);
    let ghost stride = ctx.stride_view();
    let ncols: u32 = width / 4 + if width % 4 == 0 { 0 } else { 1 };
    let nrows: u32 = height / 4 + if height % 4 == 0 { 0 } else { 1 };
    let mut r: u32 = 0;
    while r < nrows
        invariant
            r <= nrows,
            nrows == steps(height as nat, 4),
            ncols == steps(width as nat, 4),
            ctx.covers(pic_w@, pic_h@),
            stride == ctx.stride_view(),
            metadata.covers(pic_w@, pic_h@),
            ctb_fits(pic_w@, pic_h@, x0 as nat, y0 as nat, width as nat, height as nat),
            ctx.bs_view(edge_type) == derive_rows(b0, flags, stride, *metadata, x0 as nat, y0 as nat, width as nat, edge_type, r as nat),
            ctx.bs_view(other_edge(edge_type)) == old(ctx).bs_view(other_edge(edge_type)),
            ctx.flags_view(EdgeType::Vertical) == old(ctx).flags_view(EdgeType::Vertical),
            ctx.flags_view(EdgeType::Horizontal) == old(ctx).flags_view(EdgeType::Horizontal),
            flags == ctx.flags_view(edge_type),
        decreases nrows - r,
    {
        proof {
            lemma_step_below(r as nat, height as nat, 4);
        }
        let y = 4 * r;
        let ghost row_start = ctx.bs_view(edge_type);
        let mut c: u32 = 0;
        while c < ncols
            invariant
                r < nrows,
                c <= ncols,
                y == 4 * r,
                (y as nat) < height,
                ncols == steps(width as nat, 4),
                ctx.covers(pic_w@, pic_h@),
                stride == ctx.stride_view(),
                metadata.covers(pic_w@, pic_h@),
                ctb_fits(pic_w@, pic_h@, x0 as nat, y0 as nat, width as nat, height as nat),
                ctx.bs_view(edge_type) == derive_row(row_start, flags, stride, *metadata, x0 as nat, y0 as nat, edge_type, r as nat, c as nat),
                ctx.bs_view(other_edge(edge_type)) == old(ctx).bs_view(other_edge(edge_type)),
                ctx.flags_view(EdgeType::Vertical) == old(ctx).flags_view(EdgeType::Vertical),
                ctx.flags_view(EdgeType::Horizontal) == old(ctx).flags_view(EdgeType::Horizontal),
                flags == ctx.flags_view(edge_type),
            decreases ncols - c,
        {
            proof {
                lemma_step_below(c as nat, width as nat, 4);
            }
            let abs_x = x0 + 4 * c;
            let abs_y = y0 + y;
            proof {
                lemma_cell_in_grid(pic_w@, pic_h@, abs_x as nat, abs_y as nat);
            }
            if ctx.get_edge_flag(abs_x, abs_y, edge_type) != 0 {
                let (x_p, y_p) = match edge_type {
                    EdgeType::Vertical => (abs_x.saturating_sub(1), abs_y),
                    EdgeType::Horizontal => (abs_x, abs_y.saturating_sub(1)),
                };
                let (x_q, y_q) = (abs_x, abs_y);
                proof {
                    lemma_cell_in_grid(pic_w@, pic_h@, x_p as nat, y_p as nat);
                }
                let bs: u8 = if metadata.get_pred_mode(x_p, y_p) == 1 || metadata.get_pred_mode(x_q, y_q) == 1 {
                    2
                } else if metadata.get_nonzero_coeff(x_p, y_p) || metadata.get_nonzero_coeff(x_q, y_q) {
                    1
                } else {
                    0
                };
                ctx.set_bs(abs_x, abs_y, edge_type, bs);
            }
            c += 1;
        }
        r += 1;
    }
}

/// QP used for the threshold lookups: the beta offset around a base of zero.
pub open spec fn filter_qp(pps: Pps) -> int {
    clamp(2 * pps.pps_beta_offset_div2 as int, 0, 51)
}

/// The beta threshold for a picture parameter set.
pub open spec fn beta_value(pps: Pps) -> int {
    BETA_TABLE@[filter_qp(pps)] as int
}

/// The tC clipping threshold for a picture parameter set.
pub open spec fn tc_value(pps: Pps) -> int {
    TC_TABLE@[clamp(filter_qp(pps) + 2 * pps.pps_tc_offset_div2 as int + 2, 0, 53)] as int
}

/// The beta and tC thresholds for the edges of a picture.
fn thresholds(pps: &Pps) -> (r: (i32, i32))
    ensures
        r.0 == beta_value(*pps),
        r.1 == tc_value(*pps),
        r.1 >= 0,
{
    let base_qp: i32 = 0;
    let qp_offset = pps.pps_beta_offset_div2 as i32 * 2;
    let qp_l = clamp_i32(base_qp + qp_offset, 0, 51) as usize;
    let beta = BETA_TABLE[qp_l] as i32;
    let tc_offset = pps.pps_tc_offset_div2 as i32 * 2;
    let tc = TC_TABLE[clamp_i32(qp_l as i32 + tc_offset + 2, 0, 53) as usize] as i32;
    (beta, tc)
}

/// Row `r` of the luma pass, its first `nc` cells: each cell with a non-zero
/// strength has its edge filtered.
pub open spec fn luma_row(
    s: Seq<u16>,
    bs: Seq<u8>,
    stride: nat,
    pic_w: nat,
    x0: nat,
    y0: nat,
    edge: EdgeType,
    tc: int,
    r: nat,
    nc: nat,
) -> Seq<u16>
    decreases nc,
{
    if nc == 0 {
        s
    } else {
        let s1 = luma_row(s, bs, stride, pic_w, x0, y0, edge, tc, r, (nc - 1) as nat);
        let x = x0 + 4 * (nc - 1) as nat;
        let y = y0 + 4 * r;
        let b = bs[cell_index(stride, x, y) as int];
        if b != 0 {
            luma_edge_filtered(s1, pic_w, x, y, edge, b, tc)
        } else {
            s1
        }
    }
}

/// The first `nr` rows of the luma pass over a CTB of width `w`.
pub open spec fn luma_rows(
    s: Seq<u16>,
    bs: Seq<u8>,
    stride: nat,
    pic_w: nat,
    x0: nat,
    y0: nat,
    w: nat,
    edge: EdgeType,
    tc: int,
    nr: nat,
) -> Seq<u16>
    decreases nr,
{
    if nr == 0 {
        s
    } else {
        luma_row(
            luma_rows(s, bs, stride, pic_w, x0, y0, w, edge, tc, (nr - 1) as nat),
            bs,
            stride,
            pic_w,
            x0,
            y0,
            edge,
            tc,
            (nr - 1) as nat,
            steps(w, 4),
        )
    }
}

/// The luma plane after filtering the edges of one direction in a `w` x `h`
/// CTB at `(x0, y0)`, cells visited in raster order.
pub open spec fn luma_filtered(
    s: Seq<u16>,
    bs: Seq<u8>,
    stride: nat,
    pic_w: nat,
    x0: nat,
    y0: nat,
    w: nat,
    h: nat,
    edge: EdgeType,
    tc: int,
) -> Seq<u16> {
    luma_rows(s, bs, stride, pic_w, x0, y0, w, edge, tc, steps(h, 4))
}

/// Row `r` of the chroma pass over one chroma plane, its first `nc` cells:
/// each 8x8 luma cell of strength 2 has its chroma edge filtered.
pub open spec fn chroma_row(
    s: Seq<u16>,
    bs: Seq<u8>,
    stride: nat,
    chroma_w: nat,
    x0: nat,
    y0: nat,
    edge: EdgeType,
    tc: int,
    r: nat,
    nc: nat,
) -> Seq<u16>
    decreases nc,
{
    if nc == 0 {
        s
    } else {
        let s1 = chroma_row(s, bs, stride, chroma_w, x0, y0, edge, tc, r, (nc - 1) as nat);
        let x = x0 + 8 * (nc - 1) as nat;
        let y = y0 + 8 * r;
        if bs[cell_index(stride, x, y) as int] >= 2 {
            chroma_edge_filtered(s1, chroma_w, x / 2, y / 2, edge, tc)
        } else {
            s1
        }
    }
}

/// The first `nr` rows of the chroma pass over a CTB of width `w`.
pub open spec fn chroma_rows(
    s: Seq<u16>,
    bs: Seq<u8>,
    stride: nat,
    chroma_w: nat,
    x0: nat,
    y0: nat,
    w: nat,
    edge: EdgeType,
    tc: int,
    nr: nat,
) -> Seq<u16>
    decreases nr,
{
    if nr == 0 {
        s
    } else {
        chroma_row(
            chroma_rows(s, bs, stride, chroma_w, x0, y0, w, edge, tc, (nr - 1) as nat),
            bs,
            stride,
            chroma_w,
            x0,
            y0,
            edge,
            tc,
            (nr - 1) as nat,
            steps(w, 8),
        )
    }
}

/// One chroma plane after filtering the edges of one direction in a `w` x `h`
/// CTB at `(x0, y0)` (luma coordinates).
pub open spec fn chroma_filtered(
    s: Seq<u16>,
    bs: Seq<u8>,
    stride: nat,
    chroma_w: nat,
    x0: nat,
    y0: nat,
    w: nat,
    h: nat,
    edge: EdgeType,
    tc: int,
) -> Seq<u16> {
    chroma_rows(s, bs, stride, chroma_w, x0, y0, w, edge, tc, steps(h, 8))
}

/// `new` has the length of `old`, and every sample that differs lies in `[0, 255]`.
pub open spec fn changes_clipped(old: Seq<u16>, new: Seq<u16>) -> bool {
    &&& new.len() == old.len()
    &&& forall|i: int| 0 <= i < old.len() && new[i] != old[i] ==> #[trigger] new[i] <= 255
}

proof fn lemma_pairs_in_range(s: Seq<u16>, p: Seq<usize>, q: Seq<usize>, n: nat, kind: FilterKind, tc: int)
    requires
        n <= p.len(),
        n <= q.len(),
        all_below(p, n, s.len()),
        all_below(q, n, s.len()),
    ensures
        pairs_filtered(s, p, q, n, kind, tc).len() == s.len(),
        changes_clipped(s, pairs_filtered(s, p, q, n, kind, tc)),
        plane_in_range(s) ==> plane_in_range(pairs_filtered(s, p, q, n, kind, tc)),
    decreases n,
{
    if n > 0 {
        lemma_pairs_in_range(s, p, q, (n - 1) as nat, kind, tc);
        let s1 = pairs_filtered(s, p, q, (n - 1) as nat, kind, tc);
        assert(p[n - 1] < s.len() && q[n - 1] < s.len());
        let r = pair_filtered(s1, p[n - 1] as int, q[n - 1] as int, kind, tc);
        assert forall|i: int| 0 <= i < r.len() && r[i] != s[i] implies #[trigger] r[i] <= 255 by {
            if i != p[n - 1] && i != q[n - 1] {
                assert(r[i] == s1[i]);
            }
        }
        if plane_in_range(s1) {
            assert forall|i: int| 0 <= i < r.len() implies #[trigger] r[i] <= 255 by {
                if i != p[n - 1] && i != q[n - 1] {
                    assert(r[i] == s1[i]);
                }
            }
        }
    }
}

/// Filtering one edge keeps the plane's length and the 8-bit range.
proof fn lemma_edge_in_range(s: Seq<u16>, stride: nat, x: nat, y: nat, edge: EdgeType, n: nat, kind: FilterKind, tc: int)
    requires
        s.len() <= usize::MAX,
    ensures
        window_below(s.len(), stride, x, y, edge, n) ==> {
            let r = pairs_filtered(s, window_p(stride, x, y, edge, n), window_q(stride, x, y, edge, n), n, kind, tc);
            r.len() == s.len() && changes_clipped(s, r) && (plane_in_range(s) ==> plane_in_range(r))
        },
{
    if window_below(s.len(), stride, x, y, edge, n) {
        let p = window_p(stride, x, y, edge, n);
        let q = window_q(stride, x, y, edge, n);
        assert forall|i: int| 0 <= i < n implies (#[trigger] p[i]) < s.len() by {
            assert(edge_p(stride, x, y, edge, i as nat) < s.len());
        }
        assert forall|i: int| 0 <= i < n implies (#[trigger] q[i]) < s.len() by {
            assert(edge_p(stride, x, y, edge, i as nat) < s.len());
            assert(edge_q(stride, x, y, edge, i as nat) < s.len());
        }
        lemma_pairs_in_range(s, p, q, n, kind, tc);
    }
}

/// Every sample an edge filter writes lies in `[0, 255]`.
proof fn lemma_edge_filters_clip(s: Seq<u16>, stride: nat, x: nat, y: nat, edge: EdgeType, bs: u8, tc: int)
    requires
        s.len() <= usize::MAX,
    ensures
        changes_clipped(s, luma_edge_filtered(s, stride, x, y, edge, bs, tc)),
        changes_clipped(s, chroma_edge_filtered(s, stride, x, y, edge, tc)),
{
    lemma_edge_in_range(s, stride, x, y, edge, 4, if bs == 2 { FilterKind::Strong } else { FilterKind::Weak }, tc);
    lemma_edge_in_range(s, stride, x, y, edge, 2, FilterKind::Chroma, tc);
}

proof fn lemma_window_in_plane(pic_w: nat, pic_h: nat, x: nat, y: nat, edge: EdgeType, n: nat)
    requires
        x < pic_w,
        y < pic_h,
        1 <= n <= 4,
        (pic_h + 4) * (pic_w + 4) < usize::MAX,
    ensures
        window_addressable(pic_w, x, y, edge, n),
{
    match edge {
        EdgeType::Vertical => {
            let a = y + (n - 1) as nat;
            assert(a * pic_w <= (pic_h + 3) * pic_w) by (nonlinear_arith)
                requires a <= pic_h + 3;
        },
        EdgeType::Horizontal => {
            assert(y * pic_w <= (pic_h + 3) * pic_w) by (nonlinear_arith)
                requires y <= pic_h + 3;
        },
    }
    assert(pic_h + 4 <= (pic_h + 4) * (pic_w + 4)) by (nonlinear_arith);
    assert(pic_w + 4 <= (pic_h + 4) * (pic_w + 4)) by (nonlinear_arith);
    assert((pic_h + 3) * pic_w + pic_w + 4 <= (pic_h + 4) * (pic_w + 4)) by (nonlinear_arith);
}

/// Sample planes small enough that every filter window index fits in `usize`.
pub open spec fn frame_addressable(pic_w: nat, pic_h: nat) -> bool {
    (pic_h + 4) * (pic_w + 4) < usize::MAX
}

/// Filters the luma edges of one direction in the CTB at `(x0, y0)` of
/// clipped size `width` x `height`.
fn filter_edges_luma(
    frame: &mut DecodedFrame,
    ctx: &DeblockingContext,
    pps: &Pps,
    x0: u32,
    y0: u32,
    width: u32,
    height: u32,
    edge_type: EdgeType,
)
    requires
        ctx.covers(old(frame).width as nat, old(frame).height as nat),
        ctb_fits(old(frame).width as nat, old(frame).height as nat, x0 as nat, y0 as nat, width as nat, height as nat),
        frame_addressable(old(frame).width as nat, old(frame).height as nat),
    ensures
        final(frame).width == old(frame).width,
        final(frame).height == old(frame).height,
        final(frame).y_plane@ == luma_filtered(
            old(frame).y_plane@,
            ctx.bs_view(edge_type),
            ctx.stride_view(),
            old(frame).width as nat,
            x0 as nat,
            y0 as nat,
            width as nat,
            height as nat,
            edge_type,
            tc_value(*pps),
        ),
        final(frame).y_plane@.len() == old(frame).y_plane@.len(),
        plane_in_range(old(frame).y_plane@) ==> plane_in_range(final(frame).y_plane@),
        final(frame).cb_plane == old(frame).cb_plane,
        final(frame).cr_plane == old(frame).cr_plane,
{
    let stride = frame.width as usize;
    let ghost pic_w = frame.width as nat;
    let ghost pic_h = frame.height as nat;
    let ghost bs_seq = ctx.bs_view(edge_type);
    let ghost s0 = frame.y_plane@;
    let (beta, tc) = thresholds(pps);
    let ncols: u32 = width / 4 + if width % 4 == 0 { 0 } else { 1 };
    let nrows: u32 = height / 4 + if height % 4 == 0 { 0 } else { 1 };
    let mut r: u32 = 0;
    while r < nrows
        invariant
            r <= nrows,
            nrows == steps(height as nat, 4),
            ncols == steps(width as nat, 4),
            tc == tc_value(*pps),
            tc >= 0,
            stride == pic_w,
            frame.width == pic_w,
            frame.height == pic_h,
            ctx.covers(pic_w, pic_h),
            bs_seq == ctx.bs_view(edge_type),
            ctb_fits(pic_w, pic_h, x0 as nat, y0 as nat, width as nat, height as nat),
            frame_addressable(pic_w, pic_h),
            frame.y_plane@ == luma_rows(s0, bs_seq, ctx.stride_view(), pic_w, x0 as nat, y0 as nat, width as nat, edge_type, tc as int, r as nat),
            frame.y_plane@.len() == s0.len(),
            plane_in_range(s0) ==> plane_in_range(frame.y_plane@),
            frame.cb_plane == old(frame).cb_plane,
            frame.cr_plane == old(frame).cr_plane,
        decreases nrows - r,
    {
        proof {
            lemma_step_below(r as nat, height as nat, 4);
        }
        let abs_y = y0 + 4 * r;
        let ghost row_start = frame.y_plane@;
        let mut c: u32 = 0;
        while c < ncols
            invariant
                r < nrows,
                c <= ncols,
                abs_y == y0 + 4 * r,
                (abs_y as nat) < pic_h,
                ncols == steps(width as nat, 4),
                tc == tc_value(*pps),
                tc >= 0,
                stride == pic_w,
                frame.width == pic_w,
                frame.height == pic_h,
                ctx.covers(pic_w, pic_h),
                bs_seq == ctx.bs_view(edge_type),
                ctb_fits(pic_w, pic_h, x0 as nat, y0 as nat, width as nat, height as nat),
                frame_addressable(pic_w, pic_h),
                frame.y_plane@ == luma_row(row_start, bs_seq, ctx.stride_view(), pic_w, x0 as nat, y0 as nat, edge_type, tc as int, r as nat, c as nat),
                frame.y_plane@.len() == s0.len(),
                plane_in_range(s0) ==> plane_in_range(frame.y_plane@),
                frame.cb_plane == old(frame).cb_plane,
                frame.cr_plane == old(frame).cr_plane,
            decreases ncols - c,
        {
            proof {
                lemma_step_below(c as nat, width as nat, 4);
            }
            let abs_x = x0 + 4 * c;
            proof {
                lemma_cell_in_grid(pic_w, pic_h, abs_x as nat, abs_y as nat);
                lemma_window_in_plane(pic_w, pic_h, abs_x as nat, abs_y as nat, edge_type, 4);
            }
            let bs = ctx.get_bs(abs_x, abs_y, edge_type);
            if bs != 0 {
                let ghost before = frame.y_plane@;
                assert(before.len() == frame.y_plane.len());
                filter_luma_edge(&mut frame.y_plane, stride, abs_x, abs_y, edge_type, bs, beta, tc);
                proof {
                    lemma_edge_in_range(before, pic_w, abs_x as nat, abs_y as nat, edge_type, 4,
                        if bs == 2 { FilterKind::Strong } else { FilterKind::Weak }, tc as int);
                }
            }
            c += 1;
        }
        r += 1;
    }
}

/// Filters the chroma edges of one direction in the CTB at `(x0, y0)` of
/// clipped size `width` x `height` (luma coordinates). Only edges of
/// strength 2 touch chroma.
fn filter_edges_chroma(
    frame: &mut DecodedFrame,
    ctx: &DeblockingContext,
    pps: &Pps,
    x0: u32,
    y0: u32,
    width: u32,
    height: u32,
    edge_type: EdgeType,
)
    requires
        ctx.covers(old(frame).width as nat, old(frame).height as nat),
        ctb_fits(old(frame).width as nat, old(frame).height as nat, x0 as nat, y0 as nat, width as nat, height as nat),
        frame_addressable(old(frame).width as nat, old(frame).height as nat),
    ensures
        final(frame).width == old(frame).width,
        final(frame).height == old(frame).height,
        final(frame).cb_plane@ == chroma_filtered(
            old(frame).cb_plane@,
            ctx.bs_view(edge_type),
            ctx.stride_view(),
            chroma_extent(old(frame).width as nat),
            x0 as nat,
            y0 as nat,
            width as nat,
            height as nat,
            edge_type,
            tc_value(*pps),
        ),
        final(frame).cr_plane@ == chroma_filtered(
            old(frame).cr_plane@,
            ctx.bs_view(edge_type),
            ctx.stride_view(),
            chroma_extent(old(frame).width as nat),
            x0 as nat,
            y0 as nat,
            width as nat,
            height as nat,
            edge_type,
            tc_value(*pps),
        ),
        final(frame).cb_plane@.len() == old(frame).cb_plane@.len(),
        final(frame).cr_plane@.len() == old(frame).cr_plane@.len(),
        plane_in_range(old(frame).cb_plane@) ==> plane_in_range(final(frame).cb_plane@),
        plane_in_range(old(frame).cr_plane@) ==> plane_in_range(final(frame).cr_plane@),
        final(frame).y_plane == old(frame).y_plane,
{
    let chroma_stride = (frame.width / 2 + frame.width % 2) as usize;
    let ghost pic_w = frame.width as nat;
    let ghost pic_h = frame.height as nat;
    let ghost cw = chroma_extent(pic_w);
    let ghost bs_seq = ctx.bs_view(edge_type);
    let ghost cb0 = frame.cb_plane@;
    let ghost cr0 = frame.cr_plane@;
    let (_beta, tc) = thresholds(pps);
    let ncols: u32 = width / 8 + if width % 8 == 0 { 0 } else { 1 };
    let nrows: u32 = height / 8 + if height % 8 == 0 { 0 } else { 1 };
    let mut r: u32 = 0;
    while r < nrows
        invariant
            r <= nrows,
            nrows == steps(height as nat, 8),
            ncols == steps(width as nat, 8),
            tc == tc_value(*pps),
            tc >= 0,
            chroma_stride == cw,
            cw == chroma_extent(pic_w),
            frame.width == pic_w,
            frame.height == pic_h,
            ctx.covers(pic_w, pic_h),
            bs_seq == ctx.bs_view(edge_type),
            ctb_fits(pic_w, pic_h, x0 as nat, y0 as nat, width as nat, height as nat),
            frame_addressable(pic_w, pic_h),
            frame.cb_plane@ == chroma_rows(cb0, bs_seq, ctx.stride_view(), cw, x0 as nat, y0 as nat, width as nat, edge_type, tc as int, r as nat),
            frame.cr_plane@ == chroma_rows(cr0, bs_seq, ctx.stride_view(), cw, x0 as nat, y0 as nat, width as nat, edge_type, tc as int, r as nat),
            frame.cb_plane@.len() == cb0.len(),
            frame.cr_plane@.len() == cr0.len(),
            plane_in_range(cb0) ==> plane_in_range(frame.cb_plane@),
            plane_in_range(cr0) ==> plane_in_range(frame.cr_plane@),
            frame.y_plane == old(frame).y_plane,
        decreases nrows - r,
    {
        proof {
            lemma_step_below(r as nat, height as nat, 8);
        }
        let abs_y = y0 + 8 * r;
        let ghost cb_start = frame.cb_plane@;
        let ghost cr_start = frame.cr_plane@;
        let mut c: u32 = 0;
        while c < ncols
            invariant
                r < nrows,
                c <= ncols,
                abs_y == y0 + 8 * r,
                (abs_y as nat) < pic_h,
                ncols == steps(width as nat, 8),
                tc == tc_value(*pps),
                tc >= 0,
                chroma_stride == cw,
                cw == chroma_extent(pic_w),
                frame.width == pic_w,
                frame.height == pic_h,
                ctx.covers(pic_w, pic_h),
                bs_seq == ctx.bs_view(edge_type),
                ctb_fits(pic_w, pic_h, x0 as nat, y0 as nat, width as nat, height as nat),
                frame_addressable(pic_w, pic_h),
                frame.cb_plane@ == chroma_row(cb_start, bs_seq, ctx.stride_view(), cw, x0 as nat, y0 as nat, edge_type, tc as int, r as nat, c as nat),
                frame.cr_plane@ == chroma_row(cr_start, bs_seq, ctx.stride_view(), cw, x0 as nat, y0 as nat, edge_type, tc as int, r as nat, c as nat),
                frame.cb_plane@.len() == cb0.len(),
                frame.cr_plane@.len() == cr0.len(),
                plane_in_range(cb0) ==> plane_in_range(frame.cb_plane@),
                plane_in_range(cr0) ==> plane_in_range(frame.cr_plane@),
                frame.y_plane == old(frame).y_plane,
            decreases ncols - c,
        {
            proof {
                lemma_step_below(c as nat, width as nat, 8);
            }
            let abs_x = x0 + 8 * c;
            proof {
                lemma_cell_in_grid(pic_w, pic_h, abs_x as nat, abs_y as nat);
            }
            let bs = ctx.get_bs(abs_x, abs_y, edge_type);
            if bs >= 2 {
                let cx = abs_x / 2;
                let cy = abs_y / 2;
                proof {
                    assert(cw <= pic_w);
                    assert((pic_h + 4) * (cw + 4) <= (pic_h + 4) * (pic_w + 4)) by (nonlinear_arith)
                        requires cw <= pic_w;
                    lemma_window_in_plane(cw, pic_h, cx as nat, cy as nat, edge_type, 2);
                }
                let ghost cb_before = frame.cb_plane@;
                let ghost cr_before = frame.cr_plane@;
                assert(cb_before.len() == frame.cb_plane.len());
                assert(cr_before.len() == frame.cr_plane.len());
                filter_chroma_edge(&mut frame.cb_plane, chroma_stride, cx, cy, edge_type, tc);
                filter_chroma_edge(&mut frame.cr_plane, chroma_stride, cx, cy, edge_type, tc);
                proof {
                    lemma_edge_in_range(cb_before, cw, cx as nat, cy as nat, edge_type, 2, FilterKind::Chroma, tc as int);
                    lemma_edge_in_range(cr_before, cw, cx as nat, cy as nat, edge_type, 2, FilterKind::Chroma, tc as int);
                }
            }
            c += 1;
        }
        r += 1;
    }
}

/// The three sample planes of a frame: luma, Cb, Cr.
pub open spec fn planes(f: DecodedFrame) -> (Seq<u16>, Seq<u16>, Seq<u16>) {
    (f.y_plane@, f.cb_plane@, f.cr_plane@)
}

/// All three planes lie in the 8-bit range.
pub open spec fn planes_in_range(pl: (Seq<u16>, Seq<u16>, Seq<u16>)) -> bool {
    plane_in_range(pl.0) && plane_in_range(pl.1) && plane_in_range(pl.2)
}

/// Side of a coding tree block, in luma samples.
pub open spec fn ctb_side(sps: Sps) -> nat {
    if sps.log2_ctb_size() == 4 {
        16
    } else if sps.log2_ctb_size() == 5 {
        32
    } else {
        64
    }
}

/// A table of the given size with every entry zero.
pub open spec fn zero_table(n: nat) -> Seq<u8> {
    Seq::new(n, |i: int| 0u8)
}

/// Whether the outer boundary of a CTB is filtered: the CTB is not at the
/// picture border and filtering across slices is enabled.
pub open spec fn outer_edge_filtered(origin: nat, hdr: SliceHeader) -> bool {
    origin > 0 && hdr.slice_loop_filter_across_slices_enabled_flag
}

/// Edge flags of one direction for the CTB at `(x0, y0)`, marked on a cleared table.
pub open spec fn ctb_flags(
    pic_w: nat,
    pic_h: nat,
    meta: DeblockMetadata,
    hdr: SliceHeader,
    x0: nat,
    y0: nat,
    w: nat,
    h: nat,
    edge: EdgeType,
) -> Seq<u8> {
    let outer = match edge {
        EdgeType::Vertical => outer_edge_filtered(x0, hdr),
        EdgeType::Horizontal => outer_edge_filtered(y0, hdr),
    };
    edges_marked(zero_table(units4(pic_w) * units4(pic_h)), units4(pic_w), meta, x0, y0, w, h, edge, outer)
}

/// Boundary strengths of one direction for the CTB at `(x0, y0)`.
pub open spec fn ctb_strengths(
    pic_w: nat,
    pic_h: nat,
    meta: DeblockMetadata,
    hdr: SliceHeader,
    x0: nat,
    y0: nat,
    w: nat,
    h: nat,
    edge: EdgeType,
) -> Seq<u8> {
    strengths_derived(
        zero_table(units4(pic_w) * units4(pic_h)),
        ctb_flags(pic_w, pic_h, meta, hdr, x0, y0, w, h, edge),
        units4(pic_w),
        meta,
        x0,
        y0,
        w,
        h,
        edge,
    )
}

/// The planes after filtering the edges of one direction in one CTB: luma, then chroma.
pub open spec fn ctb_direction_filtered(
    pl: (Seq<u16>, Seq<u16>, Seq<u16>),
    pic_w: nat,
    pic_h: nat,
    meta: DeblockMetadata,
    pps: Pps,
    hdr: SliceHeader,
    x0: nat,
    y0: nat,
    w: nat,
    h: nat,
    edge: EdgeType,
) -> (Seq<u16>, Seq<u16>, Seq<u16>) {
    let bs = ctb_strengths(pic_w, pic_h, meta, hdr, x0, y0, w, h, edge);
    let stride = units4(pic_w);
    let cw = chroma_extent(pic_w);
    let tc = tc_value(pps);
    (
        luma_filtered(pl.0, bs, stride, pic_w, x0, y0, w, h, edge, tc),
        chroma_filtered(pl.1, bs, stride, cw, x0, y0, w, h, edge, tc),
        chroma_filtered(pl.2, bs, stride, cw, x0, y0, w, h, edge, tc),
    )
}

/// The planes after deblocking the CTB at `(x0, y0)`: vertical edges, then horizontal ones.
pub open spec fn ctb_deblocked(
    pl: (Seq<u16>, Seq<u16>, Seq<u16>),
    pic_w: nat,
    pic_h: nat,
    meta: DeblockMetadata,
    pps: Pps,
    hdr: SliceHeader,
    x0: nat,
    y0: nat,
    ctb: nat,
) -> (Seq<u16>, Seq<u16>, Seq<u16>) {
    let w = if ctb <= pic_w - x0 { ctb } else { (pic_w - x0) as nat };
    let h = if ctb <= pic_h - y0 { ctb } else { (pic_h - y0) as nat };
    let pl1 = ctb_direction_filtered(pl, pic_w, pic_h, meta, pps, hdr, x0, y0, w, h, EdgeType::Vertical);
    ctb_direction_filtered(pl1, pic_w, pic_h, meta, pps, hdr, x0, y0, w, h, EdgeType::Horizontal)
}

/// Row `r` of CTBs, its first `nc` CTBs.
pub open spec fn ctb_row_deblocked(
    pl: (Seq<u16>, Seq<u16>, Seq<u16>),
    pic_w: nat,
    pic_h: nat,
    meta: DeblockMetadata,
    pps: Pps,
    hdr: SliceHeader,
    ctb: nat,
    r: nat,
    nc: nat,
) -> (Seq<u16>, Seq<u16>, Seq<u16>)
    decreases nc,
{
    if nc == 0 {
        pl
    } else {
        ctb_deblocked(
            ctb_row_deblocked(pl, pic_w, pic_h, meta, pps, hdr, ctb, r, (nc - 1) as nat),
            pic_w,
            pic_h,
            meta,
            pps,
            hdr,
            ctb * (nc - 1) as nat,
            ctb * r,
            ctb,
        )
    }
}

/// The first `nr` rows of CTBs.
pub open spec fn ctb_rows_deblocked(
    pl: (Seq<u16>, Seq<u16>, Seq<u16>),
    pic_w: nat,
    pic_h: nat,
    meta: DeblockMetadata,
    pps: Pps,
    hdr: SliceHeader,
    ctb: nat,
    nr: nat,
) -> (Seq<u16>, Seq<u16>, Seq<u16>)
    decreases nr,
{
    if nr == 0 {
        pl
    } else {
        ctb_row_deblocked(
            ctb_rows_deblocked(pl, pic_w, pic_h, meta, pps, hdr, ctb, (nr - 1) as nat),
            pic_w,
            pic_h,
            meta,
            pps,
            hdr,
            ctb,
            (nr - 1) as nat,
            steps(pic_w, ctb),
        )
    }
}

/// The planes of a `pic_w` x `pic_h` picture after deblocking: unchanged when
/// the slice disables the filter, else every CTB in raster order.
pub open spec fn deblocked(
    pl: (Seq<u16>, Seq<u16>, Seq<u16>),
    pic_w: nat,
    pic_h: nat,
    sps: Sps,
    pps: Pps,
    hdr: SliceHeader,
    meta: DeblockMetadata,
) -> (Seq<u16>, Seq<u16>, Seq<u16>) {
    if hdr.slice_deblocking_filter_disabled_flag {
        pl
    } else {
        let ctb = ctb_side(sps);
        ctb_rows_deblocked(pl, pic_w, pic_h, meta, pps, hdr, ctb, steps(pic_h, ctb))
    }
}

/// Whether the edge between P and Q lies on a slice or tile boundary across
/// which filtering is off. Pictures here hold a single slice and no tiles, so
/// this is exactly when the slice disables filtering across slices.
fn is_slice_or_tile_boundary(
    _sps: &Sps,
    _pps: &Pps,
    header: &SliceHeader,
    _x_p: u32,
    _y_p: u32,
    _x_q: u32,
    _y_q: u32,
) -> (r: bool)
    ensures
        r == !header.slice_loop_filter_across_slices_enabled_flag,
{
    !header.slice_loop_filter_across_slices_enabled_flag
}

/// Deblocks the CTB at `(x0, y0)`: vertical edges (mark, strengths, luma,
/// chroma), then horizontal edges in the same order.
fn process_ctb_edges(
    frame: &mut DecodedFrame,
    ctx: &mut DeblockingContext,
    metadata: &DeblockMetadata,
    sps: &Sps,
    pps: &Pps,
    header: &SliceHeader,
    x0: u32,
    y0: u32,
    ctb_size: u32,
)
    requires
        old(ctx).covers(old(frame).width as nat, old(frame).height as nat),
        metadata.covers(old(frame).width as nat, old(frame).height as nat),
        frame_addressable(old(frame).width as nat, old(frame).height as nat),
        x0 < old(frame).width,
        y0 < old(frame).height,
    ensures
        final(frame).width == old(frame).width,
        final(frame).height == old(frame).height,
        final(ctx).covers(old(frame).width as nat, old(frame).height as nat),
        planes(*final(frame)) == ctb_deblocked(
            planes(*old(frame)),
            old(frame).width as nat,
            old(frame).height as nat,
            *metadata,
            *pps,
            *header,
            x0 as nat,
            y0 as nat,
            ctb_size as nat,
        ),
        final(frame).y_plane@.len() == old(frame).y_plane@.len(),
        final(frame).cb_plane@.len() == old(frame).cb_plane@.len(),
        final(frame).cr_plane@.len() == old(frame).cr_plane@.len(),
        planes_in_range(planes(*old(frame))) ==> planes_in_range(planes(*final(frame))),
{
    let width = frame.width;
    let height = frame.height;
    let ghost pic_w = width as nat;
    let ghost pic_h = height as nat;
    let ghost pl0 = planes(*frame);

    let ctb_width = ctb_size.min(width - x0);
    let ctb_height = ctb_size.min(height - y0);

    ctx.clear();
    proof {
        assert(ctx.flags_view(EdgeType::Vertical) =~= zero_table(units4(pic_w) * units4(pic_h)));
        assert(ctx.flags_view(EdgeType::Horizontal) =~= zero_table(units4(pic_w) * units4(pic_h)));
        assert(ctx.bs_view(EdgeType::Vertical) =~= zero_table(units4(pic_w) * units4(pic_h)));
        assert(ctx.bs_view(EdgeType::Horizontal) =~= zero_table(units4(pic_w) * units4(pic_h)));
    }

    let filter_left_edge = x0 > 0 && !is_slice_or_tile_boundary(sps, pps, header, x0 - 1, y0, x0, y0);
    mark_edges_for_ctb(ctx, metadata, Ghost(pic_w), Ghost(pic_h), x0, y0, ctb_width, ctb_height, EdgeType::Vertical, filter_left_edge);
    derive_boundary_strength_ctb(ctx, metadata, Ghost(pic_w), Ghost(pic_h), x0, y0, ctb_width, ctb_height, EdgeType::Vertical);

    filter_edges_luma(frame, ctx, pps, x0, y0, ctb_width, ctb_height, EdgeType::Vertical);
    filter_edges_chroma(frame, ctx, pps, x0, y0, ctb_width, ctb_height, EdgeType::Vertical);
    let ghost pl1 = planes(*frame);

    let filter_top_edge = y0 > 0 && !is_slice_or_tile_boundary(sps, pps, header, x0, y0 - 1, x0, y0);
    mark_edges_for_ctb(ctx, metadata, Ghost(pic_w), Ghost(pic_h), x0, y0, ctb_width, ctb_height, EdgeType::Horizontal, filter_top_edge);
    derive_boundary_strength_ctb(ctx, metadata, Ghost(pic_w), Ghost(pic_h), x0, y0, ctb_width, ctb_height, EdgeType::Horizontal);

    filter_edges_luma(frame, ctx, pps, x0, y0, ctb_width, ctb_height, EdgeType::Horizontal);
    filter_edges_chroma(frame, ctx, pps, x0, y0, ctb_width, ctb_height, EdgeType::Horizontal);
    proof {
        assert(pl1 == ctb_direction_filtered(pl0, pic_w, pic_h, *metadata, *pps, *header, x0 as nat, y0 as nat,
            ctb_width as nat, ctb_height as nat, EdgeType::Vertical));
    }
}

/// Applies the deblocking filter to a decoded frame, in place.
///
/// Does nothing when the slice disables deblocking. Otherwise each coding
/// tree block is processed in raster order, vertical edges before horizontal
/// ones, so the horizontal pass reads luma already filtered by the vertical
/// pass. Samples that start in `[0, 255]` stay there.
pub fn apply_deblocking_filter(
    frame: &mut DecodedFrame,
    sps: &Sps,
    pps: &Pps,
    header: &SliceHeader,
    metadata: &DeblockMetadata,
)
    requires
        !header.slice_deblocking_filter_disabled_flag ==> {
            &&& sps.wf()
            &&& metadata.covers(old(frame).width as nat, old(frame).height as nat)
            &&& frame_addressable(old(frame).width as nat, old(frame).height as nat)
        },
    ensures
        final(frame).width == old(frame).width,
        final(frame).height == old(frame).height,
        planes(*final(frame)) == deblocked(
            planes(*old(frame)),
            old(frame).width as nat,
            old(frame).height as nat,
            *sps,
            *pps,
            *header,
            *metadata,
        ),
        old(frame).wf() ==> final(frame).wf(),
        old(frame).samples_in_range() ==> final(frame).samples_in_range(),
        header.slice_deblocking_filter_disabled_flag ==> *final(frame) == *old(frame),
{
    if header.slice_deblocking_filter_disabled_flag {
        return;
    }

    let width = frame.width;
    let height = frame.height;
    let ghost pic_w = width as nat;
    let ghost pic_h = height as nat;
    let ghost pl0 = planes(*frame);

    proof {
        assert(units4(pic_w) * units4(pic_h) <= (pic_h + 4) * (pic_w + 4)) by (nonlinear_arith)
            requires units4(pic_w) <= pic_w + 4, units4(pic_h) <= pic_h + 4;
    }
    let mut ctx = DeblockingContext::new(width, height);

    let log2_ctb_size: u32 = sps.log2_min_luma_coding_block_size_minus3 as u32 + 3
        + sps.log2_diff_max_min_luma_coding_block_size as u32;
    let ctb_size = 1u32 << log2_ctb_size;
    proof {
        if log2_ctb_size == 4 {
            assert(1u32 << log2_ctb_size == 16) by (bit_vector) requires log2_ctb_size == 4;
        } else if log2_ctb_size == 5 {
            assert(1u32 << log2_ctb_size == 32) by (bit_vector) requires log2_ctb_size == 5;
        } else {
            assert(1u32 << log2_ctb_size == 64) by (bit_vector) requires log2_ctb_size == 6;
        }
    }
    let pic_width_in_ctbs: u32 = width / ctb_size + if width % ctb_size == 0 { 0 } else { 1 };
    let pic_height_in_ctbs: u32 = height / ctb_size + if height % ctb_size == 0 { 0 } else { 1 };

    let mut ctb_y: u32 = 0;
    while ctb_y < pic_height_in_ctbs
        invariant
            ctb_y <= pic_height_in_ctbs,
            ctb_size == ctb_side(*sps),
            pic_width_in_ctbs == steps(pic_w, ctb_size as nat),
            pic_height_in_ctbs == steps(pic_h, ctb_size as nat),
            !header.slice_deblocking_filter_disabled_flag,
            frame.width == pic_w,
            frame.height == pic_h,
            ctx.covers(pic_w, pic_h),
            metadata.covers(pic_w, pic_h),
            frame_addressable(pic_w, pic_h),
            planes(*frame) == ctb_rows_deblocked(pl0, pic_w, pic_h, *metadata, *pps, *header, ctb_size as nat, ctb_y as nat),
            frame.y_plane@.len() == pl0.0.len(),
            frame.cb_plane@.len() == pl0.1.len(),
            frame.cr_plane@.len() == pl0.2.len(),
            planes_in_range(pl0) ==> planes_in_range(planes(*frame)),
        decreases pic_height_in_ctbs - ctb_y,
    {
        proof {
            lemma_step_below(ctb_y as nat, pic_h, ctb_size as nat);
        }
        let y0 = ctb_y * ctb_size;
        let ghost row_start = planes(*frame);
        let mut ctb_x: u32 = 0;
        while ctb_x < pic_width_in_ctbs
            invariant
                ctb_y < pic_height_in_ctbs,
                ctb_x <= pic_width_in_ctbs,
                y0 == ctb_size * ctb_y,
                (y0 as nat) < pic_h,
                ctb_size == ctb_side(*sps),
                pic_width_in_ctbs == steps(pic_w, ctb_size as nat),
                frame.width == pic_w,
                frame.height == pic_h,
                ctx.covers(pic_w, pic_h),
                metadata.covers(pic_w, pic_h),
                frame_addressable(pic_w, pic_h),
                planes(*frame) == ctb_row_deblocked(row_start, pic_w, pic_h, *metadata, *pps, *header, ctb_size as nat, ctb_y as nat, ctb_x as nat),
                frame.y_plane@.len() == pl0.0.len(),
                frame.cb_plane@.len() == pl0.1.len(),
                frame.cr_plane@.len() == pl0.2.len(),
                planes_in_range(pl0) ==> planes_in_range(planes(*frame)),
            decreases pic_width_in_ctbs - ctb_x,
        {
            proof {
                lemma_step_below(ctb_x as nat, pic_w, ctb_size as nat);
            }
            let x0 = ctb_x * ctb_size;
            process_ctb_edges(frame, &mut ctx, metadata, sps, pps, header, x0, y0, ctb_size);
            ctb_x += 1;
        }
        ctb_y += 1;
    }
}

/// The other direction.
pub open spec fn other_edge(e: EdgeType) -> EdgeType {
    match e {
        EdgeType::Vertical => EdgeType::Horizontal,
        EdgeType::Horizontal => EdgeType::Vertical,
    }
}

fn zeros(n: usize) -> (r: Vec<u8>)
    ensures
        r@.len() == n,
        forall|i: int| 0 <= i < n ==> r@[i] == 0,
{
    let mut v: Vec<u8> = Vec::new();
    let mut i: usize = 0;
    while i < n
        invariant
            i <= n,
            v@.len() == i,
            forall|k: int| 0 <= k < i ==> v@[k] == 0,
        decreases n - i,
    {
        v.push(0);
        i += 1;
    }
    v
}

fn fill_zero(v: &mut Vec<u8>)
    ensures
        final(v)@.len() == old(v)@.len(),
        forall|i: int| 0 <= i < final(v)@.len() ==> final(v)@[i] == 0,
{
    let mut i: usize = 0;
    while i < v.len()
        invariant
            i <= v@.len(),
            v@.len() == old(v)@.len(),
            forall|k: int| 0 <= k < i ==> v@[k] == 0,
        decreases v@.len() - i,
    {
        v.set(i, 0);
        i += 1;
    }
}

} // verus!
