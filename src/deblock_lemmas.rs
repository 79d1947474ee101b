//! Lemmas on the deblocking filter that relate several passes or calls:
//! outer CTB edges stay unfiltered when filtering across slices is off,
//! marking is idempotent, and the result depends on the inputs alone.
use vstd::prelude::*;
use crate::deblock::{
    cell_index, ctb_fits, ctb_flags, ctb_strengths, deblocked, derive_row, derive_rows, edge_bs, edge_marked, edges_marked,
    strengths_derived, luma_row, luma_rows, luma_filtered, chroma_row, chroma_rows, chroma_filtered,
    lemma_cell_in_grid, lemma_step_below, mark_row, mark_rows, mark_step_x, mark_step_y, planes, steps, units4,
    zero_table, DeblockMetadata, EdgeType,
};
use crate::params::{Pps, SliceHeader, Sps};
use crate::picture::DecodedFrame;

verus! {

proof fn lemma_cells_distinct(s: nat, a: nat, b: nat, a2: nat, b2: nat)
    requires
        b < s,
        b2 < s,
        a != a2 || b != b2,
    ensures
        a * s + b != a2 * s + b2,
{
    if a < a2 {
        assert(a * s + b < a2 * s) by (nonlinear_arith)
            requires a < a2, b < s;
    } else if a > a2 {
        assert(a2 * s + b2 < a * s) by (nonlinear_arith)
            requires a2 < a, b2 < s;
    }
}

/// A marking row writes nothing at the cell `(jx, jy)` on the CTB's own
/// boundary when the outer edge is not filtered.
proof fn lemma_mark_row_skips_outer(
    f: Seq<u8>,
    pic_w: nat,
    pic_h: nat,
    meta: DeblockMetadata,
    x0: nat,
    y0: nat,
    w: nat,
    h: nat,
    edge: EdgeType,
    r: nat,
    nc: nat,
    jx: nat,
    jy: nat,
)
    requires
        ctb_fits(pic_w, pic_h, x0, y0, w, h),
        nc <= steps(w, mark_step_x(edge)),
        r < steps(h, mark_step_y(edge)),
        jx < pic_w,
        jy < pic_h,
        edge == EdgeType::Vertical ==> jx == x0,
        edge == EdgeType::Horizontal ==> jy == y0,
        f.len() == units4(pic_w) * units4(pic_h),
    ensures
        mark_row(f, units4(pic_w), meta, x0, y0, edge, false, r, nc).len() == f.len(),
        mark_row(f, units4(pic_w), meta, x0, y0, edge, false, r, nc)[cell_index(units4(pic_w), jx, jy) as int]
            == f[cell_index(units4(pic_w), jx, jy) as int],
    decreases nc,
{
    lemma_cell_in_grid(pic_w, pic_h, jx, jy);
    if nc > 0 {
        lemma_mark_row_skips_outer(f, pic_w, pic_h, meta, x0, y0, w, h, edge, r, (nc - 1) as nat, jx, jy);
        let c = (nc - 1) as nat;
        let x = mark_step_x(edge) * c;
        let y = mark_step_y(edge) * r;
        lemma_step_below(c, w, mark_step_x(edge));
        lemma_step_below(r, h, mark_step_y(edge));
        lemma_cell_in_grid(pic_w, pic_h, x0 + x, y0 + y);
        if edge_marked(meta, x0, y0, x, y, edge, false) {
            let s = units4(pic_w);
            assert((x0 + x) / 4 < s && jx / 4 < s);
            match edge {
                EdgeType::Vertical => {
                    assert((x0 + x) / 4 != jx / 4);
                },
                EdgeType::Horizontal => {
                    assert((y0 + y) / 4 != jy / 4);
                },
            }
            lemma_cells_distinct(s, (y0 + y) / 4, (x0 + x) / 4, jy / 4, jx / 4);
        }
    }
}

proof fn lemma_mark_rows_skip_outer(
    f: Seq<u8>,
    pic_w: nat,
    pic_h: nat,
    meta: DeblockMetadata,
    x0: nat,
    y0: nat,
    w: nat,
    h: nat,
    edge: EdgeType,
    nr: nat,
    jx: nat,
    jy: nat,
)
    requires
        ctb_fits(pic_w, pic_h, x0, y0, w, h),
        nr <= steps(h, mark_step_y(edge)),
        jx < pic_w,
        jy < pic_h,
        edge == EdgeType::Vertical ==> jx == x0,
        edge == EdgeType::Horizontal ==> jy == y0,
        f.len() == units4(pic_w) * units4(pic_h),
    ensures
        mark_rows(f, units4(pic_w), meta, x0, y0, w, edge, false, nr).len() == f.len(),
        mark_rows(f, units4(pic_w), meta, x0, y0, w, edge, false, nr)[cell_index(units4(pic_w), jx, jy) as int]
            == f[cell_index(units4(pic_w), jx, jy) as int],
    decreases nr,
{
    if nr > 0 {
        lemma_mark_rows_skip_outer(f, pic_w, pic_h, meta, x0, y0, w, h, edge, (nr - 1) as nat, jx, jy);
        lemma_mark_row_skips_outer(
            mark_rows(f, units4(pic_w), meta, x0, y0, w, edge, false, (nr - 1) as nat),
            pic_w, pic_h, meta, x0, y0, w, h, edge, (nr - 1) as nat, steps(w, mark_step_x(edge)), jx, jy,
        );
    }
}

/// The strength pass leaves every unflagged cell as it was.
proof fn lemma_derive_rows_keep_unflagged(
    bs: Seq<u8>,
    flags: Seq<u8>,
    stride: nat,
    meta: DeblockMetadata,
    x0: nat,
    y0: nat,
    w: nat,
    edge: EdgeType,
    nr: nat,
    j: int,
    pic_w: nat,
    pic_h: nat,
    h: nat,
)
    requires
        ctb_fits(pic_w, pic_h, x0, y0, w, h),
        stride == units4(pic_w),
        bs.len() == units4(pic_w) * units4(pic_h),
        nr <= steps(h, 4),
        0 <= j < bs.len(),
        flags[j] == 0,
    ensures
        derive_rows(bs, flags, stride, meta, x0, y0, w, edge, nr).len() == bs.len(),
        derive_rows(bs, flags, stride, meta, x0, y0, w, edge, nr)[j] == bs[j],
    decreases nr,
{
    if nr > 0 {
        lemma_derive_rows_keep_unflagged(bs, flags, stride, meta, x0, y0, w, edge, (nr - 1) as nat, j, pic_w, pic_h, h);
        lemma_derive_row_keeps_unflagged(
            derive_rows(bs, flags, stride, meta, x0, y0, w, edge, (nr - 1) as nat),
            flags, stride, meta, x0, y0, edge, (nr - 1) as nat, steps(w, 4), j, pic_w, pic_h, w, h,
        );
    }
}

proof fn lemma_derive_row_keeps_unflagged(
    bs: Seq<u8>,
    flags: Seq<u8>,
    stride: nat,
    meta: DeblockMetadata,
    x0: nat,
    y0: nat,
    edge: EdgeType,
    r: nat,
    nc: nat,
    j: int,
    pic_w: nat,
    pic_h: nat,
    w: nat,
    h: nat,
)
    requires
        ctb_fits(pic_w, pic_h, x0, y0, w, h),
        stride == units4(pic_w),
        bs.len() == units4(pic_w) * units4(pic_h),
        nc <= steps(w, 4),
        r < steps(h, 4),
        0 <= j < bs.len(),
        flags[j] == 0,
    ensures
        derive_row(bs, flags, stride, meta, x0, y0, edge, r, nc).len() == bs.len(),
        derive_row(bs, flags, stride, meta, x0, y0, edge, r, nc)[j] == bs[j],
    decreases nc,
{
    if nc > 0 {
        lemma_derive_row_keeps_unflagged(bs, flags, stride, meta, x0, y0, edge, r, (nc - 1) as nat, j, pic_w, pic_h, w, h);
        lemma_step_below((nc - 1) as nat, w, 4);
        lemma_step_below(r, h, 4);
        lemma_cell_in_grid(pic_w, pic_h, x0 + 4 * (nc - 1) as nat, y0 + 4 * r);
    }
}

/// When filtering across slices is disabled, no edge on a coding tree
/// block's own left or top boundary is filtered: every such cell gets
/// boundary strength 0, so neither luma nor chroma is touched there.
pub proof fn lemma_outer_edges_unfiltered(
    pic_w: nat,
    pic_h: nat,
    meta: DeblockMetadata,
    hdr: SliceHeader,
    x0: nat,
    y0: nat,
    w: nat,
    h: nat,
)
    requires
        !hdr.slice_loop_filter_across_slices_enabled_flag,
        ctb_fits(pic_w, pic_h, x0, y0, w, h),
        0 < w,
        0 < h,
    ensures
        forall|y: nat|
            y0 <= y < y0 + h ==> #[trigger] ctb_strengths(pic_w, pic_h, meta, hdr, x0, y0, w, h, EdgeType::Vertical)[
                cell_index(units4(pic_w), x0, y) as int] == 0,
        forall|x: nat|
            x0 <= x < x0 + w ==> #[trigger] ctb_strengths(pic_w, pic_h, meta, hdr, x0, y0, w, h, EdgeType::Horizontal)[
                cell_index(units4(pic_w), x, y0) as int] == 0,
{
    let s = units4(pic_w);
    let zero = zero_table(units4(pic_w) * units4(pic_h));
    assert forall|y: nat| y0 <= y < y0 + h implies #[trigger] ctb_strengths(pic_w, pic_h, meta, hdr, x0, y0, w, h, EdgeType::Vertical)[
        cell_index(s, x0, y) as int] == 0 by {
        let j = cell_index(s, x0, y) as int;
        lemma_cell_in_grid(pic_w, pic_h, x0, y);
        lemma_mark_rows_skip_outer(zero, pic_w, pic_h, meta, x0, y0, w, h, EdgeType::Vertical, steps(h, 4), x0, y);
        lemma_derive_rows_keep_unflagged(zero, ctb_flags(pic_w, pic_h, meta, hdr, x0, y0, w, h, EdgeType::Vertical),
            s, meta, x0, y0, w, EdgeType::Vertical, steps(h, 4), j, pic_w, pic_h, h);
    }
    assert forall|x: nat| x0 <= x < x0 + w implies #[trigger] ctb_strengths(pic_w, pic_h, meta, hdr, x0, y0, w, h, EdgeType::Horizontal)[
        cell_index(s, x, y0) as int] == 0 by {
        let j = cell_index(s, x, y0) as int;
        lemma_cell_in_grid(pic_w, pic_h, x, y0);
        lemma_mark_rows_skip_outer(zero, pic_w, pic_h, meta, x0, y0, w, h, EdgeType::Horizontal, steps(h, 8), x, y0);
        lemma_derive_rows_keep_unflagged(zero, ctb_flags(pic_w, pic_h, meta, hdr, x0, y0, w, h, EdgeType::Horizontal),
            s, meta, x0, y0, w, EdgeType::Horizontal, steps(h, 4), j, pic_w, pic_h, h);
    }
}

/// Cell `c` of marking row `r` sets the flag at index `j`.
pub open spec fn marks_cell(meta: DeblockMetadata, stride: nat, x0: nat, y0: nat, edge: EdgeType, outer: bool, r: nat, c: nat, j: int) -> bool {
    let x = mark_step_x(edge) * c;
    let y = mark_step_y(edge) * r;
    edge_marked(meta, x0, y0, x, y, edge, outer) && cell_index(stride, x0 + x, y0 + y) == j
}

/// Some cell among the first `nc` of marking row `r` sets the flag at `j`.
pub open spec fn row_marks(meta: DeblockMetadata, stride: nat, x0: nat, y0: nat, edge: EdgeType, outer: bool, r: nat, nc: nat, j: int) -> bool {
    exists|c: nat| c < nc && #[trigger] marks_cell(meta, stride, x0, y0, edge, outer, r, c, j)
}

/// Some cell among the first `nr` marking rows sets the flag at `j`.
pub open spec fn rows_mark(meta: DeblockMetadata, stride: nat, x0: nat, y0: nat, w: nat, edge: EdgeType, outer: bool, nr: nat, j: int) -> bool {
    exists|r: nat| r < nr && #[trigger] row_marks(meta, stride, x0, y0, edge, outer, r, steps(w, mark_step_x(edge)), j)
}

proof fn lemma_mark_row_sets(
    f: Seq<u8>,
    pic_w: nat,
    pic_h: nat,
    meta: DeblockMetadata,
    x0: nat,
    y0: nat,
    w: nat,
    h: nat,
    edge: EdgeType,
    outer: bool,
    r: nat,
    nc: nat,
    j: int,
)
    requires
        ctb_fits(pic_w, pic_h, x0, y0, w, h),
        f.len() == units4(pic_w) * units4(pic_h),
        nc <= steps(w, mark_step_x(edge)),
        r < steps(h, mark_step_y(edge)),
        0 <= j < f.len(),
    ensures
        mark_row(f, units4(pic_w), meta, x0, y0, edge, outer, r, nc).len() == f.len(),
        mark_row(f, units4(pic_w), meta, x0, y0, edge, outer, r, nc)[j]
            == if row_marks(meta, units4(pic_w), x0, y0, edge, outer, r, nc, j) { 1u8 } else { f[j] },
    decreases nc,
{
    let s = units4(pic_w);
    if nc > 0 {
        let c = (nc - 1) as nat;
        lemma_mark_row_sets(f, pic_w, pic_h, meta, x0, y0, w, h, edge, outer, r, c, j);
        lemma_step_below(c, w, mark_step_x(edge));
        lemma_step_below(r, h, mark_step_y(edge));
        lemma_cell_in_grid(pic_w, pic_h, x0 + mark_step_x(edge) * c, y0 + mark_step_y(edge) * r);
        if marks_cell(meta, s, x0, y0, edge, outer, r, c, j) {
            assert(row_marks(meta, s, x0, y0, edge, outer, r, nc, j));
        } else {
            if row_marks(meta, s, x0, y0, edge, outer, r, nc, j) {
                let c2 = choose|c2: nat| c2 < nc && #[trigger] marks_cell(meta, s, x0, y0, edge, outer, r, c2, j);
                assert(c2 < c);
                assert(row_marks(meta, s, x0, y0, edge, outer, r, c, j));
            }
            if row_marks(meta, s, x0, y0, edge, outer, r, c, j) {
                let c2 = choose|c2: nat| c2 < c && #[trigger] marks_cell(meta, s, x0, y0, edge, outer, r, c2, j);
                assert(row_marks(meta, s, x0, y0, edge, outer, r, nc, j));
            }
        }
    }
}

proof fn lemma_mark_rows_set(
    f: Seq<u8>,
    pic_w: nat,
    pic_h: nat,
    meta: DeblockMetadata,
    x0: nat,
    y0: nat,
    w: nat,
    h: nat,
    edge: EdgeType,
    outer: bool,
    nr: nat,
    j: int,
)
    requires
        ctb_fits(pic_w, pic_h, x0, y0, w, h),
        f.len() == units4(pic_w) * units4(pic_h),
        nr <= steps(h, mark_step_y(edge)),
        0 <= j < f.len(),
    ensures
        mark_rows(f, units4(pic_w), meta, x0, y0, w, edge, outer, nr).len() == f.len(),
        mark_rows(f, units4(pic_w), meta, x0, y0, w, edge, outer, nr)[j]
            == if rows_mark(meta, units4(pic_w), x0, y0, w, edge, outer, nr, j) { 1u8 } else { f[j] },
    decreases nr,
{
    let s = units4(pic_w);
    let nc = steps(w, mark_step_x(edge));
    if nr > 0 {
        let r = (nr - 1) as nat;
        lemma_mark_rows_set(f, pic_w, pic_h, meta, x0, y0, w, h, edge, outer, r, j);
        lemma_mark_row_sets(mark_rows(f, s, meta, x0, y0, w, edge, outer, r), pic_w, pic_h, meta, x0, y0, w, h, edge, outer, r, nc, j);
        if row_marks(meta, s, x0, y0, edge, outer, r, nc, j) {
            assert(rows_mark(meta, s, x0, y0, w, edge, outer, nr, j));
        } else {
            if rows_mark(meta, s, x0, y0, w, edge, outer, nr, j) {
                let r2 = choose|r2: nat| r2 < nr && #[trigger] row_marks(meta, s, x0, y0, edge, outer, r2, nc, j);
                assert(r2 < r);
                assert(rows_mark(meta, s, x0, y0, w, edge, outer, r, j));
            }
            if rows_mark(meta, s, x0, y0, w, edge, outer, r, j) {
                let r2 = choose|r2: nat| r2 < r && #[trigger] row_marks(meta, s, x0, y0, edge, outer, r2, nc, j);
                assert(rows_mark(meta, s, x0, y0, w, edge, outer, nr, j));
            }
        }
    }
}

/// Marking is idempotent: marking the edges of a CTB a second time leaves
/// the flag table exactly as the first marking left it.
pub proof fn lemma_marking_idempotent(
    f: Seq<u8>,
    pic_w: nat,
    pic_h: nat,
    meta: DeblockMetadata,
    x0: nat,
    y0: nat,
    w: nat,
    h: nat,
    edge: EdgeType,
    outer: bool,
)
    requires
        ctb_fits(pic_w, pic_h, x0, y0, w, h),
        0 < w,
        0 < h,
        f.len() == units4(pic_w) * units4(pic_h),
    ensures
        edges_marked(edges_marked(f, units4(pic_w), meta, x0, y0, w, h, edge, outer), units4(pic_w), meta, x0, y0, w, h, edge, outer)
            == edges_marked(f, units4(pic_w), meta, x0, y0, w, h, edge, outer),
{
    let s = units4(pic_w);
    let nr = steps(h, mark_step_y(edge));
    let g = edges_marked(f, s, meta, x0, y0, w, h, edge, outer);
    let g2 = edges_marked(g, s, meta, x0, y0, w, h, edge, outer);
    assert(units4(pic_w) * units4(pic_h) > 0) by (nonlinear_arith)
        requires units4(pic_w) > 0, units4(pic_h) > 0;
    lemma_mark_rows_set(f, pic_w, pic_h, meta, x0, y0, w, h, edge, outer, nr, 0);
    lemma_mark_rows_set(g, pic_w, pic_h, meta, x0, y0, w, h, edge, outer, nr, 0);
    assert forall|j: int| 0 <= j < g.len() implies g2[j] == g[j] by {
        lemma_mark_rows_set(f, pic_w, pic_h, meta, x0, y0, w, h, edge, outer, nr, j);
        lemma_mark_rows_set(g, pic_w, pic_h, meta, x0, y0, w, h, edge, outer, nr, j);
    }
    assert(g2 =~= g);
}

/// Deblocking is deterministic: frames with the same dimensions and samples,
/// filtered with the same parameters and metadata, give the same samples.
pub proof fn lemma_deblocking_deterministic(
    a: DecodedFrame,
    b: DecodedFrame,
    sps: Sps,
    pps: Pps,
    hdr: SliceHeader,
    meta: DeblockMetadata,
)
    requires
        a.width == b.width,
        a.height == b.height,
        planes(a) == planes(b),
    ensures
        deblocked(planes(a), a.width as nat, a.height as nat, sps, pps, hdr, meta)
            == deblocked(planes(b), b.width as nat, b.height as nat, sps, pps, hdr, meta),
{
}

/// Per cell, marking a CTB sets a flag to 1 exactly where some visited cell
/// of the CTB is marked and falls on it, and keeps every other flag.
pub proof fn lemma_marked_flags(
    f: Seq<u8>,
    pic_w: nat,
    pic_h: nat,
    meta: DeblockMetadata,
    x0: nat,
    y0: nat,
    w: nat,
    h: nat,
    edge: EdgeType,
    outer: bool,
    j: int,
)
    requires
        ctb_fits(pic_w, pic_h, x0, y0, w, h),
        f.len() == units4(pic_w) * units4(pic_h),
        0 <= j < f.len(),
    ensures
        edges_marked(f, units4(pic_w), meta, x0, y0, w, h, edge, outer).len() == f.len(),
        edges_marked(f, units4(pic_w), meta, x0, y0, w, h, edge, outer)[j] == if rows_mark(
            meta,
            units4(pic_w),
            x0,
            y0,
            w,
            edge,
            outer,
            steps(h, mark_step_y(edge)),
            j,
        ) {
            1u8
        } else {
            f[j]
        },
{
    lemma_mark_rows_set(f, pic_w, pic_h, meta, x0, y0, w, h, edge, outer, steps(h, mark_step_y(edge)), j);
}

/// Index of the cell visited at row `r`, column `c` of the strength pass.
pub open spec fn strength_cell(stride: nat, x0: nat, y0: nat, r: nat, c: nat) -> int {
    cell_index(stride, x0 + 4 * c, y0 + 4 * r) as int
}

proof fn lemma_strength_cells_distinct(pic_w: nat, pic_h: nat, x0: nat, y0: nat, w: nat, h: nat, r: nat, c: nat, r2: nat, c2: nat)
    requires
        ctb_fits(pic_w, pic_h, x0, y0, w, h),
        r < steps(h, 4),
        r2 < steps(h, 4),
        c < steps(w, 4),
        c2 < steps(w, 4),
        r != r2 || c != c2,
    ensures
        strength_cell(units4(pic_w), x0, y0, r, c) != strength_cell(units4(pic_w), x0, y0, r2, c2),
{
    lemma_step_below(c, w, 4);
    lemma_step_below(c2, w, 4);
    assert((x0 + 4 * c) / 4 == x0 / 4 + c);
    assert((x0 + 4 * c2) / 4 == x0 / 4 + c2);
    assert((y0 + 4 * r) / 4 == y0 / 4 + r);
    assert((y0 + 4 * r2) / 4 == y0 / 4 + r2);
    lemma_cells_distinct(units4(pic_w), y0 / 4 + r, x0 / 4 + c, y0 / 4 + r2, x0 / 4 + c2);
}

proof fn lemma_derive_row_at(
    b: Seq<u8>,
    flags: Seq<u8>,
    pic_w: nat,
    pic_h: nat,
    meta: DeblockMetadata,
    x0: nat,
    y0: nat,
    w: nat,
    h: nat,
    edge: EdgeType,
    r2: nat,
    nc: nat,
    r: nat,
    c: nat,
)
    requires
        ctb_fits(pic_w, pic_h, x0, y0, w, h),
        b.len() == units4(pic_w) * units4(pic_h),
        nc <= steps(w, 4),
        r2 < steps(h, 4),
        r < steps(h, 4),
        c < steps(w, 4),
    ensures
        derive_row(b, flags, units4(pic_w), meta, x0, y0, edge, r2, nc).len() == b.len(),
        derive_row(b, flags, units4(pic_w), meta, x0, y0, edge, r2, nc)[strength_cell(units4(pic_w), x0, y0, r, c)]
            == if r2 == r && c < nc && flags[strength_cell(units4(pic_w), x0, y0, r, c)] != 0 {
            edge_bs(meta, x0 + 4 * c, y0 + 4 * r, edge)
        } else {
            b[strength_cell(units4(pic_w), x0, y0, r, c)]
        },
    decreases nc,
{
    let s = units4(pic_w);
    lemma_step_below(c, w, 4);
    lemma_step_below(r, h, 4);
    lemma_cell_in_grid(pic_w, pic_h, x0 + 4 * c, y0 + 4 * r);
    if nc > 0 {
        let c2 = (nc - 1) as nat;
        lemma_derive_row_at(b, flags, pic_w, pic_h, meta, x0, y0, w, h, edge, r2, c2, r, c);
        lemma_step_below(c2, w, 4);
        lemma_step_below(r2, h, 4);
        lemma_cell_in_grid(pic_w, pic_h, x0 + 4 * c2, y0 + 4 * r2);
        if r2 != r || c2 != c {
            lemma_strength_cells_distinct(pic_w, pic_h, x0, y0, w, h, r, c, r2, c2);
        }
        assert(strength_cell(s, x0, y0, r2, c2) == cell_index(s, x0 + 4 * c2, y0 + 4 * r2));
    }
}

proof fn lemma_derive_rows_at(
    b: Seq<u8>,
    flags: Seq<u8>,
    pic_w: nat,
    pic_h: nat,
    meta: DeblockMetadata,
    x0: nat,
    y0: nat,
    w: nat,
    h: nat,
    edge: EdgeType,
    nr: nat,
    r: nat,
    c: nat,
)
    requires
        ctb_fits(pic_w, pic_h, x0, y0, w, h),
        b.len() == units4(pic_w) * units4(pic_h),
        nr <= steps(h, 4),
        r < steps(h, 4),
        c < steps(w, 4),
    ensures
        derive_rows(b, flags, units4(pic_w), meta, x0, y0, w, edge, nr).len() == b.len(),
        derive_rows(b, flags, units4(pic_w), meta, x0, y0, w, edge, nr)[strength_cell(units4(pic_w), x0, y0, r, c)]
            == if r < nr && flags[strength_cell(units4(pic_w), x0, y0, r, c)] != 0 {
            edge_bs(meta, x0 + 4 * c, y0 + 4 * r, edge)
        } else {
            b[strength_cell(units4(pic_w), x0, y0, r, c)]
        },
    decreases nr,
{
    if nr > 0 {
        lemma_derive_rows_at(b, flags, pic_w, pic_h, meta, x0, y0, w, h, edge, (nr - 1) as nat, r, c);
        lemma_derive_row_at(
            derive_rows(b, flags, units4(pic_w), meta, x0, y0, w, edge, (nr - 1) as nat),
            flags, pic_w, pic_h, meta, x0, y0, w, h, edge, (nr - 1) as nat, steps(w, 4), r, c,
        );
    }
}

proof fn lemma_derive_row_elsewhere(
    b: Seq<u8>,
    flags: Seq<u8>,
    pic_w: nat,
    pic_h: nat,
    meta: DeblockMetadata,
    x0: nat,
    y0: nat,
    w: nat,
    h: nat,
    edge: EdgeType,
    r: nat,
    nc: nat,
    j: int,
)
    requires
        ctb_fits(pic_w, pic_h, x0, y0, w, h),
        b.len() == units4(pic_w) * units4(pic_h),
        nc <= steps(w, 4),
        r < steps(h, 4),
        0 <= j < b.len(),
        forall|c: nat| c < nc ==> #[trigger] strength_cell(units4(pic_w), x0, y0, r, c) != j,
    ensures
        derive_row(b, flags, units4(pic_w), meta, x0, y0, edge, r, nc).len() == b.len(),
        derive_row(b, flags, units4(pic_w), meta, x0, y0, edge, r, nc)[j] == b[j],
    decreases nc,
{
    if nc > 0 {
        let c = (nc - 1) as nat;
        lemma_derive_row_elsewhere(b, flags, pic_w, pic_h, meta, x0, y0, w, h, edge, r, c, j);
        lemma_step_below(c, w, 4);
        lemma_step_below(r, h, 4);
        lemma_cell_in_grid(pic_w, pic_h, x0 + 4 * c, y0 + 4 * r);
        assert(strength_cell(units4(pic_w), x0, y0, r, c) != j);
    }
}

proof fn lemma_derive_rows_elsewhere(
    b: Seq<u8>,
    flags: Seq<u8>,
    pic_w: nat,
    pic_h: nat,
    meta: DeblockMetadata,
    x0: nat,
    y0: nat,
    w: nat,
    h: nat,
    edge: EdgeType,
    nr: nat,
    j: int,
)
    requires
        ctb_fits(pic_w, pic_h, x0, y0, w, h),
        b.len() == units4(pic_w) * units4(pic_h),
        nr <= steps(h, 4),
        0 <= j < b.len(),
        forall|r: nat, c: nat| r < steps(h, 4) && c < steps(w, 4) ==> #[trigger] strength_cell(units4(pic_w), x0, y0, r, c) != j,
    ensures
        derive_rows(b, flags, units4(pic_w), meta, x0, y0, w, edge, nr).len() == b.len(),
        derive_rows(b, flags, units4(pic_w), meta, x0, y0, w, edge, nr)[j] == b[j],
    decreases nr,
{
    if nr > 0 {
        lemma_derive_rows_elsewhere(b, flags, pic_w, pic_h, meta, x0, y0, w, h, edge, (nr - 1) as nat, j);
        lemma_derive_row_elsewhere(
            derive_rows(b, flags, units4(pic_w), meta, x0, y0, w, edge, (nr - 1) as nat),
            flags, pic_w, pic_h, meta, x0, y0, w, h, edge, (nr - 1) as nat, steps(w, 4), j,
        );
    }
}

proof fn lemma_derive_row_len(
    b: Seq<u8>,
    flags: Seq<u8>,
    pic_w: nat,
    pic_h: nat,
    meta: DeblockMetadata,
    x0: nat,
    y0: nat,
    w: nat,
    h: nat,
    edge: EdgeType,
    r: nat,
    nc: nat,
)
    requires
        ctb_fits(pic_w, pic_h, x0, y0, w, h),
        b.len() == units4(pic_w) * units4(pic_h),
        nc <= steps(w, 4),
        r < steps(h, 4),
    ensures
        derive_row(b, flags, units4(pic_w), meta, x0, y0, edge, r, nc).len() == b.len(),
    decreases nc,
{
    if nc > 0 {
        let c = (nc - 1) as nat;
        lemma_derive_row_len(b, flags, pic_w, pic_h, meta, x0, y0, w, h, edge, r, c);
        lemma_step_below(c, w, 4);
        lemma_step_below(r, h, 4);
        lemma_cell_in_grid(pic_w, pic_h, x0 + 4 * c, y0 + 4 * r);
    }
}

proof fn lemma_derive_rows_len(
    b: Seq<u8>,
    flags: Seq<u8>,
    pic_w: nat,
    pic_h: nat,
    meta: DeblockMetadata,
    x0: nat,
    y0: nat,
    w: nat,
    h: nat,
    edge: EdgeType,
    nr: nat,
)
    requires
        ctb_fits(pic_w, pic_h, x0, y0, w, h),
        b.len() == units4(pic_w) * units4(pic_h),
        nr <= steps(h, 4),
    ensures
        derive_rows(b, flags, units4(pic_w), meta, x0, y0, w, edge, nr).len() == b.len(),
    decreases nr,
{
    if nr > 0 {
        lemma_derive_rows_len(b, flags, pic_w, pic_h, meta, x0, y0, w, h, edge, (nr - 1) as nat);
        lemma_derive_row_len(
            derive_rows(b, flags, units4(pic_w), meta, x0, y0, w, edge, (nr - 1) as nat),
            flags, pic_w, pic_h, meta, x0, y0, w, h, edge, (nr - 1) as nat, steps(w, 4),
        );
    }
}

/// Per cell, the strength pass over a CTB gives each visited cell that is
/// flagged the strength `edge_bs` of its edge, and keeps the strength of every
/// unflagged visited cell and of every cell the CTB does not cover.
pub proof fn lemma_derived_strengths(
    b: Seq<u8>,
    flags: Seq<u8>,
    pic_w: nat,
    pic_h: nat,
    meta: DeblockMetadata,
    x0: nat,
    y0: nat,
    w: nat,
    h: nat,
    edge: EdgeType,
)
    requires
        ctb_fits(pic_w, pic_h, x0, y0, w, h),
        b.len() == units4(pic_w) * units4(pic_h),
    ensures
        strengths_derived(b, flags, units4(pic_w), meta, x0, y0, w, h, edge).len() == b.len(),
        forall|r: nat, c: nat|
            r < steps(h, 4) && c < steps(w, 4) ==> strengths_derived(b, flags, units4(pic_w), meta, x0, y0, w, h, edge)[
                #[trigger] strength_cell(units4(pic_w), x0, y0, r, c)] == if flags[strength_cell(units4(pic_w), x0, y0, r, c)] != 0 {
                edge_bs(meta, x0 + 4 * c, y0 + 4 * r, edge)
            } else {
                b[strength_cell(units4(pic_w), x0, y0, r, c)]
            },
        forall|j: int|
            0 <= j < b.len() && (forall|r: nat, c: nat| r < steps(h, 4) && c < steps(w, 4) ==> #[trigger] strength_cell(units4(pic_w), x0, y0, r, c) != j)
                ==> #[trigger] strengths_derived(b, flags, units4(pic_w), meta, x0, y0, w, h, edge)[j] == b[j],
{
    let nr = steps(h, 4);
    lemma_derive_rows_len(b, flags, pic_w, pic_h, meta, x0, y0, w, h, edge, nr);
    assert forall|r: nat, c: nat| r < steps(h, 4) && c < steps(w, 4) implies strengths_derived(b, flags, units4(pic_w), meta, x0, y0, w, h, edge)[
        #[trigger] strength_cell(units4(pic_w), x0, y0, r, c)] == if flags[strength_cell(units4(pic_w), x0, y0, r, c)] != 0 {
        edge_bs(meta, x0 + 4 * c, y0 + 4 * r, edge)
    } else {
        b[strength_cell(units4(pic_w), x0, y0, r, c)]
    } by {
        lemma_derive_rows_at(b, flags, pic_w, pic_h, meta, x0, y0, w, h, edge, nr, r, c);
    }
    assert forall|j: int|
        0 <= j < b.len() && (forall|r: nat, c: nat| r < steps(h, 4) && c < steps(w, 4) ==> #[trigger] strength_cell(units4(pic_w), x0, y0, r, c) != j)
        implies #[trigger] strengths_derived(b, flags, units4(pic_w), meta, x0, y0, w, h, edge)[j] == b[j] by {
        lemma_derive_rows_elsewhere(b, flags, pic_w, pic_h, meta, x0, y0, w, h, edge, nr, j);
    }
}

/// Every cell visited by the strength pass over a `w` x `h` CTB has strength 0.
pub open spec fn ctb_strengths_zero(bs: Seq<u8>, stride: nat, x0: nat, y0: nat, w: nat, h: nat) -> bool {
    forall|r: nat, c: nat| r < steps(h, 4) && c < steps(w, 4) ==> bs[#[trigger] strength_cell(stride, x0, y0, r, c)] == 0
}

proof fn lemma_luma_row_zero(s: Seq<u16>, bs: Seq<u8>, stride: nat, pic_w: nat, x0: nat, y0: nat, w: nat, h: nat, edge: EdgeType, tc: int, r: nat, nc: nat)
    requires
        ctb_strengths_zero(bs, stride, x0, y0, w, h),
        r < steps(h, 4),
        nc <= steps(w, 4),
    ensures
        luma_row(s, bs, stride, pic_w, x0, y0, edge, tc, r, nc) == s,
    decreases nc,
{
    if nc > 0 {
        lemma_luma_row_zero(s, bs, stride, pic_w, x0, y0, w, h, edge, tc, r, (nc - 1) as nat);
        assert(bs[strength_cell(stride, x0, y0, r, (nc - 1) as nat)] == 0);
    }
}

proof fn lemma_chroma_row_zero(s: Seq<u16>, bs: Seq<u8>, stride: nat, chroma_w: nat, x0: nat, y0: nat, w: nat, h: nat, edge: EdgeType, tc: int, r: nat, nc: nat)
    requires
        ctb_strengths_zero(bs, stride, x0, y0, w, h),
        r < steps(h, 8),
        nc <= steps(w, 8),
    ensures
        chroma_row(s, bs, stride, chroma_w, x0, y0, edge, tc, r, nc) == s,
    decreases nc,
{
    if nc > 0 {
        let c = (nc - 1) as nat;
        lemma_chroma_row_zero(s, bs, stride, chroma_w, x0, y0, w, h, edge, tc, r, c);
        lemma_step_below(c, w, 8);
        lemma_step_below(r, h, 8);
        assert(2 * c < steps(w, 4) && 2 * r < steps(h, 4));
        assert(bs[strength_cell(stride, x0, y0, 2 * r, 2 * c)] == 0);
        assert(strength_cell(stride, x0, y0, 2 * r, 2 * c) == cell_index(stride, x0 + 8 * c, y0 + 8 * r));
    }
}

/// Where every cell of a CTB has boundary strength 0 (for instance both sides
/// inter without non-zero coefficients), the luma and chroma passes over it
/// leave the planes unchanged.
pub proof fn lemma_zero_strengths_leave_planes(
    s: Seq<u16>,
    bs: Seq<u8>,
    stride: nat,
    pic_w: nat,
    chroma_w: nat,
    x0: nat,
    y0: nat,
    w: nat,
    h: nat,
    edge: EdgeType,
    tc: int,
)
    requires
        ctb_strengths_zero(bs, stride, x0, y0, w, h),
    ensures
        luma_filtered(s, bs, stride, pic_w, x0, y0, w, h, edge, tc) == s,
        chroma_filtered(s, bs, stride, chroma_w, x0, y0, w, h, edge, tc) == s,
{
    lemma_luma_rows_zero(s, bs, stride, pic_w, x0, y0, w, h, edge, tc, steps(h, 4));
    lemma_chroma_rows_zero(s, bs, stride, chroma_w, x0, y0, w, h, edge, tc, steps(h, 8));
}

proof fn lemma_luma_rows_zero(s: Seq<u16>, bs: Seq<u8>, stride: nat, pic_w: nat, x0: nat, y0: nat, w: nat, h: nat, edge: EdgeType, tc: int, nr: nat)
    requires
        ctb_strengths_zero(bs, stride, x0, y0, w, h),
        nr <= steps(h, 4),
    ensures
        luma_rows(s, bs, stride, pic_w, x0, y0, w, edge, tc, nr) == s,
    decreases nr,
{
    if nr > 0 {
        lemma_luma_rows_zero(s, bs, stride, pic_w, x0, y0, w, h, edge, tc, (nr - 1) as nat);
        lemma_luma_row_zero(s, bs, stride, pic_w, x0, y0, w, h, edge, tc, (nr - 1) as nat, steps(w, 4));
    }
}

proof fn lemma_chroma_rows_zero(s: Seq<u16>, bs: Seq<u8>, stride: nat, chroma_w: nat, x0: nat, y0: nat, w: nat, h: nat, edge: EdgeType, tc: int, nr: nat)
    requires
        ctb_strengths_zero(bs, stride, x0, y0, w, h),
        nr <= steps(h, 8),
    ensures
        chroma_rows(s, bs, stride, chroma_w, x0, y0, w, edge, tc, nr) == s,
    decreases nr,
{
    if nr > 0 {
        lemma_chroma_rows_zero(s, bs, stride, chroma_w, x0, y0, w, h, edge, tc, (nr - 1) as nat);
        lemma_chroma_row_zero(s, bs, stride, chroma_w, x0, y0, w, h, edge, tc, (nr - 1) as nat, steps(w, 8));
    }
}

} // verus!
