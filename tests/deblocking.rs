use heic_decoder::deblock::{
    apply_deblocking_filter, filter_chroma_edge, filter_luma_edge, DeblockMetadata, DeblockingContext, EdgeType,
};
use heic_decoder::params::{Pps, SliceHeader, Sps};
use heic_decoder::picture::DecodedFrame;
use heic_decoder::HeicDecoder;

/// CTB size 16.
fn sps16() -> Sps {
    Sps { log2_min_luma_coding_block_size_minus3: 1, log2_diff_max_min_luma_coding_block_size: 0 }
}

/// Offsets that give tC = 24.
fn pps_tc24() -> Pps {
    Pps { pps_beta_offset_div2: 20, pps_tc_offset_div2: 6 }
}

fn header(disabled: bool, across: bool) -> SliceHeader {
    SliceHeader { slice_deblocking_filter_disabled_flag: disabled, slice_loop_filter_across_slices_enabled_flag: across }
}

/// Luma 100 left of column `split`, 120 from it on; chroma 50 left of `split / 2`, 90 from it on.
fn step_frame(width: u32, height: u32, split: u32) -> DecodedFrame {
    let mut f = DecodedFrame::new(width, height, 0);
    for y in 0..height {
        for x in 0..width {
            f.y_plane[(y * width + x) as usize] = if x < split { 100 } else { 120 };
        }
    }
    let cw = (width + 1) / 2;
    let ch = (height + 1) / 2;
    for y in 0..ch {
        for x in 0..cw {
            let v = if x < split / 2 { 50 } else { 90 };
            f.cb_plane[(y * cw + x) as usize] = v;
            f.cr_plane[(y * cw + x) as usize] = v;
        }
    }
    f
}

fn metadata(width: u32, height: u32, intra: bool, nonzero: bool) -> DeblockMetadata {
    let mut m = DeblockMetadata::new(width, height);
    for y in (0..height).step_by(4) {
        for x in (0..width).step_by(4) {
            m.set_pred_mode(x, y, intra);
            m.set_nonzero_coeff(x, y, nonzero);
        }
    }
    m
}

/// An 8x4 plane: columns 0..4 hold 100, columns 4..8 hold 120.
fn pair_plane() -> Vec<u16> {
    let mut v = Vec::new();
    for _ in 0..4 {
        v.extend_from_slice(&[100, 100, 100, 100, 120, 120, 120, 120]);
    }
    v
}

#[test]
fn strong_filter_step() {
    let mut s = pair_plane();
    filter_luma_edge(&mut s, 8, 4, 0, EdgeType::Vertical, 2, 0, 10);
    for row in 0..4 {
        assert_eq!(s[row * 8 + 3], 105);
        assert_eq!(s[row * 8 + 4], 115);
        assert_eq!(s[row * 8 + 2], 100);
        assert_eq!(s[row * 8 + 5], 120);
    }
}

#[test]
fn weak_filter_step() {
    let mut s = pair_plane();
    filter_luma_edge(&mut s, 8, 4, 0, EdgeType::Vertical, 1, 0, 10);
    for row in 0..4 {
        assert_eq!(s[row * 8 + 3], 110);
        assert_eq!(s[row * 8 + 4], 110);
    }
}

#[test]
fn weak_filter_small_step_truncates() {
    // 9 * (-20) / 16 truncates to -11, clipped to -10.
    let mut s = pair_plane();
    for row in 0..4 {
        s[row * 8 + 3] = 120;
        s[row * 8 + 4] = 100;
    }
    filter_luma_edge(&mut s, 8, 4, 0, EdgeType::Vertical, 1, 0, 10);
    assert_eq!(s[3], 110);
    assert_eq!(s[4], 110);
    // 9 * 3 / 16 = 1.
    let mut t = vec![10u16, 13];
    filter_luma_edge(&mut t, 2, 1, 0, EdgeType::Vertical, 1, 0, 10);
    assert_eq!(t, vec![10, 13]);
}

#[test]
fn strong_filter_negative_delta_truncates_toward_zero() {
    // delta = -5, delta / 2 = -2.
    let mut s = vec![105u16, 100];
    filter_luma_edge(&mut s, 2, 1, 0, EdgeType::Vertical, 2, 0, 10);
    // The window of four rows does not fit a one-row plane: untouched.
    assert_eq!(s, vec![105, 100]);
    let mut t = Vec::new();
    for _ in 0..4 {
        t.extend_from_slice(&[105u16, 100]);
    }
    filter_luma_edge(&mut t, 2, 1, 0, EdgeType::Vertical, 2, 0, 10);
    assert_eq!(&t[0..2], &[103, 102]);
}

#[test]
fn horizontal_luma_edge() {
    // 4 wide, 2 rows: row 0 is P, row 1 is Q.
    let mut s = vec![100u16, 100, 100, 100, 120, 120, 120, 120];
    filter_luma_edge(&mut s, 4, 0, 1, EdgeType::Horizontal, 2, 0, 4);
    assert_eq!(s, vec![102, 102, 102, 102, 118, 118, 118, 118]);
}

#[test]
fn luma_window_outside_plane_is_skipped() {
    let mut s = pair_plane();
    let before = s.clone();
    filter_luma_edge(&mut s, 8, 4, 4, EdgeType::Vertical, 2, 0, 10);
    assert_eq!(s, before);
}

#[test]
fn chroma_edge_step() {
    let mut s = vec![50u16, 90, 50, 90];
    filter_chroma_edge(&mut s, 2, 1, 0, EdgeType::Vertical, 10);
    assert_eq!(s, vec![60, 80, 60, 80]);
}

#[test]
fn filter_clamps_to_sample_range() {
    let mut s = Vec::new();
    for _ in 0..4 {
        s.extend_from_slice(&[300u16, 0]);
    }
    filter_luma_edge(&mut s, 2, 1, 0, EdgeType::Vertical, 2, 0, 400);
    // delta = -300, half = -150: p = 150, q = 150.
    assert_eq!(&s[0..2], &[150, 150]);
    let mut t = Vec::new();
    for _ in 0..4 {
        t.extend_from_slice(&[250u16, 0]);
    }
    filter_luma_edge(&mut t, 2, 1, 0, EdgeType::Vertical, 1, 0, 400);
    // delta = 9 * (-250) / 16 = -140: p = 110, q = 140.
    assert_eq!(&t[0..2], &[110, 140]);
}

#[test]
fn disabled_filter_is_noop() {
    let mut f = DecodedFrame::new(64, 64, 0);
    for i in 0..f.y_plane.len() {
        f.y_plane[i] = ((i * 37) % 256) as u16;
    }
    for i in 0..f.cb_plane.len() {
        f.cb_plane[i] = ((i * 11) % 256) as u16;
        f.cr_plane[i] = ((i * 13) % 256) as u16;
    }
    let before = f.clone();
    let m = metadata(64, 64, true, true);
    apply_deblocking_filter(&mut f, &sps16(), &pps_tc24(), &header(true, true), &m);
    assert_eq!(f.y_plane, before.y_plane);
    assert_eq!(f.cb_plane, before.cb_plane);
    assert_eq!(f.cr_plane, before.cr_plane);
}

#[test]
fn zero_strength_leaves_planes() {
    let mut f = step_frame(16, 16, 8);
    let before = f.clone();
    let m = metadata(16, 16, false, false);
    apply_deblocking_filter(&mut f, &sps16(), &pps_tc24(), &header(false, true), &m);
    assert_eq!(f.y_plane, before.y_plane);
    assert_eq!(f.cb_plane, before.cb_plane);
    assert_eq!(f.cr_plane, before.cr_plane);
}

#[test]
fn intra_edges_filtered_strong() {
    let mut f = step_frame(16, 16, 8);
    let m = metadata(16, 16, true, false);
    apply_deblocking_filter(&mut f, &sps16(), &pps_tc24(), &header(false, true), &m);
    for y in 0..16usize {
        for x in 0..16usize {
            let expected = if x < 7 { 100 } else if x < 9 { 110 } else { 120 };
            assert_eq!(f.y_plane[y * 16 + x], expected, "luma ({}, {})", x, y);
        }
    }
    // Chroma, vertical pass: two lines per 8x8 luma cell of strength 2, at
    // chroma rows 0, 1, 4, 5, columns 3 and 4 become 70. Horizontal pass at
    // chroma row 4 (luma row 8): column 4 has 90 above 70 and becomes 80, 80.
    let expected: [[u16; 8]; 8] = [
        [50, 50, 50, 70, 70, 90, 90, 90],
        [50, 50, 50, 70, 70, 90, 90, 90],
        [50, 50, 50, 50, 90, 90, 90, 90],
        [50, 50, 50, 50, 80, 90, 90, 90],
        [50, 50, 50, 70, 80, 90, 90, 90],
        [50, 50, 50, 70, 70, 90, 90, 90],
        [50, 50, 50, 50, 90, 90, 90, 90],
        [50, 50, 50, 50, 90, 90, 90, 90],
    ];
    for y in 0..8usize {
        for x in 0..8usize {
            assert_eq!(f.cb_plane[y * 8 + x], expected[y][x], "cb ({}, {})", x, y);
            assert_eq!(f.cr_plane[y * 8 + x], expected[y][x], "cr ({}, {})", x, y);
        }
    }
}

#[test]
fn chroma_untouched_at_weak_edges() {
    let mut f = step_frame(16, 16, 8);
    let before = f.clone();
    let m = metadata(16, 16, false, true);
    apply_deblocking_filter(&mut f, &sps16(), &pps_tc24(), &header(false, true), &m);
    assert_eq!(f.cb_plane, before.cb_plane);
    assert_eq!(f.cr_plane, before.cr_plane);
    // Luma takes the weak filter: delta = clamp(9 * 20 / 16, -24, 24) = 11.
    for y in 0..16usize {
        assert_eq!(f.y_plane[y * 16 + 7], 111);
        assert_eq!(f.y_plane[y * 16 + 8], 109);
        assert_eq!(f.y_plane[y * 16 + 6], 100);
    }
}

#[test]
fn default_offsets_give_zero_clipping() {
    // With zero offsets tC is 0, so even strength-2 edges leave samples as they are.
    let mut f = step_frame(16, 16, 8);
    let before = f.clone();
    let m = metadata(16, 16, true, true);
    let pps = Pps { pps_beta_offset_div2: 0, pps_tc_offset_div2: 0 };
    apply_deblocking_filter(&mut f, &sps16(), &pps, &header(false, true), &m);
    assert_eq!(f.y_plane, before.y_plane);
    assert_eq!(f.cb_plane, before.cb_plane);
}

#[test]
fn ctb_boundary_not_filtered_without_cross_slice_filtering() {
    // 32x32 picture, CTB 16: the step at x = 16 lies on a CTB boundary.
    let mut f = step_frame(32, 32, 16);
    let before = f.clone();
    let m = metadata(32, 32, true, false);
    apply_deblocking_filter(&mut f, &sps16(), &pps_tc24(), &header(false, false), &m);
    assert_eq!(f.y_plane, before.y_plane);
    assert_eq!(f.cb_plane, before.cb_plane);
    // With cross-slice filtering on, the same boundary is filtered.
    let mut g = before.clone();
    apply_deblocking_filter(&mut g, &sps16(), &pps_tc24(), &header(false, true), &m);
    assert_eq!(g.y_plane[15], 110);
    assert_eq!(g.y_plane[16], 110);
}

#[test]
fn inner_edges_filtered_without_cross_slice_filtering() {
    let mut f = step_frame(32, 32, 8);
    let m = metadata(32, 32, true, false);
    apply_deblocking_filter(&mut f, &sps16(), &pps_tc24(), &header(false, false), &m);
    assert_eq!(f.y_plane[7], 110);
    assert_eq!(f.y_plane[8], 110);
}

#[test]
fn samples_stay_in_range() {
    let mut f = DecodedFrame::new(32, 32, 0);
    for i in 0..f.y_plane.len() {
        f.y_plane[i] = if (i % 32) / 4 % 2 == 0 { 255 } else { 0 };
    }
    for i in 0..f.cb_plane.len() {
        f.cb_plane[i] = if (i % 16) / 2 % 2 == 0 { 0 } else { 255 };
        f.cr_plane[i] = 255 - f.cb_plane[i];
    }
    let m = metadata(32, 32, true, true);
    let pps = Pps { pps_beta_offset_div2: 25, pps_tc_offset_div2: 6 };
    apply_deblocking_filter(&mut f, &sps16(), &pps, &header(false, true), &m);
    assert!(f.y_plane.iter().all(|&v| v <= 255));
    assert!(f.cb_plane.iter().all(|&v| v <= 255));
    assert!(f.cr_plane.iter().all(|&v| v <= 255));
    assert_ne!(f.y_plane[7], 0);
}

#[test]
fn deblocking_is_deterministic() {
    let mut a = DecodedFrame::new(48, 40, 0);
    for i in 0..a.y_plane.len() {
        a.y_plane[i] = ((i * 7919) % 256) as u16;
    }
    for i in 0..a.cb_plane.len() {
        a.cb_plane[i] = ((i * 31) % 256) as u16;
        a.cr_plane[i] = ((i * 17) % 256) as u16;
    }
    let mut b = a.clone();
    let m = metadata(48, 40, true, true);
    apply_deblocking_filter(&mut a, &sps16(), &pps_tc24(), &header(false, true), &m);
    apply_deblocking_filter(&mut b, &sps16(), &pps_tc24(), &header(false, true), &m);
    assert_eq!(a.y_plane, b.y_plane);
    assert_eq!(a.cb_plane, b.cb_plane);
    assert_eq!(a.cr_plane, b.cr_plane);
}

#[test]
fn odd_sized_picture_is_filtered_in_bounds() {
    let mut f = step_frame(21, 13, 8);
    let m = metadata(21, 13, true, false);
    let sps = Sps { log2_min_luma_coding_block_size_minus3: 0, log2_diff_max_min_luma_coding_block_size: 3 };
    apply_deblocking_filter(&mut f, &sps, &pps_tc24(), &header(false, true), &m);
    assert_eq!(f.y_plane.len(), 21 * 13);
    assert_eq!(f.y_plane[7], 110);
    assert_eq!(f.y_plane[8], 110);
}

#[test]
fn metadata_cells_round_trip() {
    let mut m = DeblockMetadata::new(17, 9);
    assert!(!m.get_split_transform(16, 8));
    assert_eq!(m.get_pred_mode(16, 8), 0);
    assert!(!m.get_nonzero_coeff(16, 8));
    m.set_split_transform(16, 8, true);
    m.set_pred_mode(16, 8, true);
    m.set_nonzero_coeff(16, 8, true);
    assert!(m.get_split_transform(17, 11));
    assert_eq!(m.get_pred_mode(19, 10), 1);
    assert!(m.get_nonzero_coeff(16, 8));
    assert!(!m.get_split_transform(12, 8));
    assert_eq!(m.get_pred_mode(16, 4), 0);
    m.set_pred_mode(16, 8, false);
    assert_eq!(m.get_pred_mode(16, 8), 0);
}

#[test]
fn context_and_decoder_construct() {
    let _ctx = DeblockingContext::new(64, 48);
    let _decoder = HeicDecoder::new();
    let f = DecodedFrame::new(5, 3, 7);
    assert_eq!(f.y_plane.len(), 15);
    assert_eq!(f.cb_plane.len(), 6);
    assert!(f.cr_plane.iter().all(|&v| v == 7));
}

#[test]
fn horizontal_window_past_row_end_is_skipped() {
    // 4-wide plane, three rows: the window at column 2 would need columns 2..6.
    let mut s = vec![100u16, 100, 100, 100, 100, 100, 100, 100, 120, 120, 120, 120];
    let before = s.clone();
    filter_luma_edge(&mut s, 4, 2, 1, EdgeType::Horizontal, 2, 0, 10);
    assert_eq!(s, before);
    // The same plane at column 0 is filtered.
    filter_luma_edge(&mut s, 4, 0, 2, EdgeType::Horizontal, 2, 0, 10);
    assert_eq!(s, vec![100, 100, 100, 100, 105, 105, 105, 105, 115, 115, 115, 115]);
}

#[test]
fn chroma_window_past_row_end_is_skipped() {
    // One-wide plane: the Q column 1 lies outside every row.
    let mut s = vec![0u16, 100, 200];
    filter_chroma_edge(&mut s, 1, 1, 0, EdgeType::Vertical, 100);
    assert_eq!(s, vec![0, 100, 200]);
    // Horizontal chroma window of two columns in a three-wide plane at column 2.
    let mut t = vec![0u16, 0, 0, 200, 200, 200];
    filter_chroma_edge(&mut t, 3, 2, 1, EdgeType::Horizontal, 100);
    assert_eq!(t, vec![0, 0, 0, 200, 200, 200]);
}

#[test]
fn right_edge_window_does_not_wrap_into_next_row() {
    // Width 21: the horizontal edge cell at column 20 would reach columns 20..24.
    // Rows up to 8 hold 100 and rows from 9 hold 120, so only a window that
    // wrapped into the next row would pair row 8 with row 9.
    let mut f = DecodedFrame::new(21, 16, 0);
    for y in 0..16usize {
        for x in 0..21usize {
            f.y_plane[y * 21 + x] = if y <= 8 { 100 } else { 120 };
        }
    }
    let before = f.clone();
    let m = metadata(21, 16, true, false);
    apply_deblocking_filter(&mut f, &sps16(), &pps_tc24(), &header(false, true), &m);
    assert_eq!(f.y_plane, before.y_plane);
    assert_eq!(f.cb_plane, before.cb_plane);
}

#[test]
fn default_decoder_constructs() {
    let _decoder = HeicDecoder::default();
}
