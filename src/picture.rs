//! The decoded frame store: three 16-bit sample planes in 4:2:0 layout.
use vstd::prelude::*;

verus! {

/// Decoded picture planes, each stored row-major.
///
/// The luma plane has `width * height` samples; each chroma plane has
/// `ceil(width / 2) * ceil(height / 2)` samples.
#[derive(Clone, Debug)]
pub struct DecodedFrame {
    pub width: u32,
    pub height: u32,
    pub y_plane: Vec<u16>,
    pub cb_plane: Vec<u16>,
    pub cr_plane: Vec<u16>,
}

/// Width of a chroma plane for a luma width.
pub open spec fn chroma_extent(n: nat) -> nat {
    (n + 1) / 2
}

/// Every sample of a plane lies in the 8-bit range.
pub open spec fn plane_in_range(s: Seq<u16>) -> bool {
    forall|i: int| 0 <= i < s.len() ==> #[trigger] s[i] <= 255
}

impl DecodedFrame {
    /// Each plane has the size its dimensions call for.
    pub open spec fn wf(&self) -> bool {
        &&& self.y_plane@.len() == self.width as nat * self.height as nat
        &&& self.cb_plane@.len() == chroma_extent(self.width as nat) * chroma_extent(self.height as nat)
        &&& self.cr_plane@.len() == self.cb_plane@.len()
    }

    /// All samples of all three planes lie in `[0, 255]`.
    pub open spec fn samples_in_range(&self) -> bool {
        plane_in_range(self.y_plane@) && plane_in_range(self.cb_plane@) && plane_in_range(self.cr_plane@)
    }

    /// A frame of the given size with every sample set to `value`.
    pub fn new(width: u32, height: u32, value: u16) -> (r: Self)
        requires
            width as nat * height as nat <= usize::MAX,
        ensures
            r.width == width,
            r.height == height,
            r.wf(),
            forall|i: int| 0 <= i < r.y_plane@.len() ==> r.y_plane@[i] == value,
            forall|i: int| 0 <= i < r.cb_plane@.len() ==> r.cb_plane@[i] == value,
            forall|i: int| 0 <= i < r.cr_plane@.len() ==> r.cr_plane@[i] == value,
    {
        let cw = (width / 2 + width % 2) as usize;
        let ch = (height / 2 + height % 2) as usize;
        proof {
            assert(cw as nat * ch as nat <= width as nat * height as nat) by (nonlinear_arith)
                requires cw <= width, ch <= height;
        }
        let y_plane = filled(width as usize * height as usize, value);
        let cb_plane = filled(cw * ch, value);
        let cr_plane = filled(cw * ch, value);
        DecodedFrame { width, height, y_plane, cb_plane, cr_plane }
    }
}

fn filled(n: usize, value: u16) -> (r: Vec<u16>)
    ensures
        r@.len() == n,
        forall|i: int| 0 <= i < n ==> r@[i] == value,
{
    let mut v: Vec<u16> = Vec::new();
    let mut i: usize = 0;
    while i < n
        invariant
            i <= n,
            v@.len() == i,
            forall|k: int| 0 <= k < i ==> v@[k] == value,
        decreases n - i,
    {
        v.push(value);
        i += 1;
    }
    v
}

} // verus!
