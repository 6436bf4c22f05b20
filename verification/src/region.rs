use vstd::prelude::*;

verus! {

/// A rectangle of the frame to update, in pixels, with exclusive right and
/// bottom edges. The coordinates are those a graphics PDU carries.
#[derive(Debug, Clone, Copy, PartialEq, Eq, Structural)]
pub struct Region {
    pub left: u16,
    pub top: u16,
    pub right: u16,
    pub bottom: u16,
}

/// `v` rounded down to a multiple of 16 (the start of its macroblock).
pub open spec fn floor16(v: int) -> int {
    v / 16 * 16
}

/// `v` rounded up to a multiple of 16.
pub open spec fn ceil16(v: int) -> int {
    (v + 15) / 16 * 16
}

/// Pixel `(x, y)` lies in one of the 16x16 macroblocks that the region
/// touches: the region is expanded to whole macroblocks.
pub open spec fn region_covers(r: Region, x: int, y: int) -> bool {
    &&& floor16(r.left as int) <= x < ceil16(r.right as int)
    &&& floor16(r.top as int) <= y < ceil16(r.bottom as int)
}

/// Pixel `(x, y)` lies in the macroblocks of at least one of the regions.
pub open spec fn regions_cover(regions: Seq<Region>, x: int, y: int) -> bool {
    exists|k: int| 0 <= k < regions.len() && #[trigger] region_covers(regions[k], x, y)
}

} // verus!
