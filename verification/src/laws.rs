//! Properties of the library that span several calls or every input.
use vstd::prelude::*;

use crate::arith::lemma_index_pixel;
use crate::frame::{aux_view_applied, main_view_applied, Yuv444Frame};
use crate::layout::{lemma_planes_equal_by_pixels, pixel, plane_updated};
use crate::planes::{aux_carries, Yuv420Planes};
use crate::region::{region_covers, regions_cover, Region};

verus! {

/// A main view followed by an auxiliary view over the same regions
/// reconstructs YUV444 there: each pixel of the regions holds the main
/// view's luma, and the auxiliary view's chroma wherever it carries chroma;
/// at even columns of even rows the main view's 2x2 chroma sample stays.
/// Pixels outside the regions keep what they had before both updates.
pub proof fn law_main_then_auxiliary_reconstructs(
    f0: Yuv444Frame,
    f1: Yuv444Frame,
    f2: Yuv444Frame,
    main: Yuv420Planes,
    aux: Yuv420Planes,
    regions: Seq<Region>,
)
    requires
        f0.wf(),
        main_view_applied(f0, f1, main, regions),
        aux_view_applied(f1, f2, aux, regions),
    ensures
        f2.wf(),
        f2.frame_width() == f0.frame_width(),
        f2.frame_height() == f0.frame_height(),
        plane_updated(
            f2.y_plane(),
            f0.y_plane(),
            f0.frame_width(),
            f0.frame_height(),
            |x: int, y: int| regions_cover(regions, x, y),
            |x: int, y: int| main.main_y(x, y),
        ),
        plane_updated(
            f2.u_plane(),
            f0.u_plane(),
            f0.frame_width(),
            f0.frame_height(),
            |x: int, y: int| regions_cover(regions, x, y),
            |x: int, y: int|
                if aux_carries(x, y) {
                    aux.aux_u(f0.frame_width(), x, y)
                } else {
                    main.main_u(x, y)
                },
        ),
        plane_updated(
            f2.v_plane(),
            f0.v_plane(),
            f0.frame_width(),
            f0.frame_height(),
            |x: int, y: int| regions_cover(regions, x, y),
            |x: int, y: int|
                if aux_carries(x, y) {
                    aux.aux_v(f0.frame_width(), x, y)
                } else {
                    main.main_v(x, y)
                },
        ),
{
    reveal(plane_updated);
    let w = f0.frame_width();
    let h = f0.frame_height();
    assert forall|x: int, y: int|
        #![trigger pixel(f2.u_plane(), w, x, y)]
        #![trigger pixel(f2.v_plane(), w, x, y)]
        0 <= x < w && 0 <= y < h implies {
        &&& pixel(f2.u_plane(), w, x, y) == if regions_cover(regions, x, y) {
            if aux_carries(x, y) {
                aux.aux_u(w, x, y)
            } else {
                main.main_u(x, y)
            }
        } else {
            pixel(f0.u_plane(), w, x, y)
        }
        &&& pixel(f2.v_plane(), w, x, y) == if regions_cover(regions, x, y) {
            if aux_carries(x, y) {
                aux.aux_v(w, x, y)
            } else {
                main.main_v(x, y)
            }
        } else {
            pixel(f0.v_plane(), w, x, y)
        }
    } by {
        assert(pixel(f1.u_plane(), w, x, y) == pixel(f1.u_plane(), w, x, y));
        assert(pixel(f1.v_plane(), w, x, y) == pixel(f1.v_plane(), w, x, y));
    }
}

/// A main view on its own shows its region at YUV420 quality: within the
/// regions, every pixel of a 2x2 block has the chroma of the block's
/// top-left pixel.
pub proof fn law_main_view_fills_2x2_blocks(
    f0: Yuv444Frame,
    f1: Yuv444Frame,
    main: Yuv420Planes,
    regions: Seq<Region>,
)
    requires
        f0.wf(),
        main_view_applied(f0, f1, main, regions),
    ensures
        forall|x: int, y: int|
            #![trigger pixel(f1.u_plane(), f1.frame_width(), x, y)]
            #![trigger pixel(f1.v_plane(), f1.frame_width(), x, y)]
            0 <= x < f1.frame_width() && 0 <= y < f1.frame_height() && regions_cover(regions, x, y)
                ==> {
                &&& pixel(f1.u_plane(), f1.frame_width(), x, y) == pixel(
                    f1.u_plane(),
                    f1.frame_width(),
                    x - x % 2,
                    y - y % 2,
                )
                &&& pixel(f1.v_plane(), f1.frame_width(), x, y) == pixel(
                    f1.v_plane(),
                    f1.frame_width(),
                    x - x % 2,
                    y - y % 2,
                )
            },
{
    reveal(plane_updated);
    let w = f0.frame_width();
    let h = f0.frame_height();
    assert forall|x: int, y: int|
        #![trigger pixel(f1.u_plane(), w, x, y)]
        #![trigger pixel(f1.v_plane(), w, x, y)]
        0 <= x < w && 0 <= y < h && regions_cover(regions, x, y) implies {
        &&& pixel(f1.u_plane(), w, x, y) == pixel(f1.u_plane(), w, x - x % 2, y - y % 2)
        &&& pixel(f1.v_plane(), w, x, y) == pixel(f1.v_plane(), w, x - x % 2, y - y % 2)
    } by {
        let k = choose|k: int| 0 <= k < regions.len() && #[trigger] region_covers(regions[k], x, y);
        assert(region_covers(regions[k], x - x % 2, y - y % 2));
        assert(regions_cover(regions, x - x % 2, y - y % 2));
        assert(main.main_u(x, y) == main.main_u(x - x % 2, y - y % 2));
        assert(main.main_v(x, y) == main.main_v(x - x % 2, y - y % 2));
    }
}

/// A region covers every pixel of each 16x16 macroblock that it touches.
pub proof fn law_region_expands_to_macroblocks(r: Region, x0: int, y0: int, x: int, y: int)
    requires
        r.left <= x0 < r.right,
        r.top <= y0 < r.bottom,
        0 <= x,
        0 <= y,
        x / 16 == x0 / 16,
        y / 16 == y0 / 16,
    ensures
        region_covers(r, x, y),
{
}

/// Every pixel that a non-empty region covers lies in a 16x16 macroblock
/// that the region touches.
pub proof fn law_region_covers_only_touched_macroblocks(r: Region, x: int, y: int)
    requires
        r.left < r.right,
        r.top < r.bottom,
        region_covers(r, x, y),
    ensures
        exists|x0: int, y0: int|
            r.left <= x0 < r.right && r.top <= y0 < r.bottom && #[trigger] (x0 / 16) == x / 16
                && #[trigger] (y0 / 16) == y / 16,
{
    let x0 = if x < r.left {
        r.left as int
    } else if x >= r.right {
        r.right - 1
    } else {
        x
    };
    let y0 = if y < r.top {
        r.top as int
    } else if y >= r.bottom {
        r.bottom - 1
    } else {
        y
    };
    assert(x0 / 16 == x / 16 && y0 / 16 == y / 16);
}

/// Applying the same main view over the same regions a second time changes
/// nothing.
pub proof fn law_main_view_idempotent(
    f0: Yuv444Frame,
    f1: Yuv444Frame,
    f2: Yuv444Frame,
    main: Yuv420Planes,
    regions: Seq<Region>,
)
    requires
        f0.wf(),
        main_view_applied(f0, f1, main, regions),
        main_view_applied(f1, f2, main, regions),
    ensures
        f2.y_plane() == f1.y_plane(),
        f2.u_plane() == f1.u_plane(),
        f2.v_plane() == f1.v_plane(),
{
    reveal(plane_updated);
    let w = f0.frame_width();
    let h = f0.frame_height();
    assert forall|x: int, y: int|
        #![trigger pixel(f2.y_plane(), w, x, y)]
        #![trigger pixel(f2.u_plane(), w, x, y)]
        #![trigger pixel(f2.v_plane(), w, x, y)]
        0 <= x < w && 0 <= y < h implies {
        &&& pixel(f2.y_plane(), w, x, y) == pixel(f1.y_plane(), w, x, y)
        &&& pixel(f2.u_plane(), w, x, y) == pixel(f1.u_plane(), w, x, y)
        &&& pixel(f2.v_plane(), w, x, y) == pixel(f1.v_plane(), w, x, y)
    } by {}
    lemma_planes_equal_by_pixels(f2.y_plane(), f1.y_plane(), w, h);
    lemma_planes_equal_by_pixels(f2.u_plane(), f1.u_plane(), w, h);
    lemma_planes_equal_by_pixels(f2.v_plane(), f1.v_plane(), w, h);
}

/// Applying the same auxiliary view over the same regions a second time
/// changes nothing.
pub proof fn law_auxiliary_view_idempotent(
    f0: Yuv444Frame,
    f1: Yuv444Frame,
    f2: Yuv444Frame,
    aux: Yuv420Planes,
    regions: Seq<Region>,
)
    requires
        f0.wf(),
        aux_view_applied(f0, f1, aux, regions),
        aux_view_applied(f1, f2, aux, regions),
    ensures
        f2.y_plane() == f1.y_plane(),
        f2.u_plane() == f1.u_plane(),
        f2.v_plane() == f1.v_plane(),
{
    reveal(plane_updated);
    let w = f0.frame_width();
    let h = f0.frame_height();
    assert forall|x: int, y: int|
        #![trigger pixel(f2.u_plane(), w, x, y)]
        #![trigger pixel(f2.v_plane(), w, x, y)]
        0 <= x < w && 0 <= y < h implies {
        &&& pixel(f2.u_plane(), w, x, y) == pixel(f1.u_plane(), w, x, y)
        &&& pixel(f2.v_plane(), w, x, y) == pixel(f1.v_plane(), w, x, y)
    } by {}
    lemma_planes_equal_by_pixels(f2.u_plane(), f1.u_plane(), w, h);
    lemma_planes_equal_by_pixels(f2.v_plane(), f1.v_plane(), w, h);
}

/// Applying a main view over regions `a` and then over regions `b` gives
/// the same frame as applying it once over `a` followed by `b`.
pub proof fn law_main_view_regions_split(
    f0: Yuv444Frame,
    f1: Yuv444Frame,
    f2: Yuv444Frame,
    g: Yuv444Frame,
    main: Yuv420Planes,
    a: Seq<Region>,
    b: Seq<Region>,
)
    requires
        f0.wf(),
        main_view_applied(f0, f1, main, a),
        main_view_applied(f1, f2, main, b),
        main_view_applied(f0, g, main, a + b),
    ensures
        g.y_plane() == f2.y_plane(),
        g.u_plane() == f2.u_plane(),
        g.v_plane() == f2.v_plane(),
{
    reveal(plane_updated);
    let w = f0.frame_width();
    let h = f0.frame_height();
    assert forall|x: int, y: int|
        #![trigger pixel(g.y_plane(), w, x, y)]
        #![trigger pixel(g.u_plane(), w, x, y)]
        #![trigger pixel(g.v_plane(), w, x, y)]
        0 <= x < w && 0 <= y < h implies {
        &&& pixel(g.y_plane(), w, x, y) == pixel(f2.y_plane(), w, x, y)
        &&& pixel(g.u_plane(), w, x, y) == pixel(f2.u_plane(), w, x, y)
        &&& pixel(g.v_plane(), w, x, y) == pixel(f2.v_plane(), w, x, y)
    } by {
        assert(pixel(f1.y_plane(), w, x, y) == pixel(f1.y_plane(), w, x, y));
        assert(pixel(f1.u_plane(), w, x, y) == pixel(f1.u_plane(), w, x, y));
        assert(pixel(f1.v_plane(), w, x, y) == pixel(f1.v_plane(), w, x, y));
        assert(pixel(f2.y_plane(), w, x, y) == pixel(f2.y_plane(), w, x, y));
        assert(pixel(f2.u_plane(), w, x, y) == pixel(f2.u_plane(), w, x, y));
        assert(pixel(f2.v_plane(), w, x, y) == pixel(f2.v_plane(), w, x, y));
        if regions_cover(a + b, x, y) {
            let k = choose|k: int| 0 <= k < (a + b).len() && #[trigger] region_covers((a + b)[k], x, y);
            if k < a.len() {
                assert(region_covers(a[k], x, y));
            } else {
                assert(region_covers(b[k - a.len()], x, y));
            }
        }
        if regions_cover(a, x, y) {
            let k = choose|k: int| 0 <= k < a.len() && #[trigger] region_covers(a[k], x, y);
            assert(region_covers((a + b)[k], x, y));
        }
        if regions_cover(b, x, y) {
            let k = choose|k: int| 0 <= k < b.len() && #[trigger] region_covers(b[k], x, y);
            assert(region_covers((a + b)[a.len() + k], x, y));
        }
    }
    lemma_planes_equal_by_pixels(g.y_plane(), f2.y_plane(), w, h);
    lemma_planes_equal_by_pixels(g.u_plane(), f2.u_plane(), w, h);
    lemma_planes_equal_by_pixels(g.v_plane(), f2.v_plane(), w, h);
}

/// What a main view does to each sample, in terms of the view's planes and
/// the regions alone. Sample `i` of a plane is pixel `(i % width, i / width)`.
/// A pixel lies in the update when some region, widened to whole 16x16
/// macroblocks, contains it; there its Y is the main view's luma at that
/// pixel, and its U and V are the main view's chroma for its 2x2 block. Every
/// other sample keeps its value.
pub proof fn law_main_view_samples(
    f0: Yuv444Frame,
    f1: Yuv444Frame,
    main: Yuv420Planes,
    regions: Seq<Region>,
)
    requires
        f0.wf(),
        main_view_applied(f0, f1, main, regions),
    ensures
        f1.frame_width() == f0.frame_width(),
        f1.frame_height() == f0.frame_height(),
        f1.y_plane().len() == f0.y_plane().len(),
        f1.u_plane().len() == f0.u_plane().len(),
        f1.v_plane().len() == f0.v_plane().len(),
        forall|i: int|
            #![trigger f1.y_plane()[i]]
            #![trigger f1.u_plane()[i]]
            #![trigger f1.v_plane()[i]]
            0 <= i < f0.y_plane().len() ==> {
                let x = i % f0.frame_width();
                let y = i / f0.frame_width();
                let inside = exists|k: int|
                    0 <= k < regions.len() && (#[trigger] regions[k]).left as int / 16 * 16 <= x
                        < (regions[k].right as int + 15) / 16 * 16 && regions[k].top as int / 16
                        * 16 <= y < (regions[k].bottom as int + 15) / 16 * 16;
                &&& f1.y_plane()[i] == if inside {
                    main.y@[y * main.y_stride + x]
                } else {
                    f0.y_plane()[i]
                }
                &&& f1.u_plane()[i] == if inside {
                    main.u@[(y / 2) * main.u_stride + x / 2]
                } else {
                    f0.u_plane()[i]
                }
                &&& f1.v_plane()[i] == if inside {
                    main.v@[(y / 2) * main.v_stride + x / 2]
                } else {
                    f0.v_plane()[i]
                }
            },
{
    reveal(plane_updated);
    let w = f0.frame_width();
    let h = f0.frame_height();
    assert forall|i: int|
        #![trigger f1.y_plane()[i]]
        #![trigger f1.u_plane()[i]]
        #![trigger f1.v_plane()[i]]
        0 <= i < f0.y_plane().len() implies {
        let x = i % w;
        let y = i / w;
        let inside = exists|k: int|
            0 <= k < regions.len() && (#[trigger] regions[k]).left as int / 16 * 16 <= x < (
            regions[k].right as int + 15) / 16 * 16 && regions[k].top as int / 16 * 16 <= y < (
            regions[k].bottom as int + 15) / 16 * 16;
        &&& f1.y_plane()[i] == if inside {
            main.y@[y * main.y_stride + x]
        } else {
            f0.y_plane()[i]
        }
        &&& f1.u_plane()[i] == if inside {
            main.u@[(y / 2) * main.u_stride + x / 2]
        } else {
            f0.u_plane()[i]
        }
        &&& f1.v_plane()[i] == if inside {
            main.v@[(y / 2) * main.v_stride + x / 2]
        } else {
            f0.v_plane()[i]
        }
    } by {
        lemma_index_pixel(w, h, i);
        let x = i % w;
        let y = i / w;
        assert(pixel(f1.y_plane(), w, x, y) == f1.y_plane()[i]);
        assert(pixel(f1.u_plane(), w, x, y) == f1.u_plane()[i]);
        assert(pixel(f1.v_plane(), w, x, y) == f1.v_plane()[i]);
        assert(pixel(f0.y_plane(), w, x, y) == f0.y_plane()[i]);
        assert(pixel(f0.u_plane(), w, x, y) == f0.u_plane()[i]);
        assert(pixel(f0.v_plane(), w, x, y) == f0.v_plane()[i]);
        if regions_cover(regions, x, y) {
            let k = choose|k: int| 0 <= k < regions.len() && #[trigger] region_covers(regions[k], x, y);
            assert(regions[k] == regions[k]);
        }
        if exists|k: int|
            0 <= k < regions.len() && (#[trigger] regions[k]).left as int / 16 * 16 <= x < (
            regions[k].right as int + 15) / 16 * 16 && regions[k].top as int / 16 * 16 <= y < (
            regions[k].bottom as int + 15) / 16 * 16 {
            let k = choose|k: int|
                0 <= k < regions.len() && (#[trigger] regions[k]).left as int / 16 * 16 <= x < (
                regions[k].right as int + 15) / 16 * 16 && regions[k].top as int / 16 * 16 <= y < (
                regions[k].bottom as int + 15) / 16 * 16;
            assert(region_covers(regions[k], x, y));
        }
    }
}

/// What an auxiliary view in YUV444v2 layout does to each sample, in terms
/// of the view's planes and the regions alone. Sample `i` of a plane is pixel
/// `(i % width, i / width)`; a pixel lies in the update when some region,
/// widened to whole 16x16 macroblocks, contains it. Luma never changes.
/// Inside the update, a pixel at an odd column takes U from the left half of
/// auxiliary Y and V from its right half; a pixel at an even column of an odd
/// row takes U and V from the left and right quarters of auxiliary U
/// (columns 4k) or auxiliary V (columns 4k + 2). Pixels at even columns of
/// even rows, and every pixel outside the update, keep their chroma.
pub proof fn law_auxiliary_view_samples(
    f0: Yuv444Frame,
    f1: Yuv444Frame,
    aux: Yuv420Planes,
    regions: Seq<Region>,
)
    requires
        f0.wf(),
        aux_view_applied(f0, f1, aux, regions),
    ensures
        f1.frame_width() == f0.frame_width(),
        f1.frame_height() == f0.frame_height(),
        f1.y_plane() == f0.y_plane(),
        f1.u_plane().len() == f0.u_plane().len(),
        f1.v_plane().len() == f0.v_plane().len(),
        forall|i: int|
            #![trigger f1.u_plane()[i]]
            #![trigger f1.v_plane()[i]]
            0 <= i < f0.u_plane().len() ==> {
                let w = f0.frame_width();
                let x = i % w;
                let y = i / w;
                let inside = exists|k: int|
                    0 <= k < regions.len() && (#[trigger] regions[k]).left as int / 16 * 16 <= x
                        < (regions[k].right as int + 15) / 16 * 16 && regions[k].top as int / 16
                        * 16 <= y < (regions[k].bottom as int + 15) / 16 * 16;
                &&& f1.u_plane()[i] == if inside && x % 2 == 1 {
                    aux.y@[y * aux.y_stride + x / 2]
                } else if inside && y % 2 == 1 && x % 4 == 0 {
                    aux.u@[(y / 2) * aux.u_stride + x / 4]
                } else if inside && y % 2 == 1 {
                    aux.v@[(y / 2) * aux.v_stride + x / 4]
                } else {
                    f0.u_plane()[i]
                }
                &&& f1.v_plane()[i] == if inside && x % 2 == 1 {
                    aux.y@[y * aux.y_stride + w / 2 + x / 2]
                } else if inside && y % 2 == 1 && x % 4 == 0 {
                    aux.u@[(y / 2) * aux.u_stride + w / 4 + x / 4]
                } else if inside && y % 2 == 1 {
                    aux.v@[(y / 2) * aux.v_stride + w / 4 + x / 4]
                } else {
                    f0.v_plane()[i]
                }
            },
{
    reveal(plane_updated);
    let w = f0.frame_width();
    let h = f0.frame_height();
    assert forall|i: int|
        #![trigger f1.u_plane()[i]]
        #![trigger f1.v_plane()[i]]
        0 <= i < f0.u_plane().len() implies {
        let x = i % w;
        let y = i / w;
        let inside = exists|k: int|
            0 <= k < regions.len() && (#[trigger] regions[k]).left as int / 16 * 16 <= x < (
            regions[k].right as int + 15) / 16 * 16 && regions[k].top as int / 16 * 16 <= y < (
            regions[k].bottom as int + 15) / 16 * 16;
        &&& f1.u_plane()[i] == if inside && x % 2 == 1 {
            aux.y@[y * aux.y_stride + x / 2]
        } else if inside && y % 2 == 1 && x % 4 == 0 {
            aux.u@[(y / 2) * aux.u_stride + x / 4]
        } else if inside && y % 2 == 1 {
            aux.v@[(y / 2) * aux.v_stride + x / 4]
        } else {
            f0.u_plane()[i]
        }
        &&& f1.v_plane()[i] == if inside && x % 2 == 1 {
            aux.y@[y * aux.y_stride + w / 2 + x / 2]
        } else if inside && y % 2 == 1 && x % 4 == 0 {
            aux.u@[(y / 2) * aux.u_stride + w / 4 + x / 4]
        } else if inside && y % 2 == 1 {
            aux.v@[(y / 2) * aux.v_stride + w / 4 + x / 4]
        } else {
            f0.v_plane()[i]
        }
    } by {
        lemma_index_pixel(w, h, i);
        let x = i % w;
        let y = i / w;
        assert(pixel(f1.u_plane(), w, x, y) == f1.u_plane()[i]);
        assert(pixel(f1.v_plane(), w, x, y) == f1.v_plane()[i]);
        assert(pixel(f0.u_plane(), w, x, y) == f0.u_plane()[i]);
        assert(pixel(f0.v_plane(), w, x, y) == f0.v_plane()[i]);
        if regions_cover(regions, x, y) {
            let k = choose|k: int| 0 <= k < regions.len() && #[trigger] region_covers(regions[k], x, y);
            assert(regions[k] == regions[k]);
        }
        if exists|k: int|
            0 <= k < regions.len() && (#[trigger] regions[k]).left as int / 16 * 16 <= x < (
            regions[k].right as int + 15) / 16 * 16 && regions[k].top as int / 16 * 16 <= y < (
            regions[k].bottom as int + 15) / 16 * 16 {
            let k = choose|k: int|
                0 <= k < regions.len() && (#[trigger] regions[k]).left as int / 16 * 16 <= x < (
                regions[k].right as int + 15) / 16 * 16 && regions[k].top as int / 16 * 16 <= y < (
                regions[k].bottom as int + 15) / 16 * 16;
            assert(region_covers(regions[k], x, y));
        }
    }
}

} // verus!
