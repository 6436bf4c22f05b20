use vstd::prelude::*;

use crate::arith::{lemma_pixel_index_bounds, lemma_row_sample_bounds};
use crate::layout::{
    filled, lemma_update_equiv, lemma_update_nothing, lemma_updates_compose, lemma_write_pixel,
    plane_updated,
};
use crate::error::{DecoderError, DecoderResult};
use crate::planes::{aux_carries, check_planes, planes_addressable, planes_fit, Yuv420Planes};
use crate::region::{ceil16, floor16, region_covers, regions_cover, Region};

verus! {


/// `after` is `before` with the main view `main` applied inside `regions`:
/// each pixel in the macroblocks of the regions takes the main view's luma
/// and the chroma of its 2x2 block; every other pixel keeps its samples.
pub open spec fn main_view_applied(
    before: Yuv444Frame,
    after: Yuv444Frame,
    main: Yuv420Planes,
    regions: Seq<Region>,
) -> bool {
    &&& after.wf()
    &&& after.frame_width() == before.frame_width()
    &&& after.frame_height() == before.frame_height()
    &&& plane_updated(
        after.y_plane(),
        before.y_plane(),
        before.frame_width(),
        before.frame_height(),
        |x: int, y: int| regions_cover(regions, x, y),
        |x: int, y: int| main.main_y(x, y),
    )
    &&& plane_updated(
        after.u_plane(),
        before.u_plane(),
        before.frame_width(),
        before.frame_height(),
        |x: int, y: int| regions_cover(regions, x, y),
        |x: int, y: int| main.main_u(x, y),
    )
    &&& plane_updated(
        after.v_plane(),
        before.v_plane(),
        before.frame_width(),
        before.frame_height(),
        |x: int, y: int| regions_cover(regions, x, y),
        |x: int, y: int| main.main_v(x, y),
    )
}

/// `after` is `before` with the auxiliary view `aux` (YUV444v2 layout)
/// applied inside `regions`: each pixel in the macroblocks of the regions
/// for which the auxiliary view carries chroma takes that chroma; luma,
/// the chroma at even columns of even rows and every pixel outside the
/// regions keep their samples.
pub open spec fn aux_view_applied(
    before: Yuv444Frame,
    after: Yuv444Frame,
    aux: Yuv420Planes,
    regions: Seq<Region>,
) -> bool {
    &&& after.wf()
    &&& after.frame_width() == before.frame_width()
    &&& after.frame_height() == before.frame_height()
    &&& after.y_plane() == before.y_plane()
    &&& plane_updated(
        after.u_plane(),
        before.u_plane(),
        before.frame_width(),
        before.frame_height(),
        |x: int, y: int| regions_cover(regions, x, y) && aux_carries(x, y),
        |x: int, y: int| aux.aux_u(before.frame_width(), x, y),
    )
    &&& plane_updated(
        after.v_plane(),
        before.v_plane(),
        before.frame_width(),
        before.frame_height(),
        |x: int, y: int| regions_cover(regions, x, y) && aux_carries(x, y),
        |x: int, y: int| aux.aux_v(before.frame_width(), x, y),
    )
}

/// A YUV444 frame with tightly packed planes (stride equals width).
#[derive(Clone)]
pub struct Yuv444Frame {
    width: usize,
    height: usize,
    y: Vec<u8>,
    u: Vec<u8>,
    v: Vec<u8>,
}

impl Yuv444Frame {
    /// The frame's width in pixels.
    pub closed spec fn frame_width(&self) -> int {
        self.width as int
    }

    /// The frame's height in pixels.
    pub closed spec fn frame_height(&self) -> int {
        self.height as int
    }

    /// The Y plane, row by row.
    pub closed spec fn y_plane(&self) -> Seq<u8> {
        self.y@
    }

    /// The U plane, row by row.
    pub closed spec fn u_plane(&self) -> Seq<u8> {
        self.u@
    }

    /// The V plane, row by row.
    pub closed spec fn v_plane(&self) -> Seq<u8> {
        self.v@
    }

    /// Both dimensions are nonzero multiples of 16 and each plane holds
    /// exactly `width * height` samples.
    pub open spec fn wf(&self) -> bool {
        &&& self.frame_width() > 0
        &&& self.frame_height() > 0
        &&& self.frame_width() % 16 == 0
        &&& self.frame_height() % 16 == 0
        &&& self.frame_width() * self.frame_height() <= usize::MAX
        &&& self.y_plane().len() == self.frame_width() * self.frame_height()
        &&& self.u_plane().len() == self.frame_width() * self.frame_height()
        &&& self.v_plane().len() == self.frame_width() * self.frame_height()
    }

    /// Create a frame of the coded size of both views. Both dimensions must be
    /// multiples of 16, as MS-RDPEGFX requires for AVC bitstreams. The frame
    /// starts black: Y is 0 and U and V are 128.
    pub fn new(width: usize, height: usize) -> (res: DecoderResult<Self>)
        ensures
            (res == Err::<Self, DecoderError>(DecoderError::FrameSizeNotAligned)) <==> !(width > 0
                && height > 0 && width % 16 == 0 && height % 16 == 0),
            (res == Err::<Self, DecoderError>(DecoderError::FrameSizeOverflow)) <==> (width > 0
                && height > 0 && width % 16 == 0 && height % 16 == 0 && width * height
                > usize::MAX),
            res is Ok <==> (width > 0 && height > 0 && width % 16 == 0 && height % 16 == 0 && width
                * height <= usize::MAX),
            res matches Ok(frame) ==> {
                &&& frame.wf()
                &&& frame.frame_width() == width
                &&& frame.frame_height() == height
                &&& frame.y_plane() == filled(width * height, 0)
                &&& frame.u_plane() == filled(width * height, 128)
                &&& frame.v_plane() == filled(width * height, 128)
            },
            res matches Ok(frame) ==> frame.y_plane().len() == width * height && frame.u_plane().len()
                == width * height && frame.v_plane().len() == width * height,
            res matches Ok(frame) ==> forall|i: int|
                0 <= i < width * height ==> #[trigger] frame.y_plane()[i] == 0,
            res matches Ok(frame) ==> forall|i: int|
                0 <= i < width * height ==> #[trigger] frame.u_plane()[i] == 128,
            res matches Ok(frame) ==> forall|i: int|
                0 <= i < width * height ==> #[trigger] frame.v_plane()[i] == 128,
    {
        if width == 0 || height == 0 || !width.is_multiple_of(16) || !height.is_multiple_of(16) {
            return Err(DecoderError::FrameSizeNotAligned);
        }
        let len = match width.checked_mul(height) {
            Some(len) => len,
            None => {
                return Err(DecoderError::FrameSizeOverflow);
            },
        };
        let y: Vec<u8> = vec![0; len];
        let u: Vec<u8> = vec![128; len];
        let v: Vec<u8> = vec![128; len];
        assert(y@ =~= filled(len as int, 0));
        assert(u@ =~= filled(len as int, 128));
        assert(v@ =~= filled(len as int, 128));
        Ok(Self { width, height, y, u, v })
    }

    pub fn width(&self) -> (res: usize)
        ensures
            res == self.frame_width(),
    {
        self.width
    }

    pub fn height(&self) -> (res: usize)
        ensures
            res == self.frame_height(),
    {
        self.height
    }

    /// The Y plane, `width * height` bytes.
    pub fn y(&self) -> (res: &[u8])
        ensures
            res@ == self.y_plane(),
    {
        self.y.as_slice()
    }

    /// The U plane, `width * height` bytes.
    pub fn u(&self) -> (res: &[u8])
        ensures
            res@ == self.u_plane(),
    {
        self.u.as_slice()
    }

    /// The V plane, `width * height` bytes.
    pub fn v(&self) -> (res: &[u8])
        ensures
            res@ == self.v_plane(),
    {
        self.v.as_slice()
    }

    /// The region expanded to whole 16x16 macroblocks and clipped to the
    /// frame, as `(left, top, right, bottom)`. The specification converts
    /// whole macroblocks; the caller crops to the region afterwards.
    fn macroblock_bounds(&self, region: &Region) -> (res: (usize, usize, usize, usize))
        requires
            self.wf(),
        ensures
            res.2 == if ceil16(region.right as int) < self.width {
                ceil16(region.right as int)
            } else {
                self.width as int
            },
            res.3 == if ceil16(region.bottom as int) < self.height {
                ceil16(region.bottom as int)
            } else {
                self.height as int
            },
            res.0 == if floor16(region.left as int) < res.2 {
                floor16(region.left as int)
            } else {
                res.2 as int
            },
            res.1 == if floor16(region.top as int) < res.3 {
                floor16(region.top as int)
            } else {
                res.3 as int
            },
            res.0 <= res.2 <= self.width,
            res.1 <= res.3 <= self.height,
            res.0 % 16 == 0,
            res.1 % 16 == 0,
            res.2 % 16 == 0,
            res.3 % 16 == 0,
            forall|x: int, y: int|
                0 <= x < self.width && 0 <= y < self.height ==> ((res.0 <= x < res.2 && res.1 <= y
                    < res.3) <==> #[trigger] region_covers(*region, x, y)),
    {
        let left = (region.left as usize) / 16 * 16;
        let top = (region.top as usize) / 16 * 16;
        let right_up = ((region.right as usize) + 15) / 16 * 16;
        let bottom_up = ((region.bottom as usize) + 15) / 16 * 16;
        let right = if right_up < self.width {
            right_up
        } else {
            self.width
        };
        let bottom = if bottom_up < self.height {
            bottom_up
        } else {
            self.height
        };
        let left = if left < right {
            left
        } else {
            right
        };
        let top = if top < bottom {
            top
        } else {
            bottom
        };
        (left, top, right, bottom)
    }

    /// Apply row `row` of a main view between columns `left` and `right`:
    /// Y is copied and each U/V sample fills its 2x2 block.
    fn apply_main_row(&mut self, main: &Yuv420Planes<'_>, row: usize, left: usize, right: usize)
        requires
            old(self).wf(),
            planes_fit(*main, old(self).frame_width(), old(self).frame_height()),
            planes_addressable(*main),
            row < old(self).frame_height(),
            left <= right <= old(self).frame_width(),
        ensures
            final(self).wf(),
            final(self).frame_width() == old(self).frame_width(),
            final(self).frame_height() == old(self).frame_height(),
            plane_updated(
                final(self).y_plane(),
                old(self).y_plane(),
                old(self).frame_width(),
                old(self).frame_height(),
                |x: int, y: int| y == row && left <= x < right,
                |x: int, y: int| main.main_y(x, y),
            ),
            plane_updated(
                final(self).u_plane(),
                old(self).u_plane(),
                old(self).frame_width(),
                old(self).frame_height(),
                |x: int, y: int| y == row && left <= x < right,
                |x: int, y: int| main.main_u(x, y),
            ),
            plane_updated(
                final(self).v_plane(),
                old(self).v_plane(),
                old(self).frame_width(),
                old(self).frame_height(),
                |x: int, y: int| y == row && left <= x < right,
                |x: int, y: int| main.main_v(x, y),
            ),
    {
        let ghost w = self.width as int;
        let ghost h = self.height as int;
        let ghost y0 = self.y@;
        let ghost u0 = self.u@;
        let ghost v0 = self.v@;
        let ghost value_y = |x: int, y: int| main.main_y(x, y);
        let ghost value_u = |x: int, y: int| main.main_u(x, y);
        let ghost value_v = |x: int, y: int| main.main_v(x, y);
        proof {
            lemma_row_sample_bounds(main.y_stride as int, h, w, row as int, 0);
            lemma_row_sample_bounds(main.u_stride as int, h / 2, w / 2, row as int / 2, 0);
            lemma_row_sample_bounds(main.v_stride as int, h / 2, w / 2, row as int / 2, 0);
            lemma_pixel_index_bounds(w, h, 0, row as int);
            lemma_update_nothing(y0, w, h, |x: int, y: int| y == row && left <= x < left, value_y);
            lemma_update_nothing(u0, w, h, |x: int, y: int| y == row && left <= x < left, value_u);
            lemma_update_nothing(v0, w, h, |x: int, y: int| y == row && left <= x < left, value_v);
        }
        let src = row * main.y_stride;
        let (src_u, src_v) = ((row / 2) * main.u_stride, (row / 2) * main.v_stride);
        let dst = row * self.width;
        let mut x = left;
        while x < right
            invariant
                self.wf(),
                self.width == w,
                self.height == h,
                planes_fit(*main, w, h),
                planes_addressable(*main),
                row < h,
                left <= x <= right <= w,
                src == row * main.y_stride,
                src_u == (row / 2) * main.u_stride,
                src_v == (row / 2) * main.v_stride,
                dst == row * w,
                value_y == (|x: int, y: int| main.main_y(x, y)),
                value_u == (|x: int, y: int| main.main_u(x, y)),
                value_v == (|x: int, y: int| main.main_v(x, y)),
                plane_updated(self.y@, y0, w, h, |px: int, py: int| py == row && left <= px < x, value_y),
                plane_updated(self.u@, u0, w, h, |px: int, py: int| py == row && left <= px < x, value_u),
                plane_updated(self.v@, v0, w, h, |px: int, py: int| py == row && left <= px < x, value_v),
            decreases right - x,
        {
            proof {
                lemma_pixel_index_bounds(w, h, x as int, row as int);
                lemma_row_sample_bounds(main.y_stride as int, h, w, row as int, x as int);
                lemma_row_sample_bounds(main.u_stride as int, h / 2, w / 2, row as int / 2, x as int / 2);
                lemma_row_sample_bounds(main.v_stride as int, h / 2, w / 2, row as int / 2, x as int / 2);
            }
            let ghost y1 = self.y@;
            let ghost u1 = self.u@;
            let ghost v1 = self.v@;
            self.y[dst + x] = main.y[src + x];
            self.u[dst + x] = main.u[src_u + x / 2];
            self.v[dst + x] = main.v[src_v + x / 2];
            proof {
                lemma_write_pixel(y0, y1, w, h, |px: int, py: int| py == row && left <= px < x,
                    |px: int, py: int| py == row && left <= px < x + 1, value_y, x as int, row as int);
                lemma_write_pixel(u0, u1, w, h, |px: int, py: int| py == row && left <= px < x,
                    |px: int, py: int| py == row && left <= px < x + 1, value_u, x as int, row as int);
                lemma_write_pixel(v0, v1, w, h, |px: int, py: int| py == row && left <= px < x,
                    |px: int, py: int| py == row && left <= px < x + 1, value_v, x as int, row as int);
            }
            x += 1;
        }
    }

    /// Apply a decoded main (luma) view inside `regions` (areas B1-B3).
    ///
    /// Y is copied. Each main-view U/V sample fills its whole 2x2 block, so
    /// the region shows at YUV420 quality until an auxiliary view refines its
    /// chroma.
    pub fn apply_main_view(&mut self, main: &Yuv420Planes<'_>, regions: &[Region]) -> (res:
        DecoderResult<()>)
        requires
            old(self).wf(),
        ensures
            final(self).wf(),
            final(self).frame_width() == old(self).frame_width(),
            final(self).frame_height() == old(self).frame_height(),
            res is Ok <==> planes_fit(*main, old(self).frame_width(), old(self).frame_height()),
            res is Ok <==> (main.y_stride >= old(self).frame_width() && main.y_stride * (old(
                self).frame_height() - 1) + old(self).frame_width() <= main.y@.len()
                && main.u_stride >= old(self).frame_width() / 2 && main.u_stride * (old(
                self).frame_height() / 2 - 1) + old(self).frame_width() / 2 <= main.u@.len()
                && main.v_stride >= old(self).frame_width() / 2 && main.v_stride * (old(
                self).frame_height() / 2 - 1) + old(self).frame_width() / 2 <= main.v@.len()),
            res is Err ==> res == Err::<(), DecoderError>(DecoderError::ViewTooSmall) && *final(self)
                == *old(self),
            res is Ok ==> main_view_applied(*old(self), *final(self), *main, regions@),
    {
        match check_planes(main, self.width, self.height) {
            Ok(()) => {},
            Err(e) => {
                return Err(e);
            },
        }
        let ghost w = self.width as int;
        let ghost h = self.height as int;
        let ghost y0 = self.y@;
        let ghost u0 = self.u@;
        let ghost v0 = self.v@;
        let ghost value_y = |x: int, y: int| main.main_y(x, y);
        let ghost value_u = |x: int, y: int| main.main_u(x, y);
        let ghost value_v = |x: int, y: int| main.main_v(x, y);
        proof {
            let none = |x: int, y: int| exists|j: int| 0 <= j < 0 && region_covers(regions@[j], x, y);
            lemma_update_nothing(y0, w, h, none, value_y);
            lemma_update_nothing(u0, w, h, none, value_u);
            lemma_update_nothing(v0, w, h, none, value_v);
        }
        let mut k: usize = 0;
        while k < regions.len()
            invariant
                self.wf(),
                self.width == w,
                self.height == h,
                planes_fit(*main, w, h),
                planes_addressable(*main),
                k <= regions@.len(),
                value_y == (|x: int, y: int| main.main_y(x, y)),
                value_u == (|x: int, y: int| main.main_u(x, y)),
                value_v == (|x: int, y: int| main.main_v(x, y)),
                plane_updated(self.y@, y0, w, h,
                    |x: int, y: int| exists|j: int| 0 <= j < k && region_covers(regions@[j], x, y), value_y),
                plane_updated(self.u@, u0, w, h,
                    |x: int, y: int| exists|j: int| 0 <= j < k && region_covers(regions@[j], x, y), value_u),
                plane_updated(self.v@, v0, w, h,
                    |x: int, y: int| exists|j: int| 0 <= j < k && region_covers(regions@[j], x, y), value_v),
            decreases regions@.len() - k,
        {
            let (left, top, right, bottom) = self.macroblock_bounds(&regions[k]);
            let ghost y1 = self.y@;
            let ghost u1 = self.u@;
            let ghost v1 = self.v@;
            proof {
                let none = |x: int, y: int| top <= y < top && left <= x < right;
                lemma_update_nothing(y1, w, h, none, value_y);
                lemma_update_nothing(u1, w, h, none, value_u);
                lemma_update_nothing(v1, w, h, none, value_v);
            }
            let mut row = top;
            while row < bottom
                invariant
                    self.wf(),
                    self.width == w,
                    self.height == h,
                    planes_fit(*main, w, h),
                    planes_addressable(*main),
                    top <= row <= bottom <= h,
                    left <= right <= w,
                    value_y == (|x: int, y: int| main.main_y(x, y)),
                    value_u == (|x: int, y: int| main.main_u(x, y)),
                    value_v == (|x: int, y: int| main.main_v(x, y)),
                    plane_updated(self.y@, y1, w, h,
                        |x: int, y: int| top <= y < row && left <= x < right, value_y),
                    plane_updated(self.u@, u1, w, h,
                        |x: int, y: int| top <= y < row && left <= x < right, value_u),
                    plane_updated(self.v@, v1, w, h,
                        |x: int, y: int| top <= y < row && left <= x < right, value_v),
                decreases bottom - row,
            {
                let ghost y2 = self.y@;
                let ghost u2 = self.u@;
                let ghost v2 = self.v@;
                self.apply_main_row(main, row, left, right);
                proof {
                    let first = |x: int, y: int| top <= y < row && left <= x < right;
                    let second = |x: int, y: int| y == row && left <= x < right;
                    let both = |x: int, y: int| top <= y < row + 1 && left <= x < right;
                    lemma_updates_compose(y1, y2, self.y@, w, h, first, second, both, value_y);
                    lemma_updates_compose(u1, u2, self.u@, w, h, first, second, both, value_u);
                    lemma_updates_compose(v1, v2, self.v@, w, h, first, second, both, value_v);
                }
                row += 1;
            }
            proof {
                let first = |x: int, y: int| exists|j: int| 0 <= j < k && region_covers(regions@[j], x, y);
                let second = |x: int, y: int| top <= y < bottom && left <= x < right;
                let both = |x: int, y: int| exists|j: int| 0 <= j < k + 1 && region_covers(regions@[j], x, y);
                assert forall|x: int, y: int| 0 <= x < w && 0 <= y < h implies (#[trigger] both(x, y)
                    <==> (first(x, y) || second(x, y))) by {
                    if second(x, y) {
                        assert(region_covers(regions@[k as int], x, y));
                    }
                    if both(x, y) {
                        let j = choose|j: int| 0 <= j < k + 1 && region_covers(regions@[j], x, y);
                        if j < k {
                            assert(first(x, y));
                        }
                    }
                }
                lemma_updates_compose(y0, y1, self.y@, w, h, first, second, both, value_y);
                lemma_updates_compose(u0, u1, self.u@, w, h, first, second, both, value_u);
                lemma_updates_compose(v0, v1, self.v@, w, h, first, second, both, value_v);
            }
            k += 1;
        }
        proof {
            let covered = |x: int, y: int| exists|j: int| 0 <= j < k && region_covers(regions@[j], x, y);
            let covers = |x: int, y: int| regions_cover(regions@, x, y);
            assert forall|x: int, y: int| 0 <= x < w && 0 <= y < h implies (#[trigger] covers(x, y)
                <==> covered(x, y)) by {
                if covers(x, y) {
                    let j = choose|j: int| 0 <= j < regions@.len() && #[trigger] region_covers(regions@[j], x, y);
                    assert(covered(x, y));
                }
            }
            lemma_update_equiv(self.y@, y0, w, h, covered, covers, value_y);
            lemma_update_equiv(self.u@, u0, w, h, covered, covers, value_u);
            lemma_update_equiv(self.v@, v0, w, h, covered, covers, value_v);
        }
        Ok(())
    }

    /// Apply row `row` of an auxiliary view to the odd columns between
    /// `left` and `right` (areas B4 and B5): U from the left half of
    /// auxiliary Y, V from its right half.
    fn apply_aux_odd_columns(&mut self, aux: &Yuv420Planes<'_>, row: usize, left: usize, right: usize)
        requires
            old(self).wf(),
            planes_fit(*aux, old(self).frame_width(), old(self).frame_height()),
            planes_addressable(*aux),
            row < old(self).frame_height(),
            left <= right <= old(self).frame_width(),
            left % 2 == 0,
            right % 2 == 0,
        ensures
            final(self).wf(),
            final(self).frame_width() == old(self).frame_width(),
            final(self).frame_height() == old(self).frame_height(),
            final(self).y_plane() == old(self).y_plane(),
            plane_updated(
                final(self).u_plane(),
                old(self).u_plane(),
                old(self).frame_width(),
                old(self).frame_height(),
                |x: int, y: int| y == row && left <= x < right && x % 2 == 1,
                |x: int, y: int| aux.aux_u(old(self).frame_width(), x, y),
            ),
            plane_updated(
                final(self).v_plane(),
                old(self).v_plane(),
                old(self).frame_width(),
                old(self).frame_height(),
                |x: int, y: int| y == row && left <= x < right && x % 2 == 1,
                |x: int, y: int| aux.aux_v(old(self).frame_width(), x, y),
            ),
    {
        let ghost w = self.width as int;
        let ghost h = self.height as int;
        let ghost u0 = self.u@;
        let ghost v0 = self.v@;
        let ghost value_u = |x: int, y: int| aux.aux_u(w, x, y);
        let ghost value_v = |x: int, y: int| aux.aux_v(w, x, y);
        proof {
            lemma_row_sample_bounds(aux.y_stride as int, h, w, row as int, 0);
            lemma_pixel_index_bounds(w, h, 0, row as int);
            let none = |x: int, y: int| y == row && left <= x < left && x % 2 == 1;
            lemma_update_nothing(u0, w, h, none, value_u);
            lemma_update_nothing(v0, w, h, none, value_v);
        }
        let half = self.width / 2;
        let src = row * aux.y_stride;
        let dst = row * self.width;
        let mut x = left / 2;
        while x < right / 2
            invariant
                self.wf(),
                self.width == w,
                self.height == h,
                self.y@ == old(self).y@,
                planes_fit(*aux, w, h),
                planes_addressable(*aux),
                row < h,
                left / 2 <= x <= right / 2,
                left <= right <= w,
                left % 2 == 0,
                right % 2 == 0,
                half == w / 2,
                src == row * aux.y_stride,
                dst == row * w,
                value_u == (|x: int, y: int| aux.aux_u(w, x, y)),
                value_v == (|x: int, y: int| aux.aux_v(w, x, y)),
                plane_updated(self.u@, u0, w, h,
                    |px: int, py: int| py == row && left <= px < 2 * x && px % 2 == 1, value_u),
                plane_updated(self.v@, v0, w, h,
                    |px: int, py: int| py == row && left <= px < 2 * x && px % 2 == 1, value_v),
            decreases right / 2 - x,
        {
            proof {
                lemma_pixel_index_bounds(w, h, 2 * x + 1, row as int);
                lemma_row_sample_bounds(aux.y_stride as int, h, w, row as int, x as int);
                lemma_row_sample_bounds(aux.y_stride as int, h, w, row as int, w / 2 + x);
            }
            let ghost u1 = self.u@;
            let ghost v1 = self.v@;
            self.u[dst + 2 * x + 1] = aux.y[src + x];
            self.v[dst + 2 * x + 1] = aux.y[src + half + x];
            proof {
                let before = |px: int, py: int| py == row && left <= px < 2 * x && px % 2 == 1;
                let after = |px: int, py: int| py == row && left <= px < 2 * (x + 1) && px % 2 == 1;
                lemma_write_pixel(u0, u1, w, h, before, after, value_u, 2 * x + 1, row as int);
                lemma_write_pixel(v0, v1, w, h, before, after, value_v, 2 * x + 1, row as int);
            }
            x += 1;
        }
        proof {
            let done = |px: int, py: int| py == row && left <= px < 2 * x && px % 2 == 1;
            let row_changed = |px: int, py: int| py == row && left <= px < right && px % 2 == 1;
            lemma_update_equiv(self.u@, u0, w, h, done, row_changed, value_u);
            lemma_update_equiv(self.v@, v0, w, h, done, row_changed, value_v);
        }
    }

    /// Apply row `aux_row` of the auxiliary U and V planes to the even
    /// columns between `left` and `right` of frame row `2 * aux_row + 1`
    /// (areas B6-B9): columns 4k from auxiliary U, columns 4k + 2 from
    /// auxiliary V, U from their left quarters and V from their right ones.
    fn apply_aux_even_columns(&mut self, aux: &Yuv420Planes<'_>, aux_row: usize, left: usize, right: usize)
        requires
            old(self).wf(),
            planes_fit(*aux, old(self).frame_width(), old(self).frame_height()),
            planes_addressable(*aux),
            2 * aux_row + 1 < old(self).frame_height(),
            left <= right <= old(self).frame_width(),
            left % 4 == 0,
            right % 4 == 0,
        ensures
            final(self).wf(),
            final(self).frame_width() == old(self).frame_width(),
            final(self).frame_height() == old(self).frame_height(),
            final(self).y_plane() == old(self).y_plane(),
            plane_updated(
                final(self).u_plane(),
                old(self).u_plane(),
                old(self).frame_width(),
                old(self).frame_height(),
                |x: int, y: int| y == 2 * aux_row + 1 && left <= x < right && x % 2 == 0,
                |x: int, y: int| aux.aux_u(old(self).frame_width(), x, y),
            ),
            plane_updated(
                final(self).v_plane(),
                old(self).v_plane(),
                old(self).frame_width(),
                old(self).frame_height(),
                |x: int, y: int| y == 2 * aux_row + 1 && left <= x < right && x % 2 == 0,
                |x: int, y: int| aux.aux_v(old(self).frame_width(), x, y),
            ),
    {
        let ghost w = self.width as int;
        let ghost h = self.height as int;
        let ghost row = 2 * aux_row + 1;
        let ghost u0 = self.u@;
        let ghost v0 = self.v@;
        let ghost value_u = |x: int, y: int| aux.aux_u(w, x, y);
        let ghost value_v = |x: int, y: int| aux.aux_v(w, x, y);
        proof {
            lemma_row_sample_bounds(aux.u_stride as int, h / 2, w / 2, aux_row as int, 0);
            lemma_row_sample_bounds(aux.v_stride as int, h / 2, w / 2, aux_row as int, 0);
            lemma_pixel_index_bounds(w, h, 0, row);
            let none = |x: int, y: int| y == row && left <= x < left && x % 2 == 0;
            lemma_update_nothing(u0, w, h, none, value_u);
            lemma_update_nothing(v0, w, h, none, value_v);
        }
        let quarter = self.width / 4;
        let (src_u, src_v) = (aux_row * aux.u_stride, aux_row * aux.v_stride);
        let dst = (2 * aux_row + 1) * self.width;
        let mut x = left / 4;
        while x < right / 4
            invariant
                self.wf(),
                self.width == w,
                self.height == h,
                self.y@ == old(self).y@,
                planes_fit(*aux, w, h),
                planes_addressable(*aux),
                row == 2 * aux_row + 1,
                row < h,
                left / 4 <= x <= right / 4,
                left <= right <= w,
                left % 4 == 0,
                right % 4 == 0,
                quarter == w / 4,
                src_u == aux_row * aux.u_stride,
                src_v == aux_row * aux.v_stride,
                dst == row * w,
                value_u == (|x: int, y: int| aux.aux_u(w, x, y)),
                value_v == (|x: int, y: int| aux.aux_v(w, x, y)),
                plane_updated(self.u@, u0, w, h,
                    |px: int, py: int| py == row && left <= px < 4 * x && px % 2 == 0, value_u),
                plane_updated(self.v@, v0, w, h,
                    |px: int, py: int| py == row && left <= px < 4 * x && px % 2 == 0, value_v),
            decreases right / 4 - x,
        {
            proof {
                lemma_pixel_index_bounds(w, h, 4 * x + 2, row);
                lemma_row_sample_bounds(aux.u_stride as int, h / 2, w / 2, aux_row as int, x as int);
                lemma_row_sample_bounds(aux.u_stride as int, h / 2, w / 2, aux_row as int, w / 4 + x);
                lemma_row_sample_bounds(aux.v_stride as int, h / 2, w / 2, aux_row as int, x as int);
                lemma_row_sample_bounds(aux.v_stride as int, h / 2, w / 2, aux_row as int, w / 4 + x);
            }
            let ghost u1 = self.u@;
            let ghost v1 = self.v@;
            self.u[dst + 4 * x] = aux.u[src_u + x];
            self.v[dst + 4 * x] = aux.u[src_u + quarter + x];
            let ghost u2 = self.u@;
            let ghost v2 = self.v@;
            proof {
                let before = |px: int, py: int| py == row && left <= px < 4 * x && px % 2 == 0;
                let mid = |px: int, py: int| py == row && left <= px < 4 * x + 1 && px % 2 == 0;
                lemma_write_pixel(u0, u1, w, h, before, mid, value_u, 4 * x, row);
                lemma_write_pixel(v0, v1, w, h, before, mid, value_v, 4 * x, row);
            }
            self.u[dst + 4 * x + 2] = aux.v[src_v + x];
            self.v[dst + 4 * x + 2] = aux.v[src_v + quarter + x];
            proof {
                let mid = |px: int, py: int| py == row && left <= px < 4 * x + 1 && px % 2 == 0;
                let after = |px: int, py: int| py == row && left <= px < 4 * (x + 1) && px % 2 == 0;
                lemma_write_pixel(u0, u2, w, h, mid, after, value_u, 4 * x + 2, row);
                lemma_write_pixel(v0, v2, w, h, mid, after, value_v, 4 * x + 2, row);
            }
            x += 1;
        }
        proof {
            let done = |px: int, py: int| py == row && left <= px < 4 * x && px % 2 == 0;
            let row_changed = |px: int, py: int| py == row && left <= px < right && px % 2 == 0;
            lemma_update_equiv(self.u@, u0, w, h, done, row_changed, value_u);
            lemma_update_equiv(self.v@, v0, w, h, done, row_changed, value_v);
        }
    }

    /// Apply a decoded auxiliary (chroma) view in YUV444v2 layout inside
    /// `regions` (areas B4-B9).
    ///
    /// - Auxiliary Y, left half: U at odd columns, every row. Right half: V.
    /// - Auxiliary U, left quarter: U at columns 4x of odd rows. Right
    ///   quarter: V.
    /// - Auxiliary V, left quarter: U at columns 4x+2 of odd rows. Right
    ///   quarter: V.
    ///
    /// Y and the chroma at even columns of even rows are left as they were.
    pub fn apply_auxiliary_view_v2(&mut self, aux: &Yuv420Planes<'_>, regions: &[Region]) -> (res:
        DecoderResult<()>)
        requires
            old(self).wf(),
        ensures
            final(self).wf(),
            final(self).frame_width() == old(self).frame_width(),
            final(self).frame_height() == old(self).frame_height(),
            final(self).y_plane() == old(self).y_plane(),
            res is Ok <==> planes_fit(*aux, old(self).frame_width(), old(self).frame_height()),
            res is Ok <==> (aux.y_stride >= old(self).frame_width() && aux.y_stride * (old(
                self).frame_height() - 1) + old(self).frame_width() <= aux.y@.len()
                && aux.u_stride >= old(self).frame_width() / 2 && aux.u_stride * (old(
                self).frame_height() / 2 - 1) + old(self).frame_width() / 2 <= aux.u@.len()
                && aux.v_stride >= old(self).frame_width() / 2 && aux.v_stride * (old(
                self).frame_height() / 2 - 1) + old(self).frame_width() / 2 <= aux.v@.len()),
            res is Err ==> res == Err::<(), DecoderError>(DecoderError::ViewTooSmall) && *final(self)
                == *old(self),
            res is Ok ==> aux_view_applied(*old(self), *final(self), *aux, regions@),
    {
        match check_planes(aux, self.width, self.height) {
            Ok(()) => {},
            Err(e) => {
                return Err(e);
            },
        }
        let ghost w = self.width as int;
        let ghost h = self.height as int;
        let ghost u0 = self.u@;
        let ghost v0 = self.v@;
        let ghost value_u = |x: int, y: int| aux.aux_u(w, x, y);
        let ghost value_v = |x: int, y: int| aux.aux_v(w, x, y);
        proof {
            let none = |x: int, y: int|
                (exists|j: int| 0 <= j < 0 && region_covers(regions@[j], x, y)) && aux_carries(x, y);
            lemma_update_nothing(u0, w, h, none, value_u);
            lemma_update_nothing(v0, w, h, none, value_v);
        }
        let mut k: usize = 0;
        while k < regions.len()
            invariant
                self.wf(),
                self.width == w,
                self.height == h,
                self.y@ == old(self).y@,
                planes_fit(*aux, w, h),
                planes_addressable(*aux),
                k <= regions@.len(),
                value_u == (|x: int, y: int| aux.aux_u(w, x, y)),
                value_v == (|x: int, y: int| aux.aux_v(w, x, y)),
                plane_updated(self.u@, u0, w, h,
                    |x: int, y: int| (exists|j: int| 0 <= j < k && region_covers(regions@[j], x, y))
                        && aux_carries(x, y), value_u),
                plane_updated(self.v@, v0, w, h,
                    |x: int, y: int| (exists|j: int| 0 <= j < k && region_covers(regions@[j], x, y))
                        && aux_carries(x, y), value_v),
            decreases regions@.len() - k,
        {
            let (left, top, right, bottom) = self.macroblock_bounds(&regions[k]);
            let ghost u1 = self.u@;
            let ghost v1 = self.v@;
            proof {
                let none = |x: int, y: int| top <= y < top && left <= x < right && x % 2 == 1;
                lemma_update_nothing(u1, w, h, none, value_u);
                lemma_update_nothing(v1, w, h, none, value_v);
            }

            // B4, B5: odd columns of every row.
            let mut row = top;
            while row < bottom
                invariant
                    self.wf(),
                    self.width == w,
                    self.height == h,
                    self.y@ == old(self).y@,
                    planes_fit(*aux, w, h),
                    planes_addressable(*aux),
                    top <= row <= bottom <= h,
                    left <= right <= w,
                    left % 16 == 0,
                    right % 16 == 0,
                    value_u == (|x: int, y: int| aux.aux_u(w, x, y)),
                    value_v == (|x: int, y: int| aux.aux_v(w, x, y)),
                    plane_updated(self.u@, u1, w, h,
                        |x: int, y: int| top <= y < row && left <= x < right && x % 2 == 1, value_u),
                    plane_updated(self.v@, v1, w, h,
                        |x: int, y: int| top <= y < row && left <= x < right && x % 2 == 1, value_v),
                decreases bottom - row,
            {
                let ghost u2 = self.u@;
                let ghost v2 = self.v@;
                self.apply_aux_odd_columns(aux, row, left, right);
                proof {
                    let first = |x: int, y: int| top <= y < row && left <= x < right && x % 2 == 1;
                    let second = |x: int, y: int| y == row && left <= x < right && x % 2 == 1;
                    let both = |x: int, y: int| top <= y < row + 1 && left <= x < right && x % 2 == 1;
                    lemma_updates_compose(u1, u2, self.u@, w, h, first, second, both, value_u);
                    lemma_updates_compose(v1, v2, self.v@, w, h, first, second, both, value_v);
                }
                row += 1;
            }

            // B6-B9: even columns of odd rows.
            let mut aux_row = top / 2;
            proof {
                let odd = |x: int, y: int| top <= y < bottom && left <= x < right && x % 2 == 1;
                let none_even = |x: int, y: int| (top <= y < bottom && left <= x < right && x % 2 == 1)
                    || (top <= y < 2 * aux_row && left <= x < right && x % 2 == 0 && y % 2 == 1);
                lemma_update_equiv(self.u@, u1, w, h, odd, none_even, value_u);
                lemma_update_equiv(self.v@, v1, w, h, odd, none_even, value_v);
            }
            while aux_row < bottom / 2
                invariant
                    self.wf(),
                    self.width == w,
                    self.height == h,
                    self.y@ == old(self).y@,
                    planes_fit(*aux, w, h),
                    planes_addressable(*aux),
                    top / 2 <= aux_row <= bottom / 2,
                    top <= bottom <= h,
                    top % 16 == 0,
                    bottom % 16 == 0,
                    left <= right <= w,
                    left % 16 == 0,
                    right % 16 == 0,
                    value_u == (|x: int, y: int| aux.aux_u(w, x, y)),
                    value_v == (|x: int, y: int| aux.aux_v(w, x, y)),
                    plane_updated(self.u@, u1, w, h,
                        |x: int, y: int| (top <= y < bottom && left <= x < right && x % 2 == 1)
                            || (top <= y < 2 * aux_row && left <= x < right && x % 2 == 0 && y % 2 == 1),
                        value_u),
                    plane_updated(self.v@, v1, w, h,
                        |x: int, y: int| (top <= y < bottom && left <= x < right && x % 2 == 1)
                            || (top <= y < 2 * aux_row && left <= x < right && x % 2 == 0 && y % 2 == 1),
                        value_v),
                decreases bottom / 2 - aux_row,
            {
                let ghost u2 = self.u@;
                let ghost v2 = self.v@;
                self.apply_aux_even_columns(aux, aux_row, left, right);
                proof {
                    let first = |x: int, y: int| (top <= y < bottom && left <= x < right && x % 2 == 1)
                        || (top <= y < 2 * aux_row && left <= x < right && x % 2 == 0 && y % 2 == 1);
                    let second = |x: int, y: int| y == 2 * aux_row + 1 && left <= x < right && x % 2 == 0;
                    let both = |x: int, y: int| (top <= y < bottom && left <= x < right && x % 2 == 1)
                        || (top <= y < 2 * (aux_row + 1) && left <= x < right && x % 2 == 0 && y % 2 == 1);
                    lemma_updates_compose(u1, u2, self.u@, w, h, first, second, both, value_u);
                    lemma_updates_compose(v1, v2, self.v@, w, h, first, second, both, value_v);
                }
                aux_row += 1;
            }
            proof {
                let first = |x: int, y: int|
                    (exists|j: int| 0 <= j < k && region_covers(regions@[j], x, y)) && aux_carries(x, y);
                let second = |x: int, y: int| (top <= y < bottom && left <= x < right && x % 2 == 1)
                    || (top <= y < 2 * aux_row && left <= x < right && x % 2 == 0 && y % 2 == 1);
                let both = |x: int, y: int|
                    (exists|j: int| 0 <= j < k + 1 && region_covers(regions@[j], x, y)) && aux_carries(x, y);
                assert forall|x: int, y: int| 0 <= x < w && 0 <= y < h implies (#[trigger] both(x, y)
                    <==> (first(x, y) || second(x, y))) by {
                    if second(x, y) {
                        assert(region_covers(regions@[k as int], x, y));
                    }
                    if both(x, y) {
                        let j = choose|j: int| 0 <= j < k + 1 && region_covers(regions@[j], x, y);
                        if j < k {
                            assert(first(x, y));
                        } else {
                            assert(top <= y < bottom && left <= x < right);
                        }
                    }
                }
                lemma_updates_compose(u0, u1, self.u@, w, h, first, second, both, value_u);
                lemma_updates_compose(v0, v1, self.v@, w, h, first, second, both, value_v);
            }
            k += 1;
        }
        proof {
            let covered = |x: int, y: int|
                (exists|j: int| 0 <= j < k && region_covers(regions@[j], x, y)) && aux_carries(x, y);
            let covers = |x: int, y: int| regions_cover(regions@, x, y) && aux_carries(x, y);
            assert forall|x: int, y: int| 0 <= x < w && 0 <= y < h implies (#[trigger] covers(x, y)
                <==> covered(x, y)) by {
                if covers(x, y) {
                    let j = choose|j: int| 0 <= j < regions@.len() && #[trigger] region_covers(regions@[j], x, y);
                    assert(covered(x, y));
                }
            }
            lemma_update_equiv(self.u@, u0, w, h, covered, covers, value_u);
            lemma_update_equiv(self.v@, v0, w, h, covered, covers, value_v);
        }
        Ok(())
    }
}

} // verus!
