use vstd::prelude::*;

use crate::error::{DecoderError, DecoderResult};

verus! {

/// Borrowed planes of a decoded YUV420p frame (8-bit, 4:2:0).
#[derive(Debug, Clone, Copy)]
pub struct Yuv420Planes<'a> {
    pub y: &'a [u8],
    pub y_stride: usize,
    pub u: &'a [u8],
    pub u_stride: usize,
    pub v: &'a [u8],
    pub v_stride: usize,
}

impl<'a> Yuv420Planes<'a> {
    /// The luma sample that a main view holds for pixel `(x, y)`.
    pub open spec fn main_y(&self, x: int, y: int) -> u8 {
        self.y@[y * self.y_stride + x]
    }

    /// The U sample that a main view holds for the 2x2 block of pixel `(x, y)`.
    pub open spec fn main_u(&self, x: int, y: int) -> u8 {
        self.u@[(y / 2) * self.u_stride + x / 2]
    }

    /// The V sample that a main view holds for the 2x2 block of pixel `(x, y)`.
    pub open spec fn main_v(&self, x: int, y: int) -> u8 {
        self.v@[(y / 2) * self.v_stride + x / 2]
    }

    /// The U sample that an auxiliary view in YUV444v2 layout holds for pixel
    /// `(x, y)` of a frame `width` pixels wide, where `aux_carries(x, y)`:
    /// odd columns come from the left half of auxiliary Y; even columns of
    /// odd rows from the left quarter of auxiliary U (columns 4k) or V
    /// (columns 4k + 2).
    pub open spec fn aux_u(&self, width: int, x: int, y: int) -> u8 {
        if x % 2 == 1 {
            self.y@[y * self.y_stride + x / 2]
        } else if x % 4 == 0 {
            self.u@[(y / 2) * self.u_stride + x / 4]
        } else {
            self.v@[(y / 2) * self.v_stride + x / 4]
        }
    }

    /// The V sample that an auxiliary view in YUV444v2 layout holds for pixel
    /// `(x, y)`: as `aux_u`, from the right half of auxiliary Y and the right
    /// quarters of auxiliary U and V.
    pub open spec fn aux_v(&self, width: int, x: int, y: int) -> u8 {
        if x % 2 == 1 {
            self.y@[y * self.y_stride + width / 2 + x / 2]
        } else if x % 4 == 0 {
            self.u@[(y / 2) * self.u_stride + width / 4 + x / 4]
        } else {
            self.v@[(y / 2) * self.v_stride + width / 4 + x / 4]
        }
    }
}

/// The auxiliary view carries chroma for pixel `(x, y)`: every pixel but
/// those at even columns of even rows, whose chroma only the main view holds.
pub open spec fn aux_carries(x: int, y: int) -> bool {
    x % 2 == 1 || y % 2 == 1
}

/// A plane of `len` samples holds `rows` rows of `row_len` samples at
/// `stride` (the last row need not be padded to the stride).
pub open spec fn plane_fits(len: int, stride: int, row_len: int, rows: int) -> bool {
    &&& stride >= row_len
    &&& stride * (rows - 1) + row_len <= len
}

/// Each plane of `planes` is large enough for a `width` x `height` YUV420p
/// frame at its stride.
pub open spec fn planes_fit(planes: Yuv420Planes, width: int, height: int) -> bool {
    &&& plane_fits(planes.y@.len() as int, planes.y_stride as int, width, height)
    &&& plane_fits(planes.u@.len() as int, planes.u_stride as int, width / 2, height / 2)
    &&& plane_fits(planes.v@.len() as int, planes.v_stride as int, width / 2, height / 2)
}

/// Each plane's length fits in `usize`, as the length of any slice does.
pub open spec fn planes_addressable(planes: Yuv420Planes) -> bool {
    &&& planes.y@.len() <= usize::MAX
    &&& planes.u@.len() <= usize::MAX
    &&& planes.v@.len() <= usize::MAX
}

fn fits(plane: &[u8], stride: usize, row_len: usize, rows: usize) -> (res: bool)
    requires
        rows >= 1,
    ensures
        res == plane_fits(plane@.len() as int, stride as int, row_len as int, rows as int),
        plane@.len() <= usize::MAX,
{
    let len = plane.len();
    assert(plane@.len() == len);
    if stride < row_len {
        return false;
    }
    match stride.checked_mul(rows - 1) {
        Some(n) => match n.checked_add(row_len) {
            Some(needed) => len >= needed,
            None => false,
        },
        None => {
            assert(stride * (rows - 1) + row_len > plane@.len()) by (nonlinear_arith)
                requires
                    stride * (rows - 1) > usize::MAX,
                    plane@.len() == len,
                    len <= usize::MAX,
                    row_len >= 0,
            ;
            false
        },
    }
}

/// Check that each plane is large enough for a `width` x `height` YUV420p
/// frame at its stride.
pub fn check_planes(planes: &Yuv420Planes<'_>, width: usize, height: usize) -> (res: DecoderResult<()>)
    requires
        height >= 2,
    ensures
        res is Ok <==> planes_fit(*planes, width as int, height as int),
        res is Ok <==> (planes.y_stride >= width && planes.y_stride * (height - 1) + width
            <= planes.y@.len() && planes.u_stride >= width / 2 && planes.u_stride * (height / 2 - 1)
            + width / 2 <= planes.u@.len() && planes.v_stride >= width / 2 && planes.v_stride * (
        height / 2 - 1) + width / 2 <= planes.v@.len()),
        res is Err ==> res == Err::<(), DecoderError>(DecoderError::ViewTooSmall),
        res is Ok ==> planes_addressable(*planes),
{
    let (half_width, half_height) = (width / 2, height / 2);
    if fits(planes.y, planes.y_stride, width, height) && fits(
        planes.u,
        planes.u_stride,
        half_width,
        half_height,
    ) && fits(planes.v, planes.v_stride, half_width, half_height) {
        Ok(())
    } else {
        Err(DecoderError::ViewTooSmall)
    }
}

} // verus!
