//! Facts about the row-major layout of a plane: pixel `(x, y)` of a plane of
//! width `w` lives at index `y * w + x`.
use vstd::prelude::*;

verus! {

/// A pixel inside a `w` x `h` plane has an index inside the plane.
pub proof fn lemma_pixel_index_bounds(w: int, h: int, x: int, y: int)
    requires
        0 <= x < w,
        0 <= y < h,
    ensures
        0 <= y * w + x < w * h,
{
    assert(0 <= y * w) by (nonlinear_arith)
        requires
            0 <= y,
            0 <= w,
    ;
    assert(y * w + w <= h * w) by (nonlinear_arith)
        requires
            y + 1 <= h,
            0 <= w,
    ;
    assert(h * w == w * h) by (nonlinear_arith);
}

/// Two pixels of a plane of width `w` with the same index are the same pixel.
pub proof fn lemma_pixel_index_unique(w: int, x1: int, y1: int, x2: int, y2: int)
    requires
        0 <= x1 < w,
        0 <= x2 < w,
        0 <= y1,
        0 <= y2,
        y1 * w + x1 == y2 * w + x2,
    ensures
        x1 == x2,
        y1 == y2,
{
    if y1 < y2 {
        assert(y1 * w + w <= y2 * w) by (nonlinear_arith)
            requires
                y1 + 1 <= y2,
                0 <= w,
        ;
    } else if y2 < y1 {
        assert(y2 * w + w <= y1 * w) by (nonlinear_arith)
            requires
                y2 + 1 <= y1,
                0 <= w,
        ;
    }
}

/// Sample `x` of row `row` of a plane with `rows` rows of `row_len` samples at
/// `stride` lies within the first `stride * (rows - 1) + row_len` samples.
pub proof fn lemma_row_sample_bounds(stride: int, rows: int, row_len: int, row: int, x: int)
    requires
        0 <= row < rows,
        0 <= x < row_len,
        row_len <= stride,
    ensures
        0 <= row * stride + x < stride * (rows - 1) + row_len,
        0 <= row * stride <= stride * (rows - 1),
{
    assert(0 <= row * stride <= stride * (rows - 1)) by (nonlinear_arith)
        requires
            0 <= row <= rows - 1,
            0 <= stride,
    ;
}

/// Every index of a `w` x `h` plane is the index of a pixel of it.
pub proof fn lemma_index_pixel(w: int, h: int, i: int)
    requires
        0 < w,
        0 <= i < w * h,
    ensures
        0 <= i % w < w,
        0 <= i / w < h,
        (i / w) * w + i % w == i,
{
    vstd::arithmetic::div_mod::lemma_fundamental_div_mod(i, w);
    assert(w * (i / w) == (i / w) * w) by (nonlinear_arith);
    assert(0 <= i / w < h) by (nonlinear_arith)
        requires
            0 < w,
            0 <= i < w * h,
            i == (i / w) * w + i % w,
            0 <= i % w < w,
    ;
}

} // verus!
