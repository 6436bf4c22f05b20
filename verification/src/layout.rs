//! Planes as row-major sequences of samples, and what an update does to them.
use vstd::prelude::*;

use crate::arith::{lemma_index_pixel, lemma_pixel_index_bounds, lemma_pixel_index_unique};

verus! {

/// The sample of pixel `(x, y)` in a tightly packed plane `width` samples wide.
pub open spec fn pixel(plane: Seq<u8>, width: int, x: int, y: int) -> u8 {
    plane[y * width + x]
}

/// A plane of `len` samples that all hold `value`.
pub open spec fn filled(len: int, value: u8) -> Seq<u8> {
    Seq::new(len as nat, |i: int| value)
}

/// Within a `width` x `height` plane, `new` holds `value(x, y)` at each pixel
/// where `changed(x, y)` and the sample of `old` everywhere else.
#[verifier::opaque]
pub open spec fn plane_updated(
    new: Seq<u8>,
    old: Seq<u8>,
    width: int,
    height: int,
    changed: spec_fn(int, int) -> bool,
    value: spec_fn(int, int) -> u8,
) -> bool {
    forall|x: int, y: int|
        0 <= x < width && 0 <= y < height ==> #[trigger] pixel(new, width, x, y) == if changed(
            x,
            y,
        ) {
            value(x, y)
        } else {
            pixel(old, width, x, y)
        }
}

/// A plane is an update of itself that changes nothing.
pub proof fn lemma_update_nothing(
    plane: Seq<u8>,
    width: int,
    height: int,
    changed: spec_fn(int, int) -> bool,
    value: spec_fn(int, int) -> u8,
)
    requires
        forall|x: int, y: int| 0 <= x < width && 0 <= y < height ==> !#[trigger] changed(x, y),
    ensures
        plane_updated(plane, plane, width, height, changed, value),
{
    reveal(plane_updated);
}

/// Writing `value(x0, y0)` at pixel `(x0, y0)` extends an update by that pixel.
pub proof fn lemma_write_pixel(
    old: Seq<u8>,
    plane: Seq<u8>,
    width: int,
    height: int,
    changed: spec_fn(int, int) -> bool,
    changed_after: spec_fn(int, int) -> bool,
    value: spec_fn(int, int) -> u8,
    x0: int,
    y0: int,
)
    requires
        plane_updated(plane, old, width, height, changed, value),
        plane.len() == width * height,
        0 <= x0 < width,
        0 <= y0 < height,
        forall|x: int, y: int|
            0 <= x < width && 0 <= y < height ==> (#[trigger] changed_after(x, y) <==> (changed(
                x,
                y,
            ) || (x == x0 && y == y0))),
    ensures
        plane_updated(
            plane.update(y0 * width + x0, value(x0, y0)),
            old,
            width,
            height,
            changed_after,
            value,
        ),
{
    reveal(plane_updated);
    let new = plane.update(y0 * width + x0, value(x0, y0));
    lemma_pixel_index_bounds(width, height, x0, y0);
    assert forall|x: int, y: int| 0 <= x < width && 0 <= y < height implies #[trigger] pixel(
        new,
        width,
        x,
        y,
    ) == if changed_after(x, y) {
        value(x, y)
    } else {
        pixel(old, width, x, y)
    } by {
        lemma_pixel_index_bounds(width, height, x, y);
        assert(pixel(plane, width, x, y) == plane[y * width + x]);
        if y * width + x == y0 * width + x0 {
            lemma_pixel_index_unique(width, x, y, x0, y0);
        }
    }
}

/// An update followed by another, both with the same values, is one update
/// of the pixels that either changed.
pub proof fn lemma_updates_compose(
    p0: Seq<u8>,
    p1: Seq<u8>,
    p2: Seq<u8>,
    width: int,
    height: int,
    first: spec_fn(int, int) -> bool,
    second: spec_fn(int, int) -> bool,
    both: spec_fn(int, int) -> bool,
    value: spec_fn(int, int) -> u8,
)
    requires
        plane_updated(p1, p0, width, height, first, value),
        plane_updated(p2, p1, width, height, second, value),
        forall|x: int, y: int|
            0 <= x < width && 0 <= y < height ==> (#[trigger] both(x, y) <==> (first(x, y)
                || second(x, y))),
    ensures
        plane_updated(p2, p0, width, height, both, value),
{
    reveal(plane_updated);
    assert forall|x: int, y: int| 0 <= x < width && 0 <= y < height implies #[trigger] pixel(
        p2,
        width,
        x,
        y,
    ) == if both(x, y) {
        value(x, y)
    } else {
        pixel(p0, width, x, y)
    } by {
        assert(pixel(p1, width, x, y) == pixel(p1, width, x, y));
    }
}

/// An update is the same update under any description of the pixels it
/// changes that agrees inside the plane.
pub proof fn lemma_update_equiv(
    new: Seq<u8>,
    old: Seq<u8>,
    width: int,
    height: int,
    changed: spec_fn(int, int) -> bool,
    same: spec_fn(int, int) -> bool,
    value: spec_fn(int, int) -> u8,
)
    requires
        plane_updated(new, old, width, height, changed, value),
        forall|x: int, y: int|
            0 <= x < width && 0 <= y < height ==> (#[trigger] same(x, y) <==> changed(x, y)),
    ensures
        plane_updated(new, old, width, height, same, value),
{
    reveal(plane_updated);
}

/// Two `width` x `height` planes that agree at every pixel are equal.
pub proof fn lemma_planes_equal_by_pixels(p: Seq<u8>, q: Seq<u8>, width: int, height: int)
    requires
        0 < width,
        p.len() == width * height,
        q.len() == width * height,
        forall|x: int, y: int|
            0 <= x < width && 0 <= y < height ==> #[trigger] pixel(p, width, x, y) == pixel(
                q,
                width,
                x,
                y,
            ),
    ensures
        p == q,
{
    assert forall|i: int| 0 <= i < p.len() implies p[i] == q[i] by {
        lemma_index_pixel(width, height, i);
        assert(pixel(p, width, i % width, i / width) == pixel(q, width, i % width, i / width));
    }
    assert(p =~= q);
}

} // verus!
