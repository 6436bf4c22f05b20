use ironrdp_egfx::{check_planes, DecoderError, Region, Yuv420Planes, Yuv444Frame};

const W: usize = 32;
const H: usize = 32;

struct Planes {
    y: Vec<u8>,
    u: Vec<u8>,
    v: Vec<u8>,
    y_stride: usize,
    c_stride: usize,
}

impl Planes {
    /// Planes whose samples are a function of their position, with the given
    /// strides (at least the row lengths).
    fn patterned(y_stride: usize, c_stride: usize) -> Self {
        let mut y = vec![0u8; y_stride * H];
        let mut u = vec![0u8; c_stride * H / 2];
        let mut v = vec![0u8; c_stride * H / 2];
        for (i, s) in y.iter_mut().enumerate() {
            *s = u8::try_from((i * 7 + 3) % 251).expect("fits");
        }
        for (i, s) in u.iter_mut().enumerate() {
            *s = u8::try_from((i * 11 + 5) % 253).expect("fits");
        }
        for (i, s) in v.iter_mut().enumerate() {
            *s = u8::try_from((i * 13 + 9) % 241).expect("fits");
        }
        Self { y, u, v, y_stride, c_stride }
    }

    fn filled(y: u8, u: u8, v: u8) -> Self {
        Self {
            y: vec![y; W * H],
            u: vec![u; W / 2 * H / 2],
            v: vec![v; W / 2 * H / 2],
            y_stride: W,
            c_stride: W / 2,
        }
    }

    fn view(&self) -> Yuv420Planes<'_> {
        Yuv420Planes {
            y: &self.y,
            y_stride: self.y_stride,
            u: &self.u,
            u_stride: self.c_stride,
            v: &self.v,
            v_stride: self.c_stride,
        }
    }
}

fn planes_of(frame: &Yuv444Frame) -> (Vec<u8>, Vec<u8>, Vec<u8>) {
    (frame.y().to_vec(), frame.u().to_vec(), frame.v().to_vec())
}

fn whole() -> [Region; 1] {
    [Region { left: 0, top: 0, right: 32, bottom: 32 }]
}

#[test]
fn new_frame_is_black_and_tightly_packed() {
    let frame = Yuv444Frame::new(48, 16).expect("frame");
    assert_eq!(frame.width(), 48);
    assert_eq!(frame.height(), 16);
    assert_eq!(frame.y(), vec![0u8; 48 * 16].as_slice());
    assert_eq!(frame.u(), vec![128u8; 48 * 16].as_slice());
    assert_eq!(frame.v(), vec![128u8; 48 * 16].as_slice());
}

#[test]
fn new_reports_each_size_error() {
    assert_eq!(Yuv444Frame::new(0, 16).err(), Some(DecoderError::FrameSizeNotAligned));
    assert_eq!(Yuv444Frame::new(16, 0).err(), Some(DecoderError::FrameSizeNotAligned));
    assert_eq!(Yuv444Frame::new(24, 16).err(), Some(DecoderError::FrameSizeNotAligned));
    assert_eq!(Yuv444Frame::new(16, 40).err(), Some(DecoderError::FrameSizeNotAligned));
    let big = 1usize << (usize::BITS / 2);
    assert_eq!(Yuv444Frame::new(big, big).err(), Some(DecoderError::FrameSizeOverflow));
}

#[test]
fn errors_describe_themselves() {
    assert_eq!(
        DecoderError::FrameSizeNotAligned.message(),
        "AVC444 frame size must be a nonzero multiple of 16"
    );
    assert_eq!(DecoderError::FrameSizeOverflow.message(), "AVC444 frame size overflows");
    assert_eq!(
        DecoderError::ViewTooSmall.message(),
        "decoded AVC444 view is smaller than the frame"
    );
}

#[test]
fn check_planes_accepts_exactly_the_planes_that_fit() {
    // The last row need not be padded to the stride.
    let y = vec![0u8; 40 * (H - 1) + W];
    let c = vec![0u8; 20 * (H / 2 - 1) + W / 2];
    let fitting = Yuv420Planes { y: &y, y_stride: 40, u: &c, u_stride: 20, v: &c, v_stride: 20 };
    assert_eq!(check_planes(&fitting, W, H), Ok(()));

    let short_y = vec![0u8; 40 * (H - 1) + W - 1];
    let short = Yuv420Planes { y: &short_y, ..fitting };
    assert_eq!(check_planes(&short, W, H), Err(DecoderError::ViewTooSmall));

    let short_c = vec![0u8; 20 * (H / 2 - 1) + W / 2 - 1];
    let short_v = Yuv420Planes { v: &short_c, ..fitting };
    assert_eq!(check_planes(&short_v, W, H), Err(DecoderError::ViewTooSmall));

    // A stride shorter than a row is refused however long the plane is.
    let long = vec![0u8; 10 * W * H];
    let narrow = Yuv420Planes { y: &long, y_stride: W - 1, ..fitting };
    assert_eq!(check_planes(&narrow, W, H), Err(DecoderError::ViewTooSmall));

    // A stride so large that the size overflows is refused.
    let huge = Yuv420Planes { y_stride: usize::MAX / 2, ..fitting };
    assert_eq!(check_planes(&huge, W, H), Err(DecoderError::ViewTooSmall));
}

#[test]
fn main_view_reads_planes_at_their_strides() {
    let main = Planes::patterned(40, 24);
    let mut frame = Yuv444Frame::new(W, H).expect("frame");
    frame.apply_main_view(&main.view(), &whole()).expect("main view");
    for row in 0..H {
        for col in 0..W {
            let i = row * W + col;
            assert_eq!(frame.y()[i], main.y[row * 40 + col]);
            assert_eq!(frame.u()[i], main.u[row / 2 * 24 + col / 2]);
            assert_eq!(frame.v()[i], main.v[row / 2 * 24 + col / 2]);
        }
    }
}

#[test]
fn auxiliary_view_places_each_sample() {
    let aux = Planes::patterned(W, W / 2);
    let mut frame = Yuv444Frame::new(W, H).expect("frame");
    frame.apply_auxiliary_view_v2(&aux.view(), &whole()).expect("auxiliary view");
    for row in 0..H {
        for col in 0..W {
            let i = row * W + col;
            let expected = if col % 2 == 1 {
                Some((aux.y[row * W + col / 2], aux.y[row * W + W / 2 + col / 2]))
            } else if row % 2 == 1 && col % 4 == 0 {
                Some((aux.u[row / 2 * (W / 2) + col / 4], aux.u[row / 2 * (W / 2) + W / 4 + col / 4]))
            } else if row % 2 == 1 {
                Some((aux.v[row / 2 * (W / 2) + col / 4], aux.v[row / 2 * (W / 2) + W / 4 + col / 4]))
            } else {
                None
            };
            match expected {
                Some((u, v)) => assert_eq!((frame.u()[i], frame.v()[i]), (u, v), "({col},{row})"),
                None => assert_eq!((frame.u()[i], frame.v()[i]), (128, 128), "({col},{row})"),
            }
            // The auxiliary view never touches luma.
            assert_eq!(frame.y()[i], 0);
        }
    }
}

#[test]
fn failed_update_leaves_the_frame_unchanged() {
    let main = Planes::patterned(W, W / 2);
    let mut frame = Yuv444Frame::new(W, H).expect("frame");
    frame.apply_main_view(&main.view(), &whole()).expect("main view");
    let before = planes_of(&frame);
    let short = Planes { y: vec![1; W * H], u: vec![1; 3], v: vec![1; W * H], y_stride: W, c_stride: W / 2 };
    assert_eq!(frame.apply_main_view(&short.view(), &whole()), Err(DecoderError::ViewTooSmall));
    assert_eq!(
        frame.apply_auxiliary_view_v2(&short.view(), &whole()),
        Err(DecoderError::ViewTooSmall)
    );
    assert_eq!(planes_of(&frame), before);
}

#[test]
fn regions_are_clipped_to_the_frame() {
    let white = Planes::filled(255, 128, 128);
    let mut frame = Yuv444Frame::new(W, H).expect("frame");
    let region = [Region { left: 17, top: 30, right: 1000, bottom: 60000 }];
    frame.apply_main_view(&white.view(), &region).expect("main view");
    for row in 0..H {
        for col in 0..W {
            let inside = col >= 16 && row >= 16;
            assert_eq!(frame.y()[row * W + col] == 255, inside, "({col},{row})");
        }
    }
}

#[test]
fn inverted_regions_update_nothing() {
    let white = Planes::filled(255, 0, 0);
    let mut frame = Yuv444Frame::new(W, H).expect("frame");
    let before = planes_of(&frame);
    let regions = [
        Region { left: 20, top: 0, right: 4, bottom: 32 },
        Region { left: 0, top: 31, right: 32, bottom: 0 },
        Region { left: 16, top: 16, right: 16, bottom: 16 },
    ];
    frame.apply_main_view(&white.view(), &regions).expect("main view");
    frame.apply_auxiliary_view_v2(&white.view(), &regions).expect("auxiliary view");
    assert_eq!(planes_of(&frame), before);
}

#[test]
fn an_empty_region_inside_a_macroblock_still_updates_it() {
    // Left and right are both 20: no pixel of the rectangle itself, yet the
    // macroblock column 16..32 is converted.
    let white = Planes::filled(255, 128, 128);
    let mut frame = Yuv444Frame::new(W, H).expect("frame");
    let region = [Region { left: 20, top: 3, right: 20, bottom: 4 }];
    frame.apply_main_view(&white.view(), &region).expect("main view");
    for row in 0..H {
        for col in 0..W {
            let inside = col >= 16 && row < 16;
            assert_eq!(frame.y()[row * W + col] == 255, inside, "({col},{row})");
        }
    }
}

#[test]
fn applying_a_view_twice_changes_nothing_more() {
    let main = Planes::patterned(W, W / 2);
    let aux = Planes::patterned(W + 8, W / 2 + 4);
    let regions = [Region { left: 3, top: 5, right: 18, bottom: 17 }];
    let mut frame = Yuv444Frame::new(W, H).expect("frame");
    frame.apply_main_view(&main.view(), &regions).expect("main view");
    let once = planes_of(&frame);
    frame.apply_main_view(&main.view(), &regions).expect("main view");
    assert_eq!(planes_of(&frame), once);

    frame.apply_auxiliary_view_v2(&aux.view(), &regions).expect("auxiliary view");
    let once = planes_of(&frame);
    frame.apply_auxiliary_view_v2(&aux.view(), &regions).expect("auxiliary view");
    assert_eq!(planes_of(&frame), once);
}

#[test]
fn regions_applied_apart_or_together_agree() {
    let main = Planes::patterned(W, W / 2);
    let a = Region { left: 0, top: 0, right: 5, bottom: 20 };
    let b = Region { left: 17, top: 16, right: 32, bottom: 32 };

    let mut apart = Yuv444Frame::new(W, H).expect("frame");
    apart.apply_main_view(&main.view(), &[a]).expect("main view");
    apart.apply_main_view(&main.view(), &[b]).expect("main view");

    let mut together = Yuv444Frame::new(W, H).expect("frame");
    together.apply_main_view(&main.view(), &[a, b]).expect("main view");

    assert_eq!(planes_of(&apart), planes_of(&together));
}

#[test]
fn main_view_fills_each_2x2_block_with_one_chroma_sample() {
    let main = Planes::patterned(W, W / 2);
    let mut frame = Yuv444Frame::new(W, H).expect("frame");
    let regions = [Region { left: 16, top: 0, right: 32, bottom: 16 }];
    frame.apply_main_view(&main.view(), &regions).expect("main view");
    for row in 0..16 {
        for col in 16..W {
            let (i, corner) = (row * W + col, (row - row % 2) * W + col - col % 2);
            assert_eq!(frame.u()[i], frame.u()[corner]);
            assert_eq!(frame.v()[i], frame.v()[corner]);
        }
    }
}

#[test]
fn chroma_update_keeps_main_chroma_at_even_positions() {
    let main = Planes::patterned(W, W / 2);
    let aux = Planes::filled(7, 8, 9);
    let mut frame = Yuv444Frame::new(W, H).expect("frame");
    frame.apply_main_view(&main.view(), &whole()).expect("main view");
    let luma = frame.y().to_vec();
    frame.apply_auxiliary_view_v2(&aux.view(), &whole()).expect("auxiliary view");
    assert_eq!(frame.y(), luma.as_slice());
    for row in 0..H {
        for col in 0..W {
            let i = row * W + col;
            if row % 2 == 0 && col % 2 == 0 {
                assert_eq!(frame.u()[i], main.u[row / 2 * (W / 2) + col / 2]);
                assert_eq!(frame.v()[i], main.v[row / 2 * (W / 2) + col / 2]);
            } else if col % 2 == 1 {
                assert_eq!((frame.u()[i], frame.v()[i]), (7, 7));
            } else if col % 4 == 0 {
                assert_eq!((frame.u()[i], frame.v()[i]), (8, 8));
            } else {
                assert_eq!((frame.u()[i], frame.v()[i]), (9, 9));
            }
        }
    }
}
