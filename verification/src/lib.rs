//! AVC444 frame reconstruction.
//!
//! In AVC444 mode the server splits each YUV444 frame into two YUV420p
//! frames, sent as two H.264 streams: the main (luma) view and the auxiliary
//! (chroma) view. [`Yuv444Frame`] holds the reconstructed YUV444 frame and
//! applies each decoded view to it, following MS-RDPEGFX 3.3.8.3.2 (YUV444
//! mode) and 3.3.8.3.3 (YUV444v2 mode).
//!
//! The frame persists between updates because a PDU may carry only one of the
//! views: a luma-only update is shown at YUV420 quality until the matching
//! chroma arrives, and a chroma-only update refines the last luma.
//!
//! Chroma at even columns of even rows exists only in the main view, where the
//! encoder stored a 2x2 average. It is used as-is; the specification's reverse
//! filter is optional and not applied.

mod arith;
pub mod error;
pub mod laws;
pub mod layout;
pub mod frame;
pub mod planes;
pub mod region;

pub use error::{DecoderError, DecoderResult};
pub use frame::Yuv444Frame;
pub use planes::{check_planes, Yuv420Planes};
pub use region::Region;
