use vstd::prelude::*;

verus! {

/// Why a frame could not be created or a decoded view could not be applied.
#[derive(Debug, Clone, Copy, PartialEq, Eq, Structural)]
pub enum DecoderError {
    /// The frame size is zero or not a multiple of 16 in some dimension.
    FrameSizeNotAligned,
    /// `width * height` does not fit in `usize`.
    FrameSizeOverflow,
    /// A plane of the decoded view is smaller than the frame needs.
    ViewTooSmall,
}

/// The result of the AVC444 operations.
pub type DecoderResult<T> = Result<T, DecoderError>;

impl DecoderError {
    /// A human-readable description of the error.
    pub fn message(&self) -> (res: &'static str)
        ensures
            res@ == match self {
                DecoderError::FrameSizeNotAligned => "AVC444 frame size must be a nonzero multiple of 16"@,
                DecoderError::FrameSizeOverflow => "AVC444 frame size overflows"@,
                DecoderError::ViewTooSmall => "decoded AVC444 view is smaller than the frame"@,
            },
    {
        match self {
            DecoderError::FrameSizeNotAligned => "AVC444 frame size must be a nonzero multiple of 16",
            DecoderError::FrameSizeOverflow => "AVC444 frame size overflows",
            DecoderError::ViewTooSmall => "decoded AVC444 view is smaller than the frame",
        }
    }
}

} // verus!
