//! Images of captions.
use vstd::prelude::*;

pub use crate::media::capture::SubMode;
use crate::ts::pts::{is_plausible_pts, MAX_PLAUSIBLE_PTS_MS};

verus! {

/// The parameters of a full image.
#[derive(Debug)]
pub struct FullQuery {
    pub sub: Option<u8>,
}

impl FullQuery {
    /// The frame alone is shown only where it is asked for with a zero.
    pub fn sub_mode(&self) -> (m: SubMode)
        ensures
            m == if self.sub == Some(0u8) {
                SubMode::Raw
            } else {
                SubMode::Burned
            },
    {
        match self.sub {
            Some(0) => SubMode::Raw,
            _ => SubMode::Burned,
        }
    }
}

/// Why there is no image of a caption.
#[derive(Debug, Clone, Copy, PartialEq, Eq, Structural)]
pub enum CaptionError {
    /// There is no such caption.
    NotFound,
    /// The caption's times cannot be right.
    ImplausibleTimes,
}

/// Decides whether images of a caption can be made, from its times where there is
/// such a caption.
pub fn check_caption(times: Option<(i64, i64)>) -> (r: Result<(i64, i64), CaptionError>)
    ensures
        match times {
            None => r == Err::<(i64, i64), CaptionError>(CaptionError::NotFound),
            Some((start, end)) => r == if 0 <= start < end <= MAX_PLAUSIBLE_PTS_MS {
                Ok::<(i64, i64), CaptionError>((start, end))
            } else {
                Err(CaptionError::ImplausibleTimes)
            },
        },
{
    match times {
        None => Err(CaptionError::NotFound),
        Some((start, end)) => {
            if is_plausible_pts(start, end) {
                Ok((start, end))
            } else {
                Err(CaptionError::ImplausibleTimes)
            }
        },
    }
}

} // verus!
