//! Which image sizes the renderer takes.

use vstd::prelude::*;

verus! {

/// Why an image size was turned down.
#[derive(Clone, Copy, Debug, PartialEq, Eq, Structural)]
pub enum DimensionError {
    OddWidth,
    OddHeight,
}

impl DimensionError {
    /// The words in which the error is reported.
    pub open spec fn spec_message(self) -> Seq<char> {
        match self {
            DimensionError::OddWidth => "image width must be even"@,
            DimensionError::OddHeight => "image height must be even"@,
        }
    }

    /// The words in which the error is reported.
    pub fn message(&self) -> (text: &'static str)
        ensures
            text@ == self.spec_message(),
    {
        match self {
            DimensionError::OddWidth => "image width must be even",
            DimensionError::OddHeight => "image height must be even",
        }
    }
}

/// What `check_dimensions` answers for an image of the given size: both
/// sides must be even, and the width is looked at first.
pub open spec fn dimensions_verdict(width: u32, height: u32) -> Result<(), DimensionError> {
    if width % 2 != 0 {
        Err(DimensionError::OddWidth)
    } else if height % 2 != 0 {
        Err(DimensionError::OddHeight)
    } else {
        Ok(())
    }
}

/// Accepts an image size whose sides are both even.
pub fn check_dimensions(width: u32, height: u32) -> (verdict: Result<(), DimensionError>)
    ensures
        verdict == dimensions_verdict(width, height),
        verdict.is_ok() <==> width % 2 == 0 && height % 2 == 0,
{
    if width % 2 != 0 {
        Err(DimensionError::OddWidth)
    } else if height % 2 != 0 {
        Err(DimensionError::OddHeight)
    } else {
        Ok(())
    }
}

} // verus!
