use vstd::prelude::*;

verus! {

/// Errors surfaced by the detection pipeline.
#[derive(Clone, Copy, Debug, PartialEq, Eq, Structural)]
pub enum Error {
    /// A bounding box would violate its ordering invariant
    /// (`x_min > x_max` or `y_min > y_max`).
    InvalidRange,
    /// Two rasters that must share dimensions do not.
    DimensionMismatch,
    /// Color classification was attempted on a region with zero pixels.
    EmptyRegion,
    /// An operation needs a concrete reference color but was handed one
    /// without a reference point (or an unsupported one).
    UnsupportedColor,
}

impl Error {
    /// A human-readable description of the error.
    pub fn message(&self) -> (r: &'static str)
        ensures
            r@.len() > 0,
    {
        proof {
            reveal_strlit("bounding box bounds are out of order");
            reveal_strlit("rasters differ in dimensions");
            reveal_strlit("region holds no pixels");
            reveal_strlit("color has no reference point");
        }
        match self {
            Error::InvalidRange => "bounding box bounds are out of order",
            Error::DimensionMismatch => "rasters differ in dimensions",
            Error::EmptyRegion => "region holds no pixels",
            Error::UnsupportedColor => "color has no reference point",
        }
    }
}

} // verus!
