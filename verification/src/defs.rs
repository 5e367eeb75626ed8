use vstd::prelude::*;

verus! {

/// Descriptor denoting the quadrant of a [`crate::Vector`] or
/// [`crate::Line`].
///
/// The quadrant of a line is taken with the starting point as origin; the
/// quadrant of a point with respect to the origin itself. Points lying on a
/// zero axis count toward their start-angle quadrant, and the origin is
/// considered part of the first quadrant.
#[derive(Debug, Eq, PartialEq, Structural)]
pub enum Quadrant {
    One,
    Two,
    Three,
    Four,
}

} // verus!
