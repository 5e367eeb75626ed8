use vstd::prelude::*;

verus! {

/// Placeholder for the tile cover of an axis-aligned rectangle.
///
/// A rectangle's cover is not computed yet: the supercover of its four
/// corner-to-corner lines, built through the collision protocol, stands in
/// for it.
pub struct RectTiles;

} // verus!
