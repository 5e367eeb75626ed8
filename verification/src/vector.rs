use vstd::prelude::*;

verus! {

/// Number of fixed-point subunits that make up one tile edge.
///
/// A position is an integer count of subunits; the tile that contains it is
/// the floored quotient by `SCALE`, so fractional positions inside a tile are
/// exact and no rounding drift can accumulate along a traversal.
pub const SCALE: i64 = 65536;

/// Largest magnitude, in subunits, that a line endpoint may have.
///
/// Keeping endpoints inside this bound keeps every cell index inside `i32`
/// and every cross-multiplied boundary distance inside `i128`.
pub const COORD_LIMIT: i64 = 0x1000_0000_0000;

/// Largest magnitude, in subunits, of a shape vertex position.
pub const POS_LIMIT: i64 = 0x800_0000_0000;

/// Largest magnitude, in subunits, of a queued displacement.
///
/// A vertex within [`POS_LIMIT`] moved by a displacement within
/// [`MOVE_LIMIT`] stays within [`COORD_LIMIT`], so every line the resolution
/// protocol builds has traversable endpoints.
pub const MOVE_LIMIT: i64 = 0x800_0000_0000;

/// A point or displacement in 2-space.
///
/// The two components are the x and y coordinates, in subunits of a tile
/// edge: the position one quarter of the way into the tile at index 2 is
/// `2 * SCALE + SCALE / 4`.
#[derive(Clone, Copy, Debug, PartialEq, Eq, Structural)]
pub struct Vector(pub i64, pub i64);

impl Vector {
    /// Both components lie within `limit` in magnitude.
    pub open spec fn in_limit(self, limit: i64) -> bool {
        &&& -limit <= self.0 <= limit
        &&& -limit <= self.1 <= limit
    }

    /// Create a vector from a pair of subunit coordinates.
    pub fn from_tuple(tuple: (i64, i64)) -> (r: Vector)
        ensures
            r == (Vector(tuple.0, tuple.1)),
    {
        Vector(tuple.0, tuple.1)
    }

    /// Compute the 2-norm squared, used for checking the total speed.
    pub fn norm2sq(&self) -> (r: i128)
        requires
            self.in_limit(COORD_LIMIT),
        ensures
            r == self.0 * self.0 + self.1 * self.1,
    {
        proof {
            assert(0 <= self.0 * self.0 <= COORD_LIMIT * COORD_LIMIT) by (nonlinear_arith)
                requires
                    -COORD_LIMIT <= self.0 <= COORD_LIMIT,
            ;
            assert(0 <= self.1 * self.1 <= COORD_LIMIT * COORD_LIMIT) by (nonlinear_arith)
                requires
                    -COORD_LIMIT <= self.1 <= COORD_LIMIT,
            ;
        }
        (self.0 as i128) * (self.0 as i128) + (self.1 as i128) * (self.1 as i128)
    }

    /// Scale both components by the ratio `num / den`, rounding toward
    /// negative infinity.
    ///
    /// Any ratio is allowed, growing or shrinking, as long as the scaled
    /// components stay within the coordinate limit; the resolution
    /// protocol itself only ever shrinks a displacement.
    pub fn scale(&mut self, num: i64, den: i64)
        requires
            1 <= den,
            old(self).in_limit(COORD_LIMIT),
            -COORD_LIMIT <= old(self).0 * num / (den as int) <= COORD_LIMIT,
            -COORD_LIMIT <= old(self).1 * num / (den as int) <= COORD_LIMIT,
        ensures
            final(self).0 == old(self).0 * num / (den as int),
            final(self).1 == old(self).1 * num / (den as int),
            final(self).in_limit(COORD_LIMIT),
    {
        let x = Self::scale_component(self.0, num, den);
        let y = Self::scale_component(self.1, num, den);
        self.0 = x;
        self.1 = y;
    }

    /// One component of [`Vector::scale`]: `a * num / den` with floored
    /// division, proved to stay within `i64`.
    fn scale_component(a: i64, num: i64, den: i64) -> (r: i64)
        requires
            1 <= den,
            -COORD_LIMIT <= a <= COORD_LIMIT,
            -COORD_LIMIT <= a * num / (den as int) <= COORD_LIMIT,
        ensures
            r == a * num / (den as int),
            -COORD_LIMIT <= r <= COORD_LIMIT,
    {
        proof {
            lemma_scaled_product_fits(a as int, num as int);
        }
        let p = (a as i128) * (num as i128);
        match p.checked_div_euclid(den as i128) {
            Some(q) => q as i64,
            None => 0,
        }
    }

    /// Add another vector to this one componentwise.
    pub fn add(self, other: Vector) -> (r: Vector)
        requires
            i64::MIN <= self.0 + other.0 <= i64::MAX,
            i64::MIN <= self.1 + other.1 <= i64::MAX,
        ensures
            r.0 == self.0 + other.0,
            r.1 == self.1 + other.1,
    {
        Vector(self.0 + other.0, self.1 + other.1)
    }

    /// Subtract another vector from this one componentwise.
    pub fn sub(self, other: Vector) -> (r: Vector)
        requires
            i64::MIN <= self.0 - other.0 <= i64::MAX,
            i64::MIN <= self.1 - other.1 <= i64::MAX,
        ensures
            r.0 == self.0 - other.0,
            r.1 == self.1 - other.1,
    {
        Vector(self.0 - other.0, self.1 - other.1)
    }
}

/// A component within the coordinate limit times any `i64` factor fits
/// comfortably inside `i128`, so [`Vector::scale`] can form the product
/// exactly before dividing.
proof fn lemma_scaled_product_fits(a: int, num: int)
    requires
        -COORD_LIMIT <= a <= COORD_LIMIT,
        i64::MIN <= num <= i64::MAX,
    ensures
        i128::MIN <= a * num <= i128::MAX,
{
    assert(i128::MIN <= a * num <= i128::MAX) by (nonlinear_arith)
        requires
            -0x1000_0000_0000 <= a <= 0x1000_0000_0000,
            -0x8000_0000_0000_0000 <= num <= 0x7fff_ffff_ffff_ffff,
    ;
}

} // verus!
