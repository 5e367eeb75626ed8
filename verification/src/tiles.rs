use vstd::prelude::*;

use crate::tilenet::TileNet;

verus! {

/// Tile iterator returning payloads from a [`TileNet`] along a list of
/// integer coordinates.
///
/// The coordinates may be negative or outside the grid, as traversals near
/// the origin legitimately produce such cells; those positions yield an
/// absent payload instead of consulting the grid, so a shape can treat the
/// boundary as solid without a prior bounds filter.
pub struct TileSet<'a, T> {
    tilenet: &'a TileNet<T>,
    points: Vec<(i32, i32)>,
    index: usize,
}

/// The payload a query for `p` reports: absent for a negative or
/// out-of-range position, the grid cell otherwise.
pub open spec fn spec_lookup<T>(net: TileNet<T>, p: (i32, i32)) -> Option<T> {
    if p.0 < 0 || p.1 < 0 {
        None
    } else if net.in_range(p.0 as int, p.1 as int) {
        Some(net.spec_cell(p.0 as int, p.1 as int))
    } else {
        None
    }
}

impl<'a, T> TileSet<'a, T> {
    /// The grid the queries are answered from.
    pub closed spec fn spec_net(self) -> TileNet<T> {
        *self.tilenet
    }

    /// The coordinates that remain to be queried, in order.
    pub closed spec fn spec_pending(self) -> Seq<(i32, i32)> {
        if self.index <= self.points@.len() {
            self.points@.skip(self.index as int)
        } else {
            Seq::empty()
        }
    }

    /// Create a tile query over `net` for the listed coordinates.
    pub(crate) fn new(tilenet: &'a TileNet<T>, points: Vec<(i32, i32)>) -> (r: TileSet<'a, T>)
        ensures
            r.spec_net() == *tilenet,
            r.spec_pending() == points@,
    {
        TileSet { tilenet, points, index: 0 }
    }

    /// Report the payload for the next coordinate: the end of the stream
    /// when every coordinate has been queried, otherwise the cell's payload,
    /// or an absent payload for a coordinate outside the grid.
    pub fn next(&mut self) -> (r: Option<Option<&'a T>>)
        ensures
            old(self).spec_pending().len() == 0 ==> r is None && *final(self) == *old(self),
            old(self).spec_pending().len() > 0 ==> {
                &&& final(self).spec_net() == old(self).spec_net()
                &&& final(self).spec_pending() == old(self).spec_pending().skip(1)
                &&& r matches Some(q) && (match spec_lookup(
                    old(self).spec_net(),
                    old(self).spec_pending()[0],
                ) {
                    Some(v) => q matches Some(t) && *t == v,
                    None => q is None,
                })
            },
    {
        if self.index < self.points.len() {
            let point = self.points[self.index];
            self.index = self.index + 1;
            if point.0 >= 0 && point.1 >= 0 {
                Some(self.tilenet.get((point.0 as usize, point.1 as usize)))
            } else {
                Some(None)
            }
        } else {
            None
        }
    }
}

/// Tile iterator for a rectangular view of a [`TileNet`].
///
/// Used to cull the amount of tiles to draw: the view scans only the cells
/// of its rectangle, row by row, handing out each payload together with its
/// column and row.
pub struct TileView<'a, T> {
    tilenet: &'a TileNet<T>,
    rectangle: (usize, usize, usize, usize),
    current: (usize, usize),
}

impl<'a, T> TileView<'a, T> {
    /// The scan position stays inside the rectangle until the view is
    /// exhausted, and the rectangle stays inside the grid, so every read is
    /// answered.
    #[verifier::type_invariant]
    spec fn well_formed(self) -> bool {
        &&& self.rectangle.1 <= (*self.tilenet).spec_cols()
        &&& self.rectangle.3 <= (*self.tilenet).spec_rows()
        &&& self.current.1 < self.rectangle.3 ==> {
            &&& self.rectangle.0 <= self.current.0 < self.rectangle.1
            &&& self.rectangle.2 <= self.current.1
        }
    }

    /// The grid the view reads from.
    pub closed spec fn spec_net(self) -> TileNet<T> {
        *self.tilenet
    }

    /// The view's rectangle as `(x start, x end, y start, y end)`, with
    /// exclusive ends, clamped to the grid.
    pub closed spec fn spec_rect(self) -> (usize, usize, usize, usize) {
        self.rectangle
    }

    /// The scan position the next read will report.
    pub closed spec fn spec_current(self) -> (usize, usize) {
        self.current
    }

    /// Every cell of the rectangle has been handed out.
    pub open spec fn exhausted(self) -> bool {
        self.spec_current().1 >= self.spec_rect().3
    }

    /// Create a view of `tilenet` over `rectangle`, given as
    /// `(x start, x end, y start, y end)` with exclusive ends; the ends are
    /// clamped to the grid's extent.
    pub(crate) fn new(tilenet: &'a TileNet<T>, rectangle: (usize, usize, usize, usize)) -> (r:
        TileView<'a, T>)
        ensures
            r.spec_net() == *tilenet,
            r.spec_rect().0 == rectangle.0,
            r.spec_rect().1 == vstd::math::min(rectangle.1 as int, tilenet.spec_cols()),
            r.spec_rect().2 == rectangle.2,
            r.spec_rect().3 == vstd::math::min(rectangle.3 as int, tilenet.spec_rows()),
            !r.exhausted() ==> r.spec_current() == (rectangle.0, rectangle.2),
            r.spec_rect().0 < r.spec_rect().1 && r.spec_rect().2 < r.spec_rect().3
                ==> !r.exhausted() && r.spec_current() == (r.spec_rect().0, r.spec_rect().2),
    {
        let cols = tilenet.col_count();
        let rows = tilenet.row_count();
        let x_end = if rectangle.1 >= cols {
            cols
        } else {
            rectangle.1
        };
        let y_end = if rectangle.3 >= rows {
            rows
        } else {
            rectangle.3
        };
        let clamped = (rectangle.0, x_end, rectangle.2, y_end);
        let current = if rectangle.0 >= x_end {
            (rectangle.0, y_end)
        } else {
            (rectangle.0, rectangle.2)
        };
        TileView { tilenet, rectangle: clamped, current }
    }

    /// Report the payload at the scan position together with its column and
    /// row, then advance row-major within the rectangle; the end of the
    /// stream once the rectangle is scanned out.
    pub fn next(&mut self) -> (r: Option<(&'a T, usize, usize)>)
        ensures
            old(self).exhausted() ==> r is None && *final(self) == *old(self),
            !old(self).exhausted() ==> {
                &&& final(self).spec_net() == old(self).spec_net()
                &&& final(self).spec_rect() == old(self).spec_rect()
                &&& r matches Some(t) && *t.0 == old(self).spec_net().spec_cell(
                    old(self).spec_current().0 as int,
                    old(self).spec_current().1 as int,
                ) && t.1 == old(self).spec_current().0 && t.2 == old(self).spec_current().1
                &&& (if old(self).spec_current().0 + 1 < old(self).spec_rect().1 {
                    final(self).spec_current().0 == old(self).spec_current().0 + 1
                        && final(self).spec_current().1 == old(self).spec_current().1
                } else {
                    final(self).spec_current().0 == old(self).spec_rect().0
                        && final(self).spec_current().1 == old(self).spec_current().1 + 1
                })
            },
    {
        proof {
            use_type_invariant(&*self);
        }
        if self.current.1 >= self.rectangle.3 {
            return None;
        }
        let tile = match self.tilenet.get(self.current) {
            Some(t) => t,
            None => {
                proof {
                    assert(false);
                }
                return None;
            },
        };
        let ret = Some((tile, self.current.0, self.current.1));
        if self.current.0 + 1 < self.rectangle.1 {
            self.current = (self.current.0 + 1, self.current.1);
        } else {
            self.current = (self.rectangle.0, self.current.1 + 1);
        }
        ret
    }
}

} // verus!
