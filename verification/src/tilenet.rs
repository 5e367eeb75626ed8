use vstd::prelude::*;

use crate::tiles::{TileSet, TileView};

verus! {

/// Span of changed tiles, given as `(min x, min y, max x, max y)` in
/// inclusive cell indices.
pub type Span = (usize, usize, usize, usize);

/// `TileNet` is the main type in this library.
///
/// It represents a 2D space of `rows x cols` tiles stored row-major in one
/// dense array: the tile at column `x` and row `y` sits at index
/// `x + y * cols`. Reads outside the extent report an absent tile and writes
/// outside it are ignored, so the boundary behaves like an implicit solid
/// region rather than an error.
#[derive(Debug)]
pub struct TileNet<T> {
    map: Vec<T>,
    cols: usize,
    fill: T,
}

impl<T> TileNet<T> {
    /// The dense backing array never has a ragged last row and the column
    /// count never reaches zero, so the row count is always well defined.
    /// Every grid value a caller can hold satisfies this; it can be
    /// recovered with `use_type_invariant` and spent through
    /// [`TileNet::lemma_extent`].
    #[verifier::type_invariant]
    pub closed spec fn well_formed(self) -> bool {
        &&& 1 <= self.cols
        &&& self.map@.len() as int % (self.cols as int) == 0
    }

    /// Number of columns of the current extent.
    pub closed spec fn spec_cols(self) -> int {
        self.cols as int
    }

    /// Number of rows of the current extent.
    pub closed spec fn spec_rows(self) -> int {
        self.map@.len() as int / self.cols as int
    }

    /// The cells in row-major order.
    pub closed spec fn cells(self) -> Seq<T> {
        self.map@
    }

    /// The payload used to fill tiles that no write has reached yet.
    pub closed spec fn spec_fill(self) -> T {
        self.fill
    }

    /// The position `(x, y)` lies within the current extent.
    pub open spec fn in_range(self, x: int, y: int) -> bool {
        &&& 0 <= x < self.spec_cols()
        &&& 0 <= y < self.spec_rows()
    }

    /// The payload at position `(x, y)`, which must be within the extent.
    pub open spec fn spec_cell(self, x: int, y: int) -> T {
        self.cells()[x + y * self.spec_cols()]
    }

    /// The backing array holds exactly the rectangle of cells: its length
    /// is the row count times the column count. Holds of every grid value;
    /// recover the hypothesis with `use_type_invariant`.
    pub proof fn lemma_extent(self)
        requires
            self.well_formed(),
        ensures
            1 <= self.spec_cols(),
            0 <= self.spec_rows(),
            self.cells().len() == self.spec_rows() * self.spec_cols(),
    {
        let c = self.cols as int;
        let n = self.map@.len() as int;
        vstd::arithmetic::div_mod::lemma_fundamental_div_mod(n, c);
        assert(n == c * (n / c));
        assert(c * (n / c) == (n / c) * c) by (nonlinear_arith);
    }
}

/// A row-major index stays inside the rectangle: with `x < c` and `y < r`,
/// the flat index `x + y * c` lies below `r * c`.
proof fn lemma_rowmajor_index(x: int, y: int, c: int, r: int)
    requires
        0 <= x < c,
        0 <= y < r,
    ensures
        0 <= x + y * c < r * c,
        y * c <= (r - 1) * c,
{
    assert(0 <= x + y * c < r * c && y * c <= (r - 1) * c) by (nonlinear_arith)
        requires
            0 <= x < c,
            0 <= y < r,
    ;
}

impl<T> TileNet<T> {
    /// Compute the row count.
    pub fn row_count(&self) -> (r: usize)
        ensures
            r == self.spec_rows(),
    {
        proof {
            use_type_invariant(self);
        }
        self.map.len() / self.cols
    }

    /// Get the column count.
    pub fn col_count(&self) -> (r: usize)
        ensures
            r == self.spec_cols(),
    {
        self.cols
    }

    /// Get a tuple that describes the size as `(cols, rows)`.
    pub fn get_size(&self) -> (r: (usize, usize))
        ensures
            r.0 == self.spec_cols(),
            r.1 == self.spec_rows(),
    {
        (self.col_count(), self.row_count())
    }

    /// Get a reference to the payload at a 2D index, or nothing when the
    /// index lies outside the current extent.
    pub fn get(&self, p: (usize, usize)) -> (r: Option<&T>)
        ensures
            match r {
                Some(t) => self.in_range(p.0 as int, p.1 as int) && *t == self.spec_cell(
                    p.0 as int,
                    p.1 as int,
                ),
                None => !self.in_range(p.0 as int, p.1 as int),
            },
    {
        proof {
            use_type_invariant(self);
            self.lemma_extent();
        }
        if p.0 >= self.cols {
            None
        } else {
            let rows = self.map.len() / self.cols;
            if p.1 >= rows {
                None
            } else {
                proof {
                    lemma_rowmajor_index(
                        p.0 as int,
                        p.1 as int,
                        self.spec_cols(),
                        self.spec_rows(),
                    );
                }
                Some(&self.map[p.0 + p.1 * self.cols])
            }
        }
    }

    /// Get a mutable reference to a tile, or nothing when the index lies
    /// outside the current extent.
    pub fn get_mut(&mut self, p: (usize, usize)) -> (r: Option<&mut T>)
        ensures
            !old(self).in_range(p.0 as int, p.1 as int)
                ==> r is None && *final(self) == *old(self),
            old(self).in_range(p.0 as int, p.1 as int) ==> (r matches Some(t)
                && *t == old(self).spec_cell(p.0 as int, p.1 as int)
                && final(self).cells() == old(self).cells().update(
                    p.0 + p.1 * old(self).spec_cols(), *final(t))
                && final(self).spec_cols() == old(self).spec_cols()
                && final(self).spec_rows() == old(self).spec_rows()
                && final(self).spec_fill() == old(self).spec_fill()),
    {
        proof {
            use_type_invariant(&*self);
            self.lemma_extent();
        }
        if p.0 >= self.cols {
            None
        } else {
            let rows = self.map.len() / self.cols;
            if p.1 >= rows {
                None
            } else {
                proof {
                    lemma_rowmajor_index(
                        p.0 as int,
                        p.1 as int,
                        self.spec_cols(),
                        self.spec_rows(),
                    );
                }
                let idx = p.0 + p.1 * self.cols;
                Some(&mut self.map[idx])
            }
        }
    }

    /// Get the raw array behind the tilenet.
    pub fn get_raw(&self) -> (r: &[T])
        ensures
            r@ == self.cells(),
    {
        self.map.as_slice()
    }

    /// Create a view that scans every tile of the grid.
    pub fn view_all(&self) -> (r: TileView<T>)
        ensures
            r.spec_net() == *self,
            r.spec_rect().0 == 0,
            r.spec_rect().1 == self.spec_cols(),
            r.spec_rect().2 == 0,
            r.spec_rect().3 == self.spec_rows(),
            !r.exhausted() ==> r.spec_current() == (0usize, 0usize),
            1 <= self.spec_rows() ==> !r.exhausted() && r.spec_current() == (0usize, 0usize),
    {
        proof {
            use_type_invariant(self);
            self.lemma_extent();
        }
        let cols = self.cols;
        let rows = self.map.len() / self.cols;
        TileView::new(self, (0, cols, 0, rows))
    }

    /// Create a view with the given span around a center position, clamping
    /// the lower corner to zero so a span that would reach below the origin
    /// is truncated rather than wrapped.
    pub fn view_center(&self, position: (usize, usize), span: (usize, usize)) -> (r: TileView<T>)
        requires
            position.0 + span.0 <= usize::MAX,
            position.1 + span.1 <= usize::MAX,
        ensures
            r.spec_net() == *self,
            r.spec_rect().0 == (if position.0 >= span.0 {
                position.0 - span.0
            } else {
                0
            }),
            r.spec_rect().1 == vstd::math::min(position.0 + span.0, self.spec_cols()),
            r.spec_rect().2 == (if position.1 >= span.1 {
                position.1 - span.1
            } else {
                0
            }),
            r.spec_rect().3 == vstd::math::min(position.1 + span.1, self.spec_rows()),
            r.spec_rect().0 < r.spec_rect().1 && r.spec_rect().2 < r.spec_rect().3
                ==> !r.exhausted() && r.spec_current() == (r.spec_rect().0, r.spec_rect().2),
    {
        let left = if position.0 >= span.0 {
            position.0 - span.0
        } else {
            0
        };
        let top = if position.1 >= span.1 {
            position.1 - span.1
        } else {
            0
        };
        let right = position.0 + span.0;
        let bottom = position.1 + span.1;
        TileView::new(self, (left, right, top, bottom))
    }

    /// Create a view over the box `(x start, x end, y start, y end)`, with
    /// exclusive ends clamped to the grid's extent.
    pub fn view_box(&self, rectangle: (usize, usize, usize, usize)) -> (r: TileView<T>)
        ensures
            r.spec_net() == *self,
            r.spec_rect().0 == rectangle.0,
            r.spec_rect().1 == vstd::math::min(rectangle.1 as int, self.spec_cols()),
            r.spec_rect().2 == rectangle.2,
            r.spec_rect().3 == vstd::math::min(rectangle.3 as int, self.spec_rows()),
            !r.exhausted() ==> r.spec_current() == (rectangle.0, rectangle.2),
            r.spec_rect().0 < r.spec_rect().1 && r.spec_rect().2 < r.spec_rect().3
                ==> !r.exhausted() && r.spec_current() == (r.spec_rect().0, r.spec_rect().2),
    {
        TileView::new(self, rectangle)
    }

    /// Create a tile query that reports, in order, the payload under each
    /// listed coordinate, treating coordinates outside the grid as absent.
    pub fn collide_set(&self, list: Vec<(i32, i32)>) -> (r: TileSet<T>)
        ensures
            r.spec_net() == *self,
            r.spec_pending() == list@,
    {
        TileSet::new(self, list)
    }
}

impl<T> TileNet<T> {
    /// The effect of writing `v` over the inclusive box from `(x0, y0)` to
    /// `(x1, y1)`: every cell of the box that lies within the extent holds
    /// `v`, every other cell is unchanged, and the extent and fill payload
    /// are untouched. The part of the box outside the extent is silently
    /// ignored, so the predicate also describes a write that misses the grid
    /// entirely.
    pub open spec fn box_written(
        self,
        updated: TileNet<T>,
        v: T,
        x0: int,
        x1: int,
        y0: int,
        y1: int,
    ) -> bool {
        &&& updated.spec_cols() == self.spec_cols()
        &&& updated.spec_rows() == self.spec_rows()
        &&& updated.spec_fill() == self.spec_fill()
        &&& updated.cells().len() == self.cells().len()
        &&& forall|x: int, y: int|
            self.in_range(x, y) ==> updated.spec_cell(x, y) == (if x0 <= x <= x1 && y0 <= y
                <= y1 {
                v
            } else {
                self.spec_cell(x, y)
            })
    }
}

/// Distinct in-range positions have distinct row-major indices.
proof fn lemma_rowmajor_distinct(x1: int, y1: int, x2: int, y2: int, c: int)
    requires
        0 <= x1 < c,
        0 <= x2 < c,
        0 <= y1,
        0 <= y2,
        !(x1 == x2 && y1 == y2),
    ensures
        x1 + y1 * c != x2 + y2 * c,
{
    assert(x1 + y1 * c != x2 + y2 * c) by (nonlinear_arith)
        requires
            0 <= x1 < c,
            0 <= x2 < c,
            0 <= y1,
            0 <= y2,
            !(x1 == x2 && y1 == y2),
    ;
}

impl<T: Copy> TileNet<T> {
    /// Set a single grid point. A point outside the extent is ignored.
    pub fn set(&mut self, value: &T, p: (usize, usize))
        ensures
            old(self).box_written(
                *final(self),
                *value,
                p.0 as int,
                p.0 as int,
                p.1 as int,
                p.1 as int,
            ),
    {
        proof {
            use_type_invariant(&*self);
            self.lemma_extent();
        }
        if p.0 < self.cols {
            let rows = self.map.len() / self.cols;
            if p.1 < rows {
                proof {
                    lemma_rowmajor_index(p.0 as int, p.1 as int, self.spec_cols(), self.spec_rows());
                }
                self.map[p.0 + p.1 * self.cols] = *value;
                proof {
                    let c = self.spec_cols();
                    assert forall|x: int, y: int| old(self).in_range(x, y) && !(x == p.0 && y
                        == p.1) implies self.cells()[x + y * c] == old(self).cells()[x + y
                        * c] by {
                        lemma_rowmajor_distinct(x, y, p.0 as int, p.1 as int, c);
                        lemma_rowmajor_index(x, y, c, old(self).spec_rows());
                    }
                }
            }
        }
    }
}

impl<T> TileNet<T> {
    /// Writing a payload at an in-range cell and reading it back yields
    /// that payload: after a point write, described by
    /// [`TileNet::box_written`] as [`TileNet::set`] ensures it, the
    /// written cell holds the payload, every other cell is unchanged, and
    /// a read one past either dimension still reports an absent cell.
    pub proof fn lemma_set_get_round_trip(self, updated: TileNet<T>, v: T, x: int, y: int)
        requires
            self.in_range(x, y),
            self.box_written(updated, v, x, x, y, y),
        ensures
            updated.in_range(x, y),
            updated.spec_cell(x, y) == v,
            forall|x2: int, y2: int|
                updated.in_range(x2, y2) && !(x2 == x && y2 == y) ==> updated.spec_cell(x2, y2)
                    == self.spec_cell(x2, y2),
            !updated.in_range(updated.spec_cols(), y),
            !updated.in_range(x, updated.spec_rows()),
    {
    }
}

impl<T: Copy> TileNet<T> {
    /// Write `value` over the cells `(x0, y) ..= (x1, y)` of one row,
    /// ignoring whatever part of that span lies outside the extent.
    fn set_row_span(&mut self, value: &T, x0: usize, x1: usize, y: usize)
        requires
            x0 <= x1,
        ensures
            old(self).box_written(*final(self), *value, x0 as int, x1 as int, y as int, y as int),
    {
        proof {
            use_type_invariant(&*self);
        }
        let cols = self.cols;
        let mut x = x0;
        let x_end = if x1 >= cols { cols } else { x1 + 1 };
        while x < x_end
            invariant
                x0 <= x,
                x <= x_end || x == x0,
                x_end == if x1 as int >= old(self).spec_cols() {
                    old(self).spec_cols()
                } else {
                    x1 as int + 1
                },
                old(self).box_written(*self, *value, x0 as int, x as int - 1, y as int, y as int),
            decreases x_end - x,
        {
            self.set(value, (x, y));
            x = x + 1;
        }
        proof {
            assert forall|x2: int, y2: int| old(self).in_range(x2, y2) implies self.spec_cell(
                x2,
                y2,
            ) == (if x0 <= x2 <= x1 && y as int <= y2 <= y as int {
                *value
            } else {
                old(self).spec_cell(x2, y2)
            }) by {
                assert(x == x_end || (x == x0 && x0 >= x_end));
                assert(old(self).in_range(x2, y2) ==> x2 < self.spec_cols());
            }
        }
    }

    /// Set an entire row. A row outside the extent is ignored.
    pub fn set_row(&mut self, value: &T, row: usize)
        ensures
            old(self).box_written(
                *final(self),
                *value,
                0,
                old(self).spec_cols() - 1,
                row as int,
                row as int,
            ),
    {
        proof {
            use_type_invariant(&*self);
        }
        let cols = self.cols;
        self.set_row_span(value, 0, cols - 1, row);
    }

    /// Set an entire column. A column outside the extent is ignored.
    pub fn set_col(&mut self, value: &T, col: usize)
        ensures
            old(self).box_written(
                *final(self),
                *value,
                col as int,
                col as int,
                0,
                old(self).spec_rows() - 1,
            ),
    {
        proof {
            use_type_invariant(&*self);
            self.lemma_extent();
        }
        let rows = self.map.len() / self.cols;
        let mut y: usize = 0;
        while y < rows
            invariant
                old(self).box_written(*self, *value, col as int, col as int, 0, y as int - 1),
                rows == old(self).spec_rows(),
            decreases rows - y,
        {
            self.set(value, (col, y));
            y = y + 1;
        }
    }

    /// Set a box in the tilenet, inclusive of both corners. The part of the
    /// box outside the extent is ignored.
    pub fn set_box(&mut self, value: &T, start: (usize, usize), stop: (usize, usize))
        requires
            start.0 <= stop.0,
            start.1 <= stop.1,
        ensures
            old(self).box_written(
                *final(self),
                *value,
                start.0 as int,
                stop.0 as int,
                start.1 as int,
                stop.1 as int,
            ),
    {
        proof {
            use_type_invariant(&*self);
            self.lemma_extent();
        }
        let rows = self.map.len() / self.cols;
        let mut y = start.1;
        let y_end = if stop.1 >= rows { rows } else { stop.1 + 1 };
        while y < y_end
            invariant
                start.1 <= y,
                y <= y_end || y == start.1,
                y_end == if stop.1 as int >= old(self).spec_rows() {
                    old(self).spec_rows()
                } else {
                    stop.1 as int + 1
                },
                old(self).box_written(
                    *self,
                    *value,
                    start.0 as int,
                    stop.0 as int,
                    start.1 as int,
                    y as int - 1,
                ),
                start.0 <= stop.0,
            decreases y_end - y,
        {
            self.set_row_span(value, start.0, stop.0, y);
            y = y + 1;
        }
        proof {
            assert forall|x2: int, y2: int| old(self).in_range(x2, y2) implies self.spec_cell(
                x2,
                y2,
            ) == (if start.0 <= x2 <= stop.0 && start.1 <= y2 <= stop.1 {
                *value
            } else {
                old(self).spec_cell(x2, y2)
            }) by {
                assert(y == y_end || (y == start.1 && start.1 >= y_end));
                assert(old(self).in_range(x2, y2) ==> y2 < self.spec_rows());
            }
        }
    }

    /// Use `isize` indices to denote a box, clamping negative corners to
    /// zero rather than underflowing.
    pub fn set_box_isize(&mut self, value: &T, start: (isize, isize), stop: (isize, isize))
        requires
            start.0 <= stop.0,
            start.1 <= stop.1,
        ensures
            old(self).box_written(
                *final(self),
                *value,
                if start.0 < 0 {
                    0
                } else {
                    start.0 as int
                },
                if stop.0 < 0 {
                    0
                } else {
                    stop.0 as int
                },
                if start.1 < 0 {
                    0
                } else {
                    start.1 as int
                },
                if stop.1 < 0 {
                    0
                } else {
                    stop.1 as int
                },
            ),
    {
        let new_start = positivize_2_tuple(start);
        let new_stop = positivize_2_tuple(stop);
        self.set_box(value, new_start, new_stop);
    }
}

/// Proxy for editing the [`TileNet`] while accumulating the span of changes.
///
/// Useful when a consumer of the grid needs to know which tiles a batch of
/// writes touched: the span can be requested at any time, and holds the
/// minimal rectangle containing every cell written through the proxy. One
/// particular example is uploading just that rectangle to a texture.
pub struct TileNetProxy<T> {
    tilenet: TileNet<T>,
    min_x: usize,
    max_x: usize,
    min_y: usize,
    max_y: usize,
    written: Ghost<Set<(int, int)>>,
}

impl<T> TileNetProxy<T> {
    /// The grid as the writes so far have left it.
    pub closed spec fn spec_net(self) -> TileNet<T> {
        self.tilenet
    }

    /// The positions of the cells written through the proxy so far.
    pub closed spec fn spec_written(self) -> Set<(int, int)> {
        self.written@
    }

    /// The span as [`TileNetProxy::get_span`] reports it.
    pub closed spec fn spec_span(self) -> Span {
        (self.min_x, self.min_y, self.max_x, self.max_y)
    }

    /// The tracked bounds are the minimal rectangle around the written
    /// cells: every written cell lies inside them and each of the four
    /// bounds is attained by some written cell. While nothing has been
    /// written they are folded past each other, low bounds at the extent
    /// and high bounds at zero. [`TileNet::prepare`] establishes this and
    /// every write through the proxy preserves it.
    pub closed spec fn span_minimal(self) -> bool {
        &&& forall|p: (int, int)| #[trigger]
            self.written@.contains(p) ==> 0 <= p.0 < self.tilenet.spec_cols() && 0 <= p.1
                < self.tilenet.spec_rows()
        &&& self.written@.is_empty() ==> self.min_x == self.tilenet.spec_cols() && self.max_x == 0
            && self.min_y == self.tilenet.spec_rows() && self.max_y == 0
        &&& !self.written@.is_empty() ==> {
            &&& forall|p: (int, int)| #[trigger]
                self.written@.contains(p) ==> self.min_x <= p.0 <= self.max_x && self.min_y <= p.1
                    <= self.max_y
            &&& exists|p: (int, int)| #[trigger] self.written@.contains(p) && p.0 == self.min_x
            &&& exists|p: (int, int)| #[trigger] self.written@.contains(p) && p.0 == self.max_x
            &&& exists|p: (int, int)| #[trigger] self.written@.contains(p) && p.1 == self.min_y
            &&& exists|p: (int, int)| #[trigger] self.written@.contains(p) && p.1 == self.max_y
        }
    }

    /// The cells of the inclusive box from `(x0, y0)` to `(x1, y1)` that
    /// lie within the grid's extent: exactly the cells such a write
    /// touches.
    pub open spec fn clipped_box(self, x0: int, x1: int, y0: int, y1: int) -> Set<(int, int)> {
        Set::new(
            |p: (int, int)|
                {
                    &&& x0 <= p.0 <= x1
                    &&& y0 <= p.1 <= y1
                    &&& 0 <= p.0 < self.spec_net().spec_cols()
                    &&& 0 <= p.1 < self.spec_net().spec_rows()
                },
        )
    }

    /// Get the span of the changes made: `(min x, min y, max x, max y)`,
    /// the minimal rectangle containing every cell written so far, clipped
    /// to the grid's extent because only cells within the extent are ever
    /// written. Before any write the low bounds sit at the extent and the
    /// high bounds at zero.
    pub fn get_span(&self) -> (r: Span)
        requires
            self.span_minimal(),
        ensures
            r == self.spec_span(),
            self.spec_written().is_empty() ==> r.0 == self.spec_net().spec_cols() && r.1
                == self.spec_net().spec_rows() && r.2 == 0 && r.3 == 0,
            !self.spec_written().is_empty() ==> {
                &&& forall|p: (int, int)| #[trigger]
                    self.spec_written().contains(p) ==> r.0 <= p.0 <= r.2 && r.1 <= p.1 <= r.3
                &&& exists|p: (int, int)| #[trigger] self.spec_written().contains(p) && p.0 == r.0
                &&& exists|p: (int, int)| #[trigger] self.spec_written().contains(p) && p.0 == r.2
                &&& exists|p: (int, int)| #[trigger] self.spec_written().contains(p) && p.1 == r.1
                &&& exists|p: (int, int)| #[trigger] self.spec_written().contains(p) && p.1 == r.3
                &&& 0 <= r.0 <= r.2 < self.spec_net().spec_cols()
                &&& 0 <= r.1 <= r.3 < self.spec_net().spec_rows()
            },
    {
        proof {
            if !self.written@.is_empty() {
                let lo_x = choose|p: (int, int)|
                    #[trigger] self.written@.contains(p) && p.0 == self.min_x;
                let hi_x = choose|p: (int, int)|
                    #[trigger] self.written@.contains(p) && p.0 == self.max_x;
                let lo_y = choose|p: (int, int)|
                    #[trigger] self.written@.contains(p) && p.1 == self.min_y;
                let hi_y = choose|p: (int, int)|
                    #[trigger] self.written@.contains(p) && p.1 == self.max_y;
                assert(self.written@.contains(lo_x) && self.written@.contains(hi_x)
                    && self.written@.contains(lo_y) && self.written@.contains(hi_y));
            }
        }
        (self.min_x, self.min_y, self.max_x, self.max_y)
    }

    /// Give the edited grid back once the batch of writes is done.
    pub fn into_inner(self) -> (r: TileNet<T>)
        ensures
            r == self.spec_net(),
    {
        self.tilenet
    }
}

impl<T: Copy> TileNetProxy<T> {
    /// Record that the clipped box from `(x0, y0)` to `(x1, y1)` has just
    /// been written, widening the tracked bounds to cover it.
    fn record_box(&mut self, x0: usize, x1: usize, y0: usize, y1: usize)
        requires
            x0 <= x1,
            y0 <= y1,
            old(self).span_minimal(),
        ensures
            final(self).span_minimal(),
            final(self).spec_net() == old(self).spec_net(),
            final(self).spec_written() == old(self).spec_written() + old(self).clipped_box(
                x0 as int,
                x1 as int,
                y0 as int,
                y1 as int,
            ),
    {
        proof {
            use_type_invariant(&self.tilenet);
            self.tilenet.lemma_extent();
        }
        let cols = self.tilenet.col_count();
        let rows = self.tilenet.row_count();
        if x0 >= cols || y0 >= rows {
            proof {
                assert(self.clipped_box(x0 as int, x1 as int, y0 as int, y1 as int)
                    =~= Set::empty());
                assert(self.written@ + Set::empty() =~= self.written@);
            }
            return ;
        }
        let cx1 = if x1 >= cols {
            cols - 1
        } else {
            x1
        };
        let cy1 = if y1 >= rows {
            rows - 1
        } else {
            y1
        };
        let ghost boxed = self.clipped_box(x0 as int, x1 as int, y0 as int, y1 as int);
        proof {
            assert(boxed.contains((x0 as int, y0 as int)));
            assert(boxed.contains((cx1 as int, cy1 as int)));
        }
        if x0 < self.min_x {
            self.min_x = x0;
        }
        if y0 < self.min_y {
            self.min_y = y0;
        }
        if cx1 > self.max_x {
            self.max_x = cx1;
        }
        if cy1 > self.max_y {
            self.max_y = cy1;
        }
        proof {
            self.written@ = old(self).written@ + boxed;
            let w = self.written@;
            assert(w =~= old(self).written@ + old(self).clipped_box(
                x0 as int,
                x1 as int,
                y0 as int,
                y1 as int,
            ));
            assert(w.contains((x0 as int, y0 as int)));
            assert(!w.is_empty());
            assert forall|p: (int, int)| #[trigger] w.contains(p) implies 0 <= p.0
                < self.tilenet.spec_cols() && 0 <= p.1 < self.tilenet.spec_rows() && self.min_x
                <= p.0 <= self.max_x && self.min_y <= p.1 <= self.max_y by {
                if old(self).written@.contains(p) {
                    assert(!old(self).written@.is_empty());
                }
            }
            if self.min_x == x0 {
                assert(w.contains((x0 as int, y0 as int)) && (x0 as int) == self.min_x);
            } else {
                assert(!old(self).written@.is_empty());
                let q = choose|q: (int, int)|
                    #[trigger] old(self).written@.contains(q) && q.0 == old(self).min_x;
                assert(w.contains(q) && q.0 == self.min_x);
            }
            if self.min_y == y0 {
                assert(w.contains((x0 as int, y0 as int)) && (y0 as int) == self.min_y);
            } else {
                assert(!old(self).written@.is_empty());
                let q = choose|q: (int, int)|
                    #[trigger] old(self).written@.contains(q) && q.1 == old(self).min_y;
                assert(w.contains(q) && q.1 == self.min_y);
            }
            if self.max_x == cx1 {
                assert(w.contains((cx1 as int, cy1 as int)) && (cx1 as int) == self.max_x);
            } else {
                assert(!old(self).written@.is_empty());
                let q = choose|q: (int, int)|
                    #[trigger] old(self).written@.contains(q) && q.0 == old(self).max_x;
                assert(w.contains(q) && q.0 == self.max_x);
            }
            if self.max_y == cy1 {
                assert(w.contains((cx1 as int, cy1 as int)) && (cy1 as int) == self.max_y);
            } else {
                assert(!old(self).written@.is_empty());
                let q = choose|q: (int, int)|
                    #[trigger] old(self).written@.contains(q) && q.1 == old(self).max_y;
                assert(w.contains(q) && q.1 == self.max_y);
            }
        }
    }
}

impl<T: Copy> TileNetProxy<T> {
    /// Set a box, inclusive of both corners, and report the span of all
    /// changes so far. `start` must not exceed `stop` in either component.
    pub fn set_box(&mut self, value: &T, start: (usize, usize), stop: (usize, usize)) -> (r: Span)
        requires
            start.0 <= stop.0,
            start.1 <= stop.1,
            old(self).span_minimal(),
        ensures
            final(self).span_minimal(),
            old(self).spec_net().box_written(
                final(self).spec_net(),
                *value,
                start.0 as int,
                stop.0 as int,
                start.1 as int,
                stop.1 as int,
            ),
            final(self).spec_written() == old(self).spec_written() + old(self).clipped_box(
                start.0 as int,
                stop.0 as int,
                start.1 as int,
                stop.1 as int,
            ),
            r == final(self).spec_span(),
    {
        self.tilenet.set_box(value, start, stop);
        self.record_box(start.0, stop.0, start.1, stop.1);
        proof {
            lemma_clipped_box_same_extent(
                *old(self),
                *self,
                start.0 as int,
                stop.0 as int,
                start.1 as int,
                stop.1 as int,
            );
        }
        self.get_span()
    }

    /// Set an entire row and report the span of all changes so far.
    pub fn set_row(&mut self, value: &T, row: usize) -> (r: Span)
        requires
            old(self).span_minimal(),
        ensures
            final(self).span_minimal(),
            old(self).spec_net().box_written(
                final(self).spec_net(),
                *value,
                0,
                old(self).spec_net().spec_cols() - 1,
                row as int,
                row as int,
            ),
            final(self).spec_written() == old(self).spec_written() + old(self).clipped_box(
                0,
                old(self).spec_net().spec_cols() - 1,
                row as int,
                row as int,
            ),
            r == final(self).spec_span(),
    {
        proof {
            use_type_invariant(&self.tilenet);
        }
        let hi = self.tilenet.col_count() - 1;
        self.tilenet.set_row(value, row);
        self.record_box(0, hi, row, row);
        proof {
            lemma_clipped_box_same_extent(
                *old(self),
                *self,
                0,
                old(self).spec_net().spec_cols() - 1,
                row as int,
                row as int,
            );
        }
        self.get_span()
    }

    /// Set an entire column and report the span of all changes so far.
    pub fn set_col(&mut self, value: &T, col: usize) -> (r: Span)
        requires
            old(self).span_minimal(),
        ensures
            final(self).span_minimal(),
            old(self).spec_net().box_written(
                final(self).spec_net(),
                *value,
                col as int,
                col as int,
                0,
                old(self).spec_net().spec_rows() - 1,
            ),
            final(self).spec_written() == old(self).spec_written() + old(self).clipped_box(
                col as int,
                col as int,
                0,
                old(self).spec_net().spec_rows() - 1,
            ),
            r == final(self).spec_span(),
    {
        let rows = self.tilenet.row_count();
        if rows == 0 {
            proof {
                assert(self.clipped_box(col as int, col as int, 0, -1) =~= Set::empty());
                assert(self.written@ + Set::empty() =~= self.written@);
            }
            return self.get_span();
        }
        let hi = rows - 1;
        self.tilenet.set_col(value, col);
        self.record_box(col, col, 0, hi);
        proof {
            lemma_clipped_box_same_extent(
                *old(self),
                *self,
                col as int,
                col as int,
                0,
                old(self).spec_net().spec_rows() - 1,
            );
        }
        self.get_span()
    }

    /// Set a single grid point and report the span of all changes so far.
    pub fn set(&mut self, value: &T, p: (usize, usize)) -> (r: Span)
        requires
            old(self).span_minimal(),
        ensures
            final(self).span_minimal(),
            old(self).spec_net().box_written(
                final(self).spec_net(),
                *value,
                p.0 as int,
                p.0 as int,
                p.1 as int,
                p.1 as int,
            ),
            final(self).spec_written() == old(self).spec_written() + old(self).clipped_box(
                p.0 as int,
                p.0 as int,
                p.1 as int,
                p.1 as int,
            ),
            r == final(self).spec_span(),
    {
        self.tilenet.set(value, p);
        self.record_box(p.0, p.0, p.1, p.1);
        proof {
            lemma_clipped_box_same_extent(
                *old(self),
                *self,
                p.0 as int,
                p.0 as int,
                p.1 as int,
                p.1 as int,
            );
        }
        self.get_span()
    }
}

/// Two proxies over grids of the same extent clip a box to the same set of
/// cells.
proof fn lemma_clipped_box_same_extent<T>(
    a: TileNetProxy<T>,
    b: TileNetProxy<T>,
    x0: int,
    x1: int,
    y0: int,
    y1: int,
)
    requires
        a.spec_net().spec_cols() == b.spec_net().spec_cols(),
        a.spec_net().spec_rows() == b.spec_net().spec_rows(),
    ensures
        a.clipped_box(x0, x1, y0, y1) == b.clipped_box(x0, x1, y0, y1),
{
    assert(a.clipped_box(x0, x1, y0, y1) =~= b.clipped_box(x0, x1, y0, y1));
}

impl<T: Copy> TileNet<T> {
    /// Create a proxy that forwards writes to the grid while accumulating
    /// the span of every change, to be fetched with
    /// [`TileNetProxy::get_span`]. The grid can be taken back with
    /// [`TileNetProxy::into_inner`].
    pub fn prepare(self) -> (r: TileNetProxy<T>)
        ensures
            r.spec_net() == self,
            r.spec_written() == Set::<(int, int)>::empty(),
            r.span_minimal(),
    {
        let size = self.get_size();
        TileNetProxy {
            tilenet: self,
            min_x: size.0,
            max_x: 0,
            min_y: size.1,
            max_y: 0,
            written: Ghost(Set::empty()),
        }
    }
}

/// Clamp a possibly negative index to zero.
fn positivize_isize(value: isize) -> (r: usize)
    ensures
        r == if value < 0 {
            0
        } else {
            value as int
        },
{
    if value < 0 {
        0
    } else {
        value as usize
    }
}

/// Clamp both components of an index pair to zero.
fn positivize_2_tuple(value: (isize, isize)) -> (r: (usize, usize))
    ensures
        r.0 == if value.0 < 0 {
            0
        } else {
            value.0 as int
        },
        r.1 == if value.1 < 0 {
            0
        } else {
            value.1 as int
        },
{
    (positivize_isize(value.0), positivize_isize(value.1))
}

impl<T: Copy + Default> TileNet<T> {
    /// Create a new tilenet of the size `(cols, rows)`.
    ///
    /// The tiles all hold the payload's default value.
    pub fn new(size: (usize, usize)) -> (r: TileNet<T>)
        requires
            1 <= size.0,
            size.0 * size.1 <= usize::MAX,
        ensures
            r.spec_cols() == size.0,
            r.spec_rows() == size.1,
            r.cells().len() == size.0 * size.1,
            call_ensures(T::default, (), r.spec_fill()),
            forall|i: int| 0 <= i < r.cells().len() ==> r.cells()[i] == r.spec_fill(),
            forall|x: int, y: int|
                r.in_range(x, y) ==> r.spec_cell(x, y) == r.spec_fill(),
    {
        let fill = T::default();
        let count = size.0 * size.1;
        let mut map: Vec<T> = Vec::new();
        let mut i: usize = 0;
        while i < count
            invariant
                i <= count,
                map@.len() == i,
                forall|k: int| 0 <= k < i ==> map@[k] == fill,
            decreases count - i,
        {
            map.push(fill);
            i = i + 1;
        }
        proof {
            vstd::arithmetic::div_mod::lemma_fundamental_div_mod_converse(
                count as int,
                size.0 as int,
                size.1 as int,
                0,
            );
        }
        let r = TileNet { map, cols: size.0, fill };
        proof {
            use_type_invariant(&r);
            r.lemma_extent();
            assert forall|x: int, y: int| r.in_range(x, y) implies r.spec_cell(x, y)
                == r.spec_fill() by {
                lemma_rowmajor_index(x, y, r.spec_cols(), r.spec_rows());
            }
        }
        r
    }

    /// Resize the grid to the extent `(cols, rows)`.
    ///
    /// Every cell whose position lies within both the old and the new extent
    /// keeps its payload; every other new cell holds the fill payload.
    pub fn resize(&mut self, m: (usize, usize))
        requires
            1 <= m.0,
            m.0 * m.1 <= usize::MAX,
        ensures
            final(self).spec_cols() == m.0,
            final(self).spec_rows() == m.1,
            final(self).cells().len() == m.0 * m.1,
            final(self).spec_fill() == old(self).spec_fill(),
            forall|x: int, y: int|
                0 <= x < m.0 && 0 <= y < m.1 ==> final(self).spec_cell(x, y) == (if old(
                    self,
                ).in_range(x, y) {
                    old(self).spec_cell(x, y)
                } else {
                    old(self).spec_fill()
                }),
    {
        let ghost prior = *self;
        let cols = m.0;
        let rows = m.1;
        let fill = self.fill;
        let mut new_map: Vec<T> = Vec::new();
        let mut y: usize = 0;
        while y < rows
            invariant
                y <= rows,
                new_map@.len() == y * cols,
                1 <= cols,
                cols * rows <= usize::MAX,
                *self == prior,
                fill == prior.spec_fill(),
                forall|x2: int, y2: int|
                    0 <= x2 < cols && 0 <= y2 < y ==> new_map@[x2 + y2 * cols] == (if
                    prior.in_range(x2, y2) {
                        prior.spec_cell(x2, y2)
                    } else {
                        prior.spec_fill()
                    }),
            decreases rows - y,
        {
            let mut x: usize = 0;
            proof {
                lemma_row_extent(y as int, cols as int, rows as int);
            }
            while x < cols
                invariant
                    x <= cols,
                    y < rows,
                    new_map@.len() == y * cols + x,
                    1 <= cols,
                    cols * rows <= usize::MAX,
                    y * cols + cols <= usize::MAX,
                    *self == prior,
                    fill == prior.spec_fill(),
                    forall|x2: int, y2: int|
                        0 <= x2 < cols && 0 <= y2 < y ==> new_map@[x2 + y2 * cols] == (if
                        prior.in_range(x2, y2) {
                            prior.spec_cell(x2, y2)
                        } else {
                            prior.spec_fill()
                        }),
                    forall|x2: int|
                        0 <= x2 < x ==> new_map@[x2 + y * cols] == (if prior.in_range(
                            x2,
                            y as int,
                        ) {
                            prior.spec_cell(x2, y as int)
                        } else {
                            prior.spec_fill()
                        }),
                decreases cols - x,
            {
                let cell = match self.get((x, y)) {
                    Some(t) => *t,
                    None => fill,
                };
                new_map.push(cell);
                proof {
                    assert forall|x2: int, y2: int| 0 <= x2 < cols && 0 <= y2 < y implies
                        new_map@[x2 + y2 * cols] == (if prior.in_range(x2, y2) {
                        prior.spec_cell(x2, y2)
                    } else {
                        prior.spec_fill()
                    }) by {
                        lemma_flat_below(x2, y2, x as int, y as int, cols as int);
                    }
                }
                x = x + 1;
            }
            proof {
                assert((y as int + 1) * cols as int == y as int * cols as int + cols as int)
                    by (nonlinear_arith);
            }
            y = y + 1;
        }
        proof {
            assert((rows * cols) as int == (rows as int) * (cols as int));
            vstd::arithmetic::div_mod::lemma_fundamental_div_mod_converse(
                (rows * cols) as int,
                cols as int,
                rows as int,
                0,
            );
        }
        *self = TileNet { map: new_map, cols, fill };
    }

    /// Create a tilenet from a row-major list of payloads.
    ///
    /// Takes a column count and the payloads of the leading cells. If the
    /// list does not describe a whole number of rows, the remainder of the
    /// last row is filled with the payload's default value.
    pub fn from_iter(columns: usize, iter: Vec<T>) -> (r: TileNet<T>)
        requires
            1 <= columns,
            iter.len() + columns <= usize::MAX,
        ensures
            r.spec_cols() == columns,
            iter.len() <= r.cells().len() < iter.len() + columns,
            r.cells().len() == (if (iter.len() as int) % (columns as int) == 0 {
                iter.len() as int
            } else {
                iter.len() + columns - (iter.len() as int) % (columns as int)
            }),
            forall|i: int| 0 <= i < iter.len() ==> r.cells()[i] == iter[i],
            forall|i: int| iter.len() <= i < r.cells().len() ==> r.cells()[i] == r.spec_fill(),
            call_ensures(T::default, (), r.spec_fill()),
    {
        let fill = T::default();
        let ghost given = iter@;
        let mut map = iter;
        let remainder = map.len() % columns;
        proof {
            vstd::arithmetic::div_mod::lemma_fundamental_div_mod(
                given.len() as int,
                columns as int,
            );
        }
        if remainder != 0 {
            let pad = columns - remainder;
            let mut k: usize = 0;
            while k < pad
                invariant
                    k <= pad,
                    map@.len() == given.len() + k,
                    forall|i: int| 0 <= i < given.len() ==> map@[i] == given[i],
                    forall|i: int| given.len() <= i < map@.len() ==> map@[i] == fill,
                    given.len() + pad <= usize::MAX,
                decreases pad - k,
            {
                map.push(fill);
                k = k + 1;
            }
            proof {
                let c = columns as int;
                let n = given.len() as int;
                let q = n / c;
                assert((q + 1) * c == q * c + c && c * q == q * c) by (nonlinear_arith);
                vstd::arithmetic::div_mod::lemma_fundamental_div_mod_converse(
                    n + (c - n % c),
                    c,
                    n / c + 1,
                    0,
                );
            }
        }
        TileNet { map, cols: columns, fill }
    }
}

impl TileNet<usize> {
    /// Create a simple sample grid: ten by ten cells holding their
    /// one-based row-major ordinal, with the first fifty cleared to zero.
    pub fn sample() -> (r: TileNet<usize>)
        ensures
            r.spec_cols() == 10,
            r.spec_rows() == 10,
            forall|x: int, y: int|
                0 <= x < 10 && 0 <= y < 10 ==> r.spec_cell(x, y) == (if x + y * 10 + 1 > 50 {
                    x + y * 10 + 1
                } else {
                    0
                }),
    {
        let mut values: Vec<usize> = Vec::new();
        let mut i: usize = 1;
        while i <= 100
            invariant
                1 <= i <= 101,
                values@.len() == i - 1,
                forall|j: int|
                    0 <= j < i - 1 ==> values@[j] == (if j + 1 > 50 {
                        j + 1
                    } else {
                        0
                    }),
            decreases 101 - i,
        {
            values.push(if i > 50 {
                i
            } else {
                0
            });
            i = i + 1;
        }
        TileNet::from_iter(10, values)
    }
}

/// A full row fits: with `y < rows`, the indices of row `y` stay below the
/// total cell count.
proof fn lemma_row_extent(y: int, c: int, r: int)
    requires
        0 <= y < r,
        1 <= c,
    ensures
        y * c + c <= r * c,
        0 <= y * c,
{
    assert(y * c + c <= r * c && 0 <= y * c) by (nonlinear_arith)
        requires
            0 <= y < r,
            1 <= c,
    ;
}

/// A cell of an earlier row, or an earlier cell of the current row, has a
/// flat index below the current write position `y * c + x`.
proof fn lemma_flat_below(x2: int, y2: int, x: int, y: int, c: int)
    requires
        0 <= x2 < c,
        0 <= y2 < y,
        0 <= x,
        1 <= c,
    ensures
        0 <= x2 + y2 * c < y * c + x,
{
    assert(0 <= x2 + y2 * c < y * c + x) by (nonlinear_arith)
        requires
            0 <= x2 < c,
            0 <= y2 < y,
            0 <= x,
            1 <= c,
    ;
}

} // verus!

