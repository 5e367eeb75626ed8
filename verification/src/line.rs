use vstd::prelude::*;

use crate::vector::{Vector, COORD_LIMIT, SCALE};

verus! {

/// Largest magnitude a cell index can have for an endpoint within
/// [`COORD_LIMIT`]: the floored quotient by [`SCALE`].
pub const CELL_LIMIT: i64 = 0x1000_0000;

/// Largest number of interior steps a traversal can take: the Manhattan
/// distance between two cells within [`CELL_LIMIT`].
pub const LEN_LIMIT: usize = 0x40000000;

/// The index of the cell that contains the subunit coordinate `a`.
pub open spec fn cell_of(a: i64) -> int {
    a as int / (SCALE as int)
}

/// The cells a supercover walk reports from a given state, written over
/// plain integers so the exact sequence is publicly computable.
///
/// `pos` is the current cell; `dist` the subunit distances along each axis
/// to the next gridline; `speed` the per-axis magnitudes of the
/// displacement; `dir` the per-axis step directions (the signs of the
/// displacement); `steps` the interior steps left. Each step reports the
/// current cell and crosses the gridline the line reaches first: the axis
/// whose distance-to-speed ratio is smaller advances, compared by
/// cross-multiplication, and on a tie the x axis advances. After the last
/// interior step the destination cell is reported unconditionally.
pub open spec fn walk_cells(
    pos: (int, int),
    dist: (int, int),
    speed: (int, int),
    dir: (int, int),
    dest: (int, int),
    steps: nat,
) -> Seq<(int, int)>
    decreases steps,
{
    if steps == 0 {
        seq![dest]
    } else if dist.0 * speed.1 <= dist.1 * speed.0 {
        seq![pos] + walk_cells(
            (pos.0 + dir.0, pos.1),
            (dist.0 + SCALE, dist.1),
            speed,
            dir,
            dest,
            (steps - 1) as nat,
        )
    } else {
        seq![pos] + walk_cells(
            (pos.0, pos.1 + dir.1),
            (dist.0, dist.1 + SCALE),
            speed,
            dir,
            dest,
            (steps - 1) as nat,
        )
    }
}

/// The full cell sequence the supercover of `line` reports, computed from
/// the line alone: the walk of [`walk_cells`] started at the floored start
/// cell, with the initial gridline distances given by the start's
/// fractional position, for the Manhattan cell distance many interior
/// steps, ending on the floored destination.
pub open spec fn line_cells(line: Line) -> Seq<(int, int)> {
    let vx = line.1.0 - line.0.0;
    let vy = line.1.1 - line.0.1;
    let ix0 = cell_of(line.0.0);
    let iy0 = cell_of(line.0.1);
    let dx = cell_of(line.1.0);
    let dy = cell_of(line.1.1);
    let xf = line.0.0 - SCALE * ix0;
    let yf = line.0.1 - SCALE * iy0;
    walk_cells(
        (ix0, iy0),
        (
            if vx < 0 {
                xf
            } else {
                SCALE - xf
            },
            if vy < 0 {
                yf
            } else {
                SCALE - yf
            },
        ),
        (
            if vx < 0 {
                -vx
            } else {
                vx
            },
            if vy < 0 {
                -vy
            } else {
                vy
            },
        ),
        (
            if vx < 0 {
                -1int
            } else {
                1int
            },
            if vy < 0 {
                -1int
            } else {
                1int
            },
        ),
        (dx, dy),
        ((if dx >= ix0 {
            dx - ix0
        } else {
            ix0 - dx
        }) + (if dy >= iy0 {
            dy - iy0
        } else {
            iy0 - dy
        })) as nat,
    )
}

/// Two cells sharing an edge: exactly one coordinate differs, by one.
pub open spec fn adjacent_cells(a: (i32, i32), b: (i32, i32)) -> bool {
    ||| (a.1 == b.1 && (b.0 - a.0 == 1 || b.0 - a.0 == -1))
    ||| (a.0 == b.0 && (b.1 - a.1 == 1 || b.1 - a.1 == -1))
}

/// The number of gridlines a walk still crosses on one axis within the
/// line's extent, given the subunit distance to the next gridline and the
/// axis speed. Moving up or right (`inclusive`), a gridline reached
/// exactly at the endpoint still changes cell, because a cell includes its
/// lower boundary; moving down or left it does not.
spec fn crossings(dist: int, speed: int, inclusive: bool) -> int {
    if inclusive {
        if dist <= speed {
            (speed - dist) / (SCALE as int) + 1
        } else {
            0
        }
    } else {
        if dist < speed {
            (speed - dist - 1) / (SCALE as int) + 1
        } else {
            0
        }
    }
}

/// Describe a line by its start and end [`Vector`] respectively.
#[derive(Clone, Copy, Debug, PartialEq, Eq, Structural)]
pub struct Line(pub Vector, pub Vector);

impl Line {
    /// Create a line using its end point, starting in the origin.
    pub fn from_origin(p: Vector) -> (r: Line)
        ensures
            r == (Line(Vector(0, 0), p)),
    {
        Line(Vector(0, 0), p)
    }

    /// The traversal state a fresh supercover iterator of this line starts
    /// in.
    pub closed spec fn spec_cover(self) -> SuperCover {
        let vx = self.1.0 - self.0.0;
        let vy = self.1.1 - self.0.1;
        let ix0 = cell_of(self.0.0);
        let iy0 = cell_of(self.0.1);
        let dx = cell_of(self.1.0);
        let dy = cell_of(self.1.1);
        let xf = self.0.0 - SCALE * ix0;
        let yf = self.0.1 - SCALE * iy0;
        SuperCover {
            it: 0,
            len: ((if dx >= ix0 {
                dx - ix0
            } else {
                ix0 - dx
            }) + (if dy >= iy0 {
                dy - iy0
            } else {
                iy0 - dy
            })) as usize,
            speed_x: (if vx < 0 {
                -vx
            } else {
                vx
            }) as i64,
            speed_y: (if vy < 0 {
                -vy
            } else {
                vy
            }) as i64,
            sx: if vx < 0 {
                (-1) as i32
            } else {
                1 as i32
            },
            sy: if vy < 0 {
                (-1) as i32
            } else {
                1 as i32
            },
            ex: (if vx < 0 {
                xf
            } else {
                SCALE - xf
            }) as i64,
            ey: (if vy < 0 {
                yf
            } else {
                SCALE - yf
            }) as i64,
            ix: ix0 as i32,
            iy: iy0 as i32,
            dest_x: dx as i32,
            dest_y: dy as i32,
        }
    }

    /// Create a supercover line iterator.
    ///
    /// The supercover reports every cell the line overlaps, in the order
    /// the line reaches them — similar to Bresenham's algorithm, but
    /// including the cells only a small portion of the line passes through.
    /// The cells are given by the integer boundaries of the fixed-point
    /// grid.
    pub fn supercover(&self) -> (r: SuperCover)
        requires
            self.0.in_limit(COORD_LIMIT),
            self.1.in_limit(COORD_LIMIT),
        ensures
            r == self.spec_cover(),
            r.well_formed(),
    {
        let (start, stop) = (self.0, self.1);
        let vx = stop.0 - start.0;
        let vy = stop.1 - start.1;
        let (ix, xf) = split_scale(start.0);
        let (iy, yf) = split_scale(start.1);
        let (dest_x, _) = split_scale(stop.0);
        let (dest_y, _) = split_scale(stop.1);
        let (sx, ex) = if vx < 0 {
            (-1i32, xf)
        } else {
            (1i32, SCALE - xf)
        };
        let (sy, ey) = if vy < 0 {
            (-1i32, yf)
        } else {
            (1i32, SCALE - yf)
        };
        let speed_x = if vx < 0 {
            -vx
        } else {
            vx
        };
        let speed_y = if vy < 0 {
            -vy
        } else {
            vy
        };
        let mdx = if dest_x >= ix {
            dest_x - ix
        } else {
            ix - dest_x
        };
        let mdy = if dest_y >= iy {
            dest_y - iy
        } else {
            iy - dest_y
        };
        let len = (mdx + mdy) as usize;
        proof {
            if start.0 <= stop.0 {
                vstd::arithmetic::div_mod::lemma_div_is_ordered(
                    start.0 as int,
                    stop.0 as int,
                    SCALE as int,
                );
            } else {
                vstd::arithmetic::div_mod::lemma_div_is_ordered(
                    stop.0 as int,
                    start.0 as int,
                    SCALE as int,
                );
            }
            if start.1 <= stop.1 {
                vstd::arithmetic::div_mod::lemma_div_is_ordered(
                    start.1 as int,
                    stop.1 as int,
                    SCALE as int,
                );
            } else {
                vstd::arithmetic::div_mod::lemma_div_is_ordered(
                    stop.1 as int,
                    start.1 as int,
                    SCALE as int,
                );
            }
        }
        SuperCover {
            it: 0,
            len,
            speed_x,
            speed_y,
            sx,
            sy,
            ex,
            ey,
            ix: ix as i32,
            iy: iy as i32,
            dest_x: dest_x as i32,
            dest_y: dest_y as i32,
        }
    }
}

/// Split a subunit coordinate into its cell index and its remainder within
/// the cell.
fn split_scale(a: i64) -> (r: (i64, i64))
    requires
        -COORD_LIMIT <= a <= COORD_LIMIT,
    ensures
        r.0 == cell_of(a),
        r.1 == a - SCALE * cell_of(a),
        0 <= r.1 < SCALE,
        -CELL_LIMIT <= r.0 <= CELL_LIMIT,
{
    proof {
        vstd::arithmetic::div_mod::lemma_fundamental_div_mod(a as int, SCALE as int);
        vstd::arithmetic::div_mod::lemma_div_is_ordered(-COORD_LIMIT as int, a as int, SCALE as int);
        vstd::arithmetic::div_mod::lemma_div_is_ordered(a as int, COORD_LIMIT as int, SCALE as int);
        assert((-COORD_LIMIT) as int / (SCALE as int) == -CELL_LIMIT) by (nonlinear_arith);
        assert(COORD_LIMIT as int / (SCALE as int) == CELL_LIMIT) by (nonlinear_arith);
    }
    let q = match a.checked_div_euclid(SCALE) {
        Some(q) => q,
        None => 0,
    };
    (q, a - q * SCALE)
}

/// Iterator for traversing the tiles from one end of a line to the other.
///
/// The walk advances one cell at a time, choosing at each step the axis
/// whose next gridline is crossed first, so it reports every cell the line
/// touches in order of increasing distance from the start. The distances to
/// the next gridline are kept exactly, as subunit counts compared by
/// cross-multiplication, so no drift can accumulate; after exactly the
/// Manhattan distance in cells the iterator additionally reports the
/// destination cell itself and then ends.
#[derive(Clone, Copy, Debug)]
pub struct SuperCover {
    it: usize,
    len: usize,
    speed_x: i64,
    speed_y: i64,
    sx: i32,
    sy: i32,
    ex: i64,
    ey: i64,
    ix: i32,
    iy: i32,
    dest_x: i32,
    dest_y: i32,
}

impl SuperCover {
    /// The number of cells already reported.
    pub closed spec fn spec_taken(self) -> int {
        self.it as int
    }

    /// The number of interior steps of the walk: the Manhattan distance in
    /// cells between the two endpoints.
    pub closed spec fn spec_len(self) -> int {
        self.len as int
    }

    /// The destination cell, reported last.
    pub closed spec fn spec_dest(self) -> (int, int) {
        (self.dest_x as int, self.dest_y as int)
    }

    /// The cell the walk currently stands on.
    pub closed spec fn spec_pos(self) -> (int, int) {
        (self.ix as int, self.iy as int)
    }

    /// The state is consistent: counters within bounds, distances to the
    /// next gridlines nonnegative and bounded by the steps taken, an axis
    /// with no displacement never stepped, and on an axis-aligned walk the
    /// remaining steps lead exactly to the destination.
    #[verifier::type_invariant]
    pub closed spec fn well_formed(self) -> bool {
        &&& self.len <= LEN_LIMIT
        &&& self.it <= self.len + 1
        &&& (self.sx == 1 || self.sx == -1)
        &&& (self.sy == 1 || self.sy == -1)
        &&& 0 <= self.speed_x <= 2 * COORD_LIMIT
        &&& 0 <= self.speed_y <= 2 * COORD_LIMIT
        &&& 0 <= self.ex <= SCALE * (self.it + 1)
        &&& 0 <= self.ey <= SCALE * (self.it + 1)
        &&& self.speed_x == 0 ==> self.ex >= 1
        &&& self.speed_y == 0 ==> self.ey >= 1
        &&& (self.speed_x == 0 && self.speed_y == 0) ==> self.len == 0
        &&& -CELL_LIMIT - self.it <= self.ix <= CELL_LIMIT + self.it
        &&& -CELL_LIMIT - self.it <= self.iy <= CELL_LIMIT + self.it
        &&& -CELL_LIMIT <= self.dest_x <= CELL_LIMIT
        &&& -CELL_LIMIT <= self.dest_y <= CELL_LIMIT
        &&& self.speed_x == 0 ==> self.ix == self.dest_x
        &&& self.speed_y == 0 ==> self.iy == self.dest_y
        &&& self.speed_y == 0 && self.it <= self.len ==> (if self.sx == 1 {
            self.dest_x == self.ix + (self.len - self.it)
        } else {
            self.dest_x == self.ix - (self.len - self.it)
        })
        &&& self.speed_x == 0 && self.it <= self.len ==> (if self.sy == 1 {
            self.dest_y == self.iy + (self.len - self.it)
        } else {
            self.dest_y == self.iy - (self.len - self.it)
        })
    }

    /// The walk crosses a vertical gridline no later than a horizontal one:
    /// the time to the next crossing on each axis is the distance divided by
    /// the axis speed, compared here by cross-multiplication so that a zero
    /// speed acts as an infinite time. On a tie the x axis advances first.
    spec fn takes_x_step(self) -> bool {
        self.ex * self.speed_y <= self.ey * self.speed_x
    }

    /// The state after one interior step of the walk.
    spec fn stepped(self) -> SuperCover {
        if self.takes_x_step() {
            SuperCover {
                it: (self.it + 1) as usize,
                ex: (self.ex + SCALE) as i64,
                ix: (self.ix + self.sx) as i32,
                ..self
            }
        } else {
            SuperCover {
                it: (self.it + 1) as usize,
                ey: (self.ey + SCALE) as i64,
                iy: (self.iy + self.sy) as i32,
                ..self
            }
        }
    }

    /// The cells the iterator has yet to report: the walk's cells up to the
    /// step count, followed by the destination cell.
    pub closed spec fn remaining(self) -> Seq<(i32, i32)>
        decreases self.spec_len() + 1 - self.spec_taken(),
        when self.spec_taken() <= self.spec_len() + 1
    {
        if self.it > self.len {
            Seq::empty()
        } else if self.it == self.len {
            seq![(self.dest_x, self.dest_y)]
        } else {
            seq![(self.ix, self.iy)] + self.stepped().remaining()
        }
    }

    /// Report the next cell of the traversal, or the end of the stream.
    ///
    /// The walk first reports the cell it stands on and crosses into the
    /// neighbouring cell whose gridline the line reaches first; after the
    /// last interior step it reports the destination cell itself,
    /// unconditionally, and then ends.
    pub fn next(&mut self) -> (r: Option<(i32, i32)>)
        ensures
            old(self).remaining().len() == 0 ==> r is None && *final(self) == *old(self),
            old(self).remaining().len() > 0 ==> {
                &&& r == Some(old(self).remaining()[0])
                &&& final(self).remaining() == old(self).remaining().skip(1)
                &&& final(self).spec_len() == old(self).spec_len()
                &&& final(self).spec_dest() == old(self).spec_dest()
                &&& final(self).spec_taken() == old(self).spec_taken() + 1
            },
    {
        proof {
            use_type_invariant(&*self);
        }
        if self.it < self.len {
            let ret = (self.ix, self.iy);
            proof {
                assert(i128::MIN <= self.ex * self.speed_y <= i128::MAX && i128::MIN <= self.ey
                    * self.speed_x <= i128::MAX) by (nonlinear_arith)
                    requires
                        -0x8000_0000_0000_0000 <= self.ex <= 0x7fff_ffff_ffff_ffff,
                        -0x8000_0000_0000_0000 <= self.ey <= 0x7fff_ffff_ffff_ffff,
                        -0x8000_0000_0000_0000 <= self.speed_x <= 0x7fff_ffff_ffff_ffff,
                        -0x8000_0000_0000_0000 <= self.speed_y <= 0x7fff_ffff_ffff_ffff,
                ;
            }
            let lhs = (self.ex as i128) * (self.speed_y as i128);
            let rhs = (self.ey as i128) * (self.speed_x as i128);
            let take_x = lhs <= rhs;
            proof {
                self.lemma_step_well_formed();
                assert(take_x == self.takes_x_step());
            }
            if take_x {
                *self = SuperCover {
                    it: self.it + 1,
                    ex: self.ex + SCALE,
                    ix: self.ix + self.sx,
                    ..*self
                };
            } else {
                *self = SuperCover {
                    it: self.it + 1,
                    ey: self.ey + SCALE,
                    iy: self.iy + self.sy,
                    ..*self
                };
            }
            proof {
                assert(*self == old(self).stepped());
                assert(old(self).remaining() == seq![(old(self).remaining()[0])]
                    + self.remaining());
                assert(old(self).remaining().skip(1) =~= self.remaining());
            }
            Some(ret)
        } else if self.it == self.len {
            let ret = (self.dest_x, self.dest_y);
            *self = SuperCover { it: self.it + 1, ..*self };
            proof {
                assert(self.remaining() =~= Seq::empty());
                assert(old(self).remaining().skip(1) =~= self.remaining());
            }
            Some(ret)
        } else {
            proof {
                assert(old(self).remaining().len() == 0);
            }
            None
        }
    }

    /// Report whether the traversal has ended: no cell remains to be
    /// reported.
    pub fn is_exhausted(&self) -> (r: bool)
        ensures
            r == (self.remaining().len() == 0),
    {
        proof {
            use_type_invariant(self);
            self.lemma_remaining_shape();
        }
        self.it > self.len
    }

    /// One interior step preserves well-formedness and leaves the frame of
    /// the walk — its length, destination, speeds and signs — unchanged.
    proof fn lemma_step_well_formed(self)
        requires
            self.well_formed(),
            self.it < self.len,
        ensures
            self.stepped().well_formed(),
            self.stepped().it == self.it + 1,
            self.stepped().len == self.len,
            self.stepped().dest_x == self.dest_x,
            self.stepped().dest_y == self.dest_y,
            self.stepped().speed_x == self.speed_x,
            self.stepped().speed_y == self.speed_y,
            self.stepped().sx == self.sx,
            self.stepped().sy == self.sy,
            self.takes_x_step() ==> self.stepped().iy == self.iy && self.stepped().ix == self.ix
                + self.sx,
            !self.takes_x_step() ==> self.stepped().ix == self.ix && self.stepped().iy == self.iy
                + self.sy,
    {
        if self.takes_x_step() {
            if self.speed_x == 0 {
                assert(self.ex * self.speed_y >= 1 * self.speed_y) by (nonlinear_arith)
                    requires
                        self.ex >= 1,
                        self.speed_y >= 0,
                ;
                assert(self.ey * self.speed_x == 0) by (nonlinear_arith)
                    requires
                        self.speed_x == 0,
                ;
                assert(self.speed_y == 0);
                assert(false);
            }
        } else {
            if self.speed_y == 0 {
                assert(self.ex * self.speed_y == 0) by (nonlinear_arith)
                    requires
                        self.speed_y == 0,
                ;
                assert(self.ey * self.speed_x >= 0) by (nonlinear_arith)
                    requires
                        self.ey >= 0,
                        self.speed_x >= 0,
                ;
                assert(false);
            }
        }
    }
}

impl SuperCover {
    /// The iterator reports exactly the remaining step count plus one
    /// cells, and the last of them is the destination cell.
    pub proof fn lemma_remaining_shape(self)
        requires
            self.well_formed(),
        ensures
            self.spec_taken() <= self.spec_len() ==> {
                &&& self.remaining().len() == self.spec_len() + 1 - self.spec_taken()
                &&& self.remaining().last() == (
                    self.spec_dest().0 as i32,
                    self.spec_dest().1 as i32,
                )
            },
            self.spec_taken() < self.spec_len() ==> self.remaining()[0] == (
                self.spec_pos().0 as i32,
                self.spec_pos().1 as i32,
            ),
            self.spec_taken() == self.spec_len() ==> self.remaining()[0] == (
                self.spec_dest().0 as i32,
                self.spec_dest().1 as i32,
            ),
            self.spec_taken() > self.spec_len() ==> self.remaining().len() == 0,
        decreases self.spec_len() + 1 - self.spec_taken(),
    {
        if self.it > self.len {
        } else if self.it == self.len {
        } else {
            self.lemma_step_well_formed();
            self.stepped().lemma_remaining_shape();
            assert(self.remaining() == seq![(self.ix, self.iy)] + self.stepped().remaining());
            assert(self.stepped().remaining().len() > 0);
            assert(self.remaining().last() == self.stepped().remaining().last());
        }
    }

    /// The gridlines the walk still crosses on the x axis within the
    /// line's extent.
    spec fn x_crossings(self) -> int {
        crossings(self.ex as int, self.speed_x as int, self.sx == 1)
    }

    /// The gridlines the walk still crosses on the y axis within the
    /// line's extent.
    spec fn y_crossings(self) -> int {
        crossings(self.ey as int, self.speed_y as int, self.sy == 1)
    }

    /// The remaining steps equal the remaining in-extent crossings, which
    /// lead exactly to the destination cell. A fresh cover starts
    /// budgeted, and every step but the last preserves it; the last step
    /// may instead spend the one crossing the line's endpoint sits on
    /// exactly, which is why the destination is reported unconditionally.
    spec fn budgeted(self) -> bool {
        &&& self.x_crossings() + self.y_crossings() == self.len - self.it
        &&& self.dest_x - self.ix == (if self.sx == 1 {
            self.x_crossings()
        } else {
            -self.x_crossings()
        })
        &&& self.dest_y - self.iy == (if self.sy == 1 {
            self.y_crossings()
        } else {
            -self.y_crossings()
        })
    }

    /// While at least two steps remain, the chosen axis spends an
    /// in-extent crossing, so the budget carries over to the next state.
    proof fn lemma_step_budgeted(self)
        requires
            self.well_formed(),
            self.budgeted(),
            self.it + 1 < self.len,
        ensures
            self.stepped().budgeted(),
    {
        let s = SCALE as int;
        let stepped = self.stepped();
        self.lemma_step_well_formed();
        if self.takes_x_step() {
            if self.x_crossings() == 0 {
                assert(self.y_crossings() == self.len - self.it >= 2);
                assert(self.speed_y >= 1) by {
                    if self.speed_y == 0 {
                        assert(self.y_crossings() == 0);
                    }
                }
                assert(self.ey <= self.speed_y);
                if self.ex > self.speed_x {
                    assert(self.ex * self.speed_y > self.ey * self.speed_x) by (nonlinear_arith)
                        requires
                            self.ex > self.speed_x,
                            self.ey <= self.speed_y,
                            self.speed_y >= 1,
                            self.speed_x >= 0,
                            self.ey >= 0,
                    ;
                } else {
                    assert(self.sx == -1 && self.ex == self.speed_x);
                    assert(self.speed_x >= 1) by {
                        if self.speed_x == 0 {
                            assert(self.ex >= 1);
                        }
                    }
                    assert(self.speed_y <= self.ey) by (nonlinear_arith)
                        requires
                            self.ex * self.speed_y <= self.ey * self.speed_x,
                            self.ex == self.speed_x,
                            self.speed_x >= 1,
                    ;
                    assert(self.ey == self.speed_y);
                    assert(self.y_crossings() <= 1);
                }
                assert(false);
            }
            if self.sx == 1 {
                assert(self.ex <= self.speed_x);
                if self.ex + s <= self.speed_x {
                    vstd::arithmetic::div_mod::lemma_div_minus_one(
                        self.speed_x - self.ex as int,
                        s,
                    );
                } else {
                    vstd::arithmetic::div_mod::lemma_fundamental_div_mod_converse(
                        self.speed_x - self.ex as int,
                        s,
                        0,
                        self.speed_x - self.ex as int,
                    );
                }
            } else {
                assert(self.ex < self.speed_x);
                if self.ex + s < self.speed_x {
                    vstd::arithmetic::div_mod::lemma_div_minus_one(
                        self.speed_x - self.ex - 1 as int,
                        s,
                    );
                } else {
                    vstd::arithmetic::div_mod::lemma_fundamental_div_mod_converse(
                        self.speed_x - self.ex - 1 as int,
                        s,
                        0,
                        self.speed_x - self.ex - 1 as int,
                    );
                }
            }
            assert(stepped.x_crossings() == self.x_crossings() - 1);
        } else {
            if self.y_crossings() == 0 {
                assert(self.x_crossings() == self.len - self.it >= 2);
                assert(self.speed_x >= 1) by {
                    if self.speed_x == 0 {
                        assert(self.x_crossings() == 0);
                    }
                }
                assert(self.ex <= self.speed_x);
                assert(self.ey >= self.speed_y);
                assert(self.ex * self.speed_y <= self.ey * self.speed_x) by (nonlinear_arith)
                    requires
                        self.ex <= self.speed_x,
                        self.ey >= self.speed_y,
                        self.speed_x >= 1,
                        self.speed_y >= 0,
                        self.ex >= 0,
                ;
                assert(false);
            }
            if self.sy == 1 {
                assert(self.ey <= self.speed_y);
                if self.ey + s <= self.speed_y {
                    vstd::arithmetic::div_mod::lemma_div_minus_one(
                        self.speed_y - self.ey as int,
                        s,
                    );
                } else {
                    vstd::arithmetic::div_mod::lemma_fundamental_div_mod_converse(
                        self.speed_y - self.ey as int,
                        s,
                        0,
                        self.speed_y - self.ey as int,
                    );
                }
            } else {
                assert(self.ey < self.speed_y);
                if self.ey + s < self.speed_y {
                    vstd::arithmetic::div_mod::lemma_div_minus_one(
                        self.speed_y - self.ey - 1 as int,
                        s,
                    );
                } else {
                    vstd::arithmetic::div_mod::lemma_fundamental_div_mod_converse(
                        self.speed_y - self.ey - 1 as int,
                        s,
                        0,
                        self.speed_y - self.ey - 1 as int,
                    );
                }
            }
            assert(stepped.y_crossings() == self.y_crossings() - 1);
        }
    }

    /// In a budgeted walk every reported cell shares an edge with the one
    /// reported next — the final destination cell included, since the last
    /// remaining crossing is exactly one cell away from the destination.
    proof fn lemma_budgeted_contiguous(self)
        requires
            self.well_formed(),
            self.budgeted(),
        ensures
            forall|k: int|
                0 <= k < self.remaining().len() - 1 ==> adjacent_cells(
                    #[trigger] self.remaining()[k],
                    self.remaining()[k + 1],
                ),
        decreases self.spec_len() + 1 - self.spec_taken(),
    {
        if self.it >= self.len {
        } else {
            self.lemma_step_well_formed();
            let rest = self.stepped().remaining();
            assert(self.remaining() == seq![(self.ix, self.iy)] + rest);
            if self.it + 1 == self.len {
                assert(rest == seq![(self.dest_x, self.dest_y)]);
                assert(self.x_crossings() + self.y_crossings() == 1);
                assert(self.x_crossings() >= 0 && self.y_crossings() >= 0) by {
                    let s = SCALE as int;
                    if self.ex <= self.speed_x {
                        vstd::arithmetic::div_mod::lemma_div_pos_is_pos(
                            self.speed_x - self.ex as int,
                            s,
                        );
                    }
                    if self.ex < self.speed_x {
                        vstd::arithmetic::div_mod::lemma_div_pos_is_pos(
                            self.speed_x - self.ex - 1 as int,
                            s,
                        );
                    }
                    if self.ey <= self.speed_y {
                        vstd::arithmetic::div_mod::lemma_div_pos_is_pos(
                            self.speed_y - self.ey as int,
                            s,
                        );
                    }
                    if self.ey < self.speed_y {
                        vstd::arithmetic::div_mod::lemma_div_pos_is_pos(
                            self.speed_y - self.ey - 1 as int,
                            s,
                        );
                    }
                }
                assert(adjacent_cells(self.remaining()[0], self.remaining()[1]));
                assert forall|k: int| 0 <= k < self.remaining().len() - 1 implies adjacent_cells(
                    #[trigger] self.remaining()[k],
                    self.remaining()[k + 1],
                ) by {
                    assert(k == 0);
                }
            } else {
                self.lemma_step_budgeted();
                self.stepped().lemma_budgeted_contiguous();
                assert(rest[0] == (self.stepped().ix, self.stepped().iy));
                assert forall|k: int| 0 <= k < self.remaining().len() - 1 implies adjacent_cells(
                    #[trigger] self.remaining()[k],
                    self.remaining()[k + 1],
                ) by {
                    if k == 0 {
                        assert(self.remaining()[1] == rest[0]);
                    } else {
                        assert(self.remaining()[k] == rest[k - 1]);
                        assert(self.remaining()[k + 1] == rest[k]);
                    }
                }
            }
        }
    }

    /// The cells the iterator has yet to report are exactly the walk of
    /// [`walk_cells`] from the current state.
    proof fn lemma_remaining_as_walk(self)
        requires
            self.well_formed(),
            self.it <= self.len,
        ensures
            ({
                let w = walk_cells(
                    (self.ix as int, self.iy as int),
                    (self.ex as int, self.ey as int),
                    (self.speed_x as int, self.speed_y as int),
                    (self.sx as int, self.sy as int),
                    (self.dest_x as int, self.dest_y as int),
                    (self.len - self.it) as nat,
                );
                &&& self.remaining().len() == w.len()
                &&& forall|k: int|
                    0 <= k < w.len() ==> (#[trigger] self.remaining()[k]).0 == w[k].0
                        && self.remaining()[k].1 == w[k].1
            }),
        decreases self.len - self.it,
    {
        let w = walk_cells(
            (self.ix as int, self.iy as int),
            (self.ex as int, self.ey as int),
            (self.speed_x as int, self.speed_y as int),
            (self.sx as int, self.sy as int),
            (self.dest_x as int, self.dest_y as int),
            (self.len - self.it) as nat,
        );
        if self.it == self.len {
            assert(w == seq![(self.dest_x as int, self.dest_y as int)]);
        } else {
            self.lemma_step_well_formed();
            self.stepped().lemma_remaining_as_walk();
            let rest = self.stepped().remaining();
            let wrest = walk_cells(
                (self.stepped().ix as int, self.stepped().iy as int),
                (self.stepped().ex as int, self.stepped().ey as int),
                (self.speed_x as int, self.speed_y as int),
                (self.sx as int, self.sy as int),
                (self.dest_x as int, self.dest_y as int),
                (self.len - self.it - 1) as nat,
            );
            assert(self.remaining() == seq![(self.ix, self.iy)] + rest);
            assert(w == seq![(self.ix as int, self.iy as int)] + wrest);
            assert forall|k: int| 0 <= k < w.len() implies (#[trigger] self.remaining()[k]).0
                == w[k].0 && self.remaining()[k].1 == w[k].1 by {
                if k > 0 {
                    assert(self.remaining()[k] == rest[k - 1]);
                    assert(w[k] == wrest[k - 1]);
                }
            }
        }
    }

    /// The walk never jumps, in whatever state it stands: each cell it
    /// reports shares an edge with the one reported next. From an
    /// arbitrary consistent state only the final pair, ending on the
    /// unconditionally reported destination cell, stands outside this
    /// guarantee; for the traversal of a whole line,
    /// [`Line::lemma_supercover_chain`] covers that pair too.
    pub proof fn lemma_remaining_contiguous(self)
        requires
            self.well_formed(),
        ensures
            forall|k: int|
                0 <= k < self.remaining().len() - 2 ==> adjacent_cells(
                    #[trigger] self.remaining()[k],
                    self.remaining()[k + 1],
                ),
        decreases self.spec_len() + 1 - self.spec_taken(),
    {
        if self.it >= self.len {
        } else {
            self.lemma_step_well_formed();
            self.stepped().lemma_remaining_contiguous();
            self.stepped().lemma_remaining_shape();
            let rest = self.stepped().remaining();
            assert(self.remaining() == seq![(self.ix, self.iy)] + rest);
            assert forall|k: int| 0 <= k < self.remaining().len() - 2 implies adjacent_cells(
                #[trigger] self.remaining()[k],
                self.remaining()[k + 1],
            ) by {
                if k == 0 {
                    assert(self.remaining()[0] == (self.ix, self.iy));
                    assert(self.remaining()[1] == rest[0]);
                    assert(rest.len() >= 2);
                    assert(self.stepped().it < self.stepped().len);
                    assert(rest[0] == (self.stepped().ix, self.stepped().iy));
                } else {
                    assert(self.remaining()[k] == rest[k - 1]);
                    assert(self.remaining()[k + 1] == rest[k]);
                }
            }
        }
    }

    /// On a walk with no vertical displacement every step crosses a
    /// vertical gridline: the cells reported are exactly the run from the
    /// current cell to the destination cell, all on the current row.
    proof fn lemma_horizontal_walk(self)
        requires
            self.well_formed(),
            self.speed_y == 0,
            self.it <= self.len,
        ensures
            forall|k: int|
                0 <= k < self.remaining().len() ==> #[trigger] self.remaining()[k] == (
                    ((self.ix + k * self.sx) as i32),
                    self.iy,
                ),
        decreases self.len - self.it,
    {
        if self.it == self.len {
            assert(self.dest_x == self.ix && self.dest_y == self.iy);
            assert(self.remaining()[0] == (self.dest_x, self.dest_y));
            assert forall|k: int| 0 <= k < self.remaining().len() implies #[trigger] self.remaining()[k]
                == (((self.ix + k * self.sx) as i32), self.iy) by {
                assert(k == 0);
                assert(0 * self.sx == 0) by (nonlinear_arith);
            }
        } else {
            assert(self.ex * self.speed_y == 0) by (nonlinear_arith)
                requires
                    self.speed_y == 0,
            ;
            assert(self.ey * self.speed_x >= 0) by (nonlinear_arith)
                requires
                    self.ey >= 0,
                    self.speed_x >= 0,
            ;
            assert(self.takes_x_step());
            self.lemma_step_well_formed();
            self.stepped().lemma_horizontal_walk();
            let rest = self.stepped().remaining();
            assert(self.remaining() == seq![(self.ix, self.iy)] + rest);
            assert forall|k: int| 0 <= k < self.remaining().len() implies #[trigger] self.remaining()[k]
                == (((self.ix + k * self.sx) as i32), self.iy) by {
                if k == 0 {
                    assert(0 * self.sx == 0) by (nonlinear_arith);
                } else {
                    assert(self.remaining()[k] == rest[k - 1]);
                    assert(rest[k - 1] == (
                        ((self.stepped().ix + (k - 1) * self.stepped().sx) as i32),
                        self.stepped().iy,
                    ));
                    assert(self.stepped().ix + (k - 1) * self.sx == self.ix + k * self.sx)
                        by (nonlinear_arith)
                        requires
                            self.stepped().ix == self.ix + self.sx,
                    ;
                }
            }
        }
    }

    /// On a walk with no horizontal displacement every step crosses a
    /// horizontal gridline: the cells reported are exactly the run from the
    /// current cell to the destination cell, all on the current column.
    proof fn lemma_vertical_walk(self)
        requires
            self.well_formed(),
            self.speed_x == 0,
            self.it <= self.len,
        ensures
            forall|k: int|
                0 <= k < self.remaining().len() ==> #[trigger] self.remaining()[k] == (
                    self.ix,
                    ((self.iy + k * self.sy) as i32),
                ),
        decreases self.len - self.it,
    {
        if self.it == self.len {
            assert(self.dest_x == self.ix && self.dest_y == self.iy);
            assert forall|k: int| 0 <= k < self.remaining().len() implies #[trigger] self.remaining()[k]
                == (self.ix, ((self.iy + k * self.sy) as i32)) by {
                assert(k == 0);
                assert(0 * self.sy == 0) by (nonlinear_arith);
            }
        } else {
            if self.takes_x_step() {
                assert(self.ex * self.speed_y >= 1 * self.speed_y) by (nonlinear_arith)
                    requires
                        self.ex >= 1,
                        self.speed_y >= 0,
                ;
                assert(self.ey * self.speed_x == 0) by (nonlinear_arith)
                    requires
                        self.speed_x == 0,
                ;
                assert(self.speed_y == 0);
                assert(false);
            }
            self.lemma_step_well_formed();
            self.stepped().lemma_vertical_walk();
            let rest = self.stepped().remaining();
            assert(self.remaining() == seq![(self.ix, self.iy)] + rest);
            assert forall|k: int| 0 <= k < self.remaining().len() implies #[trigger] self.remaining()[k]
                == (self.ix, ((self.iy + k * self.sy) as i32)) by {
                if k == 0 {
                    assert(0 * self.sy == 0) by (nonlinear_arith);
                } else {
                    assert(self.remaining()[k] == rest[k - 1]);
                    assert(self.stepped().iy + (k - 1) * self.sy == self.iy + k * self.sy)
                        by (nonlinear_arith)
                        requires
                            self.stepped().iy == self.iy + self.sy,
                    ;
                }
            }
        }
    }
}

impl Line {
    /// A fresh supercover of a line within the coordinate limit starts
    /// well formed, at the line's starting cell, with the floored endpoint
    /// as destination and the Manhattan cell distance as step count.
    pub proof fn lemma_cover_well_formed(self)
        requires
            self.0.in_limit(COORD_LIMIT),
            self.1.in_limit(COORD_LIMIT),
        ensures
            self.spec_cover().well_formed(),
            self.spec_cover().spec_taken() == 0,
            self.spec_cover().spec_pos() == (cell_of(self.0.0), cell_of(self.0.1)),
            self.spec_cover().spec_dest() == (cell_of(self.1.0), cell_of(self.1.1)),
            self.spec_cover().spec_len() == abs(cell_of(self.1.0) - cell_of(self.0.0)) + abs(
                cell_of(self.1.1) - cell_of(self.0.1),
            ),
    {
        lemma_cell_of_bounds(self.0.0);
        lemma_cell_of_bounds(self.0.1);
        lemma_cell_of_bounds(self.1.0);
        lemma_cell_of_bounds(self.1.1);
        if self.0.0 <= self.1.0 {
            vstd::arithmetic::div_mod::lemma_div_is_ordered(
                self.0.0 as int,
                self.1.0 as int,
                SCALE as int,
            );
        } else {
            vstd::arithmetic::div_mod::lemma_div_is_ordered(
                self.1.0 as int,
                self.0.0 as int,
                SCALE as int,
            );
        }
        if self.0.1 <= self.1.1 {
            vstd::arithmetic::div_mod::lemma_div_is_ordered(
                self.0.1 as int,
                self.1.1 as int,
                SCALE as int,
            );
        } else {
            vstd::arithmetic::div_mod::lemma_div_is_ordered(
                self.1.1 as int,
                self.0.1 as int,
                SCALE as int,
            );
        }
    }

    /// A fresh cover is budgeted: on each axis, the crossings within the
    /// line's extent lead exactly from the starting cell to the
    /// destination cell, and the interior step count is their sum.
    proof fn lemma_cover_budgeted(self)
        requires
            self.0.in_limit(COORD_LIMIT),
            self.1.in_limit(COORD_LIMIT),
        ensures
            self.spec_cover().budgeted(),
    {
        self.lemma_cover_well_formed();
        lemma_cell_of_bounds(self.0.0);
        lemma_cell_of_bounds(self.0.1);
        lemma_axis_budget(self.0.0, self.1.0);
        lemma_axis_budget(self.0.1, self.1.1);
    }

    /// Every consecutive pair of cells the supercover reports shares an
    /// edge — the final pair, ending on the destination cell, included:
    /// when only one in-extent crossing remains it is exactly one cell
    /// away from the destination, so the moving point cannot tunnel
    /// between any two reported candidates.
    pub proof fn lemma_supercover_chain(self)
        requires
            self.0.in_limit(COORD_LIMIT),
            self.1.in_limit(COORD_LIMIT),
        ensures
            forall|k: int|
                0 <= k < self.spec_cover().remaining().len() - 1 ==> adjacent_cells(
                    #[trigger] self.spec_cover().remaining()[k],
                    self.spec_cover().remaining()[k + 1],
                ),
    {
        self.lemma_cover_budgeted();
        self.spec_cover().lemma_budgeted_contiguous();
    }

    /// The supercover reports exactly the publicly computable cell
    /// sequence [`line_cells`] of the line: which axis advances at every
    /// step, the x-first tie rule included, is thereby fixed by the
    /// contract, cell by cell.
    pub proof fn lemma_supercover_cells(self)
        requires
            self.0.in_limit(COORD_LIMIT),
            self.1.in_limit(COORD_LIMIT),
        ensures
            self.spec_cover().remaining().len() == line_cells(self).len(),
            forall|k: int|
                0 <= k < line_cells(self).len() ==> (#[trigger] self.spec_cover().remaining()[k]).0
                    == line_cells(self)[k].0 && self.spec_cover().remaining()[k].1 == line_cells(
                    self,
                )[k].1,
    {
        lemma_cell_of_bounds(self.0.0);
        lemma_cell_of_bounds(self.0.1);
        lemma_cell_of_bounds(self.1.0);
        lemma_cell_of_bounds(self.1.1);
        self.lemma_cover_well_formed();
        self.spec_cover().lemma_remaining_as_walk();
    }

    /// The supercover of any line within the coordinate limit ends exactly
    /// on the floored destination: its last reported cell is the cell
    /// containing the line's end point, whatever the line's length or
    /// slope.
    pub proof fn lemma_supercover_ends_at_destination(self)
        requires
            self.0.in_limit(COORD_LIMIT),
            self.1.in_limit(COORD_LIMIT),
        ensures
            self.spec_cover().remaining().len() >= 1,
            self.spec_cover().remaining().last().0 == cell_of(self.1.0),
            self.spec_cover().remaining().last().1 == cell_of(self.1.1),
            self.spec_cover().remaining()[0].0 == cell_of(self.0.0),
            self.spec_cover().remaining()[0].1 == cell_of(self.0.1),
    {
        self.lemma_cover_well_formed();
        self.spec_cover().lemma_remaining_shape();
    }

    /// The supercover of a line whose start equals its stop reports exactly
    /// one cell: the cell containing that point.
    pub proof fn lemma_supercover_degenerate(self)
        requires
            self.0.in_limit(COORD_LIMIT),
            self.0 == self.1,
        ensures
            self.spec_cover().remaining().len() == 1,
            self.spec_cover().remaining()[0].0 == cell_of(self.0.0),
            self.spec_cover().remaining()[0].1 == cell_of(self.0.1),
    {
        self.lemma_cover_well_formed();
        self.spec_cover().lemma_remaining_shape();
    }

    /// The supercover of a horizontal line — one with no vertical
    /// displacement — reports exactly the cells between the floored start
    /// and the floored stop, inclusive, in order along the line's
    /// direction, all on the starting row.
    pub proof fn lemma_supercover_horizontal(self)
        requires
            self.0.in_limit(COORD_LIMIT),
            self.1.in_limit(COORD_LIMIT),
            self.0.1 == self.1.1,
        ensures
            self.spec_cover().remaining().len() == 1 + abs(cell_of(self.1.0) - cell_of(self.0.0)),
            forall|k: int|
                0 <= k < self.spec_cover().remaining().len() ==> {
                    &&& (#[trigger] self.spec_cover().remaining()[k]).1 == cell_of(self.0.1)
                    &&& self.spec_cover().remaining()[k].0 == cell_of(self.0.0) + (if cell_of(
                        self.1.0,
                    ) >= cell_of(self.0.0) {
                        k
                    } else {
                        -k
                    })
                },
    {
        self.lemma_cover_well_formed();
        self.spec_cover().lemma_remaining_shape();
        self.spec_cover().lemma_horizontal_walk();
        let sc = self.spec_cover();
        assert forall|k: int| 0 <= k < sc.remaining().len() implies (#[trigger] sc.remaining()[k]).0
            == cell_of(self.0.0) + (if cell_of(self.1.0) >= cell_of(self.0.0) {
            k
        } else {
            -k
        }) && sc.remaining()[k].1 == cell_of(self.0.1) by {
            assert(sc.remaining()[k] == (((sc.ix + k * sc.sx) as i32), sc.iy));
            if sc.sx == 1 {
                assert(k * 1 == k) by (nonlinear_arith);
            } else {
                assert(k * -1 == -k) by (nonlinear_arith);
            }
        }
    }

    /// The supercover of a vertical line — one with no horizontal
    /// displacement — reports exactly the cells between the floored start
    /// and the floored stop, inclusive, in order along the line's
    /// direction, all on the starting column.
    pub proof fn lemma_supercover_vertical(self)
        requires
            self.0.in_limit(COORD_LIMIT),
            self.1.in_limit(COORD_LIMIT),
            self.0.0 == self.1.0,
        ensures
            self.spec_cover().remaining().len() == 1 + abs(cell_of(self.1.1) - cell_of(self.0.1)),
            forall|k: int|
                0 <= k < self.spec_cover().remaining().len() ==> {
                    &&& (#[trigger] self.spec_cover().remaining()[k]).0 == cell_of(self.0.0)
                    &&& self.spec_cover().remaining()[k].1 == cell_of(self.0.1) + (if cell_of(
                        self.1.1,
                    ) >= cell_of(self.0.1) {
                        k
                    } else {
                        -k
                    })
                },
    {
        self.lemma_cover_well_formed();
        self.spec_cover().lemma_remaining_shape();
        self.spec_cover().lemma_vertical_walk();
        let sc = self.spec_cover();
        assert forall|k: int| 0 <= k < sc.remaining().len() implies (#[trigger] sc.remaining()[k]).1
            == cell_of(self.0.1) + (if cell_of(self.1.1) >= cell_of(self.0.1) {
            k
        } else {
            -k
        }) && sc.remaining()[k].0 == cell_of(self.0.0) by {
            assert(sc.remaining()[k] == (sc.ix, ((sc.iy + k * sc.sy) as i32)));
            if sc.sy == 1 {
                assert(k * 1 == k) by (nonlinear_arith);
            } else {
                assert(k * -1 == -k) by (nonlinear_arith);
            }
        }
    }
}

/// On one axis, the crossing count within the segment's extent, taken
/// from the start's fractional position, equals the cell distance from
/// the start to the stop coordinate.
proof fn lemma_axis_budget(a: i64, b: i64)
    requires
        -COORD_LIMIT <= a <= COORD_LIMIT,
        -COORD_LIMIT <= b <= COORD_LIMIT,
    ensures
        ({
            let v = b - a;
            let i0 = cell_of(a);
            let d = cell_of(b);
            let f = a - SCALE * i0;
            if v >= 0 {
                d - i0 == crossings(SCALE - f, v, true)
            } else {
                i0 - d == crossings(f, -v, false)
            }
        }),
{
    let s = SCALE as int;
    lemma_cell_of_bounds(a);
    let v = b as int - a;
    let i0 = cell_of(a);
    let d = cell_of(b);
    let f = a - s * i0;
    assert(b as int == f + v + i0 * s);
    if v >= 0 {
        vstd::arithmetic::div_mod::lemma_hoist_over_denominator(f + v, i0, SCALE as nat);
        assert(d == i0 + (f + v) / s);
        if s - f <= v {
            vstd::arithmetic::div_mod::lemma_div_plus_one(v + f - s, s);
        } else {
            vstd::arithmetic::div_mod::lemma_fundamental_div_mod_converse(f + v, s, 0, f + v);
        }
    } else {
        let w = -v;
        vstd::arithmetic::div_mod::lemma_hoist_over_denominator(f - w, i0, SCALE as nat);
        assert(d == i0 + (f - w) / s);
        if f >= w {
            vstd::arithmetic::div_mod::lemma_fundamental_div_mod_converse(f - w, s, 0, f - w);
        } else {
            let m = w - f;
            vstd::arithmetic::div_mod::lemma_fundamental_div_mod(m - 1, s);
            let q = (m - 1) / s;
            let r = (m - 1) % s;
            vstd::arithmetic::div_mod::lemma_fundamental_div_mod_converse(-m, s, -q - 1, s - r - 1);
            assert((f - w) / s == -q - 1);
        }
    }
}

/// The magnitude of an integer.
pub open spec fn abs(a: int) -> int {
    if a >= 0 {
        a
    } else {
        -a
    }
}

/// The cell of a coordinate within the limit is within the cell limit.
proof fn lemma_cell_of_bounds(a: i64)
    requires
        -COORD_LIMIT <= a <= COORD_LIMIT,
    ensures
        -CELL_LIMIT <= cell_of(a) <= CELL_LIMIT,
        0 <= a - SCALE * cell_of(a) < SCALE,
{
    vstd::arithmetic::div_mod::lemma_fundamental_div_mod(a as int, SCALE as int);
    vstd::arithmetic::div_mod::lemma_div_is_ordered(-COORD_LIMIT as int, a as int, SCALE as int);
    vstd::arithmetic::div_mod::lemma_div_is_ordered(a as int, COORD_LIMIT as int, SCALE as int);
    assert((-COORD_LIMIT) as int / (SCALE as int) == -CELL_LIMIT) by (nonlinear_arith);
    assert(COORD_LIMIT as int / (SCALE as int) == CELL_LIMIT) by (nonlinear_arith);
}

} // verus!
