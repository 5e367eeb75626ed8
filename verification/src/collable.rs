use vstd::prelude::*;

use crate::line::Line;
use crate::merge::MultiTraversal;
use crate::tilenet::TileNet;
use crate::tiles::TileSet;
use crate::vector::{Vector, MOVE_LIMIT, POS_LIMIT};

verus! {

/// Ceiling on the number of resolution attempts one call of
/// [`Collable::solve`] may make: a defensive circuit breaker against shape
/// implementations whose displacement never shrinks to an acceptable move.
pub const MAX_SOLVE_ITERATIONS: usize = 30;

/// A vertex iterator.
///
/// Used internally by the collision engine. It combines a shape's local
/// vertices with the shape's position: every step reports the next vertex
/// plus the offset.
pub struct Points<'a> {
    index: usize,
    offset: Vector,
    points: &'a [(i64, i64)],
}

impl<'a> Points<'a> {
    /// Each reported vertex — local vertex plus offset — stays within the
    /// position limit, so a traversable line can be built from it.
    #[verifier::type_invariant]
    spec fn well_placed(self) -> bool {
        forall|k: int|
            0 <= k < self.points@.len() ==> {
                &&& -POS_LIMIT <= (#[trigger] self.points@[k]).0 + self.offset.0 <= POS_LIMIT
                &&& -POS_LIMIT <= self.points@[k].1 + self.offset.1 <= POS_LIMIT
            }
    }

    /// How many vertices have been reported so far.
    pub closed spec fn spec_index(self) -> int {
        self.index as int
    }

    /// The local vertices, in subunits, still to be offset.
    pub closed spec fn spec_points(self) -> Seq<(i64, i64)> {
        self.points@
    }

    /// The offset added to each vertex.
    pub closed spec fn spec_offset(self) -> Vector {
        self.offset
    }

    /// Create a vertex iterator over `points`, each to be moved by
    /// `offset`. Every vertex plus the offset must stay within
    /// [`POS_LIMIT`].
    pub fn new(offset: Vector, points: &'a [(i64, i64)]) -> (r: Points<'a>)
        requires
            forall|k: int|
                0 <= k < points@.len() ==> {
                    &&& -POS_LIMIT <= (#[trigger] points@[k]).0 + offset.0 <= POS_LIMIT
                    &&& -POS_LIMIT <= points@[k].1 + offset.1 <= POS_LIMIT
                },
        ensures
            r.spec_index() == 0,
            r.spec_points() == points@,
            r.spec_offset() == offset,
    {
        Points { index: 0, offset, points }
    }

    /// Report the next vertex moved by the offset, or the end of the list.
    pub fn next(&mut self) -> (r: Option<(i64, i64)>)
        ensures
            final(self).spec_points() == old(self).spec_points(),
            final(self).spec_offset() == old(self).spec_offset(),
            old(self).spec_index() >= old(self).spec_points().len()
                ==> r is None && final(self).spec_index() == old(self).spec_index(),
            old(self).spec_index() < old(self).spec_points().len() ==> {
                &&& final(self).spec_index() == old(self).spec_index() + 1
                &&& r matches Some(p)
                &&& p.0 == old(self).spec_points()[old(self).spec_index()].0
                    + old(self).spec_offset().0
                &&& p.1 == old(self).spec_points()[old(self).spec_index()].1
                    + old(self).spec_offset().1
                &&& -POS_LIMIT <= p.0 <= POS_LIMIT
                &&& -POS_LIMIT <= p.1 <= POS_LIMIT
            },
    {
        proof {
            use_type_invariant(&*self);
        }
        if self.index < self.points.len() {
            let p = self.points[self.index];
            self.index = self.index + 1;
            Some((p.0 + self.offset.0, p.1 + self.offset.1))
        } else {
            None
        }
    }
}

/// The line a vertex travels during a queued move: from the vertex plus
/// the shape's offset to that point moved by the queued displacement.
pub open spec fn fan_line(p: (i64, i64), offset: Vector, queued: Vector) -> Line {
    Line(
        Vector((p.0 + offset.0) as i64, (p.1 + offset.1) as i64),
        Vector((p.0 + offset.0 + queued.0) as i64, (p.1 + offset.1 + queued.1) as i64),
    )
}

/// Build the per-vertex line fan of a queued move: one supercover
/// traversal per vertex, from the placed vertex to the vertex moved by
/// `queued`, merged round-robin starting at the first vertex.
///
/// The merge holds exactly one stream per vertex, in vertex order, and
/// each stream is precisely the supercover cell sequence of that vertex's
/// line.
pub fn fan(pts: Points<'_>, queued: Vector) -> (r: MultiTraversal)
    requires
        queued.in_limit(MOVE_LIMIT),
        pts.spec_index() == 0,
    ensures
        r.well_formed(),
        r.spec_cursor() == 0,
        r.streams().len() == pts.spec_points().len(),
        forall|k: int|
            0 <= k < pts.spec_points().len() ==> #[trigger] r.streams()[k] == fan_line(
                pts.spec_points()[k],
                pts.spec_offset(),
                queued,
            ).spec_cover().remaining(),
{
    let ghost orig = pts;
    let mut pts = pts;
    let mut multi = MultiTraversal::new();
    loop
        invariant
            multi.well_formed(),
            multi.spec_cursor() == 0,
            queued.in_limit(MOVE_LIMIT),
            pts.spec_points() == orig.spec_points(),
            pts.spec_offset() == orig.spec_offset(),
            0 <= pts.spec_index() <= pts.spec_points().len(),
            multi.streams().len() == pts.spec_index(),
            forall|k: int|
                0 <= k < pts.spec_index() ==> #[trigger] multi.streams()[k] == fan_line(
                    orig.spec_points()[k],
                    orig.spec_offset(),
                    queued,
                ).spec_cover().remaining(),
        ensures
            pts.spec_index() == pts.spec_points().len(),
            multi.well_formed(),
            multi.spec_cursor() == 0,
            multi.streams().len() == pts.spec_points().len(),
            forall|k: int|
                0 <= k < pts.spec_points().len() ==> #[trigger] multi.streams()[k] == fan_line(
                    orig.spec_points()[k],
                    orig.spec_offset(),
                    queued,
                ).spec_cover().remaining(),
        decreases pts.spec_points().len() - pts.spec_index(),
    {
        match pts.next() {
            Some(p) => {
                let current = Vector::from_tuple(p);
                let stop = current.add(queued);
                let line = Line(current, stop);
                proof {
                    assert(line == fan_line(
                        orig.spec_points()[pts.spec_index() - 1],
                        orig.spec_offset(),
                        queued,
                    ));
                }
                multi.push(line.supercover());
            },
            None => {
                break ;
            },
        }
    }
    multi
}

/// The capability contract for dynamic objects, so they can check and
/// resolve their movement against a [`TileNet`].
///
/// A shape exposes its vertices and its queued displacement; the engine
/// fans a supercover line out of every vertex, merges the traversals
/// nearest-first, looks the visited cells up in the grid and hands the
/// payloads to the shape, which either accepts the move or shrinks the
/// displacement and asks to try again.
pub trait Collable<T> {
    /// The set of points associated with this object, already placed at
    /// the object's position. These points are used to draw lines to their
    /// respective next points: for a rectangle, the four corners may be
    /// the points; for a circle, a whole bunch of points may be defined.
    /// The iterator starts at the first vertex.
    fn points(&self) -> (r: Points<'_>)
        ensures
            r.spec_index() == 0,
    ;

    /// The previously queued move. The engine traverses from each vertex
    /// to the vertex moved by this displacement, which must stay within
    /// [`MOVE_LIMIT`].
    fn queued(&self) -> (r: Vector)
        ensures
            r.in_limit(MOVE_LIMIT),
    ;

    /// Resolve the movement: the shape is given the payloads under its
    /// candidate cells, in nearest-first merge order, and decides what to
    /// do with them. Returning false means the move was not acceptable and
    /// the displacement has been changed for another try; returning true
    /// means the shape has settled its move.
    fn resolve(&mut self, set: TileSet<T>) -> bool;

    /// Called at the beginning of [`Collable::solve`]; useful for
    /// resetting per-step state such as a has-jumped flag.
    fn presolve(&mut self) {
    }

    /// Called at the end of [`Collable::solve`] with whether any attempt
    /// was rejected and whether the move was ultimately resolved.
    fn postsolve(&mut self, _collided_once: bool, _resolved: bool) {
    }

    /// The candidate cells of the queued move: the [`fan`] of the shape's
    /// own vertices and queued displacement — one supercover per vertex,
    /// merged nearest-first. The sortedness of the merge means a shape can
    /// base its decision on the first elements, as they represent the
    /// first collision along the move.
    fn tiles(&self) -> (r: MultiTraversal)
        ensures
            r.well_formed(),
            r.spec_cursor() == 0,
    {
        let pts = self.points();
        let queued = self.queued();
        fan(pts, queued)
    }

    /// Convenience driver for the resolve loop.
    ///
    /// Calls [`Collable::presolve`], then repeatedly rebuilds the
    /// candidate cells from the current queued displacement and offers
    /// them to [`Collable::resolve`], stopping at the first accepted move
    /// or after [`MAX_SOLVE_ITERATIONS`] attempts, whichever comes first;
    /// finally calls [`Collable::postsolve`] with the outcome. Reports how
    /// many attempts were made: always at least one and never more than
    /// the ceiling, whatever the shape does.
    fn solve(&mut self, net: &TileNet<T>) -> (attempts: usize)
        ensures
            1 <= attempts <= MAX_SOLVE_ITERATIONS,
    {
        self.presolve();
        let mut collided_once = false;
        let mut resolved = false;
        let mut attempts: usize = 0;
        while attempts < MAX_SOLVE_ITERATIONS && !resolved
            invariant
                attempts <= MAX_SOLVE_ITERATIONS,
                resolved ==> 1 <= attempts,
            decreases MAX_SOLVE_ITERATIONS - attempts,
        {
            let candidates = self.tiles();
            let coords = candidates.into_tiles();
            let set = net.collide_set(coords);
            attempts = attempts + 1;
            if self.resolve(set) {
                resolved = true;
            } else {
                collided_once = true;
            }
        }
        self.postsolve(collided_once, resolved);
        attempts
    }
}

} // verus!
