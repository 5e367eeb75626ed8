use tile_net::{
    fan, Collable, Line, MultiTraversal, Points, TileNet, TileSet, Vector, MAX_SOLVE_ITERATIONS,
    SCALE,
};

/// Occupancy as a shape usually reads it: an absent tile — outside the
/// grid — counts as solid, like any non-zero payload.
fn is_occupied(net: &TileNet<usize>, p: (usize, usize)) -> bool {
    match net.get(p) {
        Some(v) => *v != 0,
        None => true,
    }
}

#[test]
fn occupancy_treats_absent_as_solid() {
    let mut net: TileNet<usize> = TileNet::new((10, 10));
    net.set_box(&1, (1, 1), (9, 9));
    assert!(!is_occupied(&net, (0, 0)));
    assert!(is_occupied(&net, (5, 5)));
    assert!(is_occupied(&net, (10, 0)));
}

#[test]
fn collide_set_reports_absent_for_negative_cells() {
    let net: TileNet<usize> = TileNet::new((4, 4));
    let mut set = net.collide_set(vec![(-1, 0), (0, -2), (1, 1), (9, 9)]);
    assert_eq!(set.next(), Some(None));
    assert_eq!(set.next(), Some(None));
    assert_eq!(set.next(), Some(Some(&0)));
    assert_eq!(set.next(), Some(None));
    assert_eq!(set.next(), None);
}

#[test]
fn merge_drains_round_robin_without_skipping() {
    let mut multi = MultiTraversal::new();
    multi.push(Line::from_origin(Vector(2 * SCALE, 0)).supercover());
    multi.push(Line::from_origin(Vector(0, SCALE)).supercover());
    let mut cells = Vec::new();
    while let Some(cell) = multi.next() {
        cells.push(cell);
    }
    // First stream: (0,0), (1,0), (2,0); second: (0,0), (0,1); the merge
    // alternates until the shorter stream runs dry.
    assert_eq!(cells, vec![(0, 0), (0, 0), (1, 0), (0, 1), (2, 0)]);
}

#[test]
fn merge_of_nothing_is_empty() {
    let mut multi = MultiTraversal::new();
    assert_eq!(multi.next(), None);
    let multi = MultiTraversal::new();
    assert_eq!(multi.into_tiles(), Vec::<(i32, i32)>::new());
}

#[test]
fn fan_builds_one_traversal_per_vertex() {
    let pts: Vec<(i64, i64)> = vec![(0, 0), (2 * SCALE, 0)];
    let points = Points::new(Vector(0, 0), &pts);
    let multi = fan(points, Vector(0, SCALE));
    let cells = multi.into_tiles();
    // One line per vertex, straight up by one tile; the merge alternates
    // between the two vertices' paths.
    assert_eq!(cells, vec![(0, 0), (2, 0), (0, 1), (2, 1)]);
}

#[test]
fn points_offset_every_vertex() {
    let pts: Vec<(i64, i64)> = vec![(0, 0), (SCALE, 0), (0, SCALE)];
    let mut points = Points::new(Vector(10 * SCALE, -SCALE), &pts);
    assert_eq!(points.next(), Some((10 * SCALE, -SCALE)));
    assert_eq!(points.next(), Some((11 * SCALE, -SCALE)));
    assert_eq!(points.next(), Some((10 * SCALE, 0)));
    assert_eq!(points.next(), None);
}

/// A unit square that accepts its queued move only once no candidate cell
/// is occupied, shrinking the move by a tenth on every rejection.
struct Square {
    pts: Vec<(i64, i64)>,
    pos: Vector,
    mov: Vector,
    rejected: bool,
    settled: bool,
}

impl Square {
    fn new(pos: Vector, mov: Vector) -> Square {
        Square {
            pts: vec![(0, 0), (SCALE, 0), (0, SCALE), (SCALE, SCALE)],
            pos,
            mov,
            rejected: false,
            settled: false,
        }
    }
}

impl Collable<usize> for Square {
    fn points(&self) -> Points<'_> {
        Points::new(self.pos, &self.pts)
    }

    fn queued(&self) -> Vector {
        self.mov
    }

    fn resolve(&mut self, mut set: TileSet<usize>) -> bool {
        let mut blocked = false;
        while let Some(tile) = set.next() {
            match tile {
                Some(v) => {
                    if *v != 0 {
                        blocked = true;
                    }
                },
                None => {
                    blocked = true;
                },
            }
        }
        if !blocked {
            self.pos = self.pos.add(self.mov);
            self.mov = Vector(0, 0);
            true
        } else if self.mov.norm2sq() > 4295 {
            self.mov.scale(9, 10);
            false
        } else {
            true
        }
    }

    fn postsolve(&mut self, collided_once: bool, resolved: bool) {
        self.rejected = collided_once;
        self.settled = resolved;
    }
}

#[test]
fn walled_square_settles_inside_the_interior() {
    let mut net: TileNet<usize> = TileNet::new((10, 10));
    net.set_row(&1, 0);
    net.set_row(&1, 9);
    net.set_col(&1, 0);
    net.set_col(&1, 9);

    let pos = Vector(72090, 72090);
    let mov = Vector(100 * SCALE, 100 * SCALE);
    let mut square = Square::new(pos, mov);
    let attempts = square.solve(&net);

    assert!(attempts <= MAX_SOLVE_ITERATIONS);
    assert!(square.settled);
    assert!(square.rejected);
    // Strictly inside the open interior: every corner within the cells
    // (1, 1) ..= (8, 8).
    assert!(square.pos.0 > SCALE && square.pos.0 + SCALE < 9 * SCALE);
    assert!(square.pos.1 > SCALE && square.pos.1 + SCALE < 9 * SCALE);
    // The move was actually taken, not abandoned.
    assert!(square.pos.0 > 6 * SCALE && square.pos.1 > 6 * SCALE);
}

/// A shape that never accepts: the driver must stop at its ceiling.
struct Stubborn {
    pts: Vec<(i64, i64)>,
    calls: usize,
    rejected: bool,
    settled: bool,
}

impl Collable<usize> for Stubborn {
    fn points(&self) -> Points<'_> {
        Points::new(Vector(0, 0), &self.pts)
    }

    fn queued(&self) -> Vector {
        Vector(SCALE, 0)
    }

    fn resolve(&mut self, _set: TileSet<usize>) -> bool {
        self.calls += 1;
        false
    }

    fn postsolve(&mut self, collided_once: bool, resolved: bool) {
        self.rejected = collided_once;
        self.settled = resolved;
    }
}

#[test]
fn driver_never_exceeds_its_attempt_ceiling() {
    let net: TileNet<usize> = TileNet::new((4, 4));
    let mut shape = Stubborn { pts: vec![(0, 0)], calls: 0, rejected: false, settled: false };
    let attempts = shape.solve(&net);
    assert_eq!(attempts, MAX_SOLVE_ITERATIONS);
    assert_eq!(shape.calls, MAX_SOLVE_ITERATIONS);
    assert!(shape.rejected);
    assert!(!shape.settled);
}

/// A shape whose first try is already clear resolves on one attempt.
struct Easy {
    pts: Vec<(i64, i64)>,
    done: bool,
}

impl Collable<usize> for Easy {
    fn points(&self) -> Points<'_> {
        Points::new(Vector(SCALE, SCALE), &self.pts)
    }

    fn queued(&self) -> Vector {
        Vector(SCALE, 0)
    }

    fn resolve(&mut self, mut set: TileSet<usize>) -> bool {
        let mut blocked = false;
        while let Some(tile) = set.next() {
            if !matches!(tile, Some(&0)) {
                blocked = true;
            }
        }
        self.done = !blocked;
        !blocked
    }
}

#[test]
fn clear_path_resolves_first_try() {
    let net: TileNet<usize> = TileNet::new((8, 8));
    let mut shape = Easy { pts: vec![(0, 0)], done: false };
    let attempts = shape.solve(&net);
    assert_eq!(attempts, 1);
    assert!(shape.done);
}
