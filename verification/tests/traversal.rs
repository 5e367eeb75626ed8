use tile_net::{Line, SuperCover, Vector, SCALE};

/// Collect every cell a line's supercover reports.
fn cells_of(line: Line) -> Vec<(i32, i32)> {
    let mut cover: SuperCover = line.supercover();
    let mut cells = Vec::new();
    while let Some(cell) = cover.next() {
        cells.push(cell);
    }
    cells
}

/// The supercover from the origin to `stop`, in subunits, equals the
/// expected cell sequence.
fn seq<I>(stop: (i64, i64), iter: I) -> bool
where
    I: Iterator<Item = (i32, i32)>,
{
    let cells = cells_of(Line::from_origin(Vector(stop.0, stop.1)));
    cells.into_iter().eq(iter)
}

/// The supercover to a whole-cell destination ends on that cell.
fn last(point: (i32, i32)) -> bool {
    match cells_of(Line::from_origin(Vector(point.0 as i64 * SCALE, point.1 as i64 * SCALE)))
        .last()
        .map(|x| point.0 == x.0 && point.1 == x.1)
    {
        Some(boolean) => boolean,
        None => false,
    }
}

/// A fractional coordinate, rounded toward negative infinity to subunits.
fn sub(units: f64) -> i64 {
    (units * SCALE as f64).floor() as i64
}

#[test]
fn supercover() {
    // The diagonal passes exactly through cell corners; on those ties the
    // x axis advances first.
    assert!(seq(
        (2 * SCALE, 2 * SCALE),
        vec![(0i32, 0i32), (1, 0), (1, 1), (2, 1), (2, 2)].into_iter()
    ));
    assert!(seq((-2 * SCALE, 0), (0..3).map(|x| (-x, 0))));
    assert!(seq((0, sub(-0.1)), (0..2).map(|x| (0, -x))));
    assert!(seq((0, sub(0.1)), (0..1).map(|_| (0, 0))));
    assert!(seq((sub(0.9), sub(0.99)), (0..1).map(|_| (0, 0))));
    assert!(seq((sub(0.9999), sub(0.999999)), (0..1).map(|_| (0, 0))));
    assert!(seq((sub(0.9999), sub(1.00001) + 1), (0..2).map(|x| (0, x))));
    assert!(seq((10 * SCALE, 0), (0..11).map(|x| (x, 0))));
    assert!(seq((0, 10 * SCALE), (0..11).map(|x| (0, x))));
    // The line reaches the corner at (1, 20000000) exactly, so the final
    // boundary crossings tie and the x axis advances first.
    assert!(seq(
        (SCALE, 20000000 * SCALE),
        (0..20000000)
            .map(|x| (0, x))
            .chain((0..1).map(|_| (1, 19999999)))
            .chain((0..1).map(|_| (1, 20000000)))
    ));
    assert!(seq(
        (-SCALE, 20000000 * SCALE),
        (0..1).map(|_| (0, 0)).chain((0..20000001).map(|x| (-1, x)))
    ));
    assert!(seq(
        (SCALE, -20000000 * SCALE),
        (0..20000001).map(|x| (0, -x)).chain((0..1).map(|_| (1, -20000000)))
    ));
    assert!(last((1, 2)));
    assert!(last((1, 16777216)));
    assert!(last((1, 2)));
}

#[test]
fn from_origin_ten_cells_right() {
    let cells = cells_of(Line::from_origin(Vector(10 * SCALE, 0)));
    let expected: Vec<(i32, i32)> = (0..11).map(|x| (x, 0)).collect();
    assert_eq!(cells, expected);
}

#[test]
fn zero_length_line_reports_one_cell() {
    let p = Vector(sub(3.7), sub(-2.2));
    let cells = cells_of(Line(p, p));
    assert_eq!(cells, vec![(3, -3)]);
}

#[test]
fn ends_on_floored_destination_for_skew_lines() {
    let line = Line(Vector(sub(0.8), sub(10.3)), Vector(sub(-30.0), sub(5.9)));
    let cells = cells_of(line);
    assert_eq!(*cells.last().unwrap(), (-30, 5));
    assert_eq!(cells[0], (0, 10));
}

#[test]
fn axis_aligned_lines_cover_the_whole_run() {
    let cells = cells_of(Line(Vector(sub(4.5), sub(2.5)), Vector(sub(-1.5), sub(2.5))));
    let expected: Vec<(i32, i32)> = (0..7).map(|k| (4 - k, 2)).collect();
    assert_eq!(cells, expected);

    let cells = cells_of(Line(Vector(sub(0.5), sub(0.5)), Vector(sub(0.5), sub(6.25))));
    let expected: Vec<(i32, i32)> = (0..7).map(|k| (0, k)).collect();
    assert_eq!(cells, expected);
}

#[test]
fn exhaustion_is_permanent() {
    let mut cover = Line::from_origin(Vector(SCALE, 0)).supercover();
    assert!(!cover.is_exhausted());
    assert_eq!(cover.next(), Some((0, 0)));
    assert_eq!(cover.next(), Some((1, 0)));
    assert!(cover.is_exhausted());
    assert_eq!(cover.next(), None);
    assert_eq!(cover.next(), None);
}

#[test]
fn vector_operations_are_componentwise() {
    let v = Vector::from_tuple((3 * SCALE, -2 * SCALE));
    assert_eq!(v, Vector(3 * SCALE, -2 * SCALE));
    let w = v.add(Vector(SCALE, SCALE));
    assert_eq!(w, Vector(4 * SCALE, -SCALE));
    let d = w.sub(v);
    assert_eq!(d, Vector(SCALE, SCALE));
    assert_eq!(
        v.norm2sq(),
        (3 * SCALE as i128) * (3 * SCALE as i128) + (2 * SCALE as i128) * (2 * SCALE as i128)
    );
    let mut s = Vector(SCALE, -SCALE);
    s.scale(9, 10);
    assert_eq!(s, Vector(58982, -58983));
}
