use tile_net::{Quadrant, TileNet};

#[test]
fn view_all_scans_every_cell_row_major() {
    let map: TileNet<usize> = TileNet::from_iter(3, (1..7).collect());
    let mut view = map.view_all();
    let mut seen = Vec::new();
    while let Some((value, x, y)) = view.next() {
        seen.push((*value, x, y));
    }
    assert_eq!(
        seen,
        vec![(1, 0, 0), (2, 1, 0), (3, 2, 0), (4, 0, 1), (5, 1, 1), (6, 2, 1)]
    );
}

#[test]
fn view_center_clamps_to_the_grid() {
    let map: TileNet<usize> = TileNet::from_iter(4, (1..13).collect());
    // Center near the origin: the span is truncated, not wrapped.
    let mut view = map.view_center((1, 0), (2, 1));
    let mut seen = Vec::new();
    while let Some((value, x, y)) = view.next() {
        seen.push((*value, x, y));
    }
    assert_eq!(seen, vec![(1, 0, 0), (2, 1, 0), (3, 2, 0)]);
}

#[test]
fn empty_view_box_yields_nothing() {
    let map: TileNet<usize> = TileNet::new((5, 5));
    let mut view = map.view_box((3, 3, 0, 5));
    assert!(view.next().is_none());
    let mut view = map.view_box((0, 5, 4, 2));
    assert!(view.next().is_none());
}

#[test]
fn quadrants_are_distinct() {
    assert_eq!(Quadrant::One, Quadrant::One);
    assert_ne!(Quadrant::One, Quadrant::Two);
    assert_ne!(Quadrant::Three, Quadrant::Four);
}
