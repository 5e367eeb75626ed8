use tile_net::TileNet;

#[test]
fn get() {
    let map: TileNet<usize> = TileNet::new((10, 10));
    assert_eq!(Some(&0), map.get((9, 9)));
    assert_eq!(None, map.get((10, 9)));
    assert_eq!(None, map.get((9, 10)));
}

#[test]
fn get_mut() {
    let mut map: TileNet<usize> = TileNet::new((10, 10));
    *map.get_mut((9, 9)).unwrap() = 10;
    assert_eq!(Some(&10), map.get((9, 9)));
    *map.get_mut((9, 9)).unwrap() = 1;
    assert_eq!(Some(&1), map.get((9, 9)));
}

#[test]
fn get_size() {
    let map: TileNet<usize> = TileNet::new((10, 10));
    assert_eq!((10, 10), map.get_size());
    let map: TileNet<usize> = TileNet::new((194, 483));
    assert_eq!((194, 483), map.get_size());
}

#[test]
fn resize() {
    let mut map: TileNet<usize> = TileNet::new((10, 10));
    *map.get_mut((0, 0)).unwrap() = 0;
    map.resize((5, 5));
    map.resize((10, 10));
}

#[test]
fn from_iter_and_view_box() {
    let map: TileNet<usize> = TileNet::from_iter(10, (1..101).collect());
    let mut view = map.view_box((3, 8, 1, 4));
    (14usize..19)
        .chain(24..29)
        .chain(34..39)
        .map(|x| assert_eq!(view.next().unwrap().0, &x))
        .count();
}

#[test]
fn from_iter_with_remainder() {
    let map: TileNet<usize> = TileNet::from_iter(10, (1..25).collect());
    let mut view = map.view_box((0, 10, 0, 3));
    for x in (1..31).map(|x| if x >= 25 { 0 } else { x }) {
        assert_eq!(view.next().unwrap().0, &x);
    }

    let map: TileNet<usize> = TileNet::from_iter(10, (1..31).collect());
    let mut view = map.view_box((0, 10, 0, 3));
    for x in 1..31 {
        assert_eq!(view.next().unwrap().0, &x);
    }
}

#[test]
fn collide_set() {
    let map: TileNet<usize> =
        TileNet::from_iter(10, (1..101).map(|x| if x > 50 { x } else { 0 }).collect());
    let mut set = map.collide_set((3..7).map(|x| (4, x)).collect());
    for _ in 1..3 {
        assert_eq!(set.next().unwrap().unwrap(), &0);
    }
    for x in 0..2 {
        assert_eq!(set.next().unwrap().unwrap(), &(55 + 10 * x));
    }
}

#[test]
fn test_proxy() {
    let net: TileNet<usize> = TileNet::new((15, 10));
    let mut net = net.prepare();
    net.set_box(&1, (2, 2), (4, 6));
    let span = net.set_box(&2, (3, 3), (14, 6));
    assert_eq![span, (2, 2, 14, 6)];
}

#[test]
fn resize_preserves_overlap_and_fills_rest() {
    let mut map: TileNet<usize> = TileNet::from_iter(4, (1..17).collect());
    map.resize((6, 3));
    for y in 0..3 {
        for x in 0..6 {
            let expected = if x < 4 { 1 + x + 4 * y } else { 0 };
            assert_eq!(map.get((x, y)), Some(&expected));
        }
    }
    assert_eq!(map.get_size(), (6, 3));
    map.resize((2, 2));
    assert_eq!(map.get((0, 0)), Some(&1));
    assert_eq!(map.get((1, 0)), Some(&2));
    assert_eq!(map.get((0, 1)), Some(&5));
    assert_eq!(map.get((1, 1)), Some(&6));
}

#[test]
fn set_operations_write_inclusive_shapes() {
    let mut map: TileNet<usize> = TileNet::new((6, 5));
    map.set(&7, (2, 3));
    assert_eq!(map.get((2, 3)), Some(&7));
    map.set(&9, (6, 0));
    assert_eq!(map.get((5, 0)), Some(&0));

    map.set_row(&1, 0);
    for x in 0..6 {
        assert_eq!(map.get((x, 0)), Some(&1));
    }
    map.set_col(&2, 5);
    for y in 0..5 {
        assert_eq!(map.get((5, y)), Some(&2));
    }
    map.set_box(&3, (1, 1), (2, 2));
    assert_eq!(map.get((1, 1)), Some(&3));
    assert_eq!(map.get((2, 2)), Some(&3));
    assert_eq!(map.get((3, 3)), Some(&0));
}

#[test]
fn set_box_isize_clamps_negative_corners() {
    let mut map: TileNet<usize> = TileNet::new((4, 4));
    map.set_box_isize(&5, (-3, -2), (1, 1));
    assert_eq!(map.get((0, 0)), Some(&5));
    assert_eq!(map.get((1, 1)), Some(&5));
    assert_eq!(map.get((2, 2)), Some(&0));
}

#[test]
fn sample_matches_its_formula() {
    let map = TileNet::sample();
    assert_eq!(map.get_size(), (10, 10));
    assert_eq!(map.get((0, 0)), Some(&0));
    assert_eq!(map.get((9, 4)), Some(&0));
    assert_eq!(map.get((0, 5)), Some(&51));
    assert_eq!(map.get((9, 9)), Some(&100));
}

#[test]
fn get_raw_is_row_major() {
    let map: TileNet<usize> = TileNet::from_iter(3, (1..7).collect());
    assert_eq!(map.get_raw(), &[1, 2, 3, 4, 5, 6]);
}

#[test]
fn proxy_span_tracks_all_write_kinds() {
    let net: TileNet<usize> = TileNet::new((8, 6));
    let mut proxy = net.prepare();
    assert_eq!(proxy.get_span(), (8, 6, 0, 0));
    let span = proxy.set(&1, (3, 2));
    assert_eq!(span, (3, 2, 3, 2));
    let span = proxy.set_row(&2, 4);
    assert_eq!(span, (0, 2, 7, 4));
    let span = proxy.set_col(&3, 5);
    assert_eq!(span, (0, 0, 7, 5));
    let net = proxy.into_inner();
    assert_eq!(net.get((3, 2)), Some(&1));
    assert_eq!(net.get((0, 4)), Some(&2));
    assert_eq!(net.get((5, 0)), Some(&3));
}
