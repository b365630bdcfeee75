use arc_acreage::stroll::{football_neighbours, Decisions, GraphPathCounter, KitchenFloor};

#[test]
fn kitchen_floor_traversal() {
    assert_eq!(KitchenFloor::coord_neighbours((0, 0)), [(1, 1), (0, -1), (-1, 0)]);

    assert_eq!(KitchenFloor::coord_neighbours((-1, 1)), [(0, 2), (-1, 0), (-2, 1)]);

    assert_eq!(KitchenFloor::coord_neighbours((-1, 0)), [(-1, 1), (0, 0), (-2, -1)]);

    assert_eq!(KitchenFloor::coord_neighbours((-2, -1)), [(-1, 0), (-2, -2), (-3, -1)]);
}

#[test]
fn kitchen_floor_moves_follow_neighbours() {
    let mut kf = KitchenFloor::new();
    kf.move_from_idx(0);
    assert_eq!(kf.get_state(), (1, 1));
    kf.set_state((0, 0));
    kf.move_from_idx(1);
    assert_eq!(kf.get_state(), (0, -1));
    kf.set_state((0, 0));
    kf.move_from_idx(2);
    assert_eq!(kf.get_state(), (-1, 0));
}

#[test]
fn kitchen_floor_random_move_reaches_a_neighbour() {
    for _ in 0..32 {
        let mut kf = KitchenFloor::new();
        let neighbours = KitchenFloor::coord_neighbours((0, 0));
        kf.make_move();
        let now = kf.get_state();
        assert!(neighbours.contains(&now));
        assert_ne!(now, (0, 0));
    }
}

#[test]
fn decisions_count_in_base_three() {
    let mut d = Decisions::new();
    assert_eq!(*d.curr(), [0; 20]);
    d.inc();
    let mut expected = [0; 20];
    expected[0] = 1;
    assert_eq!(*d.curr(), expected);
    d.inc();
    expected[0] = 2;
    assert_eq!(*d.curr(), expected);
    d.inc();
    expected[0] = 0;
    expected[1] = 1;
    assert_eq!(*d.curr(), expected);
    for _ in 0..6 {
        d.inc();
    }
    // nine increments in all: 9 = 0 * 1 + 0 * 3 + 1 * 9
    expected[0] = 0;
    expected[1] = 0;
    expected[2] = 1;
    assert_eq!(*d.curr(), expected);
}

#[test]
fn walks_return_home_as_their_digits_say() {
    let mut kf = KitchenFloor::new();

    // digits [0, 1, 0, ...]: out along the first neighbour and straight back.
    let mut d = Decisions::new();
    d.inc();
    d.inc();
    d.inc();
    assert_eq!(d.curr()[0], 0);
    assert_eq!(d.curr()[1], 1);
    assert!(kf.walk_returns_home(&d));

    // digits [1, 0, 0, ...]: out along the second neighbour and straight back.
    let mut e = Decisions::new();
    e.inc();
    assert!(kf.walk_returns_home(&e));

    // The all-zero digits walk away from home and never return.
    let f = Decisions::new();
    assert!(!kf.walk_returns_home(&f));
}

#[test]
fn limited_walks_respect_their_limit() {
    let mut kf = KitchenFloor::new();
    // A random walk of at most five steps cannot reach a hexagon far away.
    let r = kf.walk_until_limit((0, 0), (5000, 5000), 5);
    assert_eq!(r, Err(5));
    // A walk back to its own start either ends there or runs out.
    let mut kf2 = KitchenFloor::new();
    match kf2.walk_until_limit((0, 0), (0, 0), 20) {
        Ok(n) => {
            assert!(1 <= n && n <= 20);
            assert_eq!(kf2.get_state(), (0, 0));
        }
        Err(n) => {
            assert_eq!(n, 20);
            assert_ne!(kf2.get_state(), (0, 0));
        }
    }
}

#[test]
fn football_adjacency_is_a_cubic_symmetric_graph() {
    assert_eq!(football_neighbours(1), [2, 6, 5]);
    assert_eq!(football_neighbours(20), [11, 16, 19]);
    for n in 1..=20i32 {
        let nbs = football_neighbours(n);
        for m in nbs {
            assert!((1..=20).contains(&m));
            assert_ne!(m, n);
            // symmetry: every neighbour lists this hexagon back
            assert!(football_neighbours(m).contains(&n));
        }
    }
}

#[test]
fn no_walk_returns_home_in_one_step() {
    let mut counter = GraphPathCounter::new();
    counter.next();
    assert_eq!(counter.origin_paths(), 0);
    counter.next();
    // Exactly three of the nine two-step walks return home.
    assert_eq!(counter.origin_paths(), 3);
}

#[test]
fn path_counting_matches_published_probability() {
    let (returned, returning) = arc_acreage::stroll::path_counting_on_graph();
    assert!(returning > 0);
    let max_paths: u64 = 3486784401;  // three to the twentieth
    assert!(returned <= max_paths);
    let p = (max_paths - returned) as f64 / max_paths as f64;
    assert_eq!(format!("{:.7}", p), "0.4480326");
}
