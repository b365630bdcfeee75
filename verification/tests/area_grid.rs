use arc_acreage::fast::Cell::{Backward, Empty, Forward};
use arc_acreage::fast::{central_binom, Area, Grid};

#[test]
fn fast_example_shapes_have_correct_area() {
    let grid1 = Grid::new([
        [Empty, Empty, Empty, Empty, Empty, Empty, Empty],
        [Empty, Forward, Backward, Empty, Empty, Empty, Empty],
        [Empty, Backward, Forward, Empty, Empty, Empty, Empty],
        [Empty, Empty, Empty, Empty, Empty, Empty, Empty],
        [Empty, Empty, Empty, Empty, Empty, Empty, Empty],
        [Empty, Empty, Empty, Empty, Empty, Empty, Empty],
        [Empty, Empty, Empty, Empty, Empty, Empty, Empty],
    ]);

    assert_eq!(
        grid1.loop_area().unwrap().simplify(),
        Area { units: 2, half: 0 }
    );

    let grid2 = Grid::new([
        [Empty, Empty, Empty, Empty, Empty, Empty, Empty],
        [Empty, Empty, Empty, Empty, Empty, Empty, Empty],
        [Empty, Empty, Empty, Empty, Empty, Empty, Empty],
        [Empty, Empty, Empty, Empty, Empty, Empty, Empty],
        [Empty, Empty, Forward, Backward, Forward, Backward, Empty],
        [Empty, Empty, Backward, Empty, Empty, Forward, Empty],
        [Empty, Empty, Empty, Backward, Forward, Empty, Empty],
    ]);

    assert!(grid2.loop_area().unwrap().is_integer(6));

    let grid3 = Grid::new([
        [Empty, Empty, Forward, Backward, Forward, Backward, Empty],
        [Empty, Forward, Empty, Empty, Empty, Empty, Backward],
        [Forward, Empty, Empty, Empty, Empty, Empty, Forward],
        [Backward, Empty, Empty, Empty, Empty, Empty, Backward],
        [Forward, Empty, Empty, Empty, Empty, Empty, Forward],
        [Backward, Empty, Empty, Empty, Empty, Forward, Empty],
        [Empty, Backward, Forward, Backward, Forward, Empty, Empty],
    ]);

    assert_eq!(grid3.loop_area().unwrap(), Area { units: 32, half: 0 });
}

#[test]
fn fast_simplify_collapses_half_units() {
    let a = Area { units: 3, half: 5 };
    assert_eq!(a.simplify(), Area { units: 5, half: 1 });
    let b = Area { units: 0, half: 4 };
    assert_eq!(b.simplify(), Area { units: 2, half: 0 });
}

#[test]
fn fast_simplify_is_idempotent_on_samples() {
    for units in 0..50u8 {
        for half in 0..50u8 {
            let a = Area { units, half };
            assert_eq!(a.simplify().simplify(), a.simplify());
        }
    }
}

#[test]
fn fast_two_opposite_slants_enclose_one_unit() {
    // A single pair of opposite-facing slants drawn side by side: the
    // scanline counts no whole units and two half units, which simplify to
    // exactly one enclosed unit.
    let mut rows = [[Empty; 7]; 7];
    rows[1][1] = Forward;
    rows[1][2] = Backward;
    let grid = Grid::new(rows);

    assert_eq!(
        Area { units: 0, half: 2 }.simplify(),
        Area { units: 1, half: 0 }
    );
    assert_eq!(grid.loop_area().unwrap(), Area { units: 1, half: 0 });
}

#[test]
fn fast_empty_grid_has_zero_area() {
    let grid = Grid::new([[Empty; 7]; 7]);
    assert_eq!(grid.loop_area().unwrap(), Area { units: 0, half: 0 });
}

#[test]
fn central_binom_matches_tabulated_values() {
    assert_eq!(central_binom(0), 1);
    assert_eq!(central_binom(1), 2);
    assert_eq!(central_binom(2), 6);
    assert_eq!(central_binom(3), 20);
    assert_eq!(central_binom(10), 184756);
    assert_eq!(central_binom(24), 32247603683100);
    assert_eq!(central_binom(26), 495918532948104);
}

#[test]
fn fast_is_integer_checks_simplified_value() {
    let a = Area { units: 1, half: 2 };
    assert!(a.is_integer(2));
    assert!(!a.is_integer(1));
    let b = Area { units: 1, half: 1 };
    assert!(!b.is_integer(1));
}
