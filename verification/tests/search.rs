use arc_acreage::fast;
use arc_acreage::fast::Cell::{Backward, Empty, Forward};
use arc_acreage::slow;

#[test]
fn fast_search_area_two_finds_minimal_square_loop() {
    let target = fast::Area { units: 2, half: 0 };
    let (valid_cnt, valid_grids) = fast::Generator::new(target, 49, 49).generate();

    assert!(valid_cnt > 0);
    assert!(!valid_grids.is_empty());

    // Every harvested grid really encloses the target area.
    for grid in &valid_grids {
        assert_eq!(grid.loop_area().unwrap().simplify(), target.simplify());
    }

    // The minimal 2x2 square loop is among the findings.
    let mut rows = [[Empty; 7]; 7];
    rows[1][1] = Forward;
    rows[1][2] = Backward;
    rows[2][1] = Backward;
    rows[2][2] = Forward;
    let minimal = fast::Grid::new(rows);
    assert!(valid_grids.iter().any(|g| *g == minimal));

    // The accumulator holds each discovered layout only once.
    for a in 0..valid_grids.len() {
        for b in (a + 1)..valid_grids.len() {
            assert_ne!(valid_grids[a], valid_grids[b]);
        }
    }
}

#[test]
fn fast_search_area_thirty_two_counts_all_curves() {
    let target = fast::Area { units: 32, half: 0 };
    let (valid_cnt, valid_grids) = fast::Generator::new(target, 49, 49).generate();

    assert_eq!(valid_cnt, 89519144);
    assert!(!valid_grids.is_empty());
}

#[test]
fn fast_search_impossible_area_finds_nothing() {
    // No curve can enclose more than the grid's 49 cells.
    let target = fast::Area { units: 50, half: 0 };
    let (valid_cnt, valid_grids) = fast::Generator::new(target, 49, 49).generate();

    assert_eq!(valid_cnt, 0);
    assert!(valid_grids.is_empty());
}

#[test]
fn slow_search_area_two_finds_loops() {
    let target = slow::Area {
        units: 2,
        small: 0,
        large: 0,
    };
    let valid_grids = slow::Generator::new(target, 2, 6).generate();

    assert!(!valid_grids.is_empty());
    for grid in &valid_grids {
        assert_eq!(grid.loop_area().unwrap().simplify(), target.simplify());
    }

    // The accumulator holds each discovered layout only once.
    for a in 0..valid_grids.len() {
        for b in (a + 1)..valid_grids.len() {
            assert_ne!(valid_grids[a], valid_grids[b]);
        }
    }
}

#[test]
fn slow_search_impossible_area_finds_nothing() {
    let target = slow::Area {
        units: 50,
        small: 0,
        large: 0,
    };
    let valid_grids = slow::Generator::new(target, 2, 6).generate();
    assert!(valid_grids.is_empty());
}
