use arc_acreage::slow::Cell::{BottomLeft, BottomRight, Empty, TopLeft, TopRight};
use arc_acreage::slow::{Area, Grid};

#[test]
fn slow_example_shapes_have_correct_area() {
    let grid1 = Grid::new([
        [Empty, Empty, Empty, Empty, Empty, Empty, Empty],
        [Empty, TopLeft, TopRight, Empty, Empty, Empty, Empty],
        [Empty, BottomLeft, BottomRight, Empty, Empty, Empty, Empty],
        [Empty, Empty, Empty, Empty, Empty, Empty, Empty],
        [Empty, Empty, Empty, Empty, Empty, Empty, Empty],
        [Empty, Empty, Empty, Empty, Empty, Empty, Empty],
        [Empty, Empty, Empty, Empty, Empty, Empty, Empty],
    ]);

    assert_eq!(
        grid1.loop_area().unwrap(),
        Area {
            units: 0,
            small: 4,
            large: 0
        }
    );

    let grid2 = Grid::new([
        [Empty, Empty, Empty, Empty, Empty, Empty, Empty],
        [Empty, Empty, Empty, Empty, Empty, Empty, Empty],
        [Empty, Empty, Empty, Empty, Empty, Empty, Empty],
        [Empty, Empty, Empty, Empty, Empty, Empty, Empty],
        [Empty, Empty, TopLeft, BottomLeft, TopLeft, TopRight, Empty],
        [Empty, Empty, BottomLeft, Empty, Empty, TopLeft, Empty],
        [Empty, Empty, Empty, TopRight, TopLeft, Empty, Empty],
    ]);

    assert!(grid2.loop_area().unwrap().is_integer(6));

    let grid3 = Grid::new([
        [
            Empty, Empty, TopLeft, BottomLeft, TopLeft, BottomLeft, Empty,
        ],
        [Empty, BottomRight, Empty, Empty, Empty, Empty, TopRight],
        [TopLeft, Empty, Empty, Empty, Empty, Empty, TopLeft],
        [TopRight, Empty, Empty, Empty, Empty, Empty, TopRight],
        [TopLeft, Empty, Empty, Empty, Empty, Empty, TopLeft],
        [TopRight, Empty, Empty, Empty, Empty, BottomRight, Empty],
        [
            Empty, BottomLeft, TopLeft, BottomLeft, TopLeft, Empty, Empty,
        ],
    ]);

    assert!(grid3.loop_area().unwrap().is_integer(32));
}

#[test]
fn slow_simplify_cancels_small_and_large_parts() {
    let a = Area {
        units: 1,
        small: 4,
        large: 2,
    };
    assert_eq!(
        a.simplify(),
        Area {
            units: 3,
            small: 2,
            large: 0
        }
    );
    assert_eq!(a.simplify().simplify(), a.simplify());
}
