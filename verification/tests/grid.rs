use gaussian_integral::grid::first_cell;
use gaussian_integral::grid::next_cell;
use gaussian_integral::grid::grid_cells;
use gaussian_integral::grid::Cell;
use gaussian_integral::grid::Quad;
use gaussian_integral::grid::Vertex;

#[test]
fn empty_grid_has_no_cells() {
    assert!(grid_cells(0).is_empty());
}

#[test]
fn small_grid_is_walked_column_by_column() {
    let cells = grid_cells(2);
    assert_eq!(
        cells,
        vec![Cell { i: 0, j: 0 }, Cell { i: 0, j: 1 }, Cell { i: 1, j: 0 }, Cell { i: 1, j: 1 }]
    );
}

#[test]
fn every_cell_appears_once_at_its_position() {
    let n = 50;
    let cells = grid_cells(n);
    assert_eq!(cells.len(), n * n);
    for i in 0..n {
        for j in 0..n {
            assert_eq!(cells[i * n + j], Cell { i, j });
        }
    }
}

#[test]
fn corners_follow_the_drawing_order() {
    let q = Cell { i: 3, j: 7 }.corners();
    assert_eq!(
        q,
        Quad {
            v0: Vertex { i: 3, j: 7 },
            v1: Vertex { i: 4, j: 7 },
            v2: Vertex { i: 4, j: 8 },
            v3: Vertex { i: 3, j: 8 },
        }
    );
}

#[test]
fn neighbouring_cells_share_edges() {
    let c = Cell { i: 2, j: 5 }.corners();
    let right = Cell { i: 3, j: 5 }.corners();
    let up = Cell { i: 2, j: 6 }.corners();
    assert_eq!((c.v1, c.v2), (right.v0, right.v3));
    assert_eq!((c.v3, c.v2), (up.v0, up.v1));
}

#[test]
fn stepping_reproduces_the_walk() {
    for n in 0..12 {
        let mut stepped = Vec::new();
        let mut next = first_cell(n);
        while let Some(c) = next {
            stepped.push(c);
            next = next_cell(c, n);
        }
        assert_eq!(stepped, grid_cells(n));
    }
}

#[test]
fn stepping_wraps_to_the_next_column_and_stops_at_the_end() {
    assert_eq!(first_cell(0), None);
    assert_eq!(first_cell(3), Some(Cell { i: 0, j: 0 }));
    assert_eq!(next_cell(Cell { i: 0, j: 1 }, 3), Some(Cell { i: 0, j: 2 }));
    assert_eq!(next_cell(Cell { i: 0, j: 2 }, 3), Some(Cell { i: 1, j: 0 }));
    assert_eq!(next_cell(Cell { i: 2, j: 2 }, 3), None);
}
