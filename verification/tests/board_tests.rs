use battleship_brain::board::CellState;
use battleship_brain::board::GridState;
use battleship_brain::board::get_neumann_neighbors;

fn board_from(rows: Vec<Vec<CellState>>) -> GridState {
    GridState { cells: rows }
}

#[test]
fn new_board_is_all_empty() {
    let b = GridState::new(4);
    assert_eq!(b.cells.len(), 4);
    for row in &b.cells {
        assert_eq!(row.len(), 4);
        for c in row {
            assert_eq!(*c, CellState::EMPTY);
        }
    }
}

#[test]
fn neighbors_center() {
    let ns = get_neumann_neighbors(5, 2, 2);
    assert_eq!(ns.len(), 4);
    assert!(ns.contains(&(1, 2)));
    assert!(ns.contains(&(3, 2)));
    assert!(ns.contains(&(2, 1)));
    assert!(ns.contains(&(2, 3)));
}

#[test]
fn neighbors_corner() {
    let ns = get_neumann_neighbors(5, 0, 0);
    assert_eq!(ns.len(), 2);
    assert!(ns.contains(&(1, 0)));
    assert!(ns.contains(&(0, 1)));
}

#[test]
fn neighbors_edge() {
    let ns = get_neumann_neighbors(3, 0, 1);
    assert_eq!(ns.len(), 3);
    assert!(ns.contains(&(1, 1)));
    assert!(ns.contains(&(0, 0)));
    assert!(ns.contains(&(0, 2)));
}

#[test]
fn toggle_cycles_single_cell() {
    let mut b = GridState::new(3);
    b.toggle(1, 1);
    assert_eq!(b.get(1, 1), CellState::MISS);
    b.toggle(1, 1);
    assert_eq!(b.get(1, 1), CellState::HIT);
    b.toggle(1, 1);
    assert_eq!(b.get(1, 1), CellState::SUNK);
    b.toggle(1, 1);
    assert_eq!(b.get(1, 1), CellState::EMPTY);
    // no other cell was ever touched
    for x in 0..3 {
        for y in 0..3 {
            assert_eq!(b.get(x, y), CellState::EMPTY);
        }
    }
}

#[test]
fn empty_to_miss_changes_only_clicked_cell() {
    let mut b = GridState::new(4);
    b.toggle(2, 3);
    for x in 0..4 {
        for y in 0..4 {
            if (x, y) == (2, 3) {
                assert_eq!(b.get(x, y), CellState::MISS);
            } else {
                assert_eq!(b.get(x, y), CellState::EMPTY);
            }
        }
    }
}

#[test]
fn sink_cascades_over_connected_hits() {
    // a 3-cell horizontal run of HITs; clicking the middle sinks all three,
    // while a HIT not 4-directionally reachable stays HIT.
    let e = CellState::EMPTY;
    let h = CellState::HIT;
    let mut b = board_from(vec![
        vec![e, e, e, e, e],
        vec![e, h, h, h, e],
        vec![e, e, e, e, e],
        vec![e, e, e, h, e],
        vec![e, e, e, e, e],
    ]);
    b.toggle(1, 2);
    assert_eq!(b.get(1, 1), CellState::SUNK);
    assert_eq!(b.get(1, 2), CellState::SUNK);
    assert_eq!(b.get(1, 3), CellState::SUNK);
    assert_eq!(b.get(3, 3), CellState::HIT);
    assert_eq!(b.get(0, 0), CellState::EMPTY);
}

#[test]
fn sink_does_not_cross_gaps() {
    let e = CellState::EMPTY;
    let h = CellState::HIT;
    let m = CellState::MISS;
    let mut b = board_from(vec![
        vec![h, m, h],
        vec![e, e, e],
        vec![e, e, e],
    ]);
    b.toggle(0, 0);
    assert_eq!(b.get(0, 0), CellState::SUNK);
    assert_eq!(b.get(0, 1), CellState::MISS);
    assert_eq!(b.get(0, 2), CellState::HIT);
}

#[test]
fn unsink_restores_connected_region_to_hit() {
    let e = CellState::EMPTY;
    let s = CellState::SUNK;
    let mut b = board_from(vec![
        vec![e, s, e],
        vec![e, s, e],
        vec![e, s, e],
    ]);
    b.toggle(1, 1);
    // the clicked cell ends EMPTY, the rest of the connected region HIT
    assert_eq!(b.get(0, 1), CellState::HIT);
    assert_eq!(b.get(1, 1), CellState::EMPTY);
    assert_eq!(b.get(2, 1), CellState::HIT);
}

#[test]
fn sink_ignores_diagonal_neighbours() {
    let e = CellState::EMPTY;
    let h = CellState::HIT;
    let mut b = board_from(vec![
        vec![h, e, e],
        vec![e, h, e],
        vec![e, e, h],
    ]);
    b.toggle(1, 1);
    assert_eq!(b.get(0, 0), CellState::HIT);
    assert_eq!(b.get(1, 1), CellState::SUNK);
    assert_eq!(b.get(2, 2), CellState::HIT);
}

#[test]
fn sink_cascades_along_vertical_run_from_the_end() {
    let e = CellState::EMPTY;
    let h = CellState::HIT;
    let mut b = board_from(vec![
        vec![e, h, e],
        vec![e, h, e],
        vec![e, h, e],
    ]);
    b.toggle(2, 1);
    assert_eq!(b.get(0, 1), CellState::SUNK);
    assert_eq!(b.get(1, 1), CellState::SUNK);
    assert_eq!(b.get(2, 1), CellState::SUNK);
}

#[test]
fn sink_unsink_round_trip() {
    // sink a HIT region, then undo it on the same cell: every cell is as it
    // was, except the clicked one, which ends EMPTY.
    let e = CellState::EMPTY;
    let h = CellState::HIT;
    let m = CellState::MISS;
    let before = vec![
        vec![e, h, e, m],
        vec![e, h, h, e],
        vec![e, e, h, e],
        vec![m, e, e, e],
    ];
    let mut b = board_from(before.clone());
    b.toggle(1, 1);
    // the whole connected region sank
    assert_eq!(b.get(0, 1), CellState::SUNK);
    assert_eq!(b.get(1, 1), CellState::SUNK);
    assert_eq!(b.get(1, 2), CellState::SUNK);
    assert_eq!(b.get(2, 2), CellState::SUNK);
    b.toggle(1, 1);
    for x in 0..4 {
        for y in 0..4 {
            if (x, y) == (1, 1) {
                assert_eq!(b.get(x, y), CellState::EMPTY);
            } else {
                assert_eq!(b.get(x, y), before[x][y]);
            }
        }
    }
}
