use battleship_brain::board::CellState;
use battleship_brain::board::GridState;
use battleship_brain::chances::calculate_chances;
use battleship_brain::chances::max_empty_chance;

fn total(chances: &Vec<Vec<usize>>) -> usize {
    chances.iter().map(|row| row.iter().sum::<usize>()).sum()
}

#[test]
fn single_length_two_ship_on_empty_five_grid_sums_to_eighty() {
    // 20 horizontal + 20 vertical placements, each adding 1 to 2 cells.
    let b = GridState::new(5);
    let chances = calculate_chances(&b.cells, 5, &vec![2]);
    assert_eq!(total(&chances), 80);
}

#[test]
fn corner_counts_are_lower_than_center_counts() {
    // empty 10x10 board, one ship of length 4: a corner cell is covered by
    // exactly one placement per orientation, the center by four per
    // orientation.
    let b = GridState::new(10);
    let chances = calculate_chances(&b.cells, 10, &vec![4]);
    assert_eq!(chances[0][0], 2);
    assert_eq!(chances[5][5], 8);
    assert!(chances[0][0] < chances[5][5]);
    assert_eq!(chances[0][9], 2);
    assert_eq!(chances[9][0], 2);
    assert_eq!(chances[9][9], 2);
}

#[test]
fn counts_respect_fleet_bound() {
    // every count is at most (number of ships) x 2 x N
    let mut b = GridState::new(6);
    b.toggle(2, 2); // a MISS somewhere
    let ships = vec![2, 3, 4];
    let chances = calculate_chances(&b.cells, 6, &ships);
    for row in &chances {
        for &c in row {
            assert!(c <= ships.len() * 2 * 6);
        }
    }
}

#[test]
fn impossible_fleet_yields_all_zero_counts() {
    let b = GridState::new(5);
    // a ship longer than the grid side fits nowhere
    let chances = calculate_chances(&b.cells, 5, &vec![7]);
    assert_eq!(total(&chances), 0);
    // a zero-length ship counts no placement either
    let chances = calculate_chances(&b.cells, 5, &vec![0]);
    assert_eq!(total(&chances), 0);
}

#[test]
fn miss_never_raises_counts_and_leaves_far_cells_alone() {
    let mut b = GridState::new(5);
    let ships = vec![3];
    let before = calculate_chances(&b.cells, 5, &ships);
    b.toggle(2, 2); // EMPTY -> MISS
    let after = calculate_chances(&b.cells, 5, &ships);
    for x in 0..5 {
        for y in 0..5 {
            assert!(after[x][y] <= before[x][y]);
        }
    }
    // no length-3 placement covers both (2, 2) and (0, 0)
    assert_eq!(after[0][0], before[0][0]);
    // the placement anchored at (2, 0) covers both (2, 1) and (2, 2)
    assert!(after[2][1] < before[2][1]);
    assert_eq!(after[2][2], 0);
}

#[test]
fn placements_avoid_miss_and_sunk_but_not_hit() {
    let e = CellState::EMPTY;
    let m = CellState::MISS;
    let s = CellState::SUNK;
    let h = CellState::HIT;
    // row 0: E M E   row 1: E H E   row 2: E S E
    let cells = vec![
        vec![e, m, e],
        vec![e, h, e],
        vec![e, s, e],
    ];
    let chances = calculate_chances(&cells, 3, &vec![3]);
    // horizontal in row 0 is blocked by the MISS, in row 2 by the SUNK;
    // row 1 admits its single horizontal placement through the HIT.
    assert_eq!(chances[0][0], 1); // vertical placement in column 0 only
    assert_eq!(chances[1][1], 1); // the horizontal row-1 placement; column 1 is blocked
    assert_eq!(chances[2][2], 1); // vertical placement in column 2 only
    assert_eq!(chances[1][0], 2); // vertical column 0 + horizontal row 1
}

#[test]
fn identical_inputs_give_identical_grids() {
    let mut b = GridState::new(6);
    b.toggle(1, 1);
    b.toggle(3, 4);
    b.toggle(3, 4);
    let ships = vec![2, 3];
    let first = calculate_chances(&b.cells, 6, &ships);
    let second = calculate_chances(&b.cells, 6, &ships);
    assert_eq!(first, second);
    let third = calculate_chances(&b.cells, 6, &ships);
    assert_eq!(second, third);
}

#[test]
fn max_empty_chance_ignores_known_cells() {
    let e = CellState::EMPTY;
    let h = CellState::HIT;
    let cells = vec![
        vec![e, e, e],
        vec![e, h, e],
        vec![e, e, e],
    ];
    let chances = vec![
        vec![1, 2, 1],
        vec![2, 9, 2],
        vec![1, 2, 1],
    ];
    // the 9 sits on a HIT cell and must not win
    assert_eq!(max_empty_chance(&cells, &chances, 3), 2);
}

#[test]
fn max_empty_chance_is_zero_on_all_zero_grid() {
    let b = GridState::new(3);
    let chances = vec![vec![0; 3]; 3];
    assert_eq!(max_empty_chance(&b.cells, &chances, 3), 0);
}

#[test]
fn max_empty_chance_on_fresh_board() {
    let b = GridState::new(5);
    let chances = calculate_chances(&b.cells, 5, &vec![2]);
    // the center cell carries the maximal count on an empty odd board
    assert_eq!(max_empty_chance(&b.cells, &chances, 5), chances[2][2]);
}
