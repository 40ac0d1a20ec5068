//! Probability engine: for every cell of the board, count the geometrically
//! valid ship placements (over every ship of the fleet, both orientations,
//! every anchor) that would cover that cell and are consistent with what the
//! board already shows. A placement may not cover a `MISS` or a `SUNK` cell;
//! `EMPTY` and `HIT` cells are compatible with ship occupancy.

use vstd::prelude::*;

use crate::board::CellState;
use crate::board::board_wf;
use crate::board::grid_of;
use crate::board::in_grid;

verus! {

/// A ship may occupy this cell as far as current knowledge goes.
pub open spec fn allows_ship(c: CellState) -> bool {
    c == CellState::EMPTY || c == CellState::HIT
}

/// The `k`-th cell covered by a placement anchored at `(ax, ay)`: horizontal
/// placements extend along the second coordinate, vertical ones along the
/// first.
pub open spec fn ship_cell(
    g: Seq<Seq<CellState>>,
    horiz: bool,
    ax: int,
    ay: int,
    k: int,
) -> CellState {
    if horiz {
        g[ax][ay + k]
    } else {
        g[ax + k][ay]
    }
}

/// The placement of a ship of length `len` at anchor `(ax, ay)` lies entirely
/// inside the `n x n` grid.
pub open spec fn placement_in_grid(n: int, len: int, horiz: bool, ax: int, ay: int) -> bool {
    &&& len >= 1
    &&& 0 <= ax
    &&& 0 <= ay
    &&& if horiz {
        ax < n && ay + len <= n
    } else {
        ay < n && ax + len <= n
    }
}

/// The placement is valid: inside the grid, and no covered cell rules a ship
/// out.
pub open spec fn placement_ok(
    g: Seq<Seq<CellState>>,
    n: int,
    len: int,
    horiz: bool,
    ax: int,
    ay: int,
) -> bool {
    &&& placement_in_grid(n, len, horiz, ax, ay)
    &&& forall|k: int| 0 <= k < len ==> allows_ship(#[trigger] ship_cell(g, horiz, ax, ay, k))
}

/// The placement covers cell `(cx, cy)`.
pub open spec fn placement_covers(
    len: int,
    horiz: bool,
    ax: int,
    ay: int,
    cx: int,
    cy: int,
) -> bool {
    if horiz {
        cx == ax && ay <= cy < ay + len
    } else {
        cy == ay && ax <= cx < ax + len
    }
}

/// Among the placements of one ship in one orientation whose `k'`-th covered
/// cell is `(x, y)` for some `k' < k`, how many are valid. The anchor of the
/// placement covering `(x, y)` at offset `k'` is `(x, y - k')` horizontally,
/// `(x - k', y)` vertically.
pub open spec fn covering_count(
    g: Seq<Seq<CellState>>,
    n: int,
    len: int,
    horiz: bool,
    x: int,
    y: int,
    k: int,
) -> nat
    decreases k,
{
    if k <= 0 {
        0
    } else {
        covering_count(g, n, len, horiz, x, y, k - 1) + (if horiz {
            if placement_ok(g, n, len, true, x, y - (k - 1)) {
                1nat
            } else {
                0nat
            }
        } else {
            if placement_ok(g, n, len, false, x - (k - 1), y) {
                1nat
            } else {
                0nat
            }
        })
    }
}

/// How many valid placements of a single ship of length `len`, over both
/// orientations, cover cell `(x, y)`.
pub open spec fn ship_chance(g: Seq<Seq<CellState>>, n: int, len: int, x: int, y: int) -> nat {
    covering_count(g, n, len, true, x, y, len) + covering_count(g, n, len, false, x, y, len)
}

/// How many valid placements over the whole fleet cover cell `(x, y)`: the
/// chance count that the engine reports for that cell.
pub open spec fn cell_chance(
    g: Seq<Seq<CellState>>,
    n: int,
    ships: Seq<usize>,
    x: int,
    y: int,
) -> nat
    decreases ships.len(),
{
    if ships.len() == 0 {
        0
    } else {
        cell_chance(g, n, ships.drop_last(), x, y) + ship_chance(g, n, ships.last() as int, x, y)
    }
}

/// At most `k` placements of one ship in one orientation cover a cell at
/// offsets below `k`, and none do when the ship does not fit in the grid.
proof fn lemma_covering_count_bound(
    g: Seq<Seq<CellState>>,
    n: int,
    len: int,
    horiz: bool,
    x: int,
    y: int,
    k: int,
)
    ensures
        covering_count(g, n, len, horiz, x, y, k) <= (if k >= 0 { k } else { 0 }),
        len > n ==> covering_count(g, n, len, horiz, x, y, k) == 0,
    decreases k,
{
    if k > 0 {
        lemma_covering_count_bound(g, n, len, horiz, x, y, k - 1);
    }
}

/// One ship covers a given cell through at most `n` valid placements:
/// at most `len` per orientation, and none at all when `len > n`.
proof fn lemma_ship_chance_bound(g: Seq<Seq<CellState>>, n: int, len: int, x: int, y: int)
    requires
        n >= 0,
    ensures
        ship_chance(g, n, len, x, y) <= 2 * n,
{
    lemma_covering_count_bound(g, n, len, true, x, y, len);
    lemma_covering_count_bound(g, n, len, false, x, y, len);
}

/// Every chance count is bounded by the number of ships times two
/// orientations times the grid side: no cell can be covered by more
/// placements than that.
pub proof fn lemma_cell_chance_bound(
    g: Seq<Seq<CellState>>,
    n: int,
    ships: Seq<usize>,
    x: int,
    y: int,
)
    requires
        n >= 0,
    ensures
        cell_chance(g, n, ships, x, y) <= ships.len() * 2 * n,
    decreases ships.len(),
{
    if ships.len() == 0 {
    } else {
        lemma_cell_chance_bound(g, n, ships.drop_last(), x, y);
        lemma_ship_chance_bound(g, n, ships.last() as int, x, y);
        assert((ships.len() - 1) * 2 * n + 2 * n == ships.len() * 2 * n) by (nonlinear_arith);
    }
}

/// Whether the placement of a ship of length `len` anchored at `(ax, ay)` is
/// valid on the current board.
fn placement_fits(
    cells: &Vec<Vec<CellState>>,
    grid_size: usize,
    len: usize,
    horiz: bool,
    ax: usize,
    ay: usize,
) -> (r: bool)
    requires
        board_wf(grid_of(*cells), grid_size as int),
        len >= 1,
    ensures
        r == placement_ok(grid_of(*cells), grid_size as int, len as int, horiz, ax as int,
        ay as int),
{
    let ghost g = grid_of(*cells);
    let ghost n: int = grid_size as int;
    let fits_in_grid = if horiz {
        ax < grid_size && ay < grid_size && len <= grid_size - ay
    } else {
        ay < grid_size && ax < grid_size && len <= grid_size - ax
    };
    if !fits_in_grid {
        return false;
    }
    assert(placement_in_grid(n, len as int, horiz, ax as int, ay as int));
    let mut k: usize = 0;
    while k < len
        invariant
            board_wf(g, n),
            g == grid_of(*cells),
            n == grid_size as int,
            placement_in_grid(n, len as int, horiz, ax as int, ay as int),
            k <= len,
            forall|k2: int|
                0 <= k2 < k ==> allows_ship(#[trigger] ship_cell(g, horiz, ax as int, ay as int,
                k2)),
        decreases len - k,
    {
        let c = if horiz {
            cells[ax][ay + k]
        } else {
            cells[ax + k][ay]
        };
        proof {
            if horiz {
                assert(g[ax as int].len() == n);
                assert(c == ship_cell(g, horiz, ax as int, ay as int, k as int));
            } else {
                assert(g[ax + k as int].len() == n);
                assert(c == ship_cell(g, horiz, ax as int, ay as int, k as int));
            }
        }
        if c == CellState::MISS || c == CellState::SUNK {
            return false;
        }
        k += 1;
    }
    true
}

/// How many valid placements of one ship of length `len`, over both
/// orientations, cover cell `(x, y)`.
fn ship_chance_at(
    cells: &Vec<Vec<CellState>>,
    grid_size: usize,
    len: usize,
    x: usize,
    y: usize,
) -> (r: usize)
    requires
        board_wf(grid_of(*cells), grid_size as int),
        len >= 1,
        x < grid_size,
        y < grid_size,
        2 * (grid_size as int) <= usize::MAX as int,
    ensures
        r == ship_chance(grid_of(*cells), grid_size as int, len as int, x as int, y as int),
        r <= 2 * (grid_size as int),
{
    let ghost g = grid_of(*cells);
    let ghost n: int = grid_size as int;
    let mut r: usize = 0;
    let mut k: usize = 0;
    while k < len
        invariant
            board_wf(g, n),
            g == grid_of(*cells),
            n == grid_size as int,
            len >= 1,
            x < grid_size,
            y < grid_size,
            k <= len,
            r == covering_count(g, n, len as int, true, x as int, y as int, k as int),
            r <= k,
        decreases len - k,
    {
        if k <= y {
            if placement_fits(cells, grid_size, len, true, x, y - k) {
                r += 1;
            }
        } else {
            proof {
                assert(!placement_ok(g, n, len as int, true, x as int, y - k as int));
            }
        }
        k += 1;
    }
    proof {
        lemma_covering_count_bound(g, n, len as int, true, x as int, y as int, len as int);
        assert(r <= n);
    }
    let mut rv: usize = 0;
    k = 0;
    while k < len
        invariant
            board_wf(g, n),
            g == grid_of(*cells),
            n == grid_size as int,
            len >= 1,
            x < grid_size,
            y < grid_size,
            k <= len,
            rv == covering_count(g, n, len as int, false, x as int, y as int, k as int),
            rv <= k,
        decreases len - k,
    {
        if k <= x {
            if placement_fits(cells, grid_size, len, false, x - k, y) {
                rv += 1;
            }
        } else {
            proof {
                assert(!placement_ok(g, n, len as int, false, x - k as int, y as int));
            }
        }
        k += 1;
    }
    proof {
        lemma_covering_count_bound(g, n, len as int, false, x as int, y as int, len as int);
        assert(rv <= n);
    }
    r + rv
}

/// The chance count of one cell over the whole fleet.
fn chance_at(
    cells: &Vec<Vec<CellState>>,
    grid_size: usize,
    ships: &Vec<usize>,
    x: usize,
    y: usize,
) -> (r: usize)
    requires
        board_wf(grid_of(*cells), grid_size as int),
        x < grid_size,
        y < grid_size,
        ships@.len() * 2 * (grid_size as int) <= usize::MAX as int,
    ensures
        r == cell_chance(grid_of(*cells), grid_size as int, ships@, x as int, y as int),
{
    let ghost g = grid_of(*cells);
    let ghost n: int = grid_size as int;
    let mut r: usize = 0;
    let mut i: usize = 0;
    while i < ships.len()
        invariant
            board_wf(g, n),
            g == grid_of(*cells),
            n == grid_size as int,
            x < grid_size,
            y < grid_size,
            i <= ships@.len(),
            ships@.len() * 2 * n <= usize::MAX as int,
            r == cell_chance(g, n, ships@.take(i as int), x as int, y as int),
            r <= i * 2 * n,
        decreases ships@.len() - i,
    {
        let len = ships[i];
        proof {
            assert(ships@.take(i + 1).drop_last() =~= ships@.take(i as int));
            assert(ships@.take(i + 1).last() == ships@[i as int]);
            assert((i + 1) * 2 * n <= ships@.len() * 2 * n) by (nonlinear_arith)
                requires
                    i + 1 <= ships@.len(),
                    n >= 0,
            ;
            assert(i * 2 * n + 2 * n == (i + 1) * 2 * n) by (nonlinear_arith);
        }
        if len >= 1 {
            proof {
                assert(2 * n <= (i + 1) * 2 * n) by (nonlinear_arith)
                    requires
                        n >= 0,
                ;
            }
            let s = ship_chance_at(cells, grid_size, len, x, y);
            r += s;
        } else {
            proof {
                assert(ship_chance(g, n, len as int, x as int, y as int) == 0);
            }
        }
        i += 1;
    }
    proof {
        assert(ships@.take(ships@.len() as int) =~= ships@);
    }
    r
}

/// The Chances grid: entry `(x, y)` counts the valid placements, over every
/// ship of the fleet, both orientations and every anchor, that cover `(x, y)`
/// and avoid every `MISS` and `SUNK` cell. A fleet that cannot be placed at
/// all simply yields zero counts.
pub fn calculate_chances(
    cells: &Vec<Vec<CellState>>,
    grid_size: usize,
    ships: &Vec<usize>,
) -> (r: Vec<Vec<usize>>)
    requires
        board_wf(grid_of(*cells), grid_size as int),
        ships@.len() * 2 * (grid_size as int) <= usize::MAX as int,
    ensures
        r@.len() == grid_size,
        forall|x: int| 0 <= x < grid_size ==> (#[trigger] r@[x])@.len() == grid_size,
        forall|x: int, y: int|
            in_grid(grid_size as int, x, y) ==> #[trigger] r@[x]@[y] == cell_chance(
                grid_of(*cells),
                grid_size as int,
                ships@,
                x,
                y,
            ),
{
    let ghost g = grid_of(*cells);
    let ghost n: int = grid_size as int;
    let mut r: Vec<Vec<usize>> = Vec::new();
    let mut x: usize = 0;
    while x < grid_size
        invariant
            board_wf(g, n),
            g == grid_of(*cells),
            n == grid_size as int,
            ships@.len() * 2 * n <= usize::MAX as int,
            x <= grid_size,
            r@.len() == x,
            forall|a: int| 0 <= a < x ==> (#[trigger] r@[a])@.len() == grid_size,
            forall|a: int, b: int|
                0 <= a < x && 0 <= b < grid_size ==> #[trigger] r@[a]@[b] == cell_chance(
                    g,
                    n,
                    ships@,
                    a,
                    b,
                ),
        decreases grid_size - x,
    {
        let mut row: Vec<usize> = Vec::new();
        let mut y: usize = 0;
        while y < grid_size
            invariant
                board_wf(g, n),
                g == grid_of(*cells),
                n == grid_size as int,
                ships@.len() * 2 * n <= usize::MAX as int,
                x < grid_size,
                y <= grid_size,
                row@.len() == y,
                forall|b: int|
                    0 <= b < y ==> #[trigger] row@[b] == cell_chance(g, n, ships@, x as int, b),
            decreases grid_size - y,
        {
            let c = chance_at(cells, grid_size, ships, x, y);
            row.push(c);
            y += 1;
        }
        r.push(row);
        x += 1;
    }
    r
}

/// The grid `g` with cell `(mx, my)` overwritten by `MISS`.
pub open spec fn with_miss(g: Seq<Seq<CellState>>, mx: int, my: int) -> Seq<Seq<CellState>> {
    g.update(mx, g[mx].update(my, CellState::MISS))
}

/// A placement valid after a cell is marked `MISS` was already valid before.
proof fn lemma_placement_ok_after_miss(
    g: Seq<Seq<CellState>>,
    n: int,
    mx: int,
    my: int,
    len: int,
    horiz: bool,
    ax: int,
    ay: int,
)
    requires
        board_wf(g, n),
        in_grid(n, mx, my),
        placement_ok(with_miss(g, mx, my), n, len, horiz, ax, ay),
    ensures
        placement_ok(g, n, len, horiz, ax, ay),
{
    let g2 = with_miss(g, mx, my);
    assert forall|k: int| 0 <= k < len implies allows_ship(#[trigger] ship_cell(
        g,
        horiz,
        ax,
        ay,
        k,
    )) by {
        let (cx, cy): (int, int) = if horiz {
            (ax, ay + k)
        } else {
            (ax + k, ay)
        };
        assert(allows_ship(ship_cell(g2, horiz, ax, ay, k)));
        if cx == mx && cy == my {
            assert(g2[cx][cy] == CellState::MISS);
            assert(false);
        } else {
            assert(g2[cx][cy] == g[cx][cy]);
        }
    }
}

/// Marking a cell `MISS` never raises the per-orientation covering count.
proof fn lemma_covering_count_miss(
    g: Seq<Seq<CellState>>,
    n: int,
    mx: int,
    my: int,
    len: int,
    horiz: bool,
    x: int,
    y: int,
    k: int,
)
    requires
        board_wf(g, n),
        in_grid(n, mx, my),
    ensures
        covering_count(with_miss(g, mx, my), n, len, horiz, x, y, k) <= covering_count(
            g,
            n,
            len,
            horiz,
            x,
            y,
            k,
        ),
    decreases k,
{
    if k > 0 {
        lemma_covering_count_miss(g, n, mx, my, len, horiz, x, y, k - 1);
        if horiz {
            if placement_ok(with_miss(g, mx, my), n, len, true, x, y - (k - 1)) {
                lemma_placement_ok_after_miss(g, n, mx, my, len, true, x, y - (k - 1));
            }
        } else {
            if placement_ok(with_miss(g, mx, my), n, len, false, x - (k - 1), y) {
                lemma_placement_ok_after_miss(g, n, mx, my, len, false, x - (k - 1), y);
            }
        }
    }
}

/// Marking any cell `MISS` strictly decreases or leaves unchanged every
/// chance count: each count after the mark is bounded by the count before.
pub proof fn lemma_miss_monotone(
    g: Seq<Seq<CellState>>,
    n: int,
    ships: Seq<usize>,
    mx: int,
    my: int,
    x: int,
    y: int,
)
    requires
        board_wf(g, n),
        in_grid(n, mx, my),
    ensures
        cell_chance(with_miss(g, mx, my), n, ships, x, y) <= cell_chance(g, n, ships, x, y),
    decreases ships.len(),
{
    if ships.len() > 0 {
        lemma_miss_monotone(g, n, ships.drop_last(), mx, my, x, y);
        let len = ships.last() as int;
        lemma_covering_count_miss(g, n, mx, my, len, true, x, y, len);
        lemma_covering_count_miss(g, n, mx, my, len, false, x, y, len);
    }
}

/// No placement of a ship of length `len` in orientation `horiz` that lies in
/// the grid covers both `(x, y)` and `(mx, my)`.
pub open spec fn no_shared_placement(
    n: int,
    len: int,
    horiz: bool,
    x: int,
    y: int,
    mx: int,
    my: int,
) -> bool {
    forall|ax: int, ay: int|
        #![trigger placement_covers(len, horiz, ax, ay, x, y)]
        placement_in_grid(n, len, horiz, ax, ay) && placement_covers(len, horiz, ax, ay, x, y)
            ==> !placement_covers(len, horiz, ax, ay, mx, my)
}

/// When no in-grid placement covers both cells, marking `(mx, my)` as `MISS`
/// leaves the per-orientation covering count of `(x, y)` exactly unchanged.
proof fn lemma_covering_count_miss_far(
    g: Seq<Seq<CellState>>,
    n: int,
    mx: int,
    my: int,
    len: int,
    horiz: bool,
    x: int,
    y: int,
    k: int,
)
    requires
        board_wf(g, n),
        in_grid(n, mx, my),
        no_shared_placement(n, len, horiz, x, y, mx, my),
        k <= len,
    ensures
        covering_count(with_miss(g, mx, my), n, len, horiz, x, y, k) == covering_count(
            g,
            n,
            len,
            horiz,
            x,
            y,
            k,
        ),
    decreases k,
{
    let g2 = with_miss(g, mx, my);
    if k > 0 {
        lemma_covering_count_miss_far(g, n, mx, my, len, horiz, x, y, k - 1);
        let (ax, ay): (int, int) = if horiz {
            (x, y - (k - 1))
        } else {
            (x - (k - 1), y)
        };
        if placement_in_grid(n, len, horiz, ax, ay) {
            assert(placement_covers(len, horiz, ax, ay, x, y));
            assert(!placement_covers(len, horiz, ax, ay, mx, my));
            assert forall|k2: int|
                #![trigger ship_cell(g, horiz, ax, ay, k2)]
                #![trigger ship_cell(g2, horiz, ax, ay, k2)]
                0 <= k2 < len implies ship_cell(g2, horiz, ax, ay, k2) == ship_cell(
                g,
                horiz,
                ax,
                ay,
                k2,
            ) by {
                let (cx, cy): (int, int) = if horiz {
                    (ax, ay + k2)
                } else {
                    (ax + k2, ay)
                };
                assert(!(cx == mx && cy == my));
                assert(g2[cx][cy] == g[cx][cy]);
            }
            assert(placement_ok(g2, n, len, horiz, ax, ay) == placement_ok(
                g,
                n,
                len,
                horiz,
                ax,
                ay,
            ));
        }
    }
}

/// Marking `(mx, my)` as `MISS` leaves the count of `(x, y)` exactly
/// unchanged when no in-grid placement of any fleet ship covers both cells.
pub proof fn lemma_miss_far_unchanged(
    g: Seq<Seq<CellState>>,
    n: int,
    ships: Seq<usize>,
    mx: int,
    my: int,
    x: int,
    y: int,
)
    requires
        board_wf(g, n),
        in_grid(n, mx, my),
        forall|s: int, horiz: bool|
            0 <= s < ships.len() ==> #[trigger] no_shared_placement(
                n,
                ships[s] as int,
                horiz,
                x,
                y,
                mx,
                my,
            ),
    ensures
        cell_chance(with_miss(g, mx, my), n, ships, x, y) == cell_chance(g, n, ships, x, y),
    decreases ships.len(),
{
    if ships.len() > 0 {
        assert forall|s: int, horiz: bool| 0 <= s < ships.drop_last().len() implies
            #[trigger] no_shared_placement(n, ships.drop_last()[s] as int, horiz, x, y, mx, my) by {
            assert(ships.drop_last()[s] == ships[s]);
        }
        lemma_miss_far_unchanged(g, n, ships.drop_last(), mx, my, x, y);
        let len = ships.last() as int;
        assert(ships.last() == ships[ships.len() - 1]);
        lemma_covering_count_miss_far(g, n, mx, my, len, true, x, y, len);
        lemma_covering_count_miss_far(g, n, mx, my, len, false, x, y, len);
    }
}

/// For a fleet of one ship, the count at any cell is the number of valid
/// horizontal placements covering it plus the number of valid vertical ones.
pub proof fn lemma_single_ship_split(g: Seq<Seq<CellState>>, n: int, len: usize, x: int, y: int)
    ensures
        cell_chance(g, n, seq![len], x, y) == covering_count(g, n, len as int, true, x, y, len as int)
            + covering_count(g, n, len as int, false, x, y, len as int),
{
    let ships: Seq<usize> = seq![len];
    assert(ships.len() == 1);
    assert(ships.last() == ships[0]);
    assert(ships[0] == len);
    assert(ships.drop_last().len() == 0);
    assert(cell_chance(g, n, ships.drop_last(), x, y) == 0);
    assert(cell_chance(g, n, ships, x, y) == ship_chance(g, n, len as int, x, y));
}

/// The chance counts pin the engine's output down: any two grids that both
/// satisfy `calculate_chances`'s contract for the same board and fleet are
/// equal, so two calls on identical input return identical Chances grids.
pub proof fn lemma_chances_deterministic(
    g: Seq<Seq<CellState>>,
    n: int,
    ships: Seq<usize>,
    r1: Seq<Seq<usize>>,
    r2: Seq<Seq<usize>>,
)
    requires
        r1.len() == n,
        r2.len() == n,
        forall|x: int| 0 <= x < n ==> (#[trigger] r1[x]).len() == n,
        forall|x: int| 0 <= x < n ==> (#[trigger] r2[x]).len() == n,
        forall|x: int, y: int|
            in_grid(n, x, y) ==> #[trigger] r1[x][y] == cell_chance(g, n, ships, x, y),
        forall|x: int, y: int|
            in_grid(n, x, y) ==> #[trigger] r2[x][y] == cell_chance(g, n, ships, x, y),
    ensures
        r1 == r2,
{
    assert forall|x: int| 0 <= x < n implies r1[x] =~= r2[x] by {
        assert forall|y: int| 0 <= y < n implies r1[x][y] == r2[x][y] by {
            assert(in_grid(n, x, y));
        }
    }
    assert(r1 =~= r2);
}

/// The largest chance count among still-`EMPTY` cells, `0` when no `EMPTY`
/// cell exists (or all their counts are zero): what the display layer
/// highlights as the best next guess.
pub fn max_empty_chance(
    cells: &Vec<Vec<CellState>>,
    chances: &Vec<Vec<usize>>,
    grid_size: usize,
) -> (r: usize)
    requires
        board_wf(grid_of(*cells), grid_size as int),
        chances@.len() == grid_size,
        forall|i: int| 0 <= i < grid_size ==> (#[trigger] chances@[i])@.len() == grid_size,
    ensures
        forall|i: int, j: int|
            in_grid(grid_size as int, i, j) && grid_of(*cells)[i][j] == CellState::EMPTY
                ==> #[trigger] chances@[i]@[j] <= r,
        r != 0 ==> exists|i: int, j: int|
            in_grid(grid_size as int, i, j) && grid_of(*cells)[i][j] == CellState::EMPTY
                && #[trigger] chances@[i]@[j] == r,
{
    let ghost g = grid_of(*cells);
    let ghost n: int = grid_size as int;
    let mut r: usize = 0;
    let mut i: usize = 0;
    while i < grid_size
        invariant
            board_wf(g, n),
            g == grid_of(*cells),
            n == grid_size as int,
            chances@.len() == grid_size,
            forall|a: int| 0 <= a < grid_size ==> (#[trigger] chances@[a])@.len() == grid_size,
            i <= grid_size,
            forall|a: int, b: int|
                0 <= a < i && 0 <= b < n && g[a][b] == CellState::EMPTY
                    ==> #[trigger] chances@[a]@[b] <= r,
            r != 0 ==> exists|a: int, b: int|
                in_grid(n, a, b) && g[a][b] == CellState::EMPTY && #[trigger] chances@[a]@[b] == r,
        decreases grid_size - i,
    {
        let mut j: usize = 0;
        while j < grid_size
            invariant
                board_wf(g, n),
                g == grid_of(*cells),
                n == grid_size as int,
                chances@.len() == grid_size,
                forall|a: int| 0 <= a < grid_size ==> (#[trigger] chances@[a])@.len() == grid_size,
                i < grid_size,
                j <= grid_size,
                forall|a: int, b: int|
                    0 <= a < i && 0 <= b < n && g[a][b] == CellState::EMPTY
                        ==> #[trigger] chances@[a]@[b] <= r,
                forall|b: int|
                    0 <= b < j && g[i as int][b] == CellState::EMPTY
                        ==> #[trigger] chances@[i as int]@[b] <= r,
                r != 0 ==> exists|a: int, b: int|
                    in_grid(n, a, b) && g[a][b] == CellState::EMPTY && #[trigger] chances@[a]@[b]
                        == r,
            decreases grid_size - j,
        {
            if cells[i][j] == CellState::EMPTY {
                let c = chances[i][j];
                if c > r {
                    r = c;
                    proof {
                        assert(g[i as int][j as int] == CellState::EMPTY);
                        assert(chances@[i as int]@[j as int] == r);
                    }
                }
            }
            j += 1;
        }
        i += 1;
    }
    r
}

} // verus!
