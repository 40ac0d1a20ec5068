//! Board state: a square grid of per-cell knowledge, the 4-directional
//! (von Neumann) neighbourhood, and the toggle operation that advances one
//! cell through `EMPTY -> MISS -> HIT -> SUNK -> EMPTY`, cascading the
//! `HIT <-> SUNK` transitions over connected regions.

use vstd::prelude::*;

verus! {

/// What is known about one cell of the board.
#[allow(non_camel_case_types)]
#[derive(Clone, Copy, PartialEq, Eq, Structural, Debug)]
pub enum CellState {
    /// No shot taken here yet.
    EMPTY,
    /// A shot was taken and missed: no ship can occupy this cell.
    MISS,
    /// A shot hit a ship that is not yet known to be fully destroyed.
    HIT,
    /// A shot hit a ship that is fully destroyed.
    SUNK,
}

/// The mathematical view of a grid: a sequence of rows, each a sequence of
/// cell states.
pub open spec fn grid_of(cells: Vec<Vec<CellState>>) -> Seq<Seq<CellState>> {
    Seq::new(cells@.len(), |i: int| cells@[i]@)
}

/// A well-formed board is a square `n x n` grid.
pub open spec fn board_wf(g: Seq<Seq<CellState>>, n: int) -> bool {
    &&& g.len() == n
    &&& forall|i: int| 0 <= i < n ==> (#[trigger] g[i]).len() == n
}

/// `(x, y)` lies inside an `n x n` grid.
pub open spec fn in_grid(n: int, x: int, y: int) -> bool {
    0 <= x < n && 0 <= y < n
}

/// The two cells are von Neumann neighbours: they differ by one step in
/// exactly one coordinate.
pub open spec fn adjacent(x1: int, y1: int, x2: int, y2: int) -> bool {
    ||| x1 == x2 && (y2 == y1 + 1 || y2 == y1 - 1)
    ||| y1 == y2 && (x2 == x1 + 1 || x2 == x1 - 1)
}

/// The in-range von Neumann neighbours of `(x, y)` on an `n x n` grid,
/// at most four of them.
pub fn get_neumann_neighbors(grid_size: usize, x: usize, y: usize) -> (r: Vec<(usize, usize)>)
    requires
        x < grid_size,
        y < grid_size,
    ensures
        r@.len() <= 4,
        forall|k: int| 0 <= k < r@.len() ==> {
            &&& in_grid(grid_size as int, (#[trigger] r@[k]).0 as int, r@[k].1 as int)
            &&& adjacent(x as int, y as int, r@[k].0 as int, r@[k].1 as int)
        },
        forall|a: int, b: int|
            in_grid(grid_size as int, a, b) && adjacent(x as int, y as int, a, b)
                ==> r@.contains((a as usize, b as usize)),
{
    let mut r: Vec<(usize, usize)> = Vec::new();
    if x > 0 {
        r.push((x - 1, y));
    }
    if x + 1 < grid_size {
        r.push((x + 1, y));
    }
    if y > 0 {
        r.push((x, y - 1));
    }
    if y + 1 < grid_size {
        r.push((x, y + 1));
    }
    proof {
        assert forall|a: int, b: int|
            in_grid(grid_size as int, a, b) && adjacent(x as int, y as int, a, b)
                implies r@.contains((a as usize, b as usize)) by {
            let p = (a as usize, b as usize);
            let up: int = if x > 0 { 1 } else { 0 };
            let down: int = if x + 1 < grid_size { 1 } else { 0 };
            if a == x - 1 && b == y {
                assert(r@[0] == p);
            } else if a == x + 1 && b == y {
                assert(r@[up] == p);
            } else if a == x && b == y - 1 {
                assert(r@[up + down] == p);
            } else {
                assert(a == x && b == y + 1);
                assert(r@[r@.len() - 1] == p);
            }
        }
    }
    r
}

/// A path: a nonempty sequence of in-grid cells that all hold state `st`,
/// each consecutive pair von Neumann adjacent.
pub open spec fn is_path(g: Seq<Seq<CellState>>, n: int, st: CellState, p: Seq<(int, int)>) -> bool {
    &&& p.len() >= 1
    &&& forall|i: int|
        0 <= i < p.len() ==> in_grid(n, (#[trigger] p[i]).0, p[i].1) && g[p[i].0][p[i].1] == st
    &&& forall|i: int|
        0 <= i < p.len() - 1 ==> adjacent((#[trigger] p[i]).0, p[i].1, p[i + 1].0, p[i + 1].1)
}

/// `(x, y)` is reachable from `(x0, y0)` through cells that all hold `st`
/// (both endpoints included), following von Neumann adjacency.
pub open spec fn connected(
    g: Seq<Seq<CellState>>,
    n: int,
    st: CellState,
    x0: int,
    y0: int,
    x: int,
    y: int,
) -> bool {
    exists|p: Seq<(int, int)>|
        is_path(g, n, st, p) && p.first() == (x0, y0) && p.last() == (x, y)
}

/// A cell holding `st` is connected to itself.
proof fn lemma_connected_self(g: Seq<Seq<CellState>>, n: int, st: CellState, x: int, y: int)
    requires
        in_grid(n, x, y),
        g[x][y] == st,
    ensures
        connected(g, n, st, x, y, x, y),
{
    let p: Seq<(int, int)> = seq![(x, y)];
    assert(is_path(g, n, st, p));
    assert(p.first() == (x, y) && p.last() == (x, y));
}

/// Connectivity extends across one adjacency step into another `st` cell.
proof fn lemma_connected_extend(
    g: Seq<Seq<CellState>>,
    n: int,
    st: CellState,
    x0: int,
    y0: int,
    x1: int,
    y1: int,
    x2: int,
    y2: int,
)
    requires
        connected(g, n, st, x0, y0, x1, y1),
        in_grid(n, x2, y2),
        g[x2][y2] == st,
        adjacent(x1, y1, x2, y2),
    ensures
        connected(g, n, st, x0, y0, x2, y2),
{
    let p = choose|p: Seq<(int, int)>|
        is_path(g, n, st, p) && p.first() == (x0, y0) && p.last() == (x1, y1);
    let q = p.push((x2, y2));
    assert forall|i: int| 0 <= i < q.len() - 1 implies adjacent(
        (#[trigger] q[i]).0,
        q[i].1,
        q[i + 1].0,
        q[i + 1].1,
    ) by {
        if i < p.len() - 1 {
            assert(q[i] == p[i] && q[i + 1] == p[i + 1]);
        } else {
            assert(q[i] == p.last() && q[i + 1] == (x2, y2));
        }
    }
    assert(is_path(g, n, st, q));
    assert(q.first() == (x0, y0) && q.last() == (x2, y2));
}

/// How many cells of `row`, among the first `j`, hold state `st`.
pub open spec fn row_count(row: Seq<CellState>, st: CellState, j: int) -> nat
    decreases j,
{
    if j <= 0 {
        0
    } else {
        row_count(row, st, j - 1) + (if row[j - 1] == st { 1nat } else { 0nat })
    }
}

/// How many cells of the first `i` rows of `g` hold state `st`.
pub open spec fn grid_count(g: Seq<Seq<CellState>>, st: CellState, i: int) -> nat
    decreases i,
{
    if i <= 0 {
        0
    } else {
        grid_count(g, st, i - 1) + row_count(g[i - 1], st, g[i - 1].len() as int)
    }
}

/// Overwriting one `st` cell with something else lowers the row count by one
/// (when the cell lies in the counted prefix).
proof fn lemma_row_count_update(row: Seq<CellState>, st: CellState, j: int, b: int, c: CellState)
    requires
        0 <= b < row.len(),
        row[b] == st,
        c != st,
        j <= row.len(),
    ensures
        row_count(row.update(b, c), st, j) + (if b < j { 1nat } else { 0nat }) == row_count(
            row,
            st,
            j,
        ),
    decreases j,
{
    if j > 0 {
        lemma_row_count_update(row, st, j - 1, b, c);
    }
}

/// Overwriting one `st` cell with something else lowers the grid count by one.
proof fn lemma_grid_count_update(
    g: Seq<Seq<CellState>>,
    st: CellState,
    i: int,
    a: int,
    b: int,
    c: CellState,
)
    requires
        0 <= a < g.len(),
        0 <= b < g[a].len(),
        g[a][b] == st,
        c != st,
        i <= g.len(),
    ensures
        grid_count(g.update(a, g[a].update(b, c)), st, i) + (if a < i { 1nat } else { 0nat })
            == grid_count(g, st, i),
    decreases i,
{
    let g2 = g.update(a, g[a].update(b, c));
    if i > 0 {
        lemma_grid_count_update(g, st, i - 1, a, b, c);
        if a == i - 1 {
            lemma_row_count_update(g[a], st, g[a].len() as int, b, c);
            assert(g2[i - 1] == g[a].update(b, c));
        } else {
            assert(g2[i - 1] == g[i - 1]);
        }
    }
}

/// Write `v` into cell `(x, y)`, leaving the rest of the grid unchanged.
fn set_cell(cells: &mut Vec<Vec<CellState>>, x: usize, y: usize, v: CellState)
    requires
        x < old(cells)@.len(),
        y < old(cells)@[x as int]@.len(),
    ensures
        grid_of(*final(cells)) == grid_of(*old(cells)).update(
            x as int,
            grid_of(*old(cells))[x as int].update(y as int, v),
        ),
{
    let ghost g0 = grid_of(*cells);
    cells[x][y] = v;
    proof {
        assert(grid_of(*cells) =~~= g0.update(x as int, g0[x as int].update(y as int, v)));
    }
}

/// No in-grid neighbour of `(i, j)` holds state `src` in `g`.
pub open spec fn settled(g: Seq<Seq<CellState>>, n: int, src: CellState, i: int, j: int) -> bool {
    forall|a: int, b: int| in_grid(n, a, b) && adjacent(i, j, a, b) ==> #[trigger] g[a][b] != src
}

/// The worklist holds coordinate `(i, j)`.
pub open spec fn queue_has(qs: Seq<(usize, usize)>, i: int, j: int) -> bool {
    exists|k: int| 0 <= k < qs.len() && (#[trigger] qs[k]).0 == i && qs[k].1 == j
}

/// Along any `src` path of the original grid that starts at the seed, every
/// cell has been reclassified to `dst` once the worklist has drained: the seed
/// is flipped, flipped cells have no `src` neighbours left, so the flips chase
/// the path to its end.
proof fn lemma_settled_path(
    g0: Seq<Seq<CellState>>,
    g: Seq<Seq<CellState>>,
    n: int,
    src: CellState,
    dst: CellState,
    x: int,
    y: int,
    p: Seq<(int, int)>,
    k: int,
)
    requires
        src != dst,
        in_grid(n, x, y),
        g0[x][y] == src,
        g[x][y] == dst,
        is_path(g0, n, src, p),
        p.first() == (x, y),
        forall|i: int, j: int|
            in_grid(n, i, j) && #[trigger] g[i][j] != g0[i][j] ==> g[i][j] == dst && g0[i][j]
                == src,
        forall|i: int, j: int|
            in_grid(n, i, j) && #[trigger] g[i][j] != g0[i][j] ==> settled(g, n, src, i, j),
        0 <= k < p.len(),
    ensures
        g[p[k].0][p[k].1] == dst,
    decreases k,
{
    if k == 0 {
        assert(p[0] == (x, y));
    } else {
        lemma_settled_path(g0, g, n, src, dst, x, y, p, k - 1);
        let prev = p[k - 1];
        let cur = p[k];
        assert(g[prev.0][prev.1] == dst && g0[prev.0][prev.1] == src);
        assert(settled(g, n, src, prev.0, prev.1));
        assert(adjacent(prev.0, prev.1, cur.0, cur.1));
        assert(g[cur.0][cur.1] != src);
        assert(g0[cur.0][cur.1] == src);
    }
}

/// Reclassify to `dst` the whole 4-directionally connected region of `src`
/// cells that contains the seed `(x, y)`; leave every other cell unchanged.
/// The seed itself is reclassified whatever its neighbours hold.
fn cascade(
    cells: &mut Vec<Vec<CellState>>,
    grid_size: usize,
    x: usize,
    y: usize,
    src: CellState,
    dst: CellState,
)
    requires
        board_wf(grid_of(*old(cells)), grid_size as int),
        x < grid_size,
        y < grid_size,
        grid_of(*old(cells))[x as int][y as int] == src,
        src != dst,
    ensures
        board_wf(grid_of(*final(cells)), grid_size as int),
        forall|i: int, j: int|
            in_grid(grid_size as int, i, j) ==> #[trigger] grid_of(*final(cells))[i][j] == (
            if grid_of(*old(cells))[i][j] == src && connected(
                grid_of(*old(cells)),
                grid_size as int,
                src,
                x as int,
                y as int,
                i,
                j,
            ) {
                dst
            } else {
                grid_of(*old(cells))[i][j]
            }),
{
    let ghost g0 = grid_of(*cells);
    let ghost n: int = grid_size as int;
    proof {
        lemma_connected_self(g0, n, src, x as int, y as int);
    }
    set_cell(cells, x, y, dst);
    let mut queue: Vec<(usize, usize)> = Vec::new();
    queue.push((x, y));
    proof {
        assert(queue@[0] == (x, y));
        assert(queue_has(queue@, x as int, y as int));
    }
    while queue.len() > 0
        invariant
            board_wf(g0, n),
            n == grid_size as int,
            x < grid_size,
            y < grid_size,
            src != dst,
            g0[x as int][y as int] == src,
            board_wf(grid_of(*cells), n),
            grid_of(*cells)[x as int][y as int] == dst,
            forall|i: int, j: int|
                in_grid(n, i, j) && #[trigger] grid_of(*cells)[i][j] != g0[i][j] ==> {
                    &&& g0[i][j] == src
                    &&& grid_of(*cells)[i][j] == dst
                    &&& connected(g0, n, src, x as int, y as int, i, j)
                },
            forall|k: int| 0 <= k < queue@.len() ==> {
                let q = #[trigger] queue@[k];
                &&& in_grid(n, q.0 as int, q.1 as int)
                &&& g0[q.0 as int][q.1 as int] == src
                &&& grid_of(*cells)[q.0 as int][q.1 as int] == dst
                &&& connected(g0, n, src, x as int, y as int, q.0 as int, q.1 as int)
            },
            forall|i: int, j: int|
                in_grid(n, i, j) && #[trigger] grid_of(*cells)[i][j] != g0[i][j] && !queue_has(
                    queue@,
                    i,
                    j,
                ) ==> settled(grid_of(*cells), n, src, i, j),
        decreases grid_count(grid_of(*cells), src, n) + queue@.len(),
    {
        let ghost qs0 = queue@;
        let popped = queue.pop().unwrap();
        let qx = popped.0;
        let qy = popped.1;
        proof {
            assert(popped == qs0[qs0.len() - 1]);
            assert forall|i: int, j: int| queue_has(qs0, i, j) implies queue_has(queue@, i, j) || (
            i == qx as int && j == qy as int) by {
                let k = choose|k: int|
                    0 <= k < qs0.len() && (#[trigger] qs0[k]).0 == i && qs0[k].1 == j;
                if k < qs0.len() - 1 {
                    assert(queue@[k] == qs0[k]);
                    assert(queue_has(queue@, i, j));
                }
            }
        }
        let ghost m0: nat = grid_count(grid_of(*cells), src, n) + queue@.len();
        let nbrs = get_neumann_neighbors(grid_size, qx, qy);
        let mut t: usize = 0;
        while t < nbrs.len()
            invariant
                board_wf(g0, n),
                n == grid_size as int,
                x < grid_size,
                y < grid_size,
                qx < grid_size,
                qy < grid_size,
                src != dst,
                g0[x as int][y as int] == src,
                g0[qx as int][qy as int] == src,
                connected(g0, n, src, x as int, y as int, qx as int, qy as int),
                t <= nbrs@.len(),
                forall|k: int| 0 <= k < nbrs@.len() ==> {
                    &&& in_grid(n, (#[trigger] nbrs@[k]).0 as int, nbrs@[k].1 as int)
                    &&& adjacent(qx as int, qy as int, nbrs@[k].0 as int, nbrs@[k].1 as int)
                },
                forall|a: int, b: int|
                    in_grid(n, a, b) && adjacent(qx as int, qy as int, a, b) ==> nbrs@.contains(
                        (a as usize, b as usize),
                    ),
                board_wf(grid_of(*cells), n),
                grid_of(*cells)[x as int][y as int] == dst,
                grid_count(grid_of(*cells), src, n) + queue@.len() == m0,
                forall|i: int, j: int|
                    in_grid(n, i, j) && #[trigger] grid_of(*cells)[i][j] != g0[i][j] ==> {
                        &&& g0[i][j] == src
                        &&& grid_of(*cells)[i][j] == dst
                        &&& connected(g0, n, src, x as int, y as int, i, j)
                    },
                forall|k: int| 0 <= k < queue@.len() ==> {
                    let q = #[trigger] queue@[k];
                    &&& in_grid(n, q.0 as int, q.1 as int)
                    &&& g0[q.0 as int][q.1 as int] == src
                    &&& grid_of(*cells)[q.0 as int][q.1 as int] == dst
                    &&& connected(g0, n, src, x as int, y as int, q.0 as int, q.1 as int)
                },
                forall|i: int, j: int|
                    in_grid(n, i, j) && #[trigger] grid_of(*cells)[i][j] != g0[i][j] && !queue_has(
                        queue@,
                        i,
                        j,
                    ) && !(i == qx as int && j == qy as int) ==> settled(
                        grid_of(*cells),
                        n,
                        src,
                        i,
                        j,
                    ),
                forall|k: int|
                    0 <= k < t ==> grid_of(*cells)[(#[trigger] nbrs@[k]).0 as int][nbrs@[k].1
                        as int] != src,
            decreases nbrs@.len() - t,
        {
            let nb = nbrs[t];
            let a = nb.0;
            let b = nb.1;
            let ghost gpre = grid_of(*cells);
            if cells[a][b] == src {
                proof {
                    assert(gpre[a as int][b as int] == src);
                    assert(g0[a as int][b as int] == src);
                    lemma_connected_extend(
                        g0,
                        n,
                        src,
                        x as int,
                        y as int,
                        qx as int,
                        qy as int,
                        a as int,
                        b as int,
                    );
                    assert(gpre[a as int].len() == n);
                    lemma_grid_count_update(gpre, src, n, a as int, b as int, dst);
                }
                let ghost qs1 = queue@;
                set_cell(cells, a, b, dst);
                queue.push((a, b));
                proof {
                    let gnew = grid_of(*cells);
                    assert(queue@[queue@.len() - 1] == (a, b));
                    assert(queue_has(queue@, a as int, b as int));
                    assert forall|i: int, j: int|
                        in_grid(n, i, j) && #[trigger] gnew[i][j] != g0[i][j] && !queue_has(
                            queue@,
                            i,
                            j,
                        ) && !(i == qx as int && j == qy as int) implies settled(
                        gnew,
                        n,
                        src,
                        i,
                        j,
                    ) by {
                        assert(!(i == a as int && j == b as int));
                        assert(gnew[i][j] == gpre[i][j]);
                        assert(!queue_has(qs1, i, j)) by {
                            if queue_has(qs1, i, j) {
                                let k = choose|k: int|
                                    0 <= k < qs1.len() && (#[trigger] qs1[k]).0 == i && qs1[k].1
                                        == j;
                                assert(queue@[k] == qs1[k]);
                                assert(queue_has(queue@, i, j));
                            }
                        }
                        assert(settled(gpre, n, src, i, j));
                        assert forall|a2: int, b2: int|
                            in_grid(n, a2, b2) && adjacent(i, j, a2, b2) implies #[trigger] gnew[a2][b2]
                            != src by {
                            if !(a2 == a as int && b2 == b as int) {
                                assert(gnew[a2][b2] == gpre[a2][b2]);
                            }
                        }
                    }
                }
            }
            t += 1;
        }
        proof {
            let g = grid_of(*cells);
            assert forall|i: int, j: int|
                in_grid(n, i, j) && #[trigger] g[i][j] != g0[i][j] && !queue_has(
                    queue@,
                    i,
                    j,
                ) implies settled(g, n, src, i, j) by {
                if i == qx as int && j == qy as int {
                    assert forall|a2: int, b2: int|
                        in_grid(n, a2, b2) && adjacent(i, j, a2, b2) implies #[trigger] g[a2][b2]
                        != src by {
                        assert(nbrs@.contains((a2 as usize, b2 as usize)));
                        let k = choose|k: int|
                            0 <= k < nbrs@.len() && nbrs@[k] == (a2 as usize, b2 as usize);
                        assert(g[nbrs@[k].0 as int][nbrs@[k].1 as int] != src);
                    }
                }
            }
        }
    }
    proof {
        let g = grid_of(*cells);
        assert forall|i: int, j: int| in_grid(n, i, j) implies #[trigger] g[i][j] == (
        if g0[i][j] == src && connected(g0, n, src, x as int, y as int, i, j) {
            dst
        } else {
            g0[i][j]
        }) by {
            if g0[i][j] == src && connected(g0, n, src, x as int, y as int, i, j) {
                let p = choose|p: Seq<(int, int)>|
                    is_path(g0, n, src, p) && p.first() == (x as int, y as int) && p.last() == (
                    i,
                    j,
                );
                assert forall|i2: int, j2: int|
                    in_grid(n, i2, j2) && #[trigger] g[i2][j2] != g0[i2][j2] implies settled(
                    g,
                    n,
                    src,
                    i2,
                    j2,
                ) by {
                    assert(!queue_has(queue@, i2, j2));
                }
                lemma_settled_path(g0, g, n, src, dst, x as int, y as int, p, p.len() - 1);
                assert(p.last() == (i, j));
            } else {
                if g[i][j] != g0[i][j] {
                    assert(g0[i][j] == src && connected(
                        g0,
                        n,
                        src,
                        x as int,
                        y as int,
                        i,
                        j,
                    ));
                }
            }
        }
    }
}

/// What one cell holds after toggling `(x, y)` on grid `g`: the clicked cell
/// advances one step along `EMPTY -> MISS -> HIT -> SUNK -> EMPTY`; the
/// `HIT -> SUNK` step reclassifies the whole `HIT`-connected region of the
/// clicked cell to `SUNK`, and the `SUNK -> EMPTY` step reclassifies the
/// `SUNK`-connected region back to `HIT` (the clicked cell itself becoming
/// `EMPTY`).
pub open spec fn toggle_cell_value(
    g: Seq<Seq<CellState>>,
    n: int,
    x: int,
    y: int,
    i: int,
    j: int,
) -> CellState {
    let c = g[i][j];
    match g[x][y] {
        CellState::EMPTY => if i == x && j == y {
            CellState::MISS
        } else {
            c
        },
        CellState::MISS => if i == x && j == y {
            CellState::HIT
        } else {
            c
        },
        CellState::HIT => if c == CellState::HIT && connected(g, n, CellState::HIT, x, y, i, j) {
            CellState::SUNK
        } else {
            c
        },
        CellState::SUNK => if i == x && j == y {
            CellState::EMPTY
        } else if c == CellState::SUNK && connected(g, n, CellState::SUNK, x, y, i, j) {
            CellState::HIT
        } else {
            c
        },
    }
}

/// The whole grid after toggling `(x, y)`.
pub open spec fn toggled(g: Seq<Seq<CellState>>, n: int, x: int, y: int) -> Seq<Seq<CellState>> {
    Seq::new(n as nat, |i: int| Seq::new(n as nat, |j: int| toggle_cell_value(g, n, x, y, i, j)))
}

/// `(i, j)` belongs to the `HIT` region of the seed `(x, y)`: the cells the
/// forward cascade reclassifies to `SUNK`.
pub open spec fn hit_region(g: Seq<Seq<CellState>>, n: int, x: int, y: int, i: int, j: int) -> bool {
    g[i][j] == CellState::HIT && connected(g, n, CellState::HIT, x, y, i, j)
}

/// No cell of the seed's `HIT` region has a `SUNK` neighbour: the region the
/// forward cascade sinks touches no previously sunk cell.
pub open spec fn region_isolated(g: Seq<Seq<CellState>>, n: int, x: int, y: int) -> bool {
    forall|i: int, j: int|
        in_grid(n, i, j) && #[trigger] hit_region(g, n, x, y, i, j) ==> (forall|a: int, b: int|
            in_grid(n, a, b) && adjacent(i, j, a, b) ==> #[trigger] g[a][b] != CellState::SUNK)
}

/// Every cell of a path is connected to the path's start.
proof fn lemma_path_connects(
    g: Seq<Seq<CellState>>,
    n: int,
    st: CellState,
    p: Seq<(int, int)>,
    m: int,
)
    requires
        is_path(g, n, st, p),
        0 <= m < p.len(),
    ensures
        connected(g, n, st, p.first().0, p.first().1, p[m].0, p[m].1),
{
    let q = p.take(m + 1);
    assert forall|i: int| 0 <= i < q.len() implies in_grid(n, (#[trigger] q[i]).0, q[i].1)
        && g[q[i].0][q[i].1] == st by {
        assert(q[i] == p[i]);
    }
    assert forall|i: int| 0 <= i < q.len() - 1 implies adjacent(
        (#[trigger] q[i]).0,
        q[i].1,
        q[i + 1].0,
        q[i + 1].1,
    ) by {
        assert(q[i] == p[i] && q[i + 1] == p[i + 1]);
    }
    assert(is_path(g, n, st, q));
    assert(q.first() == p.first() && q.last() == p[m]);
}

/// A `HIT` path from the seed turns into a `SUNK` path of the toggled grid:
/// the forward cascade sinks every cell along it.
proof fn lemma_hit_path_lifts(
    g: Seq<Seq<CellState>>,
    n: int,
    x: int,
    y: int,
    p: Seq<(int, int)>,
)
    requires
        board_wf(g, n),
        in_grid(n, x, y),
        g[x][y] == CellState::HIT,
        is_path(g, n, CellState::HIT, p),
        p.first() == (x, y),
    ensures
        is_path(toggled(g, n, x, y), n, CellState::SUNK, p),
{
    let g1 = toggled(g, n, x, y);
    assert forall|m: int| 0 <= m < p.len() implies in_grid(n, (#[trigger] p[m]).0, p[m].1)
        && g1[p[m].0][p[m].1] == CellState::SUNK by {
        lemma_path_connects(g, n, CellState::HIT, p, m);
        assert(hit_region(g, n, x, y, p[m].0, p[m].1));
        assert(g1[p[m].0][p[m].1] == toggle_cell_value(g, n, x, y, p[m].0, p[m].1));
    }
}

/// Conversely, on an isolated region, a `SUNK` path of the toggled grid that
/// starts at the seed never leaves the original `HIT` region: the reverse
/// cascade reclassifies nothing the forward cascade did not sink.
proof fn lemma_sunk_path_in_region(
    g: Seq<Seq<CellState>>,
    n: int,
    x: int,
    y: int,
    p: Seq<(int, int)>,
    m: int,
)
    requires
        board_wf(g, n),
        in_grid(n, x, y),
        g[x][y] == CellState::HIT,
        region_isolated(g, n, x, y),
        is_path(toggled(g, n, x, y), n, CellState::SUNK, p),
        p.first() == (x, y),
        0 <= m < p.len(),
    ensures
        hit_region(g, n, x, y, p[m].0, p[m].1),
    decreases m,
{
    let g1 = toggled(g, n, x, y);
    if m == 0 {
        lemma_connected_self(g, n, CellState::HIT, x, y);
        assert(hit_region(g, n, x, y, x, y));
    } else {
        lemma_sunk_path_in_region(g, n, x, y, p, m - 1);
        let prev = p[m - 1];
        let cur = p[m];
        assert(g1[cur.0][cur.1] == CellState::SUNK);
        assert(g1[cur.0][cur.1] == toggle_cell_value(g, n, x, y, cur.0, cur.1));
        if !hit_region(g, n, x, y, cur.0, cur.1) {
            assert(g[cur.0][cur.1] == CellState::SUNK);
            assert(adjacent(prev.0, prev.1, cur.0, cur.1));
            assert(hit_region(g, n, x, y, prev.0, prev.1));
            assert(g[cur.0][cur.1] != CellState::SUNK);
        }
    }
}

/// Sinking a `HIT` region and immediately undoing it restores the board
/// exactly, except that the clicked cell itself ends `EMPTY` (the undo step
/// of the cycle) instead of `HIT`. This holds whenever the region touches no
/// previously `SUNK` cell; a region adjacent to an old `SUNK` cell would
/// merge with it, and the undo would reclassify that cell too.
pub proof fn lemma_sink_unsink_round_trip(g: Seq<Seq<CellState>>, n: int, x: int, y: int)
    requires
        board_wf(g, n),
        in_grid(n, x, y),
        g[x][y] == CellState::HIT,
        region_isolated(g, n, x, y),
    ensures
        toggled(toggled(g, n, x, y), n, x, y)[x][y] == CellState::EMPTY,
        forall|i: int, j: int|
            in_grid(n, i, j) && !(i == x && j == y)
                ==> toggled(toggled(g, n, x, y), n, x, y)[i][j] == g[i][j],
{
    let g1 = toggled(g, n, x, y);
    let g2 = toggled(g1, n, x, y);
    lemma_connected_self(g, n, CellState::HIT, x, y);
    assert(hit_region(g, n, x, y, x, y));
    assert(g1[x][y] == toggle_cell_value(g, n, x, y, x, y));
    assert(g1[x][y] == CellState::SUNK);
    assert(g2[x][y] == toggle_cell_value(g1, n, x, y, x, y));
    assert(g2[x][y] == CellState::EMPTY);
    assert forall|i: int, j: int| in_grid(n, i, j) && !(i == x && j == y) implies g2[i][j]
        == g[i][j] by {
        assert(g1[i][j] == toggle_cell_value(g, n, x, y, i, j));
        assert(g2[i][j] == toggle_cell_value(g1, n, x, y, i, j));
        if hit_region(g, n, x, y, i, j) {
            let p = choose|p: Seq<(int, int)>|
                is_path(g, n, CellState::HIT, p) && p.first() == (x, y) && p.last() == (i, j);
            lemma_hit_path_lifts(g, n, x, y, p);
            assert(connected(g1, n, CellState::SUNK, x, y, i, j));
            assert(g1[i][j] == CellState::SUNK);
            assert(g2[i][j] == CellState::HIT);
            assert(g[i][j] == CellState::HIT);
        } else {
            assert(g1[i][j] == g[i][j]);
            if g1[i][j] == CellState::SUNK && connected(g1, n, CellState::SUNK, x, y, i, j) {
                let p = choose|p: Seq<(int, int)>|
                    is_path(g1, n, CellState::SUNK, p) && p.first() == (x, y) && p.last() == (
                    i,
                    j,
                );
                lemma_sunk_path_in_region(g, n, x, y, p, p.len() - 1);
                assert(p.last() == (i, j));
                assert(false);
            }
            assert(g2[i][j] == g1[i][j]);
        }
    }
}

/// One game session's board: a square grid of cell states, mutated only
/// through `toggle` and recreated wholesale on reconfiguration.
pub struct GridState {
    pub cells: Vec<Vec<CellState>>,
}

impl GridState {
    /// The mathematical view of the board.
    pub open spec fn grid(self) -> Seq<Seq<CellState>> {
        grid_of(self.cells)
    }

    /// The side length of the board.
    pub open spec fn size(self) -> int {
        self.cells@.len() as int
    }

    /// The board is a square grid.
    pub open spec fn wf(self) -> bool {
        board_wf(self.grid(), self.size())
    }

    /// A fresh `grid_size x grid_size` board with every cell `EMPTY`.
    pub fn new(grid_size: usize) -> (r: GridState)
        ensures
            r.wf(),
            r.size() == grid_size,
            forall|i: int, j: int|
                in_grid(grid_size as int, i, j) ==> #[trigger] r.grid()[i][j] == CellState::EMPTY,
    {
        let mut cells: Vec<Vec<CellState>> = Vec::new();
        let mut i: usize = 0;
        while i < grid_size
            invariant
                i <= grid_size,
                cells@.len() == i,
                forall|a: int|
                    0 <= a < i ==> (#[trigger] cells@[a])@.len() == grid_size,
                forall|a: int, b: int|
                    0 <= a < i && 0 <= b < grid_size ==> #[trigger] cells@[a]@[b]
                        == CellState::EMPTY,
            decreases grid_size - i,
        {
            let mut row: Vec<CellState> = Vec::new();
            let mut j: usize = 0;
            while j < grid_size
                invariant
                    j <= grid_size,
                    row@.len() == j,
                    forall|b: int| 0 <= b < j ==> #[trigger] row@[b] == CellState::EMPTY,
                decreases grid_size - j,
            {
                row.push(CellState::EMPTY);
                j += 1;
            }
            cells.push(row);
            i += 1;
        }
        let r = GridState { cells };
        proof {
            assert forall|a: int, b: int| in_grid(grid_size as int, a, b) implies #[trigger] r.grid()[a][b]
                == CellState::EMPTY by {
                assert(r.grid()[a] == r.cells@[a]@);
            }
        }
        r
    }

    /// Read one cell.
    pub fn get(&self, x: usize, y: usize) -> (c: CellState)
        requires
            self.wf(),
            x < self.size(),
            y < self.size(),
        ensures
            c == self.grid()[x as int][y as int],
    {
        self.cells[x][y]
    }

    /// Advance cell `(x, y)` one step along the cycle
    /// `EMPTY -> MISS -> HIT -> SUNK -> EMPTY`, cascading the `HIT <-> SUNK`
    /// transitions over the 4-directionally connected region as `toggled`
    /// describes.
    pub fn toggle(&mut self, x: usize, y: usize)
        requires
            old(self).wf(),
            x < old(self).size(),
            y < old(self).size(),
        ensures
            final(self).wf(),
            final(self).size() == old(self).size(),
            final(self).grid() == toggled(old(self).grid(), old(self).size(), x as int, y as int),
    {
        let ghost g0 = self.grid();
        let ghost n: int = self.size();
        let grid_size = self.cells.len();
        let c = self.cells[x][y];
        proof {
            assert(g0[x as int][y as int] == c);
        }
        match c {
            CellState::EMPTY => {
                set_cell(&mut self.cells, x, y, CellState::MISS);
            },
            CellState::MISS => {
                set_cell(&mut self.cells, x, y, CellState::HIT);
            },
            CellState::HIT => {
                cascade(&mut self.cells, grid_size, x, y, CellState::HIT, CellState::SUNK);
            },
            CellState::SUNK => {
                cascade(&mut self.cells, grid_size, x, y, CellState::SUNK, CellState::HIT);
                proof {
                    assert(grid_of(self.cells)[x as int].len() == grid_size);
                    assert(self.cells@[x as int]@.len() == grid_size);
                }
                set_cell(&mut self.cells, x, y, CellState::EMPTY);
            },
        }
        proof {
            let g1 = self.grid();
            let gt = toggled(g0, n, x as int, y as int);
            assert forall|i: int| 0 <= i < n implies g1[i] =~= gt[i] by {
                assert forall|j: int| 0 <= j < n implies g1[i][j] == toggle_cell_value(
                    g0,
                    n,
                    x as int,
                    y as int,
                    i,
                    j,
                ) by {
                    if c == CellState::SUNK {
                        if !(i == x as int && j == y as int) {
                            assert(g1[i][j] == (if g0[i][j] == CellState::SUNK && connected(
                                g0,
                                n,
                                CellState::SUNK,
                                x as int,
                                y as int,
                                i,
                                j,
                            ) {
                                CellState::HIT
                            } else {
                                g0[i][j]
                            }));
                        }
                    }
                }
            }
            assert(g1 =~= gt);
        }
    }
}

} // verus!
