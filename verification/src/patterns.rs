//! The static pattern table of the evaluator, and the mathematical model of
//! pattern matching on the grid.
//!
//! A pattern is a fixed template over {0 = empty, 1 = own stone, 2 =
//! opponent stone or wall} together with an activation offset and a cost.
//! A pattern matches for a role at an empty cell, along one of the four
//! line directions, when every window cell classifies to its template
//! position; the template's activation position is laid over the cell
//! under consideration. An own stone satisfies only a 1; an empty cell
//! only a 0; an opponent stone or the wall beyond the edge only a 2 — so a
//! template's open positions never run off the board.
//! The costs grade how close a placement at the activation cell comes to a
//! five in a row.

use vstd::prelude::*;

verus! {

/// Number of entries in the pattern table.
pub const PATTERN_COUNT: usize = 31;

/// Largest cost in the pattern table.
pub const MAX_PATTERN_COST: i64 = 4000000;

/// One pattern: activation offset, template, cost.
pub struct Pattern(pub usize, pub Vec<i32>, pub i64);

/// Whether logical cell (x, y) lies on the grid.
pub open spec fn in_range(size: int, x: int, y: int) -> bool {
    0 <= x < size && 0 <= y < size
}

/// Index of logical cell (x, y) in a flat row-major grid.
pub open spec fn gidx(size: int, x: int, y: int) -> int {
    x * size + y
}

/// In-range cells map into the flat grid.
pub proof fn lemma_gidx_bound_pub(size: int, x: int, y: int)
    requires
        in_range(size, x, y),
    ensures
        0 <= gidx(size, x, y) < size * size,
{
    assert(0 <= x * size + y < size * size) by (nonlinear_arith)
        requires
            0 <= x < size,
            0 <= y < size,
    ;
}

/// Distinct in-range cells have distinct flat indices.
pub proof fn lemma_gidx_inj_pub(size: int, x1: int, y1: int, x2: int, y2: int)
    requires
        in_range(size, x1, y1),
        in_range(size, x2, y2),
        gidx(size, x1, y1) == gidx(size, x2, y2),
    ensures
        x1 == x2 && y1 == y2,
{
    assert(x1 == x2 && y1 == y2) by (nonlinear_arith)
        requires
            0 <= x1 < size,
            0 <= y1 < size,
            0 <= x2 < size,
            0 <= y2 < size,
            x1 * size + y1 == x2 * size + y2,
    ;
}

/// The content of cell (x, y): the stored stone value inside the grid, the
/// wall value 2 outside it.
pub open spec fn cell_at(g: Seq<i32>, size: int, x: int, y: int) -> int {
    if in_range(size, x, y) {
        g[gidx(size, x, y)] as int
    } else {
        2
    }
}

/// Whether a cell of content `bv` classifies to template position `t` for
/// the role encoded `rv`. A 1 demands an own stone; a 0 demands an empty
/// cell inside the grid; a 2 demands an opponent stone or the wall.
pub open spec fn cell_fits(bv: int, rv: int, t: int) -> bool {
    if t == 1 {
        bv == rv
    } else if t == 0 {
        bv == 0
    } else if t == 2 {
        bv == 2 || (bv != 0 && bv != rv)
    } else {
        false
    }
}

/// x-step of line direction `dir` (0 horizontal, 1 vertical, 2 diagonal,
/// 3 anti-diagonal).
pub open spec fn dir_dx(dir: int) -> int {
    if dir == 0 {
        1
    } else if dir == 1 {
        0
    } else if dir == 2 {
        1
    } else {
        -1
    }
}

/// y-step of line direction `dir`.
pub open spec fn dir_dy(dir: int) -> int {
    if dir == 0 {
        0
    } else {
        1
    }
}

/// Whether the template `cells` with activation offset `act` matches for
/// role value `rv` when activated at (x, y) along step (dx, dy).
pub open spec fn pattern_matches(
    g: Seq<i32>,
    size: int,
    rv: int,
    x: int,
    y: int,
    dx: int,
    dy: int,
    act: int,
    cells: Seq<i32>,
) -> bool {
    forall|i: int|
        0 <= i < cells.len() ==> cell_fits(
            cell_at(g, size, x + (i - act) * dx, y + (i - act) * dy),
            rv,
            (#[trigger] cells[i]) as int,
        )
}

/// The canonical pattern table: (activation offset, template, cost).
///
/// The tiers, from a window read for one role at an empty activation cell:
/// completing a five (4000000); making an open four (2000000); making a four
/// blocked on one end (1000000); making an open three (300000); making a
/// three blocked on one end (50000); making an open two (1000); a lone stone
/// with open room (10).
pub open spec fn pat_at(i: int) -> (int, Seq<i32>, int) {
    if i == 0 {
        (0, seq![0i32, 1i32, 1i32, 1i32, 1i32], 4000000)
    } else if i == 1 {
        (1, seq![1i32, 0i32, 1i32, 1i32, 1i32], 4000000)
    } else if i == 2 {
        (2, seq![1i32, 1i32, 0i32, 1i32, 1i32], 4000000)
    } else if i == 3 {
        (3, seq![1i32, 1i32, 1i32, 0i32, 1i32], 4000000)
    } else if i == 4 {
        (4, seq![1i32, 1i32, 1i32, 1i32, 0i32], 4000000)
    } else if i == 5 {
        (1, seq![0i32, 0i32, 1i32, 1i32, 1i32, 0i32], 2000000)
    } else if i == 6 {
        (2, seq![0i32, 1i32, 0i32, 1i32, 1i32, 0i32], 2000000)
    } else if i == 7 {
        (3, seq![0i32, 1i32, 1i32, 0i32, 1i32, 0i32], 2000000)
    } else if i == 8 {
        (4, seq![0i32, 1i32, 1i32, 1i32, 0i32, 0i32], 2000000)
    } else if i == 9 {
        (1, seq![2i32, 0i32, 1i32, 1i32, 1i32, 0i32], 1000000)
    } else if i == 10 {
        (2, seq![2i32, 1i32, 0i32, 1i32, 1i32, 0i32], 1000000)
    } else if i == 11 {
        (3, seq![2i32, 1i32, 1i32, 0i32, 1i32, 0i32], 1000000)
    } else if i == 12 {
        (4, seq![2i32, 1i32, 1i32, 1i32, 0i32, 0i32], 1000000)
    } else if i == 13 {
        (1, seq![0i32, 0i32, 1i32, 1i32, 1i32, 2i32], 1000000)
    } else if i == 14 {
        (2, seq![0i32, 1i32, 0i32, 1i32, 1i32, 2i32], 1000000)
    } else if i == 15 {
        (3, seq![0i32, 1i32, 1i32, 0i32, 1i32, 2i32], 1000000)
    } else if i == 16 {
        (4, seq![0i32, 1i32, 1i32, 1i32, 0i32, 2i32], 1000000)
    } else if i == 17 {
        (1, seq![0i32, 0i32, 1i32, 1i32, 0i32], 300000)
    } else if i == 18 {
        (2, seq![0i32, 1i32, 0i32, 1i32, 0i32], 300000)
    } else if i == 19 {
        (3, seq![0i32, 1i32, 1i32, 0i32, 0i32], 300000)
    } else if i == 20 {
        (1, seq![2i32, 0i32, 1i32, 1i32, 0i32], 50000)
    } else if i == 21 {
        (2, seq![2i32, 1i32, 0i32, 1i32, 0i32], 50000)
    } else if i == 22 {
        (3, seq![2i32, 1i32, 1i32, 0i32, 0i32], 50000)
    } else if i == 23 {
        (1, seq![0i32, 0i32, 1i32, 1i32, 2i32], 50000)
    } else if i == 24 {
        (2, seq![0i32, 1i32, 0i32, 1i32, 2i32], 50000)
    } else if i == 25 {
        (3, seq![0i32, 1i32, 1i32, 0i32, 2i32], 50000)
    } else if i == 26 {
        (1, seq![0i32, 0i32, 1i32, 0i32, 0i32], 1000)
    } else if i == 27 {
        (2, seq![0i32, 1i32, 0i32, 0i32, 0i32], 1000)
    } else if i == 28 {
        (2, seq![0i32, 0i32, 0i32, 1i32, 0i32], 1000)
    } else if i == 29 {
        (3, seq![0i32, 0i32, 1i32, 0i32, 0i32], 1000)
    } else {
        (2, seq![0i32, 0i32, 0i32, 0i32, 0i32], 10)
    }
}

/// Whether pattern `i` of the table matches for `rv` at (x, y) along `dir`.
pub open spec fn matches_at(
    g: Seq<i32>,
    size: int,
    rv: int,
    x: int,
    y: int,
    dir: int,
    i: int,
) -> bool {
    pattern_matches(g, size, rv, x, y, dir_dx(dir), dir_dy(dir), pat_at(i).0, pat_at(i).1)
}

/// Sum of the costs of the matching patterns among the first `n` entries.
pub open spec fn dir_sum_upto(
    g: Seq<i32>,
    size: int,
    rv: int,
    x: int,
    y: int,
    dir: int,
    n: int,
) -> int
    decreases n,
{
    if n <= 0 {
        0
    } else {
        dir_sum_upto(g, size, rv, x, y, dir, n - 1) + if matches_at(g, size, rv, x, y, dir, n - 1) {
            pat_at(n - 1).2
        } else {
            0
        }
    }
}

/// Sum of the costs of all matching patterns.
pub open spec fn dir_sum(g: Seq<i32>, size: int, rv: int, x: int, y: int, dir: int) -> int {
    dir_sum_upto(g, size, rv, x, y, dir, PATTERN_COUNT as int)
}

/// Index (or -1) and cost of the first strictly most expensive matching
/// pattern among the first `n` entries.
pub open spec fn dir_best_upto(
    g: Seq<i32>,
    size: int,
    rv: int,
    x: int,
    y: int,
    dir: int,
    n: int,
) -> (int, int)
    decreases n,
{
    if n <= 0 {
        (-1, 0)
    } else {
        let prev = dir_best_upto(g, size, rv, x, y, dir, n - 1);
        if matches_at(g, size, rv, x, y, dir, n - 1) && pat_at(n - 1).2 > prev.1 {
            (n - 1, pat_at(n - 1).2)
        } else {
            prev
        }
    }
}

/// Index (or -1) and cost of the most expensive matching pattern.
pub open spec fn dir_best(g: Seq<i32>, size: int, rv: int, x: int, y: int, dir: int) -> (int, int) {
    dir_best_upto(g, size, rv, x, y, dir, PATTERN_COUNT as int)
}

/// What the table promises of each entry: a positive cost within the top
/// tier, an activation offset inside a template of at most six cells, and,
/// above the lone-stone tier, at least one own stone in the template.
pub open spec fn pat_props(i: int) -> bool {
    let (act, cells, cost) = pat_at(i);
    &&& 0 < cost <= MAX_PATTERN_COST as int
    &&& 0 <= act < cells.len() <= 6
    &&& (cost > 10 ==> exists|j: int| 0 <= j < cells.len() && cells[j] as int == 1)
}

/// Every entry of the table meets `pat_props`.
pub proof fn lemma_pat_props(i: int)
    requires
        0 <= i < PATTERN_COUNT as int,
    ensures
        pat_props(i),
{
    if i == 0 {
        assert(pat_at(0).1[1] as int == 1);
    } else if i == 1 {
        assert(pat_at(1).1[0] as int == 1);
    } else if i == 2 {
        assert(pat_at(2).1[0] as int == 1);
    } else if i == 3 {
        assert(pat_at(3).1[0] as int == 1);
    } else if i == 4 {
        assert(pat_at(4).1[0] as int == 1);
    } else if i == 5 {
        assert(pat_at(5).1[2] as int == 1);
    } else if i == 6 {
        assert(pat_at(6).1[1] as int == 1);
    } else if i == 7 {
        assert(pat_at(7).1[1] as int == 1);
    } else if i == 8 {
        assert(pat_at(8).1[1] as int == 1);
    } else if i == 9 {
        assert(pat_at(9).1[2] as int == 1);
    } else if i == 10 {
        assert(pat_at(10).1[1] as int == 1);
    } else if i == 11 {
        assert(pat_at(11).1[1] as int == 1);
    } else if i == 12 {
        assert(pat_at(12).1[1] as int == 1);
    } else if i == 13 {
        assert(pat_at(13).1[2] as int == 1);
    } else if i == 14 {
        assert(pat_at(14).1[1] as int == 1);
    } else if i == 15 {
        assert(pat_at(15).1[1] as int == 1);
    } else if i == 16 {
        assert(pat_at(16).1[1] as int == 1);
    } else if i == 17 {
        assert(pat_at(17).1[2] as int == 1);
    } else if i == 18 {
        assert(pat_at(18).1[1] as int == 1);
    } else if i == 19 {
        assert(pat_at(19).1[1] as int == 1);
    } else if i == 20 {
        assert(pat_at(20).1[2] as int == 1);
    } else if i == 21 {
        assert(pat_at(21).1[1] as int == 1);
    } else if i == 22 {
        assert(pat_at(22).1[1] as int == 1);
    } else if i == 23 {
        assert(pat_at(23).1[2] as int == 1);
    } else if i == 24 {
        assert(pat_at(24).1[1] as int == 1);
    } else if i == 25 {
        assert(pat_at(25).1[1] as int == 1);
    } else if i == 26 {
        assert(pat_at(26).1[2] as int == 1);
    } else if i == 27 {
        assert(pat_at(27).1[1] as int == 1);
    } else if i == 28 {
        assert(pat_at(28).1[3] as int == 1);
    } else if i == 29 {
        assert(pat_at(29).1[2] as int == 1);
    } else {
        assert(pat_at(30).2 == 10);
    }
}

/// The direction sums are nonnegative and bounded by the table's size times
/// its largest cost.
pub proof fn lemma_dir_sum_bound(
    g: Seq<i32>,
    size: int,
    rv: int,
    x: int,
    y: int,
    dir: int,
    n: int,
)
    requires
        0 <= n <= PATTERN_COUNT as int,
    ensures
        0 <= dir_sum_upto(g, size, rv, x, y, dir, n) <= n * (MAX_PATTERN_COST as int),
    decreases n,
{
    if n > 0 {
        lemma_dir_sum_bound(g, size, rv, x, y, dir, n - 1);
        lemma_pat_props(n - 1);
    }
}

/// The best-pattern result names a matching table entry with its cost, or
/// (-1, 0) when nothing matches.
pub proof fn lemma_dir_best_bound(
    g: Seq<i32>,
    size: int,
    rv: int,
    x: int,
    y: int,
    dir: int,
    n: int,
)
    requires
        0 <= n <= PATTERN_COUNT as int,
    ensures
        ({
            let b = dir_best_upto(g, size, rv, x, y, dir, n);
            b == (-1int, 0int) || (0 <= b.0 < n && matches_at(g, size, rv, x, y, dir, b.0)
                && pat_at(b.0).2 == b.1)
        }),
    decreases n,
{
    if n > 0 {
        lemma_dir_best_bound(g, size, rv, x, y, dir, n - 1);
    }
}

/// Sum of the four direction sums of a role at a cell: its offensive worth.
pub open spec fn base_sum(g: Seq<i32>, size: int, rv: int, x: int, y: int) -> int {
    dir_sum(g, size, rv, x, y, 0) + dir_sum(g, size, rv, x, y, 1) + dir_sum(g, size, rv, x, y, 2)
        + dir_sum(g, size, rv, x, y, 3)
}

/// Sum of the direction sums of the first `d` directions.
pub open spec fn dir_sum_prefix(g: Seq<i32>, size: int, rv: int, x: int, y: int, d: int) -> int
    decreases d,
{
    if d <= 0 {
        0
    } else {
        dir_sum_prefix(g, size, rv, x, y, d - 1) + dir_sum(g, size, rv, x, y, d - 1)
    }
}

/// All four directions summed up give exactly the offensive worth.
pub proof fn lemma_prefix_base(g: Seq<i32>, size: int, rv: int, x: int, y: int)
    ensures
        dir_sum_prefix(g, size, rv, x, y, 4) == base_sum(g, size, rv, x, y),
{
    assert(dir_sum_prefix(g, size, rv, x, y, 0) == 0);
    assert(dir_sum_prefix(g, size, rv, x, y, 1) == dir_sum(g, size, rv, x, y, 0));
    assert(dir_sum_prefix(g, size, rv, x, y, 2) == dir_sum_prefix(g, size, rv, x, y, 1) + dir_sum(
        g,
        size,
        rv,
        x,
        y,
        1,
    ));
    assert(dir_sum_prefix(g, size, rv, x, y, 3) == dir_sum_prefix(g, size, rv, x, y, 2) + dir_sum(
        g,
        size,
        rv,
        x,
        y,
        2,
    ));
    assert(dir_sum_prefix(g, size, rv, x, y, 4) == dir_sum_prefix(g, size, rv, x, y, 3) + dir_sum(
        g,
        size,
        rv,
        x,
        y,
        3,
    ));
}

/// The tiered defensive surcharge for a cell where the opponent's offensive
/// worth is `opp`.
pub open spec fn defense_of(opp: int) -> int {
    if opp >= 2000000 {
        1500000
    } else if opp >= 1000000 {
        1000000
    } else if opp >= 300000 {
        600000
    } else {
        0
    }
}

/// The aggregate score of a role at a cell: its own offensive worth plus the
/// defensive surcharge against the opponent's worth at the same cell.
pub open spec fn cell_score(g: Seq<i32>, size: int, rv: int, x: int, y: int) -> int {
    base_sum(g, size, rv, x, y) + defense_of(base_sum(g, size, -rv, x, y))
}

/// Largest aggregate score a cell can carry: four full direction sums plus
/// the top defensive surcharge.
pub const CELL_SCORE_MAX: i64 = 497500000;

/// Aggregate cell scores are nonnegative and bounded by `CELL_SCORE_MAX`.
pub proof fn lemma_cell_score_bound(g: Seq<i32>, size: int, rv: int, x: int, y: int)
    ensures
        0 <= cell_score(g, size, rv, x, y) <= CELL_SCORE_MAX as int,
        0 <= base_sum(g, size, rv, x, y) <= 4 * (PATTERN_COUNT as int) * (MAX_PATTERN_COST as int),
{
    lemma_dir_sum_bound(g, size, rv, x, y, 0, PATTERN_COUNT as int);
    lemma_dir_sum_bound(g, size, rv, x, y, 1, PATTERN_COUNT as int);
    lemma_dir_sum_bound(g, size, rv, x, y, 2, PATTERN_COUNT as int);
    lemma_dir_sum_bound(g, size, rv, x, y, 3, PATTERN_COUNT as int);
    lemma_dir_sum_bound(g, size, -rv, x, y, 0, PATTERN_COUNT as int);
    lemma_dir_sum_bound(g, size, -rv, x, y, 1, PATTERN_COUNT as int);
    lemma_dir_sum_bound(g, size, -rv, x, y, 2, PATTERN_COUNT as int);
    lemma_dir_sum_bound(g, size, -rv, x, y, 3, PATTERN_COUNT as int);
}

/// Whether `g1` and `g2` describe boards of the same size that agree on
/// every cell but (px, py).
pub open spec fn same_but(g1: Seq<i32>, g2: Seq<i32>, size: int, px: int, py: int) -> bool {
    &&& g1.len() == size * size
    &&& g2.len() == size * size
    &&& forall|a: int, b: int|
        in_range(size, a, b) && !(a == px && b == py) ==> cell_at(g1, size, a, b) == cell_at(
            g2,
            size,
            a,
            b,
        )
}

/// Whether (px, py) lies within five steps of (cx, cy) along line direction
/// `dir` (step zero included, so a cell lies on all of its own lines).
pub open spec fn on_line(px: int, py: int, cx: int, cy: int, dir: int) -> bool {
    exists|k: int|
        -5 <= k <= 5 && px == cx + #[trigger] (k * dir_dx(dir)) && py == cy + k * dir_dy(dir)
}

/// Whether (px, py) lies within five steps of (cx, cy) along any of the four
/// line directions. A placement at (px, py) can only change pattern readings
/// of cells near it in this sense.
pub open spec fn near(px: int, py: int, cx: int, cy: int) -> bool {
    exists|d: int| 0 <= d < 4 && #[trigger] on_line(px, py, cx, cy, d)
}

/// A template read whose window misses the one changed cell reads the same
/// on both grids.
pub proof fn lemma_match_local(
    g1: Seq<i32>,
    g2: Seq<i32>,
    size: int,
    rv: int,
    x: int,
    y: int,
    dir: int,
    act: int,
    cells: Seq<i32>,
    px: int,
    py: int,
)
    requires
        same_but(g1, g2, size, px, py),
        0 <= act < cells.len() <= 6,
        0 <= dir < 4,
        !on_line(px, py, x, y, dir),
    ensures
        pattern_matches(g1, size, rv, x, y, dir_dx(dir), dir_dy(dir), act, cells)
            == pattern_matches(g2, size, rv, x, y, dir_dx(dir), dir_dy(dir), act, cells),
{
    let dx = dir_dx(dir);
    let dy = dir_dy(dir);
    assert forall|i: int| 0 <= i < cells.len() implies (cell_fits(
        cell_at(g1, size, x + (i - act) * dx, y + (i - act) * dy),
        rv,
        (#[trigger] cells[i]) as int,
    ) <==> cell_fits(
        cell_at(g2, size, x + (i - act) * dx, y + (i - act) * dy),
        rv,
        cells[i] as int,
    )) by {
        let k = i - act;
        let a = x + k * dx;
        let b = y + k * dy;
        assert(-5 <= k <= 5);
        if a == px && b == py {
            assert(px == x + k * dx && py == y + k * dy);
            assert(on_line(px, py, x, y, dir));
        }
        if !in_range(size, a, b) {
            assert(cell_at(g1, size, a, b) == 2 && cell_at(g2, size, a, b) == 2);
        }
    }
}

/// Direction sums and best-pattern results at a cell whose line misses the
/// one changed cell are the same on both grids.
pub proof fn lemma_dir_local(
    g1: Seq<i32>,
    g2: Seq<i32>,
    size: int,
    rv: int,
    x: int,
    y: int,
    dir: int,
    px: int,
    py: int,
    n: int,
)
    requires
        same_but(g1, g2, size, px, py),
        0 <= dir < 4,
        !on_line(px, py, x, y, dir),
        0 <= n <= PATTERN_COUNT as int,
    ensures
        dir_sum_upto(g1, size, rv, x, y, dir, n) == dir_sum_upto(g2, size, rv, x, y, dir, n),
        dir_best_upto(g1, size, rv, x, y, dir, n) == dir_best_upto(g2, size, rv, x, y, dir, n),
    decreases n,
{
    if n > 0 {
        lemma_dir_local(g1, g2, size, rv, x, y, dir, px, py, n - 1);
        lemma_pat_props(n - 1);
        lemma_match_local(g1, g2, size, rv, x, y, dir, pat_at(n - 1).0, pat_at(n - 1).1, px, py);
    }
}

/// Aggregate scores of cells not near the one changed cell are the same on
/// both grids, for both roles.
pub proof fn lemma_cell_local(
    g1: Seq<i32>,
    g2: Seq<i32>,
    size: int,
    rv: int,
    px: int,
    py: int,
    cx: int,
    cy: int,
)
    requires
        same_but(g1, g2, size, px, py),
        !near(px, py, cx, cy),
    ensures
        cell_score(g1, size, rv, cx, cy) == cell_score(g2, size, rv, cx, cy),
{
    assert forall|d: int| 0 <= d < 4 implies !on_line(px, py, cx, cy, d) by {}
    let n = PATTERN_COUNT as int;
    lemma_dir_local(g1, g2, size, rv, cx, cy, 0, px, py, n);
    lemma_dir_local(g1, g2, size, rv, cx, cy, 1, px, py, n);
    lemma_dir_local(g1, g2, size, rv, cx, cy, 2, px, py, n);
    lemma_dir_local(g1, g2, size, rv, cx, cy, 3, px, py, n);
    lemma_dir_local(g1, g2, size, -rv, cx, cy, 0, px, py, n);
    lemma_dir_local(g1, g2, size, -rv, cx, cy, 1, px, py, n);
    lemma_dir_local(g1, g2, size, -rv, cx, cy, 2, px, py, n);
    lemma_dir_local(g1, g2, size, -rv, cx, cy, 3, px, py, n);
}

/// On a grid without stones, no direction sum exceeds the lone-stone cost:
/// every costlier template demands an own stone somewhere in its window.
pub proof fn lemma_empty_dir_sum(
    g: Seq<i32>,
    size: int,
    rv: int,
    x: int,
    y: int,
    dir: int,
    n: int,
)
    requires
        rv == 1 || rv == -1,
        forall|a: int, b: int| in_range(size, a, b) ==> cell_at(g, size, a, b) == 0,
        0 <= n <= PATTERN_COUNT as int,
    ensures
        dir_sum_upto(g, size, rv, x, y, dir, n) <= if n < PATTERN_COUNT as int {
            0int
        } else {
            10int
        },
        dir_sum_upto(g, size, rv, x, y, dir, n) >= 0,
    decreases n,
{
    if n > 0 {
        lemma_empty_dir_sum(g, size, rv, x, y, dir, n - 1);
        lemma_pat_props(n - 1);
        let (act, cells, cost) = pat_at(n - 1);
        if cost > 10 && matches_at(g, size, rv, x, y, dir, n - 1) {
            let j = choose|j: int| 0 <= j < cells.len() && cells[j] as int == 1;
            let a = x + (j - act) * dir_dx(dir);
            let b = y + (j - act) * dir_dy(dir);
            assert(cell_fits(cell_at(g, size, a, b), rv, cells[j] as int));
            assert(cell_at(g, size, a, b) == rv);
            if in_range(size, a, b) {
                assert(cell_at(g, size, a, b) == 0);
            } else {
                assert(cell_at(g, size, a, b) == 2);
            }
            assert(false);
        }
    }
}

/// On a grid without stones, every aggregate cell score stays far below the
/// weakest filter threshold.
pub proof fn lemma_empty_cell_score(g: Seq<i32>, size: int, rv: int, x: int, y: int)
    requires
        rv == 1 || rv == -1,
        forall|a: int, b: int| in_range(size, a, b) ==> cell_at(g, size, a, b) == 0,
    ensures
        0 <= cell_score(g, size, rv, x, y) <= 40,
{
    let n = PATTERN_COUNT as int;
    lemma_empty_dir_sum(g, size, rv, x, y, 0, n);
    lemma_empty_dir_sum(g, size, rv, x, y, 1, n);
    lemma_empty_dir_sum(g, size, rv, x, y, 2, n);
    lemma_empty_dir_sum(g, size, rv, x, y, 3, n);
    lemma_empty_dir_sum(g, size, -rv, x, y, 0, n);
    lemma_empty_dir_sum(g, size, -rv, x, y, 1, n);
    lemma_empty_dir_sum(g, size, -rv, x, y, 2, n);
    lemma_empty_dir_sum(g, size, -rv, x, y, 3, n);
}

/// Builds a five-cell template.
fn template5(a: i32, b: i32, c: i32, d: i32, e: i32) -> (v: Vec<i32>)
    ensures
        v@ == seq![a, b, c, d, e],
{
    let mut v: Vec<i32> = Vec::new();
    v.push(a);
    v.push(b);
    v.push(c);
    v.push(d);
    v.push(e);
    v
}

/// Builds a six-cell template.
fn template6(a: i32, b: i32, c: i32, d: i32, e: i32, f: i32) -> (v: Vec<i32>)
    ensures
        v@ == seq![a, b, c, d, e, f],
{
    let mut v: Vec<i32> = Vec::new();
    v.push(a);
    v.push(b);
    v.push(c);
    v.push(d);
    v.push(e);
    v.push(f);
    v
}

/// Whether an executable table entry carries exactly the canonical entry `i`.
pub open spec fn entry_ok(p: Pattern, i: int) -> bool {
    &&& p.0 as int == pat_at(i).0
    &&& p.1@ == pat_at(i).1
    &&& p.2 as int == pat_at(i).2
}

/// Whether an executable table carries the canonical table exactly.
pub open spec fn table_ok(s: Seq<Pattern>) -> bool {
    &&& s.len() == PATTERN_COUNT as int
    &&& forall|i: int| 0 <= i < PATTERN_COUNT as int ==> entry_ok(#[trigger] s[i], i)
}

/// Builds the executable pattern table; it carries the canonical table.
pub fn build_pattern_table() -> (r: Vec<Pattern>)
    ensures
        table_ok(r@),
{
    let mut pats: Vec<Pattern> = Vec::new();
    pats.push(Pattern(0, template5(0, 1, 1, 1, 1), 4000000));
    pats.push(Pattern(1, template5(1, 0, 1, 1, 1), 4000000));
    pats.push(Pattern(2, template5(1, 1, 0, 1, 1), 4000000));
    pats.push(Pattern(3, template5(1, 1, 1, 0, 1), 4000000));
    pats.push(Pattern(4, template5(1, 1, 1, 1, 0), 4000000));
    pats.push(Pattern(1, template6(0, 0, 1, 1, 1, 0), 2000000));
    pats.push(Pattern(2, template6(0, 1, 0, 1, 1, 0), 2000000));
    pats.push(Pattern(3, template6(0, 1, 1, 0, 1, 0), 2000000));
    pats.push(Pattern(4, template6(0, 1, 1, 1, 0, 0), 2000000));
    pats.push(Pattern(1, template6(2, 0, 1, 1, 1, 0), 1000000));
    pats.push(Pattern(2, template6(2, 1, 0, 1, 1, 0), 1000000));
    pats.push(Pattern(3, template6(2, 1, 1, 0, 1, 0), 1000000));
    pats.push(Pattern(4, template6(2, 1, 1, 1, 0, 0), 1000000));
    pats.push(Pattern(1, template6(0, 0, 1, 1, 1, 2), 1000000));
    pats.push(Pattern(2, template6(0, 1, 0, 1, 1, 2), 1000000));
    pats.push(Pattern(3, template6(0, 1, 1, 0, 1, 2), 1000000));
    pats.push(Pattern(4, template6(0, 1, 1, 1, 0, 2), 1000000));
    pats.push(Pattern(1, template5(0, 0, 1, 1, 0), 300000));
    pats.push(Pattern(2, template5(0, 1, 0, 1, 0), 300000));
    pats.push(Pattern(3, template5(0, 1, 1, 0, 0), 300000));
    pats.push(Pattern(1, template5(2, 0, 1, 1, 0), 50000));
    pats.push(Pattern(2, template5(2, 1, 0, 1, 0), 50000));
    pats.push(Pattern(3, template5(2, 1, 1, 0, 0), 50000));
    pats.push(Pattern(1, template5(0, 0, 1, 1, 2), 50000));
    pats.push(Pattern(2, template5(0, 1, 0, 1, 2), 50000));
    pats.push(Pattern(3, template5(0, 1, 1, 0, 2), 50000));
    pats.push(Pattern(1, template5(0, 0, 1, 0, 0), 1000));
    pats.push(Pattern(2, template5(0, 1, 0, 0, 0), 1000));
    pats.push(Pattern(2, template5(0, 0, 0, 1, 0), 1000));
    pats.push(Pattern(3, template5(0, 0, 1, 0, 0), 1000));
    pats.push(Pattern(2, template5(0, 0, 0, 0, 0), 10));
    proof {
        assert forall|i: int| 0 <= i < PATTERN_COUNT as int implies entry_ok(
            #[trigger] pats@[i],
            i,
        ) by {
            if i == 0 {
                assert(entry_ok(pats@[0], 0));
            } else if i == 1 {
                assert(entry_ok(pats@[1], 1));
            } else if i == 2 {
                assert(entry_ok(pats@[2], 2));
            } else if i == 3 {
                assert(entry_ok(pats@[3], 3));
            } else if i == 4 {
                assert(entry_ok(pats@[4], 4));
            } else if i == 5 {
                assert(entry_ok(pats@[5], 5));
            } else if i == 6 {
                assert(entry_ok(pats@[6], 6));
            } else if i == 7 {
                assert(entry_ok(pats@[7], 7));
            } else if i == 8 {
                assert(entry_ok(pats@[8], 8));
            } else if i == 9 {
                assert(entry_ok(pats@[9], 9));
            } else if i == 10 {
                assert(entry_ok(pats@[10], 10));
            } else if i == 11 {
                assert(entry_ok(pats@[11], 11));
            } else if i == 12 {
                assert(entry_ok(pats@[12], 12));
            } else if i == 13 {
                assert(entry_ok(pats@[13], 13));
            } else if i == 14 {
                assert(entry_ok(pats@[14], 14));
            } else if i == 15 {
                assert(entry_ok(pats@[15], 15));
            } else if i == 16 {
                assert(entry_ok(pats@[16], 16));
            } else if i == 17 {
                assert(entry_ok(pats@[17], 17));
            } else if i == 18 {
                assert(entry_ok(pats@[18], 18));
            } else if i == 19 {
                assert(entry_ok(pats@[19], 19));
            } else if i == 20 {
                assert(entry_ok(pats@[20], 20));
            } else if i == 21 {
                assert(entry_ok(pats@[21], 21));
            } else if i == 22 {
                assert(entry_ok(pats@[22], 22));
            } else if i == 23 {
                assert(entry_ok(pats@[23], 23));
            } else if i == 24 {
                assert(entry_ok(pats@[24], 24));
            } else if i == 25 {
                assert(entry_ok(pats@[25], 25));
            } else if i == 26 {
                assert(entry_ok(pats@[26], 26));
            } else if i == 27 {
                assert(entry_ok(pats@[27], 27));
            } else if i == 28 {
                assert(entry_ok(pats@[28], 28));
            } else if i == 29 {
                assert(entry_ok(pats@[29], 29));
            } else {
                assert(entry_ok(pats@[30], 30));
            }
        }
    }
    pats
}

} // verus!
