//! The constraint-propagating backtracking search.
//!
//! The search walks the cells in row-major order and places one star at a
//! time on a private copy of the branch state.  Placing a star counts it
//! on its row, column and region, invalidates its king-move neighborhood,
//! closes any of its three lines that reached the star target, and prunes
//! the branch when some line can no longer reach the target.  The
//! invariant [`state_inv`] ties every count the solver keeps to the exact
//! counting theory of [`crate::counting`], and also records that pruning
//! never rules a live branch out.  Both directions of
//! [`solve_battle_grid`]'s contract rest on it: any record the search
//! returns satisfies [`is_solution`], and an exhausted search means the
//! puzzle has no solution at all.

use crate::counting::{
    cnt, cnt_all, col_lab, lemma_cell_coords, lemma_cnt_all_bounds, lemma_cnt_all_clear,
    lemma_cnt_all_update, lemma_cnt_bounds, lemma_cnt_pos, lemma_cnt_update_all, lemma_cnt_zero,
    lemma_cnt_all_covers_extra, lemma_cnt_covers_same, lemma_cnt_covers_extra, lemma_cnt_le_sum,
    lemma_sum_cnt_all, lemma_sum_full, lemma_sum_le, reg_lab, row_lab,
};
use crate::stargrid::{SolvedState, StarGrid};
use vstd::prelude::*;

verus! {

/// Two cells touch under the king-move rule: their rows and their columns
/// each differ by at most one.  A cell touches itself.
pub open spec fn cells_adjacent(i: int, j: int, n: int) -> bool {
    -1 <= i / n - j / n <= 1 && -1 <= i % n - j % n <= 1
}

/// No two distinct stars of the placement touch, not even diagonally.
pub open spec fn no_adjacent_stars(stars: Seq<bool>, n: int) -> bool {
    forall|i: int, j: int|
        #![trigger stars[i], stars[j]]
        0 <= i < stars.len() && 0 <= j < stars.len() && i != j && stars[i] && stars[j]
            ==> !cells_adjacent(i, j, n)
}

/// A full solution of the puzzle: exactly `K * N` stars in all, exactly
/// `K` on every row, every column and every region, and no two stars
/// within king-move distance.
pub open spec fn is_solution(g: StarGrid, stars: Seq<bool>) -> bool {
    &&& stars.len() == g.area()
    &&& cnt_all(stars, g.area()) == g.k() * g.n()
    &&& forall|t: int| 0 <= t < g.n() ==> #[trigger] cnt(stars, row_lab(g.n()), t, g.area()) == g.k()
    &&& forall|t: int| 0 <= t < g.n() ==> #[trigger] cnt(stars, col_lab(g.n()), t, g.area()) == g.k()
    &&& forall|t: int|
        0 <= t < g.n() ==> #[trigger] cnt(stars, reg_lab(g.grid@), t, g.area()) == g.k()
    &&& no_adjacent_stars(stars, g.n())
}

/// Every star of `a` is a star of `s`.
pub open spec fn covers(s: Seq<bool>, a: Seq<bool>) -> bool {
    &&& s.len() == a.len()
    &&& forall|q: int| 0 <= q < a.len() && #[trigger] a[q] ==> s[q]
}

/// `s` extends the placement `a`: it keeps every star of `a` and adds
/// stars only at flat indices `m` or later.
pub open spec fn extends_from(s: Seq<bool>, a: Seq<bool>, m: int) -> bool {
    &&& covers(s, a)
    &&& forall|q: int| 0 <= q < a.len() && #[trigger] s[q] && !a[q] ==> q >= m
}

/// The placement `x` comes strictly before `y` in the fixed row-major
/// search order: at the smallest flat index where the two differ, `x`
/// holds the star.
pub open spec fn comes_before(x: Seq<bool>, y: Seq<bool>) -> bool {
    exists|q: int|
        #![trigger x[q]]
        0 <= q < x.len() && x[q] && !y[q] && (forall|p: int| 0 <= p < q ==> x[p] == y[p])
}

/// The search order pins the outcome: a placement that comes at or
/// before another in both directions is that other placement.  With the
/// contract of [`solve_battle_grid`] this makes the solver
/// deterministic: any two records it can return for one grid, each first
/// among all solutions, are the same record.
pub proof fn lemma_first_solution_unique(a: Seq<bool>, b: Seq<bool>)
    requires
        a == b || comes_before(a, b),
        b == a || comes_before(b, a),
    ensures
        a == b,
{
    if a != b {
        let q1 = choose|q: int|
            #![trigger a[q]]
            0 <= q < a.len() && a[q] && !b[q] && (forall|p: int| 0 <= p < q ==> a[p] == b[p]);
        let q2 = choose|q: int|
            #![trigger b[q]]
            0 <= q < b.len() && b[q] && !a[q] && (forall|p: int| 0 <= p < q ==> b[p] == a[p]);
        if q1 < q2 {
            assert(b[q1] == a[q1]);
        } else if q2 < q1 {
            assert(a[q2] == b[q2]);
        }
        assert(false);
    }
}

/// The engine's own running record: how many stars stand and where.
struct SolveGrid {
    star_count: u8,
    star_pos: Vec<bool>,
}

/// Mutable per-branch bookkeeping, value-copied at every recursion step:
/// per-line star counts, per-line free-cell counts, and the validity
/// bitmap.
struct SolveGridState {
    star_shape_count: Vec<u8>,
    star_row_count: Vec<u8>,
    star_col_count: Vec<u8>,
    free_shape_count: Vec<u8>,
    free_row_count: Vec<u8>,
    free_col_count: Vec<u8>,
    valid_cells: Vec<bool>,
}

/// The free counts are exact: every one equals the number of still-valid
/// cells on its line.
spec fn frees_ok(g: StarGrid, st: SolveGridState) -> bool {
    &&& st.valid_cells@.len() == g.area()
    &&& st.free_shape_count@.len() == g.n()
    &&& st.free_row_count@.len() == g.n()
    &&& st.free_col_count@.len() == g.n()
    &&& forall|t: int|
        0 <= t < g.n() ==> (#[trigger] st.free_row_count@[t]) as int == cnt(
            st.valid_cells@,
            row_lab(g.n()),
            t,
            g.area(),
        )
    &&& forall|t: int|
        0 <= t < g.n() ==> (#[trigger] st.free_col_count@[t]) as int == cnt(
            st.valid_cells@,
            col_lab(g.n()),
            t,
            g.area(),
        )
    &&& forall|t: int|
        0 <= t < g.n() ==> (#[trigger] st.free_shape_count@[t]) as int == cnt(
            st.valid_cells@,
            reg_lab(g.grid@),
            t,
            g.area(),
        )
}

/// The star counts are exact and capped by the target.
spec fn stars_ok(g: StarGrid, stars: Seq<bool>, st: SolveGridState) -> bool {
    &&& stars.len() == g.area()
    &&& st.star_shape_count@.len() == g.n()
    &&& st.star_row_count@.len() == g.n()
    &&& st.star_col_count@.len() == g.n()
    &&& forall|t: int|
        0 <= t < g.n() ==> (#[trigger] st.star_row_count@[t]) as int == cnt(
            stars,
            row_lab(g.n()),
            t,
            g.area(),
        ) && st.star_row_count@[t] <= g.target_star_count
    &&& forall|t: int|
        0 <= t < g.n() ==> (#[trigger] st.star_col_count@[t]) as int == cnt(
            stars,
            col_lab(g.n()),
            t,
            g.area(),
        ) && st.star_col_count@[t] <= g.target_star_count
    &&& forall|t: int|
        0 <= t < g.n() ==> (#[trigger] st.star_shape_count@[t]) as int == cnt(
            stars,
            reg_lab(g.grid@),
            t,
            g.area(),
        ) && st.star_shape_count@[t] <= g.target_star_count
}

/// Every star has had its king-move neighborhood invalidated, and a cell
/// that is still valid sits on three lines that are all still open.
spec fn valid_open(g: StarGrid, stars: Seq<bool>, st: SolveGridState) -> bool {
    &&& forall|i: int, j: int|
        #![trigger stars[i], st.valid_cells@[j]]
        0 <= i < g.area() && 0 <= j < g.area() && stars[i] && cells_adjacent(i, j, g.n())
            ==> !st.valid_cells@[j]
    &&& forall|i: int|
        0 <= i < g.area() && #[trigger] st.valid_cells@[i] ==> {
            &&& (st.star_row_count@[i / g.n()] as int) < g.k()
            &&& (st.star_col_count@[i % g.n()] as int) < g.k()
            &&& (st.star_shape_count@[g.grid@[i] as int] as int) < g.k()
        }
}

/// Pruning never rules a live branch out: every solution that extends the
/// branch placement keeps its further stars on still-valid cells.
spec fn sols_live(g: StarGrid, stars: Seq<bool>, valid: Seq<bool>) -> bool {
    forall|s: Seq<bool>, q: int|
        #![trigger is_solution(g, s), valid[q]]
        is_solution(g, s) && covers(s, stars) && 0 <= q < g.area() && s[q] && !stars[q]
            ==> valid[q]
}

/// Full invariant of one search branch.
spec fn state_inv(g: StarGrid, sol: SolveGrid, st: SolveGridState) -> bool {
    &&& stars_ok(g, sol.star_pos@, st)
    &&& frees_ok(g, st)
    &&& sol.star_count as int == cnt_all(sol.star_pos@, g.area())
    &&& valid_open(g, sol.star_pos@, st)
    &&& no_adjacent_stars(sol.star_pos@, g.n())
    &&& sols_live(g, sol.star_pos@, st.valid_cells@)
}

/// The two records hold the same values, field for field.
spec fn same_state(a: SolveGridState, b: SolveGridState) -> bool {
    &&& a.star_shape_count@ == b.star_shape_count@
    &&& a.star_row_count@ == b.star_row_count@
    &&& a.star_col_count@ == b.star_col_count@
    &&& a.free_shape_count@ == b.free_shape_count@
    &&& a.free_row_count@ == b.free_row_count@
    &&& a.free_col_count@ == b.free_col_count@
    &&& a.valid_cells@ == b.valid_cells@
}

/// An exact value copy of a byte vector.
fn copy_u8_vec(v: &Vec<u8>) -> (r: Vec<u8>)
    ensures
        r@ == v@,
{
    let r = v.clone();
    proof {
        assert(r@ =~= v@);
    }
    r
}

/// An exact value copy of a bitmap.
fn copy_bool_vec(v: &Vec<bool>) -> (r: Vec<bool>)
    ensures
        r@ == v@,
{
    let r = v.clone();
    proof {
        assert(r@ =~= v@);
    }
    r
}

/// An exact value copy of a branch state.
fn copy_state(st: &SolveGridState) -> (r: SolveGridState)
    ensures
        same_state(r, *st),
{
    SolveGridState {
        star_shape_count: copy_u8_vec(&st.star_shape_count),
        star_row_count: copy_u8_vec(&st.star_row_count),
        star_col_count: copy_u8_vec(&st.star_col_count),
        free_shape_count: copy_u8_vec(&st.free_shape_count),
        free_row_count: copy_u8_vec(&st.free_row_count),
        free_col_count: copy_u8_vec(&st.free_col_count),
        valid_cells: copy_bool_vec(&st.valid_cells),
    }
}

/// An all-clear placement record: no star stands yet.
fn create_main_solve(grid: &StarGrid) -> (r: SolveGrid)
    requires
        grid.wf(),
    ensures
        r.star_count == 0,
        r.star_pos@.len() == grid.area(),
        forall|i: int| 0 <= i < grid.area() ==> !(#[trigger] r.star_pos@[i]),
{
    let area = grid_area(grid);
    let mut star_pos: Vec<bool> = Vec::new();
    let mut i: usize = 0;
    while i < area
        invariant
            i <= area,
            star_pos@.len() == i,
            forall|q: int| 0 <= q < i ==> !(#[trigger] star_pos@[q]),
        decreases area - i,
    {
        star_pos.push(false);
        i = i + 1;
    }
    SolveGrid { star_count: 0, star_pos }
}

/// The cell count of the grid as a machine integer.
fn grid_area(grid: &StarGrid) -> (area: usize)
    requires
        grid.wf(),
    ensures
        area == grid.area(),
        area <= 225,
{
    proof {
        assert(grid.n() * grid.n() <= 225) by (nonlinear_arith)
            requires
                1 <= grid.n() <= 15,
        ;
    }
    grid.dim_size * grid.dim_size
}

/// The root branch state: every cell valid, every count exact for the
/// empty placement.
fn create_solve_state(grid: &StarGrid) -> (st: SolveGridState)
    requires
        grid.wf(),
    ensures
        frees_ok(*grid, st),
        st.star_shape_count@.len() == grid.n(),
        st.star_row_count@.len() == grid.n(),
        st.star_col_count@.len() == grid.n(),
        forall|t: int| 0 <= t < grid.n() ==> (#[trigger] st.star_shape_count@[t]) == 0,
        forall|t: int| 0 <= t < grid.n() ==> (#[trigger] st.star_row_count@[t]) == 0,
        forall|t: int| 0 <= t < grid.n() ==> (#[trigger] st.star_col_count@[t]) == 0,
        forall|i: int| 0 <= i < grid.area() ==> (#[trigger] st.valid_cells@[i]),
{
    let n = grid.dim_size;
    let area = grid_area(grid);

    let mut valid_cells: Vec<bool> = Vec::new();
    let mut i: usize = 0;
    while i < area
        invariant
            i <= area,
            valid_cells@.len() == i,
            forall|q: int| 0 <= q < i ==> (#[trigger] valid_cells@[q]),
        decreases area - i,
    {
        valid_cells.push(true);
        i = i + 1;
    }

    let mut star_count: Vec<u8> = Vec::new();
    let mut s: usize = 0;
    while s < n
        invariant
            s <= n,
            star_count@.len() == s,
            forall|q: int| 0 <= q < s ==> (#[trigger] star_count@[q]) == 0,
        decreases n - s,
    {
        star_count.push(0);
        s = s + 1;
    }

    let mut free_shape_count: Vec<u8> = Vec::new();
    let mut free_row_count: Vec<u8> = Vec::new();
    let mut free_col_count: Vec<u8> = Vec::new();
    let mut s: usize = 0;
    while s < n
        invariant
            s <= n,
            free_shape_count@.len() == s,
            free_row_count@.len() == s,
            free_col_count@.len() == s,
            forall|q: int| 0 <= q < s ==> (#[trigger] free_shape_count@[q]) == 0,
            forall|q: int| 0 <= q < s ==> (#[trigger] free_row_count@[q]) == 0,
            forall|q: int| 0 <= q < s ==> (#[trigger] free_col_count@[q]) == 0,
        decreases n - s,
    {
        free_shape_count.push(0);
        free_row_count.push(0);
        free_col_count.push(0);
        s = s + 1;
    }

    // One pass over the cells makes every free count exact.
    let mut i: usize = 0;
    while i < area
        invariant
            i <= area,
            area == grid.area(),
            area <= 225,
            grid.wf(),
            valid_cells@.len() == area,
            forall|q: int| 0 <= q < area ==> (#[trigger] valid_cells@[q]),
            free_shape_count@.len() == grid.n(),
            free_row_count@.len() == grid.n(),
            free_col_count@.len() == grid.n(),
            forall|t: int|
                0 <= t < grid.n() ==> (#[trigger] free_row_count@[t]) as int == cnt(
                    valid_cells@,
                    row_lab(grid.n()),
                    t,
                    i as int,
                ),
            forall|t: int|
                0 <= t < grid.n() ==> (#[trigger] free_col_count@[t]) as int == cnt(
                    valid_cells@,
                    col_lab(grid.n()),
                    t,
                    i as int,
                ),
            forall|t: int|
                0 <= t < grid.n() ==> (#[trigger] free_shape_count@[t]) as int == cnt(
                    valid_cells@,
                    reg_lab(grid.grid@),
                    t,
                    i as int,
                ),
        decreases area - i,
    {
        let row = grid.ind_to_row(i);
        let col = grid.ind_to_col(i);
        let sid = grid.grid[i] as usize;
        proof {
            lemma_cnt_bounds(valid_cells@, row_lab(grid.n()), row as int, i as int);
            lemma_cnt_bounds(valid_cells@, col_lab(grid.n()), col as int, i as int);
            lemma_cnt_bounds(valid_cells@, reg_lab(grid.grid@), sid as int, i as int);
        }
        let x = free_row_count[row];
        free_row_count[row] = x + 1;
        let x = free_col_count[col];
        free_col_count[col] = x + 1;
        let x = free_shape_count[sid];
        free_shape_count[sid] = x + 1;
        proof {
            assert forall|t: int|
                0 <= t < grid.n() implies (#[trigger] free_row_count@[t]) as int == cnt(
                valid_cells@,
                row_lab(grid.n()),
                t,
                i + 1,
            ) by {
                assert(row_lab(grid.n())(i as int) == row as int);
            }
            assert forall|t: int|
                0 <= t < grid.n() implies (#[trigger] free_col_count@[t]) as int == cnt(
                valid_cells@,
                col_lab(grid.n()),
                t,
                i + 1,
            ) by {
                assert(col_lab(grid.n())(i as int) == col as int);
            }
            assert forall|t: int|
                0 <= t < grid.n() implies (#[trigger] free_shape_count@[t]) as int == cnt(
                valid_cells@,
                reg_lab(grid.grid@),
                t,
                i + 1,
            ) by {
                assert(reg_lab(grid.grid@)(i as int) == sid as int);
            }
        }
        i = i + 1;
    }

    SolveGridState {
        star_shape_count: copy_u8_vec(&star_count),
        star_row_count: copy_u8_vec(&star_count),
        star_col_count: star_count,
        free_shape_count,
        free_row_count,
        free_col_count,
        valid_cells,
    }
}

/// Bounds of the king-move band around line `u`: the lines within one of
/// `u`, clipped to the grid.
fn row_col_iter(grid: &StarGrid, u: usize) -> (r: (usize, usize))
    requires
        grid.wf(),
        u < grid.dim_size,
    ensures
        r.0 <= u < r.1 <= grid.dim_size,
        r.0 == if u > 0 {
            (u - 1) as int
        } else {
            0int
        },
        r.1 == if u + 2 <= grid.dim_size {
            (u + 2) as int
        } else {
            grid.n()
        },
{
    let lo = if u > 0 {
        u - 1
    } else {
        u
    };
    let hi = if u + 2 < grid.dim_size {
        u + 2
    } else {
        grid.dim_size
    };
    (lo, hi)
}

/// Invalidates one still-valid cell and keeps every free count exact.
fn invalidate_cell(grid: &StarGrid, st: &mut SolveGridState, cell: usize)
    requires
        grid.wf(),
        frees_ok(*grid, *old(st)),
        cell < grid.area(),
        old(st).valid_cells@[cell as int],
    ensures
        frees_ok(*grid, *final(st)),
        final(st).valid_cells@ == old(st).valid_cells@.update(cell as int, false),
        final(st).star_shape_count@ == old(st).star_shape_count@,
        final(st).star_row_count@ == old(st).star_row_count@,
        final(st).star_col_count@ == old(st).star_col_count@,
{
    let row = grid.ind_to_row(cell);
    let col = grid.ind_to_col(cell);
    let sid = grid.grid[cell] as usize;
    proof {
        lemma_cell_coords(grid.n(), cell as int);
        lemma_cnt_pos(st.valid_cells@, row_lab(grid.n()), row as int, grid.area(), cell as int);
        lemma_cnt_pos(st.valid_cells@, col_lab(grid.n()), col as int, grid.area(), cell as int);
        lemma_cnt_pos(st.valid_cells@, reg_lab(grid.grid@), sid as int, grid.area(), cell as int);
        lemma_cnt_update_all(st.valid_cells@, row_lab(grid.n()), grid.area(), cell as int, false);
        lemma_cnt_update_all(st.valid_cells@, col_lab(grid.n()), grid.area(), cell as int, false);
        lemma_cnt_update_all(st.valid_cells@, reg_lab(grid.grid@), grid.area(), cell as int, false);
    }
    st.valid_cells[cell] = false;
    let x = st.free_row_count[row];
    st.free_row_count[row] = x - 1;
    let x = st.free_col_count[col];
    st.free_col_count[col] = x - 1;
    let x = st.free_shape_count[sid];
    st.free_shape_count[sid] = x - 1;
}

/// A line that cannot reach the star target any more rules out every
/// solution extending the branch placement.
proof fn lemma_line_infeasible(
    g: StarGrid,
    stars: Seq<bool>,
    valid: Seq<bool>,
    lab: spec_fn(int) -> int,
    t: int,
)
    requires
        stars.len() == g.area(),
        sols_live(g, stars, valid),
        cnt(stars, lab, t, g.area()) + cnt(valid, lab, t, g.area()) < g.k(),
        forall|s: Seq<bool>|
            #[trigger] is_solution(g, s) && covers(s, stars) ==> cnt(s, lab, t, g.area())
                == g.k(),
    ensures
        forall|s: Seq<bool>| #[trigger] is_solution(g, s) ==> !covers(s, stars),
{
    assert forall|s: Seq<bool>| #[trigger] is_solution(g, s) implies !covers(s, stars) by {
        if covers(s, stars) {
            assert forall|q: int|
                0 <= q < g.area() && #[trigger] s[q] implies stars[q] || valid[q] by {}
            lemma_cnt_le_sum(s, stars, valid, lab, t, g.area());
            assert(false);
        }
    }
}

/// Frame of the propagation loops that follow a placement: the free
/// counts stay exact, the star counts stay put, and validity only
/// shrinks below `valid0`.
spec fn prop_frame(
    g: StarGrid,
    st: SolveGridState,
    shape1: Seq<u8>,
    row1: Seq<u8>,
    col1: Seq<u8>,
    valid0: Seq<bool>,
) -> bool {
    &&& frees_ok(g, st)
    &&& st.star_shape_count@ == shape1
    &&& st.star_row_count@ == row1
    &&& st.star_col_count@ == col1
    &&& forall|q: int| 0 <= q < g.area() && #[trigger] st.valid_cells@[q] ==> valid0[q]
}

/// One step of the depth-first search: place a star on the still-valid
/// cell `ind` on a private copy of `state_prev`, propagate the
/// constraints, and recurse over the later cells.  Whatever comes back as
/// `Some` is a full solution that keeps every star already placed, holds
/// one at `ind`, adds the rest at later cells only, and has closed every
/// cell of the validity bitmap.  `None` means no such solution exists at
/// all, and the caller's records are exactly as they were handed in.
fn add_star(
    grid: &StarGrid,
    solver: &mut SolveGrid,
    state_prev: &mut SolveGridState,
    ind: usize,
) -> (ret: Option<SolvedState>)
    requires
        grid.wf(),
        state_inv(*grid, *old(solver), *old(state_prev)),
        ind < grid.area(),
        old(state_prev).valid_cells@[ind as int],
    ensures
        ret is None ==> {
            &&& final(solver).star_count == old(solver).star_count
            &&& final(solver).star_pos@ == old(solver).star_pos@
            &&& same_state(*final(state_prev), *old(state_prev))
            &&& forall|s: Seq<bool>|
                #[trigger] is_solution(*grid, s) ==> !extends_from(
                    s,
                    old(solver).star_pos@.update(ind as int, true),
                    ind + 1,
                )
        },
        ret matches Some(sol) ==> {
            &&& is_solution(*grid, sol.star_pos@)
            &&& sol.valid_cell@.len() == grid.area()
            &&& forall|q: int| 0 <= q < grid.area() ==> !(#[trigger] sol.valid_cell@[q])
            &&& sol.star_pos@[ind as int]
            &&& covers(sol.star_pos@, old(solver).star_pos@)
            &&& forall|q: int|
                0 <= q < grid.area() && (#[trigger] sol.star_pos@[q]) && !old(
                    solver,
                ).star_pos@[q] ==> q >= ind
            &&& final(solver).star_pos@ == sol.star_pos@
            &&& final(solver).star_count as int == grid.k() * grid.n()
            &&& same_state(*final(state_prev), *old(state_prev))
            &&& forall|s: Seq<bool>|
                #[trigger] is_solution(*grid, s) && extends_from(
                    s,
                    old(solver).star_pos@.update(ind as int, true),
                    ind + 1,
                ) ==> sol.star_pos@ == s || comes_before(sol.star_pos@, s)
        },
    decreases grid.area() - ind,
{
    let n = grid.dim_size;
    let area = grid_area(grid);
    let ghost stars0 = solver.star_pos@;
    let ghost valid0 = state_prev.valid_cells@;

    // Work on a private copy of the inbound state.
    let mut state = copy_state(&*state_prev);

    // The branch invariant rules this out; kept as a guard.
    if solver.star_pos[ind] || !state.valid_cells[ind] {
        proof {
            assert(cells_adjacent(ind as int, ind as int, grid.n()));
            assert(!stars0[ind as int]);
            assert(false);
        }
        return None;
    }

    let sid: u8 = grid.grid[ind];
    let sid_ind: usize = sid as usize;
    let row = grid.ind_to_row(ind);
    let col = grid.ind_to_col(ind);
    proof {
        lemma_cell_coords(grid.n(), ind as int);
        assert(cells_adjacent(ind as int, ind as int, grid.n()));
        assert(!stars0[ind as int]);
    }
    let ghost stars1 = stars0.update(ind as int, true);

    // Count the star on its three lines.
    let x = state.star_shape_count[sid_ind];
    state.star_shape_count[sid_ind] = x + 1;
    let x = state.star_row_count[row];
    state.star_row_count[row] = x + 1;
    let x = state.star_col_count[col];
    state.star_col_count[col] = x + 1;
    proof {
        lemma_cnt_update_all(stars0, row_lab(grid.n()), grid.area(), ind as int, true);
        lemma_cnt_update_all(stars0, col_lab(grid.n()), grid.area(), ind as int, true);
        lemma_cnt_update_all(stars0, reg_lab(grid.grid@), grid.area(), ind as int, true);
        lemma_cnt_all_update(stars0, grid.area(), ind as int, true);
        assert(stars_ok(*grid, stars1, state));
        assert forall|s: Seq<bool>, q: int|
            #![trigger is_solution(*grid, s), state.valid_cells@[q]]
            is_solution(*grid, s) && covers(s, stars1) && 0 <= q < grid.area() && s[q]
                && !stars1[q] implies state.valid_cells@[q] by {
            assert forall|p: int| 0 <= p < stars0.len() && #[trigger] stars0[p] implies s[p] by {
                assert(stars1[p]);
            }
            assert(covers(s, stars0));
            assert(!stars0[q]);
            assert(old(state_prev).valid_cells@[q]);
        }
        assert(sols_live(*grid, stars1, state.valid_cells@));
    }
    let ghost shape1 = state.star_shape_count@;
    let ghost row1 = state.star_row_count@;
    let ghost col1 = state.star_col_count@;
    proof {
        assert forall|t2: int|
            0 <= t2 < grid.n() implies (#[trigger] row1[t2]) as int == cnt(
            stars1,
            row_lab(grid.n()),
            t2,
            grid.area(),
        ) by {
            assert(state.star_row_count@[t2] == row1[t2]);
        }
        assert forall|t2: int|
            0 <= t2 < grid.n() implies (#[trigger] col1[t2]) as int == cnt(
            stars1,
            col_lab(grid.n()),
            t2,
            grid.area(),
        ) by {
            assert(state.star_col_count@[t2] == col1[t2]);
        }
        assert forall|t2: int|
            0 <= t2 < grid.n() implies (#[trigger] shape1[t2]) as int == cnt(
            stars1,
            reg_lab(grid.grid@),
            t2,
            grid.area(),
        ) by {
            assert(state.star_shape_count@[t2] == shape1[t2]);
        }
    }

    // Invalidate the king-move neighborhood of the placed star.
    let (rlo, rhi) = row_col_iter(grid, row);
    let (clo, chi) = row_col_iter(grid, col);
    let mut ri = rlo;
    while ri < rhi
        invariant
            grid.wf(),
            n == grid.dim_size,
            area == grid.area(),
            rlo <= ri <= rhi <= n,
            clo < chi <= n,
            rlo == if row > 0 { (row - 1) as int } else { 0int },
            rhi == if row + 2 <= n { (row + 2) as int } else { n as int },
            clo == if col > 0 { (col - 1) as int } else { 0int },
            chi == if col + 2 <= n { (col + 2) as int } else { n as int },
            row < n,
            col < n,
            row as int == ind as int / (n as int),
            col as int == ind as int % (n as int),
            ind < area,
            stars1 == stars0.update(ind as int, true),
            stars0.len() == area,
            !stars0[ind as int],
            prop_frame(*grid, state, shape1, row1, col1, valid0),
            sols_live(*grid, stars1, state.valid_cells@),
            forall|q: int|
                0 <= q < area && rlo <= q / (n as int) < ri && clo <= q % (n as int) < chi ==> !(
                #[trigger] state.valid_cells@[q]),
        decreases rhi - ri,
    {
        let mut ci = clo;
        while ci < chi
            invariant
                grid.wf(),
                n == grid.dim_size,
                area == grid.area(),
                rlo <= ri < rhi <= n,
                clo <= ci <= chi <= n,
                rlo == if row > 0 { (row - 1) as int } else { 0int },
                rhi == if row + 2 <= n { (row + 2) as int } else { n as int },
                clo == if col > 0 { (col - 1) as int } else { 0int },
                chi == if col + 2 <= n { (col + 2) as int } else { n as int },
                row < n,
                col < n,
                row as int == ind as int / (n as int),
                col as int == ind as int % (n as int),
                ind < area,
                stars1 == stars0.update(ind as int, true),
                stars0.len() == area,
                !stars0[ind as int],
                prop_frame(*grid, state, shape1, row1, col1, valid0),
                sols_live(*grid, stars1, state.valid_cells@),
                forall|q: int|
                    0 <= q < area && rlo <= q / (n as int) < ri && clo <= q % (n as int) < chi ==> !(
                    #[trigger] state.valid_cells@[q]),
                forall|q: int|
                    0 <= q < area && q / (n as int) == ri && clo <= q % (n as int) < ci ==> !(
                    #[trigger] state.valid_cells@[q]),
            decreases chi - ci,
        {
            let ind_rc = grid.rowcol_to_ind(ri, ci);
            let ghost before = state.valid_cells@;
            if state.valid_cells[ind_rc] {
                invalidate_cell(grid, &mut state, ind_rc);
            }
            proof {
                assert forall|q: int|
                    0 <= q < area && ((rlo <= q / (n as int) < ri && clo <= q % (n as int) < chi) || (q / (n as int)
                        == ri && clo <= q % (n as int) < ci + 1)) implies !(
                #[trigger] state.valid_cells@[q]) by {
                    lemma_cell_coords(n as int, q);
                    if q == ind_rc {
                    } else {
                        assert(state.valid_cells@[q] == before[q]);
                    }
                }
                assert forall|s: Seq<bool>, q: int|
                    #![trigger is_solution(*grid, s), state.valid_cells@[q]]
                    is_solution(*grid, s) && covers(s, stars1) && 0 <= q < grid.area() && s[q]
                        && !stars1[q] implies state.valid_cells@[q] by {
                    if q == ind_rc {
                        assert(stars1[ind as int]);
                        assert(s[ind as int]);
                        assert(cells_adjacent(ind as int, q, grid.n()));
                        assert(!cells_adjacent(ind as int, q, grid.n()));
                        assert(false);
                    } else {
                        assert(before[q]);
                        assert(state.valid_cells@[q] == before[q]);
                    }
                }
            }
            ci = ci + 1;
        }
        ri = ri + 1;
    }
    proof {
        // Every cell the new star touches is now invalid.
        assert forall|j: int|
            0 <= j < area && cells_adjacent(ind as int, j, grid.n()) implies !(
        #[trigger] state.valid_cells@[j]) by {
            lemma_cell_coords(n as int, j);
        }
    }
    let ghost valid_king = state.valid_cells@;

    // Close the region when it has reached the target.
    let x = state.star_shape_count[sid_ind];
    let ghost shape_full = (x == grid.target_star_count);
    if x == grid.target_star_count {
        proof {
            assert(shape1[sid_ind as int] as int == cnt(
                stars1,
                reg_lab(grid.grid@),
                sid_ind as int,
                area as int,
            ));
        }
        let shape_len = grid.shape_indices[sid_ind].len();
        let mut w: usize = 0;
        while w < shape_len
            invariant
                grid.wf(),
                n == grid.dim_size,
                area == grid.area(),
                sid_ind < n,
                shape_len == grid.shape_indices@[sid_ind as int]@.len(),
                w <= shape_len,
                forall|q: int|
                    0 <= q < area && #[trigger] state.valid_cells@[q] ==> valid_king[q],
                stars1.len() == area,
                cnt(stars1, reg_lab(grid.grid@), sid_ind as int, area as int) == grid.k(),
                sols_live(*grid, stars1, state.valid_cells@),
                prop_frame(*grid, state, shape1, row1, col1, valid0),
                forall|w2: int|
                    0 <= w2 < w ==> !state.valid_cells@[(#[trigger] grid.shape_indices@[sid_ind as int]@[w2]) as int],
            decreases shape_len - w,
        {
            let ii: usize = grid.shape_indices[sid_ind][w];
            let ghost before = state.valid_cells@;
            if state.valid_cells[ii] {
                invalidate_cell(grid, &mut state, ii);
            }
            proof {
                assert forall|w2: int|
                    0 <= w2 < w + 1 implies !state.valid_cells@[(#[trigger] grid.shape_indices@[sid_ind as int]@[w2]) as int] by {
                    let q = grid.shape_indices@[sid_ind as int]@[w2] as int;
                    if q == ii {
                    } else {
                        assert(state.valid_cells@[q] == before[q]);
                    }
                }
                assert forall|s: Seq<bool>, q: int|
                    #![trigger is_solution(*grid, s), state.valid_cells@[q]]
                    is_solution(*grid, s) && covers(s, stars1) && 0 <= q < grid.area() && s[q]
                        && !stars1[q] implies state.valid_cells@[q] by {
                    if q == ii {
                        assert(grid.grid@[q] as int == sid_ind as int);
                        lemma_cnt_covers_extra(
                            s,
                            stars1,
                            reg_lab(grid.grid@),
                            sid_ind as int,
                            area as int,
                            q,
                        );
                        assert(cnt(s, reg_lab(grid.grid@), sid_ind as int, area as int)
                            == grid.k());
                        assert(false);
                    } else {
                        assert(before[q]);
                        assert(state.valid_cells@[q] == before[q]);
                    }
                }
            }
            w = w + 1;
        }
        proof {
            assert forall|q: int|
                0 <= q < area && grid.grid@[q] as int == sid_ind as int implies !(
            #[trigger] state.valid_cells@[q]) by {
                assert(grid.shape_indices@[sid_ind as int]@.contains(q as usize));
                let w2 = choose|w2: int|
                    0 <= w2 < grid.shape_indices@[sid_ind as int]@.len()
                        && grid.shape_indices@[sid_ind as int]@[w2] == q as usize;
                assert(!state.valid_cells@[grid.shape_indices@[sid_ind as int]@[w2] as int]);
            }
        }
    }
    proof {
        assert(shape_full ==> forall|q: int|
            0 <= q < area && grid.grid@[q] as int == sid_ind as int ==> !(
            #[trigger] state.valid_cells@[q]));
    }

    // Close the row when it has reached the target.
    let x = state.star_row_count[row];
    let ghost row_full = (x == grid.target_star_count);
    if x == grid.target_star_count {
        proof {
            assert(row1[row as int] as int == cnt(
                stars1,
                row_lab(grid.n()),
                row as int,
                area as int,
            ));
        }
        let mut kk: usize = 0;
        while kk < n
            invariant
                grid.wf(),
                n == grid.dim_size,
                area == grid.area(),
                row < n,
                sid_ind < n,
                kk <= n,
                forall|q: int|
                    0 <= q < area && #[trigger] state.valid_cells@[q] ==> valid_king[q],
                stars1.len() == area,
                cnt(stars1, row_lab(grid.n()), row as int, area as int) == grid.k(),
                sols_live(*grid, stars1, state.valid_cells@),
                prop_frame(*grid, state, shape1, row1, col1, valid0),
                shape_full ==> forall|q: int|
                    0 <= q < area && grid.grid@[q] as int == sid_ind as int ==> !(
                    #[trigger] state.valid_cells@[q]),
                forall|q: int|
                    0 <= q < area && q / (n as int) == row && 0 <= q % (n as int) < kk ==> !(
                    #[trigger] state.valid_cells@[q]),
            decreases n - kk,
        {
            let ii = grid.rowcol_to_ind(row, kk);
            let ghost before = state.valid_cells@;
            if state.valid_cells[ii] {
                invalidate_cell(grid, &mut state, ii);
            }
            proof {
                assert forall|q: int|
                    0 <= q < area && ((q / (n as int) == row && 0 <= q % (n as int) < kk + 1) || (
                    shape_full && grid.grid@[q] as int == sid_ind as int)) implies !(
                #[trigger] state.valid_cells@[q]) by {
                    lemma_cell_coords(n as int, q);
                    if q == ii {
                    } else {
                        assert(state.valid_cells@[q] == before[q]);
                    }
                }
                assert forall|s: Seq<bool>, q: int|
                    #![trigger is_solution(*grid, s), state.valid_cells@[q]]
                    is_solution(*grid, s) && covers(s, stars1) && 0 <= q < grid.area() && s[q]
                        && !stars1[q] implies state.valid_cells@[q] by {
                    if q == ii {
                        assert(row_lab(grid.n())(q) == row as int);
                        lemma_cnt_covers_extra(
                            s,
                            stars1,
                            row_lab(grid.n()),
                            row as int,
                            area as int,
                            q,
                        );
                        assert(cnt(s, row_lab(grid.n()), row as int, area as int) == grid.k());
                        assert(false);
                    } else {
                        assert(before[q]);
                        assert(state.valid_cells@[q] == before[q]);
                    }
                }
            }
            kk = kk + 1;
        }
        proof {
            assert forall|q: int|
                0 <= q < area && q / (n as int) == row implies !(#[trigger] state.valid_cells@[q]) by {
                lemma_cell_coords(n as int, q);
            }
        }
    }
    proof {
        assert(row_full ==> forall|q: int|
            0 <= q < area && q / (n as int) == row ==> !(#[trigger] state.valid_cells@[q]));
    }

    // Close the column when it has reached the target.
    let x = state.star_col_count[col];
    let ghost col_full = (x == grid.target_star_count);
    if x == grid.target_star_count {
        proof {
            assert(col1[col as int] as int == cnt(
                stars1,
                col_lab(grid.n()),
                col as int,
                area as int,
            ));
        }
        let mut kk: usize = 0;
        while kk < n
            invariant
                grid.wf(),
                n == grid.dim_size,
                area == grid.area(),
                row < n,
                col < n,
                sid_ind < n,
                kk <= n,
                forall|q: int|
                    0 <= q < area && #[trigger] state.valid_cells@[q] ==> valid_king[q],
                stars1.len() == area,
                cnt(stars1, col_lab(grid.n()), col as int, area as int) == grid.k(),
                sols_live(*grid, stars1, state.valid_cells@),
                prop_frame(*grid, state, shape1, row1, col1, valid0),
                shape_full ==> forall|q: int|
                    0 <= q < area && grid.grid@[q] as int == sid_ind as int ==> !(
                    #[trigger] state.valid_cells@[q]),
                row_full ==> forall|q: int|
                    0 <= q < area && q / (n as int) == row ==> !(#[trigger] state.valid_cells@[q]),
                forall|q: int|
                    0 <= q < area && q % (n as int) == col && 0 <= q / (n as int) < kk ==> !(
                    #[trigger] state.valid_cells@[q]),
            decreases n - kk,
        {
            let ii = grid.rowcol_to_ind(kk, col);
            let ghost before = state.valid_cells@;
            if state.valid_cells[ii] {
                invalidate_cell(grid, &mut state, ii);
            }
            proof {
                assert forall|q: int|
                    0 <= q < area && ((q % (n as int) == col && 0 <= q / (n as int) < kk + 1) || (
                    shape_full && grid.grid@[q] as int == sid_ind as int) || (row_full && q / (n as int)
                        == row)) implies !(#[trigger] state.valid_cells@[q]) by {
                    lemma_cell_coords(n as int, q);
                    if q == ii {
                    } else {
                        assert(state.valid_cells@[q] == before[q]);
                    }
                }
                assert forall|s: Seq<bool>, q: int|
                    #![trigger is_solution(*grid, s), state.valid_cells@[q]]
                    is_solution(*grid, s) && covers(s, stars1) && 0 <= q < grid.area() && s[q]
                        && !stars1[q] implies state.valid_cells@[q] by {
                    if q == ii {
                        assert(col_lab(grid.n())(q) == col as int);
                        lemma_cnt_covers_extra(
                            s,
                            stars1,
                            col_lab(grid.n()),
                            col as int,
                            area as int,
                            q,
                        );
                        assert(cnt(s, col_lab(grid.n()), col as int, area as int) == grid.k());
                        assert(false);
                    } else {
                        assert(before[q]);
                        assert(state.valid_cells@[q] == before[q]);
                    }
                }
            }
            kk = kk + 1;
        }
        proof {
            assert forall|q: int|
                0 <= q < area && q % (n as int) == col implies !(#[trigger] state.valid_cells@[q]) by {
                lemma_cell_coords(n as int, q);
            }
        }
    }
    proof {
        assert(col_full ==> forall|q: int|
            0 <= q < area && q % (n as int) == col ==> !(#[trigger] state.valid_cells@[q]));

        // The neighborhood of the new star stays invalid: validity only
        // shrank since the king-move pass.
        assert forall|q: int| 0 <= q < area && #[trigger] state.valid_cells@[q] implies valid_king[q] by {}
    }

    // Prune the branch when some line can no longer reach the target.
    let mut t: usize = 0;
    while t < n
        invariant
            grid.wf(),
            n == grid.dim_size,
            area == grid.area(),
            t <= n,
            prop_frame(*grid, state, shape1, row1, col1, valid0),
            state.star_shape_count@.len() == n,
            state.star_row_count@.len() == n,
            state.star_col_count@.len() == n,
            stars1.len() == area,
            stars1 == stars0.update(ind as int, true),
            stars0 == old(solver).star_pos@,
            sols_live(*grid, stars1, state.valid_cells@),
            forall|t2: int|
                0 <= t2 < grid.n() ==> (#[trigger] row1[t2]) as int == cnt(
                    stars1,
                    row_lab(grid.n()),
                    t2,
                    grid.area(),
                ),
            forall|t2: int|
                0 <= t2 < grid.n() ==> (#[trigger] col1[t2]) as int == cnt(
                    stars1,
                    col_lab(grid.n()),
                    t2,
                    grid.area(),
                ),
            forall|t2: int|
                0 <= t2 < grid.n() ==> (#[trigger] shape1[t2]) as int == cnt(
                    stars1,
                    reg_lab(grid.grid@),
                    t2,
                    grid.area(),
                ),
        decreases n - t,
    {
        let fc = state.free_col_count[t] as u16;
        let sc = state.star_col_count[t] as u16;
        let fr = state.free_row_count[t] as u16;
        let sr = state.star_row_count[t] as u16;
        let fs = state.free_shape_count[t] as u16;
        let ss = state.star_shape_count[t] as u16;
        let target = grid.target_star_count as u16;
        if fc + sc < target {
            proof {
                assert(col1[t as int] as int == cnt(
                    stars1,
                    col_lab(grid.n()),
                    t as int,
                    area as int,
                ));
                lemma_line_infeasible(
                    *grid,
                    stars1,
                    state.valid_cells@,
                    col_lab(grid.n()),
                    t as int,
                );
            }
            return None;
        } else if fr + sr < target {
            proof {
                assert(row1[t as int] as int == cnt(
                    stars1,
                    row_lab(grid.n()),
                    t as int,
                    area as int,
                ));
                lemma_line_infeasible(
                    *grid,
                    stars1,
                    state.valid_cells@,
                    row_lab(grid.n()),
                    t as int,
                );
            }
            return None;
        } else if fs + ss < target {
            proof {
                assert(shape1[t as int] as int == cnt(
                    stars1,
                    reg_lab(grid.grid@),
                    t as int,
                    area as int,
                ));
                lemma_line_infeasible(
                    *grid,
                    stars1,
                    state.valid_cells@,
                    reg_lab(grid.grid@),
                    t as int,
                );
            }
            return None;
        }
        t = t + 1;
    }

    // The placement stands: record the star.
    proof {
        assert forall|i: int| 0 <= i < area implies 0 <= #[trigger] row_lab(grid.n())(i) < grid.n() by {
            lemma_cell_coords(n as int, i);
        }
        lemma_sum_cnt_all(stars0, row_lab(grid.n()), grid.n(), grid.area());
        assert forall|t2: int|
            0 <= t2 < grid.n() implies #[trigger] cnt(stars0, row_lab(grid.n()), t2, grid.area())
            <= grid.k() by {
            assert(old(state_prev).star_row_count@[t2] as int == cnt(
                stars0,
                row_lab(grid.n()),
                t2,
                grid.area(),
            ));
        }
        lemma_sum_le(stars0, row_lab(grid.n()), grid.n(), grid.area(), grid.k());
        if cnt_all(stars0, grid.area()) == grid.k() * grid.n() {
            lemma_sum_full(stars0, row_lab(grid.n()), grid.n(), grid.area(), grid.k());
            assert(cnt(stars0, row_lab(grid.n()), row as int, grid.area()) == grid.k());
            assert(false);
        }
    }
    let x = solver.star_count;
    solver.star_count = x + 1;
    solver.star_pos[ind] = true;
    proof {
        assert(solver.star_pos@ == stars1);

        // The full branch invariant holds again.
        assert forall|i: int, j: int|
            #![trigger stars1[i], state.valid_cells@[j]]
            0 <= i < area && 0 <= j < area && stars1[i] && cells_adjacent(i, j, grid.n())
                implies !state.valid_cells@[j] by {
            if i == ind as int {
                assert(!valid_king[j]);
            } else {
                assert(stars0[i]);
                assert(!valid0[j]);
            }
        }
        assert forall|i: int|
            0 <= i < area && #[trigger] state.valid_cells@[i] implies {
            &&& (state.star_row_count@[i / grid.n()] as int) < grid.k()
            &&& (state.star_col_count@[i % grid.n()] as int) < grid.k()
            &&& (state.star_shape_count@[grid.grid@[i] as int] as int) < grid.k()
        } by {
            lemma_cell_coords(n as int, i);
            assert(valid0[i]);
            if i / grid.n() == row as int {
                assert(!row_full);
            }
            if i % grid.n() == col as int {
                assert(!col_full);
            }
            if grid.grid@[i] as int == sid_ind as int {
                assert(!shape_full);
            }
        }
        assert forall|i: int, j: int|
            #![trigger stars1[i], stars1[j]]
            0 <= i < area && 0 <= j < area && i != j && stars1[i] && stars1[j] implies
            !cells_adjacent(i, j, grid.n()) by {
            if i == ind as int {
                assert(stars0[j]);
                if cells_adjacent(i, j, grid.n()) {
                    assert(cells_adjacent(j, i, grid.n()));
                    assert(!valid0[ind as int]);
                }
            } else if j == ind as int {
                assert(stars0[i]);
                if cells_adjacent(i, j, grid.n()) {
                    assert(!valid0[ind as int]);
                }
            } else {
                assert(stars0[i] && stars0[j]);
            }
        }
        assert(state_inv(*grid, *solver, state));
    }

    // A full complement of stars is a solution.
    proof {
        assert(grid.k() * grid.n() <= 255);
    }
    let full: u8 = grid.target_star_count * (n as u8);
    if solver.star_count == full {
        proof {
            assert forall|i: int| 0 <= i < area implies 0 <= #[trigger] col_lab(grid.n())(i) < grid.n() by {
                lemma_cell_coords(n as int, i);
            }
            assert forall|i: int|
                0 <= i < area implies 0 <= #[trigger] reg_lab(grid.grid@)(i) < grid.n() by {}
            assert forall|t2: int|
                0 <= t2 < grid.n() implies #[trigger] cnt(stars1, row_lab(grid.n()), t2, grid.area())
                <= grid.k() by {
                assert(state.star_row_count@[t2] as int == cnt(
                    stars1,
                    row_lab(grid.n()),
                    t2,
                    grid.area(),
                ));
            }
            assert forall|t2: int|
                0 <= t2 < grid.n() implies #[trigger] cnt(stars1, col_lab(grid.n()), t2, grid.area())
                <= grid.k() by {
                assert(state.star_col_count@[t2] as int == cnt(
                    stars1,
                    col_lab(grid.n()),
                    t2,
                    grid.area(),
                ));
            }
            assert forall|t2: int|
                0 <= t2 < grid.n() implies #[trigger] cnt(stars1, reg_lab(grid.grid@), t2, grid.area())
                <= grid.k() by {
                assert(state.star_shape_count@[t2] as int == cnt(
                    stars1,
                    reg_lab(grid.grid@),
                    t2,
                    grid.area(),
                ));
            }
            lemma_sum_cnt_all(stars1, row_lab(grid.n()), grid.n(), grid.area());
            lemma_sum_full(stars1, row_lab(grid.n()), grid.n(), grid.area(), grid.k());
            lemma_sum_cnt_all(stars1, col_lab(grid.n()), grid.n(), grid.area());
            lemma_sum_full(stars1, col_lab(grid.n()), grid.n(), grid.area(), grid.k());
            lemma_sum_cnt_all(stars1, reg_lab(grid.grid@), grid.n(), grid.area());
            lemma_sum_full(stars1, reg_lab(grid.grid@), grid.n(), grid.area(), grid.k());
            assert(is_solution(*grid, stars1));
            assert forall|q: int| 0 <= q < area implies !state.valid_cells@[q] by {
                lemma_cell_coords(n as int, q);
                if state.valid_cells@[q] {
                    assert(cnt(stars1, row_lab(grid.n()), q / (n as int), area as int)
                        == grid.k());
                    assert(state.star_row_count@[q / (n as int)] as int == cnt(
                        stars1,
                        row_lab(grid.n()),
                        q / (n as int),
                        area as int,
                    ));
                    assert((state.star_row_count@[q / (n as int)] as int) < grid.k());
                    assert(false);
                }
            }
            assert forall|p: int| 0 <= p < stars0.len() && #[trigger] stars0[p] implies stars1[p] by {}
            assert(covers(stars1, stars0));
            assert(stars1[ind as int]);
            assert forall|s: Seq<bool>|
                #[trigger] is_solution(*grid, s) && extends_from(s, stars1, ind + 1)
                    implies stars1 == s by {
                assert forall|q: int| 0 <= q < area implies s[q] == stars1[q] by {
                    if s[q] && !stars1[q] {
                        lemma_cnt_all_covers_extra(s, stars1, area as int, q);
                        assert(cnt_all(s, area as int) == grid.k() * grid.n());
                        assert(false);
                    }
                    if stars1[q] {
                        assert(s[q]);
                    }
                }
                assert(stars1 =~= s);
            }
        }
        return Some(SolvedState {
            star_pos: copy_bool_vec(&solver.star_pos),
            valid_cell: copy_bool_vec(&state.valid_cells),
        });
    }

    // Try every later cell in row-major order.
    let ghost st1 = state;
    let ghost count1 = solver.star_count;
    proof {
        assert(cnt_all(stars1, area as int) != grid.k() * grid.n());
        assert forall|s: Seq<bool>|
            #[trigger] is_solution(*grid, s) && extends_from(s, stars1, ind + 1)
                implies extends_from(s, stars1, ind as int) by {}
    }
    let mut i2: usize = ind;
    while i2 < area
        invariant
            grid.wf(),
            n == grid.dim_size,
            area == grid.area(),
            ind <= i2,
            ind < area,
            state_inv(*grid, *solver, state),
            same_state(state, st1),
            solver.star_count == count1,
            solver.star_pos@ == stars1,
            stars1 == stars0.update(ind as int, true),
            stars0 == old(solver).star_pos@,
            stars0.len() == area,
            !stars0[ind as int],
            !state.valid_cells@[ind as int],
            forall|s: Seq<bool>|
                #[trigger] is_solution(*grid, s) && extends_from(s, stars1, ind + 1)
                    ==> extends_from(s, stars1, i2 as int),
        ensures
            same_state(state, st1),
            solver.star_count == count1,
            solver.star_pos@ == stars1,
            forall|s: Seq<bool>|
                #[trigger] is_solution(*grid, s) ==> !extends_from(s, stars1, ind + 1)
                    || extends_from(s, stars1, area as int),
        decreases area - i2,
    {
        if state.valid_cells[i2] {
            let ri2 = grid.ind_to_row(i2);
            if ri2 > 0 && state.star_row_count[ri2 - 1] < grid.target_star_count {
                // Row-completion pruning: the cursor has moved past an
                // unsatisfied row, so this whole branch is already dead.
                proof {
                    let t: int = ri2 as int - 1;
                    assert forall|s: Seq<bool>|
                        #[trigger] is_solution(*grid, s) implies !extends_from(
                        s,
                        stars1,
                        ind + 1,
                    ) by {
                        if extends_from(s, stars1, ind + 1) {
                            assert(extends_from(s, stars1, i2 as int));
                            assert forall|q: int|
                                0 <= q < area && #[trigger] row_lab(grid.n())(q) == t && s[q]
                                    implies stars1[q] by {
                                if !stars1[q] {
                                    assert(q >= i2);
                                    vstd::arithmetic::div_mod::lemma_div_is_ordered(
                                        i2 as int,
                                        q,
                                        grid.n(),
                                    );
                                    assert(false);
                                }
                            }
                            assert forall|q: int|
                                0 <= q < area && #[trigger] stars1[q] implies s[q] by {}
                            lemma_cnt_covers_same(s, stars1, row_lab(grid.n()), t, area as int);
                            assert(state.star_row_count@[t] as int == cnt(
                                stars1,
                                row_lab(grid.n()),
                                t,
                                area as int,
                            ));
                            assert(cnt(s, row_lab(grid.n()), t, area as int) == grid.k());
                            assert(false);
                        }
                    }
                }
                break;
            }
            let rval = add_star(grid, solver, &mut state, i2);
            if rval.is_some() {
                proof {
                    let sol = rval->Some_0;
                    assert forall|p: int|
                        0 <= p < stars0.len() && #[trigger] stars0[p] implies sol.star_pos@[p] by {
                        assert(stars1[p]);
                    }
                    assert(covers(sol.star_pos@, stars0));
                    assert(stars1[ind as int]);
                    assert(sol.star_pos@[ind as int]);
                    assert forall|q: int|
                        0 <= q < area && (#[trigger] sol.star_pos@[q]) && !stars0[q]
                            implies q >= ind by {
                        if !stars1[q] {
                            assert(q >= i2);
                        }
                    }
                    let stars2 = stars1.update(i2 as int, true);
                    assert forall|s: Seq<bool>|
                        #[trigger] is_solution(*grid, s) && extends_from(s, stars1, ind + 1)
                            implies sol.star_pos@ == s || comes_before(sol.star_pos@, s) by {
                        assert(extends_from(s, stars1, i2 as int));
                        if s[i2 as int] {
                            assert(!stars1[i2 as int]);
                            assert forall|p: int|
                                0 <= p < stars2.len() && #[trigger] stars2[p] implies s[p] by {
                                if p != i2 as int {
                                    assert(stars1[p]);
                                }
                            }
                            assert(covers(s, stars2));
                            assert(extends_from(s, stars2, i2 + 1));
                        } else {
                            assert(sol.star_pos@[i2 as int]);
                            assert forall|p: int|
                                0 <= p < (i2 as int) implies sol.star_pos@[p] == s[p] by {
                                if sol.star_pos@[p] && !stars1[p] {
                                    assert(p >= i2);
                                }
                                if s[p] && !stars1[p] {
                                    assert(p >= i2);
                                }
                                if stars1[p] {
                                    assert(sol.star_pos@[p] && s[p]);
                                }
                            }
                            assert((i2 as int) < sol.star_pos@.len());
                            assert(sol.star_pos@[i2 as int] && !s[i2 as int]);
                            assert(comes_before(sol.star_pos@, s));
                        }
                    }
                }
                return rval;
            }
            proof {
                assert forall|s: Seq<bool>|
                    #[trigger] is_solution(*grid, s) && extends_from(s, stars1, ind + 1)
                        implies extends_from(s, stars1, i2 + 1) by {
                    assert(extends_from(s, stars1, i2 as int));
                    if s[i2 as int] && !stars1[i2 as int] {
                        let stars2 = stars1.update(i2 as int, true);
                        assert forall|p: int|
                            0 <= p < stars2.len() && #[trigger] stars2[p] implies s[p] by {
                            if p != i2 as int {
                                assert(stars1[p]);
                            }
                        }
                        assert(covers(s, stars2));
                        assert(extends_from(s, stars2, i2 + 1));
                        assert(false);
                    }
                }
            }
        } else {
            proof {
                assert forall|s: Seq<bool>|
                    #[trigger] is_solution(*grid, s) && extends_from(s, stars1, ind + 1)
                        implies extends_from(s, stars1, i2 + 1) by {
                    assert(extends_from(s, stars1, i2 as int));
                    if s[i2 as int] && !stars1[i2 as int] {
                        assert(covers(s, stars1));
                        assert(state.valid_cells@[i2 as int]);
                        assert(false);
                    }
                }
            }
        }
        i2 = i2 + 1;
    }
    proof {
        assert forall|s: Seq<bool>|
            #[trigger] is_solution(*grid, s) implies !extends_from(s, stars1, ind + 1) by {
            if extends_from(s, stars1, ind + 1) {
                assert(extends_from(s, stars1, area as int));
                assert forall|q: int| 0 <= q < area implies s[q] == stars1[q] by {
                    if s[q] && !stars1[q] {
                        assert(q >= area);
                    }
                    if stars1[q] {
                        assert(s[q]);
                    }
                }
                assert(s =~= stars1);
                assert(cnt_all(s, area as int) == grid.k() * grid.n());
                assert(false);
            }
        }
    }

    // Backtrack: remove the star.
    let x = solver.star_count;
    solver.star_count = x - 1;
    solver.star_pos[ind] = false;
    proof {
        assert(solver.star_pos@ =~= stars0);
    }

    // A failed subtree may prune its cell out of the caller's state.  The
    // star just placed was counted on this very row, so the count here is
    // never zero and the pruning below cannot fire; it is kept as the
    // final backstop of the backtracking step.
    let x = state.star_row_count[row];
    if x == 0 {
        proof {
            lemma_cnt_pos(stars1, row_lab(grid.n()), row as int, grid.area(), ind as int);
        }
        state_prev.valid_cells[ind] = false;
        let y = state_prev.free_row_count[row];
        state_prev.free_row_count[row] = y - 1;
        let y = state_prev.free_col_count[col];
        state_prev.free_col_count[col] = y - 1;
        let y = state_prev.free_shape_count[sid_ind];
        state_prev.free_shape_count[sid_ind] = y - 1;
    }
    None
}

/// Seeds the search on each cell of the first row and returns the first
/// full solution found, or `None` when every branch is exhausted.
///
/// Whatever comes back as `Some` satisfies [`is_solution`]: `K * N`
/// stars, exactly `K` on every row, every column and every region, and
/// no two of them within king-move distance; the record's validity
/// bitmap is all clear, every row being closed by then; and the record
/// comes at or before every solution in the fixed row-major order, which
/// by [`lemma_first_solution_unique`] pins it completely.  The search is
/// also complete: `None` comes back only when the puzzle has no solution
/// at all.  So the outcome is a function of the grid alone: repeated
/// runs return the same record.
pub fn solve_battle_grid(grid: &StarGrid) -> (ret: Option<SolvedState>)
    requires
        grid.wf(),
    ensures
        ret matches Some(sol) ==> {
            &&& is_solution(*grid, sol.star_pos@)
            &&& sol.valid_cell@.len() == grid.area()
            &&& forall|q: int| 0 <= q < grid.area() ==> !(#[trigger] sol.valid_cell@[q])
            &&& forall|s: Seq<bool>|
                #[trigger] is_solution(*grid, s) ==> sol.star_pos@ == s || comes_before(
                    sol.star_pos@,
                    s,
                )
        },
        ret is None ==> forall|s: Seq<bool>| !(#[trigger] is_solution(*grid, s)),
{
    let mut base = create_main_solve(grid);
    let mut base_state = create_solve_state(grid);
    proof {
        let stars = base.star_pos@;
        assert forall|t: int|
            0 <= t < grid.n() implies #[trigger] cnt(stars, row_lab(grid.n()), t, grid.area())
            == 0 by {
            lemma_cnt_all_clear(stars, row_lab(grid.n()), t, grid.area());
        }
        assert forall|t: int|
            0 <= t < grid.n() implies #[trigger] cnt(stars, col_lab(grid.n()), t, grid.area())
            == 0 by {
            lemma_cnt_all_clear(stars, col_lab(grid.n()), t, grid.area());
        }
        assert forall|t: int|
            0 <= t < grid.n() implies #[trigger] cnt(stars, reg_lab(grid.grid@), t, grid.area())
            == 0 by {
            lemma_cnt_all_clear(stars, reg_lab(grid.grid@), t, grid.area());
        }
        lemma_cnt_all_clear(stars, row_lab(grid.n()), 0, grid.area());
        assert forall|i: int|
            0 <= i < grid.area() && #[trigger] base_state.valid_cells@[i] implies {
            &&& (base_state.star_row_count@[i / grid.n()] as int) < grid.k()
            &&& (base_state.star_col_count@[i % grid.n()] as int) < grid.k()
            &&& (base_state.star_shape_count@[grid.grid@[i] as int] as int) < grid.k()
        } by {
            lemma_cell_coords(grid.n(), i);
        }
        assert(state_inv(*grid, base, base_state));
    }
    let n = grid.dim_size;
    let ghost st_init = base_state;
    let ghost stars_init = base.star_pos@;
    proof {
        assert forall|s: Seq<bool>|
            #[trigger] is_solution(*grid, s) implies extends_from(s, stars_init, 0) by {}
    }
    let mut i: usize = 0;
    while i < n
        invariant
            grid.wf(),
            n == grid.dim_size,
            state_inv(*grid, base, base_state),
            base.star_pos@ == stars_init,
            base.star_count == 0,
            same_state(base_state, st_init),
            stars_init.len() == grid.area(),
            forall|q: int| 0 <= q < grid.area() ==> !(#[trigger] stars_init[q]),
            forall|q: int| 0 <= q < grid.area() ==> (#[trigger] base_state.valid_cells@[q]),
            forall|s: Seq<bool>|
                #[trigger] is_solution(*grid, s) ==> extends_from(s, stars_init, i as int),
        decreases n - i,
    {
        proof {
            assert(i < grid.area()) by (nonlinear_arith)
                requires
                    i < grid.n(),
                    1 <= grid.n(),
            ;
        }
        let ret = add_star(grid, &mut base, &mut base_state, i);
        if ret.is_some() {
            proof {
                let sol = ret->Some_0;
                let seeded = stars_init.update(i as int, true);
                assert forall|s: Seq<bool>|
                    #[trigger] is_solution(*grid, s) implies sol.star_pos@ == s || comes_before(
                    sol.star_pos@,
                    s,
                ) by {
                    assert(extends_from(s, stars_init, i as int));
                    if s[i as int] {
                        assert forall|p: int|
                            0 <= p < seeded.len() && #[trigger] seeded[p] implies s[p] by {}
                        assert(covers(s, seeded));
                        assert(extends_from(s, seeded, i + 1));
                    } else {
                        assert(sol.star_pos@[i as int]);
                        assert forall|p: int|
                            0 <= p < (i as int) implies sol.star_pos@[p] == s[p] by {
                            if sol.star_pos@[p] {
                                assert(p >= i);
                            }
                            if s[p] {
                                assert(p >= i);
                            }
                        }
                        assert((i as int) < sol.star_pos@.len());
                        assert(sol.star_pos@[i as int] && !s[i as int]);
                        assert(comes_before(sol.star_pos@, s));
                    }
                }
            }
            return ret;
        }
        proof {
            assert forall|s: Seq<bool>|
                #[trigger] is_solution(*grid, s) implies extends_from(s, stars_init, i + 1) by {
                assert(extends_from(s, stars_init, i as int));
                if s[i as int] {
                    let seeded = stars_init.update(i as int, true);
                    assert forall|p: int|
                        0 <= p < seeded.len() && #[trigger] seeded[p] implies s[p] by {}
                    assert(covers(s, seeded));
                    assert(extends_from(s, seeded, i + 1));
                    assert(false);
                }
            }
        }
        i = i + 1;
    }
    proof {
        assert forall|s: Seq<bool>| !(#[trigger] is_solution(*grid, s)) by {
            if is_solution(*grid, s) {
                assert(extends_from(s, stars_init, n as int));
                assert forall|q: int|
                    0 <= q < grid.area() && #[trigger] row_lab(grid.n())(q) == 0 implies !(s[q]
                        && row_lab(grid.n())(q) == 0) by {
                    if s[q] {
                        lemma_cell_coords(grid.n(), q);
                        assert(q >= n);
                        assert(false);
                    }
                }
                lemma_cnt_zero(s, row_lab(grid.n()), 0, grid.area());
                assert(cnt(s, row_lab(grid.n()), 0, grid.area()) == grid.k());
                assert(false);
            }
        }
    }
    None
}

/// Checks a star placement against the full solution conditions.
///
/// Returns true exactly when the placement solves the puzzle: the grid's
/// full complement of stars, exactly `K` of them on every row, every
/// column and every region, and no two within king-move distance.
pub fn is_valid_solution(grid: &StarGrid, stars: &Vec<bool>) -> (r: bool)
    requires
        grid.wf(),
    ensures
        r == is_solution(*grid, stars@),
{
    let n = grid.dim_size;
    let area = grid_area(grid);
    if stars.len() != area {
        return false;
    }

    // Count the stars on every line and in all.
    let mut row_cnt: Vec<u8> = Vec::new();
    let mut col_cnt: Vec<u8> = Vec::new();
    let mut shape_cnt: Vec<u8> = Vec::new();
    let mut s: usize = 0;
    while s < n
        invariant
            s <= n,
            row_cnt@.len() == s,
            col_cnt@.len() == s,
            shape_cnt@.len() == s,
            forall|q: int| 0 <= q < s ==> (#[trigger] row_cnt@[q]) == 0,
            forall|q: int| 0 <= q < s ==> (#[trigger] col_cnt@[q]) == 0,
            forall|q: int| 0 <= q < s ==> (#[trigger] shape_cnt@[q]) == 0,
        decreases n - s,
    {
        row_cnt.push(0);
        col_cnt.push(0);
        shape_cnt.push(0);
        s = s + 1;
    }
    let mut total: u8 = 0;
    let mut i: usize = 0;
    while i < area
        invariant
            i <= area,
            area == grid.area(),
            area <= 225,
            grid.wf(),
            n == grid.dim_size,
            stars@.len() == area,
            row_cnt@.len() == grid.n(),
            col_cnt@.len() == grid.n(),
            shape_cnt@.len() == grid.n(),
            total as int == cnt_all(stars@, i as int),
            forall|t: int|
                0 <= t < grid.n() ==> (#[trigger] row_cnt@[t]) as int == cnt(
                    stars@,
                    row_lab(grid.n()),
                    t,
                    i as int,
                ),
            forall|t: int|
                0 <= t < grid.n() ==> (#[trigger] col_cnt@[t]) as int == cnt(
                    stars@,
                    col_lab(grid.n()),
                    t,
                    i as int,
                ),
            forall|t: int|
                0 <= t < grid.n() ==> (#[trigger] shape_cnt@[t]) as int == cnt(
                    stars@,
                    reg_lab(grid.grid@),
                    t,
                    i as int,
                ),
        decreases area - i,
    {
        let row = grid.ind_to_row(i);
        let col = grid.ind_to_col(i);
        let sid = grid.grid[i] as usize;
        proof {
            lemma_cnt_bounds(stars@, row_lab(grid.n()), row as int, i as int);
            lemma_cnt_bounds(stars@, col_lab(grid.n()), col as int, i as int);
            lemma_cnt_bounds(stars@, reg_lab(grid.grid@), sid as int, i as int);
            lemma_cnt_all_bounds(stars@, i as int);
        }
        if stars[i] {
            let x = row_cnt[row];
            row_cnt[row] = x + 1;
            let x = col_cnt[col];
            col_cnt[col] = x + 1;
            let x = shape_cnt[sid];
            shape_cnt[sid] = x + 1;
            total = total + 1;
        }
        proof {
            assert forall|t: int|
                0 <= t < grid.n() implies (#[trigger] row_cnt@[t]) as int == cnt(
                stars@,
                row_lab(grid.n()),
                t,
                i + 1,
            ) by {
                assert(row_lab(grid.n())(i as int) == row as int);
            }
            assert forall|t: int|
                0 <= t < grid.n() implies (#[trigger] col_cnt@[t]) as int == cnt(
                stars@,
                col_lab(grid.n()),
                t,
                i + 1,
            ) by {
                assert(col_lab(grid.n())(i as int) == col as int);
            }
            assert forall|t: int|
                0 <= t < grid.n() implies (#[trigger] shape_cnt@[t]) as int == cnt(
                stars@,
                reg_lab(grid.grid@),
                t,
                i + 1,
            ) by {
                assert(reg_lab(grid.grid@)(i as int) == sid as int);
            }
        }
        i = i + 1;
    }

    // The grid's full complement of stars, and the target on every line.
    proof {
        assert(grid.k() * grid.n() <= 255);
    }
    let full: u8 = grid.target_star_count * (n as u8);
    if total != full {
        return false;
    }
    let mut t: usize = 0;
    while t < n
        invariant
            t <= n,
            grid.wf(),
            n == grid.dim_size,
            area == grid.area(),
            stars@.len() == area,
            row_cnt@.len() == grid.n(),
            col_cnt@.len() == grid.n(),
            shape_cnt@.len() == grid.n(),
            forall|q: int|
                0 <= q < grid.n() ==> (#[trigger] row_cnt@[q]) as int == cnt(
                    stars@,
                    row_lab(grid.n()),
                    q,
                    grid.area(),
                ),
            forall|q: int|
                0 <= q < grid.n() ==> (#[trigger] col_cnt@[q]) as int == cnt(
                    stars@,
                    col_lab(grid.n()),
                    q,
                    grid.area(),
                ),
            forall|q: int|
                0 <= q < grid.n() ==> (#[trigger] shape_cnt@[q]) as int == cnt(
                    stars@,
                    reg_lab(grid.grid@),
                    q,
                    grid.area(),
                ),
            forall|q: int|
                0 <= q < t ==> #[trigger] cnt(stars@, row_lab(grid.n()), q, grid.area())
                    == grid.k(),
            forall|q: int|
                0 <= q < t ==> #[trigger] cnt(stars@, col_lab(grid.n()), q, grid.area())
                    == grid.k(),
            forall|q: int|
                0 <= q < t ==> #[trigger] cnt(stars@, reg_lab(grid.grid@), q, grid.area())
                    == grid.k(),
        decreases n - t,
    {
        let target = grid.target_star_count;
        if row_cnt[t] != target {
            proof {
                assert(cnt(stars@, row_lab(grid.n()), t as int, grid.area()) != grid.k());
            }
            return false;
        }
        if col_cnt[t] != target {
            proof {
                assert(cnt(stars@, col_lab(grid.n()), t as int, grid.area()) != grid.k());
            }
            return false;
        }
        if shape_cnt[t] != target {
            proof {
                assert(cnt(stars@, reg_lab(grid.grid@), t as int, grid.area()) != grid.k());
            }
            return false;
        }
        t = t + 1;
    }

    // No two stars within king-move distance.
    let mut i: usize = 0;
    while i < area
        invariant
            i <= area,
            area == grid.area(),
            grid.wf(),
            n == grid.dim_size,
            stars@.len() == area,
            forall|a: int, b: int|
                #![trigger stars@[a], stars@[b]]
                0 <= a < i && 0 <= b < area && a != b && stars@[a] && stars@[b]
                    ==> !cells_adjacent(a, b, grid.n()),
        decreases area - i,
    {
        if stars[i] {
            let ri = grid.ind_to_row(i);
            let ci = grid.ind_to_col(i);
            let mut j: usize = 0;
            while j < area
                invariant
                    j <= area,
                    i < area,
                    area == grid.area(),
                    grid.wf(),
                    n == grid.dim_size,
                    stars@.len() == area,
                    stars@[i as int],
                    ri == i as int / grid.n(),
                    ci == i as int % grid.n(),
                    forall|b: int|
                        0 <= b < j && b != i && #[trigger] stars@[b] ==> !cells_adjacent(
                            i as int,
                            b,
                            grid.n(),
                        ),
                decreases area - j,
            {
                if j != i && stars[j] {
                    let rj = grid.ind_to_row(j);
                    let cj = grid.ind_to_col(j);
                    if ri + 1 >= rj && rj + 1 >= ri && ci + 1 >= cj && cj + 1 >= ci {
                        proof {
                            assert(cells_adjacent(i as int, j as int, grid.n()));
                            assert(!no_adjacent_stars(stars@, grid.n()));
                        }
                        return false;
                    }
                }
                j = j + 1;
            }
        }
        proof {
            assert forall|a: int, b: int|
                #![trigger stars@[a], stars@[b]]
                0 <= a < i + 1 && 0 <= b < area && a != b && stars@[a] && stars@[b] implies
                !cells_adjacent(a, b, grid.n()) by {}
        }
        i = i + 1;
    }
    proof {
        assert(no_adjacent_stars(stars@, grid.n()));
        assert(is_solution(*grid, stars@));
    }
    true
}

/// A region with no cells can never reach the star target, so a puzzle
/// that leaves some region empty has no solution at all.
pub proof fn lemma_empty_region_unsolvable(g: StarGrid, s: int, stars: Seq<bool>)
    requires
        g.wf(),
        0 <= s < g.n(),
        g.shape_indices@[s]@.len() == 0,
    ensures
        !is_solution(g, stars),
{
    assert forall|i: int| 0 <= i < g.area() implies !(#[trigger] reg_lab(g.grid@)(i) == s
        && stars[i]) by {
        if g.grid@[i] as int == s {
            assert(g.shape_indices@[g.grid@[i] as int]@.contains(i as usize));
            assert(false);
        }
    }
    lemma_cnt_zero(stars, reg_lab(g.grid@), s, g.area());
    if is_solution(g, stars) {
        assert(cnt(stars, reg_lab(g.grid@), s, g.area()) == g.k());
    }
}

} // verus!
