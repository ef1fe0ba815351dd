//! Counting theory for star placements.
//!
//! A placement or a validity bitmap is a `Seq<bool>` over the flat cell
//! indices of an `n` x `n` grid.  Every cell carries three labels: its row,
//! its column and its region.  The spec function [`cnt`] counts the set
//! cells of one label, [`cnt_all`] counts all set cells, and [`sum_cnt`]
//! sums [`cnt`] over a range of labels.  The lemmas here relate the three:
//! a pointwise update moves each count by at most one, the label counts
//! partition the total, and when the total reaches its cap every label
//! must sit exactly at the cap.

use vstd::prelude::*;

verus! {

/// Row label of a flat cell index on a grid of side `n`.
pub open spec fn row_lab(n: int) -> spec_fn(int) -> int {
    |i: int| i / n
}

/// Column label of a flat cell index on a grid of side `n`.
pub open spec fn col_lab(n: int) -> spec_fn(int) -> int {
    |i: int| i % n
}

/// Region label of a flat cell index, read off the region map `g`.
pub open spec fn reg_lab(g: Seq<u8>) -> spec_fn(int) -> int {
    |i: int| g[i] as int
}

/// Number of indices `i < k` with `v[i]` set whose label is `t`.
pub open spec fn cnt(v: Seq<bool>, lab: spec_fn(int) -> int, t: int, k: int) -> int
    decreases k,
{
    if k <= 0 {
        0
    } else {
        cnt(v, lab, t, k - 1) + if lab(k - 1) == t && v[k - 1] {
            1int
        } else {
            0int
        }
    }
}

/// Number of indices `i < k` with `v[i]` set.
pub open spec fn cnt_all(v: Seq<bool>, k: int) -> int
    decreases k,
{
    if k <= 0 {
        0
    } else {
        cnt_all(v, k - 1) + if v[k - 1] {
            1int
        } else {
            0int
        }
    }
}

/// Sum of `cnt` over the labels `0 .. m`.
pub open spec fn sum_cnt(v: Seq<bool>, lab: spec_fn(int) -> int, m: int, k: int) -> int
    decreases m,
{
    if m <= 0 {
        0
    } else {
        sum_cnt(v, lab, m - 1, k) + cnt(v, lab, m - 1, k)
    }
}

pub proof fn lemma_cnt_bounds(v: Seq<bool>, lab: spec_fn(int) -> int, t: int, k: int)
    ensures
        0 <= cnt(v, lab, t, k),
        k >= 0 ==> cnt(v, lab, t, k) <= k,
    decreases k,
{
    if k > 0 {
        lemma_cnt_bounds(v, lab, t, k - 1);
    }
}

pub proof fn lemma_cnt_all_bounds(v: Seq<bool>, k: int)
    ensures
        0 <= cnt_all(v, k),
        k >= 0 ==> cnt_all(v, k) <= k,
    decreases k,
{
    if k > 0 {
        lemma_cnt_all_bounds(v, k - 1);
    }
}

/// A count is at least one as soon as one set cell with the label is in range.
pub proof fn lemma_cnt_pos(v: Seq<bool>, lab: spec_fn(int) -> int, t: int, k: int, j: int)
    requires
        0 <= j < k,
        v[j],
        lab(j) == t,
    ensures
        cnt(v, lab, t, k) >= 1,
    decreases k,
{
    if j == k - 1 {
        lemma_cnt_bounds(v, lab, t, k - 1);
    } else {
        lemma_cnt_pos(v, lab, t, k - 1, j);
    }
}

/// A label nowhere set in range counts zero.
pub proof fn lemma_cnt_zero(v: Seq<bool>, lab: spec_fn(int) -> int, t: int, k: int)
    requires
        forall|i: int| 0 <= i < k ==> !(#[trigger] lab(i) == t && v[i]),
    ensures
        cnt(v, lab, t, k) == 0,
    decreases k,
{
    if k > 0 {
        lemma_cnt_zero(v, lab, t, k - 1);
    }
}

/// On an all-clear bitmap every count is zero.
pub proof fn lemma_cnt_all_clear(v: Seq<bool>, lab: spec_fn(int) -> int, t: int, k: int)
    requires
        forall|i: int| 0 <= i < k ==> !(#[trigger] v[i]),
    ensures
        cnt(v, lab, t, k) == 0,
        cnt_all(v, k) == 0,
    decreases k,
{
    if k > 0 {
        lemma_cnt_all_clear(v, lab, t, k - 1);
    }
}

/// Effect of one pointwise update on a labelled count.
pub proof fn lemma_cnt_update(
    v: Seq<bool>,
    lab: spec_fn(int) -> int,
    t: int,
    k: int,
    j: int,
    b: bool,
)
    requires
        0 <= j < v.len(),
        k <= v.len(),
    ensures
        cnt(v.update(j, b), lab, t, k) == cnt(v, lab, t, k) + if j < k && lab(j) == t {
            (if b {
                1int
            } else {
                0int
            }) - (if v[j] {
                1int
            } else {
                0int
            })
        } else {
            0int
        },
    decreases k,
{
    if k > 0 {
        lemma_cnt_update(v, lab, t, k - 1, j, b);
    }
}

/// [`lemma_cnt_update`] for every label at once.
pub proof fn lemma_cnt_update_all(v: Seq<bool>, lab: spec_fn(int) -> int, k: int, j: int, b: bool)
    requires
        0 <= j < v.len(),
        k <= v.len(),
    ensures
        forall|t: int|
            #[trigger] cnt(v.update(j, b), lab, t, k) == cnt(v, lab, t, k) + if j < k && lab(j)
                == t {
                (if b {
                    1int
                } else {
                    0int
                }) - (if v[j] {
                    1int
                } else {
                    0int
                })
            } else {
                0int
            },
{
    assert forall|t: int|
        #[trigger] cnt(v.update(j, b), lab, t, k) == cnt(v, lab, t, k) + if j < k && lab(j) == t {
            (if b {
                1int
            } else {
                0int
            }) - (if v[j] {
                1int
            } else {
                0int
            })
        } else {
            0int
        } by {
        lemma_cnt_update(v, lab, t, k, j, b);
    }
}

/// Effect of one pointwise update on the total count.
pub proof fn lemma_cnt_all_update(v: Seq<bool>, k: int, j: int, b: bool)
    requires
        0 <= j < v.len(),
        k <= v.len(),
    ensures
        cnt_all(v.update(j, b), k) == cnt_all(v, k) + if j < k {
            (if b {
                1int
            } else {
                0int
            }) - (if v[j] {
                1int
            } else {
                0int
            })
        } else {
            0int
        },
    decreases k,
{
    if k > 0 {
        lemma_cnt_all_update(v, k - 1, j, b);
    }
}

proof fn lemma_sum_cnt_empty(v: Seq<bool>, lab: spec_fn(int) -> int, m: int, k: int)
    requires
        k <= 0,
    ensures
        sum_cnt(v, lab, m, k) == 0,
    decreases m,
{
    if m > 0 {
        lemma_sum_cnt_empty(v, lab, m - 1, k);
    }
}

proof fn lemma_sum_cnt_step(v: Seq<bool>, lab: spec_fn(int) -> int, m: int, k: int)
    requires
        k >= 1,
    ensures
        sum_cnt(v, lab, m, k) == sum_cnt(v, lab, m, k - 1) + if 0 <= lab(k - 1) < m && v[k - 1] {
            1int
        } else {
            0int
        },
    decreases m,
{
    if m > 0 {
        lemma_sum_cnt_step(v, lab, m - 1, k);
    }
}

/// When every label in range lies in `0 .. m`, the label counts partition
/// the total count.
pub proof fn lemma_sum_cnt_all(v: Seq<bool>, lab: spec_fn(int) -> int, m: int, k: int)
    requires
        forall|i: int| 0 <= i < k ==> 0 <= #[trigger] lab(i) < m,
    ensures
        sum_cnt(v, lab, m, k) == cnt_all(v, k),
    decreases k,
{
    if k <= 0 {
        lemma_sum_cnt_empty(v, lab, m, k);
    } else {
        lemma_sum_cnt_all(v, lab, m, k - 1);
        lemma_sum_cnt_step(v, lab, m, k);
    }
}

/// A sum of `m` counts, each at most `cap`, is at most `cap * m`.
pub proof fn lemma_sum_le(v: Seq<bool>, lab: spec_fn(int) -> int, m: int, k: int, cap: int)
    requires
        m >= 0,
        forall|t: int| 0 <= t < m ==> #[trigger] cnt(v, lab, t, k) <= cap,
    ensures
        sum_cnt(v, lab, m, k) <= cap * m,
    decreases m,
{
    if m > 0 {
        lemma_sum_le(v, lab, m - 1, k, cap);
        assert(cap * m == cap * (m - 1) + cap) by (nonlinear_arith);
    } else {
        assert(cap * 0 == 0) by (nonlinear_arith);
    }
}

/// When `m` counts, each capped at `cap`, sum to exactly `cap * m`, every
/// one of them sits at the cap.
pub proof fn lemma_sum_full(v: Seq<bool>, lab: spec_fn(int) -> int, m: int, k: int, cap: int)
    requires
        m >= 0,
        forall|t: int| 0 <= t < m ==> #[trigger] cnt(v, lab, t, k) <= cap,
        sum_cnt(v, lab, m, k) == cap * m,
    ensures
        forall|t: int| 0 <= t < m ==> #[trigger] cnt(v, lab, t, k) == cap,
    decreases m,
{
    if m > 0 {
        lemma_sum_le(v, lab, m - 1, k, cap);
        assert(cap * m == cap * (m - 1) + cap) by (nonlinear_arith);
        assert(cnt(v, lab, m - 1, k) == cap);
        lemma_sum_full(v, lab, m - 1, k, cap);
        assert forall|t: int| 0 <= t < m implies #[trigger] cnt(v, lab, t, k) == cap by {
            if t < m - 1 {
                assert(cnt(v, lab, t, k) == cap);
            }
        }
    }
}

/// A bitmap dominated by the union of two others counts no more than the
/// two of them together.
pub proof fn lemma_cnt_le_sum(
    s: Seq<bool>,
    a: Seq<bool>,
    b: Seq<bool>,
    lab: spec_fn(int) -> int,
    t: int,
    k: int,
)
    requires
        forall|q: int| 0 <= q < k && #[trigger] s[q] ==> a[q] || b[q],
    ensures
        cnt(s, lab, t, k) <= cnt(a, lab, t, k) + cnt(b, lab, t, k),
    decreases k,
{
    if k > 0 {
        lemma_cnt_le_sum(s, a, b, lab, t, k - 1);
    }
}

/// A bitmap covering another counts at least as much on every label.
pub proof fn lemma_cnt_covers_mono(
    s: Seq<bool>,
    a: Seq<bool>,
    lab: spec_fn(int) -> int,
    t: int,
    k: int,
)
    requires
        forall|q: int| 0 <= q < k && #[trigger] a[q] ==> s[q],
    ensures
        cnt(a, lab, t, k) <= cnt(s, lab, t, k),
    decreases k,
{
    if k > 0 {
        lemma_cnt_covers_mono(s, a, lab, t, k - 1);
    }
}

/// A covering bitmap with an extra set cell on a label counts strictly
/// more there.
pub proof fn lemma_cnt_covers_extra(
    s: Seq<bool>,
    a: Seq<bool>,
    lab: spec_fn(int) -> int,
    t: int,
    k: int,
    j: int,
)
    requires
        forall|q: int| 0 <= q < k && #[trigger] a[q] ==> s[q],
        0 <= j < k,
        s[j],
        !a[j],
        lab(j) == t,
    ensures
        cnt(a, lab, t, k) + 1 <= cnt(s, lab, t, k),
    decreases k,
{
    if j == k - 1 {
        lemma_cnt_covers_mono(s, a, lab, t, k - 1);
    } else {
        lemma_cnt_covers_extra(s, a, lab, t, k - 1, j);
    }
}

/// A covering bitmap with no extra set cell on a label counts the same
/// there.
pub proof fn lemma_cnt_covers_same(
    s: Seq<bool>,
    a: Seq<bool>,
    lab: spec_fn(int) -> int,
    t: int,
    k: int,
)
    requires
        forall|q: int| 0 <= q < k && #[trigger] a[q] ==> s[q],
        forall|q: int| 0 <= q < k && #[trigger] lab(q) == t && s[q] ==> a[q],
    ensures
        cnt(a, lab, t, k) == cnt(s, lab, t, k),
    decreases k,
{
    if k > 0 {
        lemma_cnt_covers_same(s, a, lab, t, k - 1);
    }
}

/// A bitmap covering another has at least as many set cells.
pub proof fn lemma_cnt_all_covers_mono(s: Seq<bool>, a: Seq<bool>, k: int)
    requires
        forall|q: int| 0 <= q < k && #[trigger] a[q] ==> s[q],
    ensures
        cnt_all(a, k) <= cnt_all(s, k),
    decreases k,
{
    if k > 0 {
        lemma_cnt_all_covers_mono(s, a, k - 1);
    }
}

/// A covering bitmap with an extra set cell has strictly more set cells.
pub proof fn lemma_cnt_all_covers_extra(s: Seq<bool>, a: Seq<bool>, k: int, j: int)
    requires
        forall|q: int| 0 <= q < k && #[trigger] a[q] ==> s[q],
        0 <= j < k,
        s[j],
        !a[j],
    ensures
        cnt_all(a, k) + 1 <= cnt_all(s, k),
    decreases k,
{
    if j == k - 1 {
        lemma_cnt_all_covers_mono(s, a, k - 1);
    } else {
        lemma_cnt_all_covers_extra(s, a, k - 1, j);
    }
}

/// Coordinates of a flat cell index: its row and column labels are in
/// range and rebuild the index.
pub proof fn lemma_cell_coords(n: int, i: int)
    requires
        n >= 1,
        0 <= i < n * n,
    ensures
        0 <= i / n < n,
        0 <= i % n < n,
        (i / n) * n + (i % n) == i,
{
    vstd::arithmetic::div_mod::lemma_fundamental_div_mod(i, n);
    vstd::arithmetic::div_mod::lemma_mod_division_less_than_divisor(i, n);
    assert((i / n) * n + (i % n) == i) by (nonlinear_arith)
        requires
            n >= 1,
            i == n * (i / n) + i % n,
    ;
    assert(0 <= i / n < n) by (nonlinear_arith)
        requires
            n >= 1,
            0 <= i < n * n,
            i == n * (i / n) + i % n,
            0 <= i % n < n,
    ;
}

/// A row and a column in range name one cell: the flat index they build
/// lies in the grid and carries them as labels.
pub proof fn lemma_coords_cell(n: int, r: int, c: int)
    requires
        n >= 1,
        0 <= r < n,
        0 <= c < n,
    ensures
        0 <= r * n + c < n * n,
        (r * n + c) / n == r,
        (r * n + c) % n == c,
{
    assert(0 <= r * n + c < n * n) by (nonlinear_arith)
        requires
            n >= 1,
            0 <= r < n,
            0 <= c < n,
    ;
    vstd::arithmetic::div_mod::lemma_fundamental_div_mod_converse(r * n + c, n, r, c);
}

} // verus!
