//! The puzzle model: an immutable grid definition and a solution record.
//!
//! A [`StarGrid`] holds the side length `N`, the per-line star target `K`,
//! the flat cell-to-region map and its inverse, the region-to-cell lists.
//! [`StarGrid::parse_grid`] builds one from a flat run of region symbols;
//! [`StarGrid::render`] draws a grid, and the solution it may carry, as
//! text.

use crate::counting::{lemma_cell_coords, lemma_coords_cell};
use vstd::prelude::*;

verus! {

/// The ways an input text can fail to describe a puzzle.
#[derive(Clone, Copy, Debug, PartialEq, Eq, Structural)]
pub enum FormatError {
    /// After stripping line breaks the symbol count is neither 100 nor 196.
    BadLength,
    /// A symbol is not a hexadecimal digit naming a region of the grid.
    BadSymbol,
}

/// A byte that ends a line and is stripped before interpretation.
pub open spec fn is_line_break(b: u8) -> bool {
    b == 10 || b == 13
}

/// The first `k` bytes of `s` with the line-break bytes removed.
pub open spec fn strip_breaks(s: Seq<u8>, k: int) -> Seq<u8>
    decreases k,
{
    if k <= 0 {
        Seq::empty()
    } else {
        strip_breaks(s, k - 1) + if is_line_break(s[k - 1]) {
            Seq::<u8>::empty()
        } else {
            seq![s[k - 1]]
        }
    }
}

/// Value of a hexadecimal digit symbol; -1 when the byte is no such digit.
pub open spec fn symbol_value(b: u8) -> int {
    if 48 <= b <= 57 {
        b - 48
    } else if 65 <= b <= 70 {
        b - 55
    } else if 97 <= b <= 102 {
        b - 87
    } else {
        -1
    }
}

/// The symbol names a region of a grid of side `n`.
pub open spec fn symbol_ok(b: u8, n: int) -> bool {
    0 <= symbol_value(b) < n
}

/// Grid side that a stripped input of length `l` describes; 0 when none.
pub open spec fn dim_of_len(l: int) -> int {
    if l == 100 {
        10
    } else if l == 196 {
        14
    } else {
        0
    }
}

/// A full star placement together with the final validity bitmap of the
/// branch that produced it.
#[derive(Clone, Debug)]
pub struct SolvedState {
    pub star_pos: Vec<bool>,
    pub valid_cell: Vec<bool>,
}

/// The immutable puzzle definition.
///
/// `grid[i]` is the region id of flat cell `i`; `shape_indices[s]` lists
/// the flat cells of region `s`.  `star_pos` carries a solution once one
/// is found; the solver never reads it.
#[derive(Clone, Debug)]
pub struct StarGrid {
    pub grid: Vec<u8>,
    pub dim_size: usize,
    pub shape_indices: Vec<Vec<usize>>,
    pub target_star_count: u8,
    pub star_pos: Option<SolvedState>,
}

impl StarGrid {
    /// The side length as a mathematical integer.
    pub open spec fn n(&self) -> int {
        self.dim_size as int
    }

    /// The cell count of the square grid.
    pub open spec fn area(&self) -> int {
        self.n() * self.n()
    }

    /// The per-line star target as a mathematical integer.
    pub open spec fn k(&self) -> int {
        self.target_star_count as int
    }

    /// Well-formedness of the puzzle definition.
    ///
    /// The side is positive and small enough for every count the solver
    /// keeps to fit in a byte; every cell carries a region id in range;
    /// and the region lists are a sound and complete inverse of the
    /// cell-to-region map, each listing its cells in increasing order.
    pub open spec fn wf(&self) -> bool {
        &&& 1 <= self.n() <= 15
        &&& 1 <= self.k()
        &&& self.k() * self.n() <= 255
        &&& self.grid@.len() == self.area()
        &&& forall|i: int| 0 <= i < self.area() ==> (#[trigger] self.grid@[i]) < self.dim_size
        &&& self.shape_indices@.len() == self.n()
        &&& forall|s: int, j: int|
            0 <= s < self.n() && 0 <= j < self.shape_indices@[s]@.len() ==> {
                &&& (#[trigger] self.shape_indices@[s]@[j]) < self.area()
                &&& self.grid@[self.shape_indices@[s]@[j] as int] as int == s
                &&& (0 < j ==> self.shape_indices@[s]@[j - 1] < self.shape_indices@[s]@[j])
            }
        &&& forall|i: int|
            0 <= i < self.area() ==> (#[trigger] self.shape_indices@[self.grid@[i] as int]@).contains(
                i as usize,
            )
    }

    /// Flat index of the cell in row `row` and column `col`.
    #[inline]
    pub fn rowcol_to_ind(&self, row: usize, col: usize) -> (ind: usize)
        requires
            self.wf(),
            row < self.dim_size,
            col < self.dim_size,
        ensures
            ind == row * self.n() + col,
            ind < self.area(),
            ind as int / self.n() == row,
            ind as int % self.n() == col,
    {
        proof {
            lemma_coords_cell(self.n(), row as int, col as int);
            assert(row * self.n() + col < 225) by (nonlinear_arith)
                requires
                    row < self.n(),
                    col < self.n(),
                    self.n() <= 15,
                    0 <= row,
                    0 <= col,
            ;
        }
        row * self.dim_size + col
    }

    /// Row of the cell with flat index `ind`.
    #[inline]
    pub fn ind_to_row(&self, ind: usize) -> (row: usize)
        requires
            self.wf(),
            ind < self.area(),
        ensures
            row == ind as int / self.n(),
            row < self.dim_size,
    {
        proof {
            lemma_cell_coords(self.n(), ind as int);
        }
        ind / self.dim_size
    }

    /// Column of the cell with flat index `ind`.
    #[inline]
    pub fn ind_to_col(&self, ind: usize) -> (col: usize)
        requires
            self.wf(),
            ind < self.area(),
        ensures
            col == ind as int % self.n(),
            col < self.dim_size,
    {
        proof {
            lemma_cell_coords(self.n(), ind as int);
        }
        ind % self.dim_size
    }

    /// Region id of the cell in row `row` and column `col`.
    #[inline]
    pub fn get_shape_id(&self, row: usize, col: usize) -> (sid: u8)
        requires
            self.wf(),
            row < self.dim_size,
            col < self.dim_size,
        ensures
            sid == self.grid@[row * self.n() + col],
            sid < self.dim_size,
    {
        self.grid[self.rowcol_to_ind(row, col)]
    }

    /// Builds the puzzle definition from a flat run of region symbols.
    ///
    /// Line breaks are stripped first.  Exactly 100 remaining symbols give
    /// a 10 x 10 grid with two stars per line, exactly 196 give a 14 x 14
    /// grid with three; any other count is a length error.  Every symbol
    /// must be a hexadecimal digit naming a region of the grid: one that
    /// is not, or one naming a region the grid cannot have, is a symbol
    /// error rather than an index out of range later.
    pub fn parse_grid(text: &[u8]) -> (r: Result<StarGrid, FormatError>)
        ensures
            ({
                let t = strip_breaks(text@, text@.len() as int);
                &&& (r is Ok <==> (t.len() == 100 || t.len() == 196) && (forall|i: int|
                    0 <= i < t.len() ==> symbol_ok(#[trigger] t[i], dim_of_len(t.len() as int))))
                &&& (r matches Ok(g) ==> {
                    &&& g.wf()
                    &&& g.area() == t.len()
                    &&& (t.len() == 100 ==> g.dim_size == 10 && g.target_star_count == 2)
                    &&& (t.len() == 196 ==> g.dim_size == 14 && g.target_star_count == 3)
                    &&& (forall|i: int|
                        0 <= i < t.len() ==> (#[trigger] g.grid@[i]) as int == symbol_value(t[i]))
                    &&& g.star_pos is None
                })
                &&& (r matches Err(e) ==> (e == FormatError::BadLength <==> t.len() != 100
                    && t.len() != 196))
            }),
    {
        let ghost whole = text@;
        let ghost wlen = text@.len() as int;

        // Strip the line breaks.
        let mut stripped: Vec<u8> = Vec::new();
        let mut i: usize = 0;
        while i < text.len()
            invariant
                i <= text@.len(),
                whole == text@,
                wlen == text@.len() as int,
                stripped@ == strip_breaks(whole, i as int),
            decreases text@.len() - i,
        {
            let b = text[i];
            if !(b == 10 || b == 13) {
                stripped.push(b);
                proof {
                    assert(stripped@ =~= strip_breaks(whole, i + 1));
                }
            }
            i = i + 1;
        }
        let ghost t = strip_breaks(whole, wlen);
        proof {
            assert(stripped@ == t);
        }

        // Read the dimension and the star target off the symbol count.
        let len = stripped.len();
        let dim_size: usize;
        let target_star_count: u8;
        if len == 100 {
            dim_size = 10;
            target_star_count = 2;
        } else if len == 196 {
            dim_size = 14;
            target_star_count = 3;
        } else {
            return Err(FormatError::BadLength);
        }
        proof {
            assert(dim_size * dim_size == len);
            assert(dim_of_len(t.len() as int) == dim_size);
        }

        // One empty cell list per region.
        let mut shape_indices: Vec<Vec<usize>> = Vec::new();
        let mut s: usize = 0;
        while s < dim_size
            invariant
                s <= dim_size,
                dim_size <= 15,
                shape_indices@.len() == s,
                forall|q: int| 0 <= q < s ==> (#[trigger] shape_indices@[q])@.len() == 0,
            decreases dim_size - s,
        {
            shape_indices.push(Vec::new());
            s = s + 1;
        }

        // Decode each symbol and index its cell under its region.
        let mut grid: Vec<u8> = Vec::new();
        let mut j: usize = 0;
        while j < len
            invariant
                j <= len,
                len == t.len(),
                t == strip_breaks(text@, text@.len() as int),
                stripped@ == t,
                stripped@.len() == len,
                1 <= dim_size <= 15,
                dim_of_len(len as int) == dim_size as int,
                (len == 100 && dim_size == 10 && target_star_count == 2) || (len == 196
                    && dim_size == 14 && target_star_count == 3),
                grid@.len() == j,
                forall|q: int|
                    0 <= q < j ==> (#[trigger] grid@[q]) as int == symbol_value(t[q])
                        && symbol_ok(t[q], dim_size as int),
                forall|q: int| 0 <= q < j ==> symbol_ok(#[trigger] t[q], dim_size as int),
                shape_indices@.len() == dim_size,
                forall|q: int, w: int|
                    0 <= q < dim_size as int && 0 <= w < shape_indices@[q]@.len() ==> {
                        &&& (#[trigger] shape_indices@[q]@[w]) < j
                        &&& grid@[shape_indices@[q]@[w] as int] as int == q
                        &&& (0 < w ==> shape_indices@[q]@[w - 1] < shape_indices@[q]@[w])
                    },
                forall|q: int|
                    0 <= q < j ==> (#[trigger] shape_indices@[grid@[q] as int]@).contains(
                        q as usize,
                    ),
            decreases len - j,
        {
            let b = stripped[j];
            let v: u8 = if b >= 48 && b <= 57 {
                b - 48
            } else if b >= 65 && b <= 70 {
                b - 55
            } else if b >= 97 && b <= 102 {
                b - 87
            } else {
                proof {
                    assert(!symbol_ok(t[j as int], dim_of_len(t.len() as int)));
                }
                return Err(FormatError::BadSymbol);
            };
            if v as usize >= dim_size {
                proof {
                    assert(!symbol_ok(t[j as int], dim_of_len(t.len() as int)));
                }
                return Err(FormatError::BadSymbol);
            }
            let ghost grid_before = grid@;
            let ghost lists_before = shape_indices@;
            grid.push(v);
            shape_indices[v as usize].push(j);
            proof {
                assert(grid@[j as int] == v);
                assert(symbol_value(t[j as int]) == v as int);
                assert(symbol_ok(t[j as int], dim_size as int));
                assert(shape_indices@.len() == lists_before.len());
                assert(forall|q: int|
                    0 <= q < lists_before.len() && q != v as int ==> shape_indices@[q]
                        == lists_before[q]);
                assert(shape_indices@[v as int]@ == lists_before[v as int]@.push(j));
                assert forall|q: int, w: int|
                    0 <= q < dim_size as int && 0 <= w < shape_indices@[q]@.len() implies {
                    &&& (#[trigger] shape_indices@[q]@[w]) < j + 1
                    &&& grid@[shape_indices@[q]@[w] as int] as int == q
                    &&& (0 < w ==> shape_indices@[q]@[w - 1] < shape_indices@[q]@[w])
                } by {
                    if q == v as int && w == shape_indices@[q]@.len() - 1 {
                        assert(shape_indices@[q]@[w] == j);
                        if 0 < w {
                            assert(shape_indices@[q]@[w - 1] == lists_before[q]@[w - 1]);
                            assert(lists_before[q]@[w - 1] < j);
                        }
                    } else {
                        assert(shape_indices@[q]@[w] == lists_before[q]@[w]);
                        if 0 < w {
                            assert(shape_indices@[q]@[w - 1] == lists_before[q]@[w - 1]);
                        }
                    }
                }
                assert forall|q: int|
                    0 <= q < j + 1 implies (#[trigger] shape_indices@[grid@[q] as int]@).contains(
                    q as usize,
                ) by {
                    if q == j {
                        assert(shape_indices@[v as int]@[lists_before[v as int]@.len() as int]
                            == j);
                    } else {
                        let lst = lists_before[grid_before[q] as int]@;
                        let w = choose|w: int| 0 <= w < lst.len() && lst[w] == q as usize;
                        assert(shape_indices@[grid@[q] as int]@[w] == q as usize);
                    }
                }
            }
            j = j + 1;
        }

        let result = StarGrid {
            grid,
            dim_size,
            shape_indices,
            target_star_count,
            star_pos: None,
        };
        proof {
            assert(result.area() == len);
            assert(result.wf());
        }
        Ok(result)
    }

    /// The solution record the grid carries, if any, covers every cell.
    pub open spec fn render_ready(&self) -> bool {
        match self.star_pos {
            Some(ss) => ss.star_pos@.len() == self.area() && ss.valid_cell@.len() == self.area(),
            None => true,
        }
    }

    /// Draws the grid as text: region boundaries, the placed stars, the
    /// cells ruled out by constraint propagation, and the empty cells.
    ///
    /// The output is pinned to [`render_spec`], so rendering the same
    /// grid and record twice gives the same text.
    pub fn render(&self) -> (s: String)
        requires
            self.wf(),
            self.render_ready(),
        ensures
            s@ == render_spec(*self),
    {
        let n = self.dim_size;
        let mut out: Vec<char> = Vec::new();
        out.push('O');
        proof {
            assert(out@ =~= header_run(self.n(), 0));
        }
        let mut i: usize = 0;
        while i < n
            invariant
                i <= n,
                n == self.dim_size,
                out@ == header_run(self.n(), i as int),
            decreases n - i,
        {
            out.push('-');
            out.push('-');
            out.push('-');
            if i == n - 1 {
                out.push('O');
            } else {
                out.push('-');
            }
            proof {
                assert(out@ =~= header_run(self.n(), i + 1));
            }
            i = i + 1;
        }
        out.push('\n');
        let ghost pre = out@;
        proof {
            assert(pre == header_run(self.n(), self.n()) + seq!['\n']);
            assert(out@ =~= pre + body_rows(*self, 0));
        }

        let mut r: usize = 0;
        while r < n
            invariant
                r <= n,
                n == self.dim_size,
                self.wf(),
                self.render_ready(),
                pre == header_run(self.n(), self.n()) + seq!['\n'],
                out@ == pre + body_rows(*self, r as int),
            decreases n - r,
        {
            // The cell line of this row.
            out.push('|');
            proof {
                assert(out@ =~= pre + body_rows(*self, r as int) + curr_row(*self, r as int, 0));
            }
            let mut j: usize = 0;
            while j < n
                invariant
                    j <= n,
                    r < n,
                    n == self.dim_size,
                    self.wf(),
                    self.render_ready(),
                    out@ == pre + body_rows(*self, r as int) + curr_row(
                        *self,
                        r as int,
                        j as int,
                    ),
                decreases n - j,
            {
                let q = self.rowcol_to_ind(r, j);
                let c = match &self.star_pos {
                    Some(v) => {
                        if v.star_pos[q] {
                            '*'
                        } else if !v.valid_cell[q] {
                            'o'
                        } else {
                            '_'
                        }
                    },
                    None => '_',
                };
                out.push(' ');
                out.push(c);
                out.push(' ');
                let sid = self.get_shape_id(r, j);
                if j + 1 == n || sid != self.get_shape_id(r, j + 1) {
                    out.push('|');
                } else {
                    out.push(' ');
                }
                proof {
                    assert(c == cell_char(*self, r as int * self.n() + j as int));
                    assert(out@ =~= pre + body_rows(*self, r as int) + curr_row(
                        *self,
                        r as int,
                        j + 1,
                    ));
                }
                j = j + 1;
            }
            out.push('\n');

            // The boundary line below this row.
            let ghost mid = out@;
            if r + 1 == n {
                out.push('O');
            } else {
                out.push('|');
            }
            proof {
                assert(out@ =~= mid + next_row(*self, r as int, 0));
            }
            let mut j: usize = 0;
            while j < n
                invariant
                    j <= n,
                    r < n,
                    n == self.dim_size,
                    self.wf(),
                    mid == pre + body_rows(*self, r as int) + curr_row(*self, r as int, self.n())
                        + seq!['\n'],
                    out@ == mid + next_row(*self, r as int, j as int),
                decreases n - j,
            {
                let sid = self.get_shape_id(r, j);
                if r + 1 == n || sid != self.get_shape_id(r + 1, j) {
                    out.push('-');
                    out.push('-');
                    out.push('-');
                } else {
                    out.push(' ');
                    out.push(' ');
                    out.push(' ');
                }
                if j + 1 == n {
                    if r + 1 == n {
                        out.push('O');
                    } else {
                        out.push('|');
                    }
                } else {
                    out.push('-');
                }
                proof {
                    assert(out@ =~= mid + next_row(*self, r as int, j + 1));
                }
                j = j + 1;
            }
            out.push('\n');
            proof {
                assert(out@ =~= pre + body_rows(*self, r + 1));
            }
            r = r + 1;
        }
        proof {
            assert(out@ == render_spec(*self));
        }
        chars_to_string(&out)
    }
}

/// Marker drawn for the cell with flat index `q`: the star, an
/// invalidated cell, or an empty cell.
pub open spec fn cell_char(g: StarGrid, q: int) -> char {
    match g.star_pos {
        Some(ss) => if ss.star_pos@[q] {
            '*'
        } else if !ss.valid_cell@[q] {
            'o'
        } else {
            '_'
        },
        None => '_',
    }
}

/// Separator drawn after column `j` of row `i`: a boundary where the
/// region changes or the grid ends.
pub open spec fn vsep(g: StarGrid, i: int, j: int) -> Seq<char> {
    if j + 1 == g.n() || g.grid@[i * g.n() + j] != g.grid@[i * g.n() + j + 1] {
        seq!['|']
    } else {
        seq![' ']
    }
}

/// Three characters drawn below column `j` of row `i`: a boundary where
/// the region changes downward or the grid ends.
pub open spec fn hseg(g: StarGrid, i: int, j: int) -> Seq<char> {
    if i + 1 == g.n() || g.grid@[i * g.n() + j] != g.grid@[(i + 1) * g.n() + j] {
        seq!['-', '-', '-']
    } else {
        seq![' ', ' ', ' ']
    }
}

/// Closing character of the boundary line after column `j` of row `i`.
pub open spec fn next_end(g: StarGrid, i: int, j: int) -> Seq<char> {
    if j + 1 == g.n() {
        if i + 1 == g.n() {
            seq!['O']
        } else {
            seq!['|']
        }
    } else {
        seq!['-']
    }
}

/// The first `j` columns of the cell line of row `i`, with its opening
/// border.
pub open spec fn curr_row(g: StarGrid, i: int, j: int) -> Seq<char>
    decreases j,
{
    if j <= 0 {
        seq!['|']
    } else {
        curr_row(g, i, j - 1) + seq![' ', cell_char(g, i * g.n() + (j - 1)), ' '] + vsep(
            g,
            i,
            j - 1,
        )
    }
}

/// The first `j` columns of the boundary line below row `i`, with its
/// opening border.
pub open spec fn next_row(g: StarGrid, i: int, j: int) -> Seq<char>
    decreases j,
{
    if j <= 0 {
        if i + 1 == g.n() {
            seq!['O']
        } else {
            seq!['|']
        }
    } else {
        next_row(g, i, j - 1) + hseg(g, i, j - 1) + next_end(g, i, j - 1)
    }
}

/// The first `i` segments of the header line, with its opening corner.
pub open spec fn header_run(n: int, i: int) -> Seq<char>
    decreases i,
{
    if i <= 0 {
        seq!['O']
    } else {
        header_run(n, i - 1) + seq!['-', '-', '-', if i == n {
            'O'
        } else {
            '-'
        }]
    }
}

/// The first `r` row pairs of the drawing: each row's cell line and the
/// boundary line below it.
pub open spec fn body_rows(g: StarGrid, r: int) -> Seq<char>
    decreases r,
{
    if r <= 0 {
        Seq::empty()
    } else {
        body_rows(g, r - 1) + curr_row(g, r - 1, g.n()) + seq!['\n'] + next_row(g, r - 1, g.n())
            + seq!['\n']
    }
}

/// The full drawing of a grid and the solution record it may carry.
pub open spec fn render_spec(g: StarGrid) -> Seq<char> {
    header_run(g.n(), g.n()) + seq!['\n'] + body_rows(g, g.n())
}

/// Relies on `String::from_iter` over `char`: the collected string holds
/// exactly the characters of the vector, in order.
#[verifier::external_body]
fn chars_to_string(v: &Vec<char>) -> (s: String)
    ensures
        s@ == v@,
{
    v.iter().collect()
}

} // verus!
