//! The `n`-by-`n` Latin Sudoku board: representation, access, validation, rendering.

use vstd::prelude::*;

use crate::text::{dec, push_dec, string_from_chars};

verus! {

/// The errors of the board operations.
#[derive(Debug)]
pub enum CoreError {
    /// The dimension `n` must be greater than zero.
    BadDim,
    /// A board text could not be parsed; the message says where.
    Parse(String),
    /// A cell position outside the board.
    Oob { r: usize, c: usize, n: usize },
    /// A digit outside `0..=n` (or outside `1..=n` where an empty cell makes no sense).
    BadDigit { d: u32, n: usize },
    /// A JSON document could not be read.
    Json(String),
    /// A CSV text could not be parsed; the message says where.
    Csv(String),
}

/// What a `CoreError` says, with its messages as char sequences.
pub enum ErrorView {
    BadDim,
    Parse(Seq<char>),
    Oob { r: usize, c: usize, n: usize },
    BadDigit { d: u32, n: usize },
    Json(Seq<char>),
    Csv(Seq<char>),
}

impl View for CoreError {
    type V = ErrorView;

    open spec fn view(&self) -> ErrorView {
        match self {
            CoreError::BadDim => ErrorView::BadDim,
            CoreError::Parse(m) => ErrorView::Parse(m@),
            CoreError::Oob { r, c, n } => ErrorView::Oob { r: *r, c: *c, n: *n },
            CoreError::BadDigit { d, n } => ErrorView::BadDigit { d: *d, n: *n },
            CoreError::Json(m) => ErrorView::Json(m@),
            CoreError::Csv(m) => ErrorView::Csv(m@),
        }
    }
}

/// A board result seen as `n` and its cells, or the error it carries.
pub open spec fn board_result(res: Result<Board, CoreError>) -> Result<(nat, Seq<u32>), ErrorView> {
    match res {
        Ok(b) => Ok((b.n as nat, b.cells@)),
        Err(e) => Err(e@),
    }
}

/// A cell value: `0` for an empty cell, `1..=n` for a digit.
pub type Digit = u32;

/// An `n`-by-`n` board, its cells stored row by row.
#[derive(Clone, Debug, PartialEq, Eq)]
pub struct Board {
    pub n: usize,
    pub cells: Vec<Digit>,
}

// ---------------------------------------------------------------------------
// The mathematical model: a board is `n` and a sequence of `n * n` cells.
// ---------------------------------------------------------------------------

/// The cell in row `r`, column `c` of the row-major grid `cells`.
pub open spec fn at(n: nat, cells: Seq<u32>, r: int, c: int) -> u32 {
    cells[r * n + c]
}

/// No cell holds a value above `n`.
pub open spec fn digits_in_range(n: nat, cells: Seq<u32>) -> bool {
    forall|i: int| 0 <= i < cells.len() ==> #[trigger] cells[i] <= n
}

/// Row `r` holds no nonzero digit twice.
pub open spec fn row_distinct(n: nat, cells: Seq<u32>, r: int) -> bool {
    forall|c1: int, c2: int|
        #![trigger at(n, cells, r, c1), at(n, cells, r, c2)]
        0 <= c1 < n && 0 <= c2 < n && c1 != c2 && at(n, cells, r, c1) != 0 ==> at(n, cells, r, c1)
            != at(n, cells, r, c2)
}

/// Column `c` holds no nonzero digit twice.
pub open spec fn col_distinct(n: nat, cells: Seq<u32>, c: int) -> bool {
    forall|r1: int, r2: int|
        #![trigger at(n, cells, r1, c), at(n, cells, r2, c)]
        0 <= r1 < n && 0 <= r2 < n && r1 != r2 && at(n, cells, r1, c) != 0 ==> at(n, cells, r1, c)
            != at(n, cells, r2, c)
}

/// No row and no column holds a nonzero digit twice.
pub open spec fn consistent(n: nat, cells: Seq<u32>) -> bool {
    &&& forall|r: int| 0 <= r < n ==> #[trigger] row_distinct(n, cells, r)
    &&& forall|c: int| 0 <= c < n ==> #[trigger] col_distinct(n, cells, c)
}

/// Every cell holds a digit (none is empty).
pub open spec fn complete(cells: Seq<u32>) -> bool {
    forall|i: int| 0 <= i < cells.len() ==> #[trigger] cells[i] != 0
}

/// Digit `d` stands somewhere in row `r`.
pub open spec fn in_row(n: nat, cells: Seq<u32>, r: int, d: u32) -> bool {
    exists|c: int| 0 <= c < n && #[trigger] at(n, cells, r, c) == d
}

/// Digit `d` stands somewhere in column `c`.
pub open spec fn in_col(n: nat, cells: Seq<u32>, c: int, d: u32) -> bool {
    exists|r: int| 0 <= r < n && #[trigger] at(n, cells, r, c) == d
}

/// The digits among `1..=k`, in increasing order, that stand neither in row `r`
/// nor in column `c`.
pub open spec fn free_digits(n: nat, cells: Seq<u32>, r: int, c: int, k: nat) -> Seq<u32>
    decreases k,
{
    if k == 0 {
        seq![]
    } else {
        let p = free_digits(n, cells, r, c, (k - 1) as nat);
        if !in_row(n, cells, r, k as u32) && !in_col(n, cells, c, k as u32) {
            p.push(k as u32)
        } else {
            p
        }
    }
}

/// The digits that may go into cell `(r, c)`: those of `1..=n` standing
/// neither in its row nor in its column.
pub open spec fn candidates(n: nat, cells: Seq<u32>, r: int, c: int) -> Seq<u32> {
    free_digits(n, cells, r, c, n)
}

/// The text of one cell: `.` when empty, else the decimal digit value.
pub open spec fn cell_text(d: u32) -> Seq<char> {
    if d == 0 {
        seq!['.']
    } else {
        dec(d as nat)
    }
}

/// The pieces joined with `sep` between neighbours.
pub open spec fn join(parts: Seq<Seq<char>>, sep: char) -> Seq<char>
    decreases parts.len(),
{
    if parts.len() == 0 {
        seq![]
    } else if parts.len() == 1 {
        parts[0]
    } else {
        join(parts.drop_last(), sep) + seq![sep] + parts.last()
    }
}

/// The texts of the cells of row `r`.
pub open spec fn row_cell_texts(n: nat, cells: Seq<u32>, r: int) -> Seq<Seq<char>> {
    Seq::new(n, |c: int| cell_text(at(n, cells, r, c)))
}

/// The text of row `r`: its cell texts joined with `sep`.
pub open spec fn row_text(n: nat, cells: Seq<u32>, r: int, sep: char) -> Seq<char> {
    join(row_cell_texts(n, cells, r), sep)
}

/// The texts of all rows.
pub open spec fn row_texts(n: nat, cells: Seq<u32>, sep: char) -> Seq<Seq<char>> {
    Seq::new(n, |r: int| row_text(n, cells, r, sep))
}

/// The text of the grid: its row texts joined with newlines.
pub open spec fn grid_text(n: nat, cells: Seq<u32>, sep: char) -> Seq<char> {
    join(row_texts(n, cells, sep), '\n')
}

/// The row-major index of `(r, c)` in a grid of side `n`.
pub open spec fn index_of(n: nat, r: int, c: int) -> int {
    r * n + c
}

/// Every cell that a scan of row `r` and column `c` reads (all of them but
/// `(r, c)` itself) lies among the first `len` cells.
pub open spec fn scan_fits(n: nat, len: nat, r: int, c: int) -> bool {
    &&& forall|cc: int| 0 <= cc < n && cc != c ==> #[trigger] index_of(n, r, cc) < len
    &&& forall|rr: int| 0 <= rr < n && rr != r ==> #[trigger] index_of(n, rr, c) < len
}

/// Every cell of the `n`-by-`n` grid holds a value in `0..=n`.
pub open spec fn grid_in_range(n: nat, cells: Seq<u32>) -> bool {
    forall|i: int| 0 <= i < n * n ==> #[trigger] cells[i] <= n
}

/// Every cell of row `r` and of column `c` holds a value in `0..=n`.
pub open spec fn lines_in_range(n: nat, cells: Seq<u32>, r: int, c: int) -> bool {
    &&& forall|k: int| 0 <= k < n ==> #[trigger] at(n, cells, r, k) <= n
    &&& forall|k: int| 0 <= k < n ==> #[trigger] at(n, cells, k, c) <= n
}

/// Digit `d` may stand at `(r, c)`: no other cell of row `r` or column `c` holds it.
pub open spec fn placeable(n: nat, cells: Seq<u32>, r: int, c: int, d: u32) -> bool {
    &&& forall|cc: int| 0 <= cc < n && cc != c ==> #[trigger] at(n, cells, r, cc) != d
    &&& forall|rr: int| 0 <= rr < n && rr != r ==> #[trigger] at(n, cells, rr, c) != d
}

// ---------------------------------------------------------------------------
// Index arithmetic.
// ---------------------------------------------------------------------------

/// Cell `(r, c)` of an `n`-by-`n` grid lies inside its `n * n` cells.
pub proof fn lemma_cell_index(n: int, r: int, c: int)
    requires
        0 <= r < n,
        0 <= c < n,
    ensures
        0 <= r * n + c < n * n,
        r * n + c <= n * n - 1,
{
    assert(r * n + c < n * n) by (nonlinear_arith)
        requires
            0 <= r < n,
            0 <= c < n,
    ;
    assert(0 <= r * n) by (nonlinear_arith)
        requires
            0 <= r,
            0 <= n,
    ;
}

/// Distinct cells of a grid have distinct indices.
pub proof fn lemma_cell_index_injective(n: int, r1: int, c1: int, r2: int, c2: int)
    requires
        0 <= r1 < n,
        0 <= c1 < n,
        0 <= r2 < n,
        0 <= c2 < n,
        r1 * n + c1 == r2 * n + c2,
    ensures
        r1 == r2,
        c1 == c2,
{
    if r1 < r2 {
        assert((r1 + 1) * n <= r2 * n) by (nonlinear_arith)
            requires
                r1 + 1 <= r2,
                0 <= n,
        ;
        assert((r1 + 1) * n == r1 * n + n) by (nonlinear_arith);
    } else if r2 < r1 {
        assert((r2 + 1) * n <= r1 * n) by (nonlinear_arith)
            requires
                r2 + 1 <= r1,
                0 <= n,
        ;
        assert((r2 + 1) * n == r2 * n + n) by (nonlinear_arith);
    }
}

/// Every index of an `n`-by-`n` grid is the index of a cell.
pub proof fn lemma_index_cell(n: int, i: int)
    requires
        0 <= n,
        0 <= i < n * n,
    ensures
        0 <= i / n < n,
        0 <= i % n < n,
        i == (i / n) * n + i % n,
{
    assert(n > 0) by (nonlinear_arith)
        requires
            0 <= n,
            0 <= i < n * n,
    ;
    vstd::arithmetic::div_mod::lemma_fundamental_div_mod(i, n);
    assert(i / n < n) by (nonlinear_arith)
        requires
            0 <= i < n * n,
            n > 0,
            i == n * (i / n) + i % n,
            0 <= i % n < n,
    ;
    assert(0 <= i / n) by (nonlinear_arith)
        requires
            0 <= i,
            n > 0,
    ;
    assert(n * (i / n) == (i / n) * n) by (nonlinear_arith);
}

/// Cell `(r, c)` is at position `r * n + c`, and back.
pub proof fn lemma_cell_div(n: int, r: int, c: int)
    requires
        0 <= r,
        0 <= c < n,
    ensures
        (r * n + c) / n == r,
        (r * n + c) % n == c,
{
    vstd::arithmetic::div_mod::lemma_fundamental_div_mod_converse(r * n + c, n, r, c);
}

/// A square that fits in `usize` has a side below `usize::MAX`.
pub proof fn lemma_side_small(n: int)
    requires
        0 <= n,
        n * n <= usize::MAX,
    ensures
        n < usize::MAX,
        n + 1 <= usize::MAX,
        n <= u32::MAX,
{
    if n >= 2 {
        assert(n * n >= 2 * n) by (nonlinear_arith)
            requires
                n >= 2,
        ;
    }
    if n > u32::MAX {
        assert(n * n >= 0x1_0000_0000 * 0x1_0000_0000) by (nonlinear_arith)
            requires
                n >= 0x1_0000_0000,
        ;
    }
}

/// Joining one more piece appends a separator and that piece.
pub proof fn lemma_join_take(s: Seq<Seq<char>>, k: int, sep: char)
    requires
        0 <= k < s.len(),
    ensures
        join(s.take(k + 1), sep) == if k == 0 {
            s[0]
        } else {
            join(s.take(k), sep) + seq![sep] + s[k]
        },
{
    assert(s.take(k + 1).drop_last() =~= s.take(k));
}

impl Board {
    /// The cells hold exactly `n * n` entries.
    pub open spec fn shaped(&self) -> bool {
        self.cells@.len() == self.n * self.n
    }

    /// The cells hold at least the `n * n` entries of the grid; any further entries
    /// are never read.
    pub open spec fn covers(&self) -> bool {
        self.n * self.n <= self.cells@.len()
    }

    /// The board is shaped and every cell holds `0..=n`.
    pub open spec fn wf(&self) -> bool {
        self.shaped() && digits_in_range(self.n as nat, self.cells@)
    }

    /// Creates an empty board of dimension `n`; refuses `n == 0`.
    pub fn new(n: usize) -> (res: Result<Board, CoreError>)
        requires
            n * n <= usize::MAX,
        ensures
            n == 0 <==> res matches Err(CoreError::BadDim),
            res matches Ok(b) ==> b.n == n && b.cells@ == Seq::new((n * n) as nat, |i: int| 0u32),
            res is Err ==> res matches Err(CoreError::BadDim),
    {
        if n == 0 {
            return Err(CoreError::BadDim);
        }
        let len: usize = n * n;
        let mut cells: Vec<Digit> = Vec::with_capacity(len);
        while cells.len() < len
            invariant
                cells@.len() <= len,
                forall|i: int| 0 <= i < cells@.len() ==> cells@[i] == 0,
            decreases len - cells@.len(),
        {
            cells.push(0);
        }
        assert(cells@ =~= Seq::new((n * n) as nat, |i: int| 0u32));
        Ok(Board { n, cells })
    }

    /// The index of cell `(r, c)`; refuses positions outside the board.
    pub fn idx(&self, r: usize, c: usize) -> (res: Result<usize, CoreError>)
        requires
            r < self.n && c < self.n ==> r * self.n + c <= usize::MAX,
        ensures
            (r < self.n && c < self.n) ==> res == Ok::<usize, CoreError>(
                (r * self.n + c) as usize,
            ),
            !(r < self.n && c < self.n) ==> (res matches Err(CoreError::Oob { r: er, c: ec, n: en })
                && er == r && ec == c && en == self.n),
    {
        if r >= self.n || c >= self.n {
            return Err(CoreError::Oob { r, c, n: self.n });
        }
        Ok(r * self.n + c)
    }

    /// The value of cell `(r, c)`; refuses positions outside the board.
    pub fn get(&self, r: usize, c: usize) -> (res: Result<Digit, CoreError>)
        requires
            r < self.n && c < self.n ==> r * self.n + c < self.cells@.len(),
        ensures
            (r < self.n && c < self.n) ==> res == Ok::<u32, CoreError>(
                at(self.n as nat, self.cells@, r as int, c as int),
            ),
            !(r < self.n && c < self.n) ==> (res matches Err(CoreError::Oob { r: er, c: ec, n: en })
                && er == r && ec == c && en == self.n),
    {
        let len: usize = self.cells.len();
        let i: usize = self.idx(r, c)?;
        Ok(self.cells[i])
    }

    /// Writes `d` into cell `(r, c)`; refuses a digit above `n`, then a position
    /// outside the board, and then leaves the board unchanged.
    pub fn set(&mut self, r: usize, c: usize, d: Digit) -> (res: Result<(), CoreError>)
        requires
            d <= old(self).n && r < old(self).n && c < old(self).n ==> r * old(self).n + c < old(
                self,
            ).cells@.len(),
        ensures
            final(self).n == old(self).n,
            d > old(self).n ==> (res matches Err(CoreError::BadDigit { d: ed, n: en }) && ed == d
                && en == old(self).n),
            d <= old(self).n && !(r < old(self).n && c < old(self).n) ==> (res matches Err(
                CoreError::Oob { r: er, c: ec, n: en },
            ) && er == r && ec == c && en == old(self).n),
            res is Err ==> final(self).cells@ == old(self).cells@,
            res is Ok <==> d <= old(self).n && r < old(self).n && c < old(self).n,
            res is Ok ==> final(self).cells@ == old(self).cells@.update(
                r * old(self).n + c,
                d,
            ),
    {
        let len: usize = self.cells.len();
        if d as usize > self.n {
            return Err(CoreError::BadDigit { d, n: self.n });
        }
        let i: usize = self.idx(r, c)?;
        self.cells.set(i, d);
        Ok(())
    }

    /// Whether no cell is empty.
    pub fn is_complete(&self) -> (b: bool)
        ensures
            b == complete(self.cells@),
    {
        let mut i: usize = 0;
        while i < self.cells.len()
            invariant
                i <= self.cells@.len(),
                forall|j: int| 0 <= j < i ==> self.cells@[j] != 0,
            decreases self.cells@.len() - i,
        {
            if self.cells[i] == 0 {
                return false;
            }
            i += 1;
        }
        true
    }

    /// Whether no row and no column holds a nonzero digit twice.
    pub fn is_consistent(&self) -> (b: bool)
        requires
            self.covers(),
            grid_in_range(self.n as nat, self.cells@),
        ensures
            b == consistent(self.n as nat, self.cells@),
    {
        let n: usize = self.n;
        let len: usize = self.cells.len();
        let ghost cells = self.cells@;
        let ghost nn = n as nat;
        proof {
            lemma_side_small(n as int);
        }
        // Rows
        let mut r: usize = 0;
        while r < n
            invariant
                r <= n,
                n == self.n,
                nn == n,
                cells == self.cells@,
                self.covers(),
                grid_in_range(nn, cells),
                n * n <= usize::MAX,
                n + 1 <= usize::MAX,
                forall|r2: int| 0 <= r2 < r ==> #[trigger] row_distinct(nn, cells, r2),
            decreases n - r,
        {
            let mut seen: Vec<bool> = vec![false; n + 1];
            let mut c: usize = 0;
            while c < n
                invariant
                    r < n,
                    c <= n,
                    n == self.n,
                    nn == n,
                    cells == self.cells@,
                    self.covers(),
                    grid_in_range(nn, cells),
                    n * n <= usize::MAX,
                    seen@.len() == n + 1,
                    forall|d: int|
                        1 <= d <= n ==> (#[trigger] seen@[d] <==> exists|c2: int|
                            0 <= c2 < c && at(nn, cells, r as int, c2) == d),
                    forall|c1: int, c2: int|
                        #![trigger at(nn, cells, r as int, c1), at(nn, cells, r as int, c2)]
                        0 <= c1 < c && 0 <= c2 < c && c1 != c2 && at(nn, cells, r as int, c1)
                            != 0 ==> at(nn, cells, r as int, c1) != at(nn, cells, r as int, c2),
                decreases n - c,
            {
                proof {
                    lemma_cell_index(n as int, r as int, c as int);
                }
                let d: usize = self.cells[r * n + c] as usize;
                assert(at(nn, cells, r as int, c as int) == d);
                if d != 0 {
                    if seen[d] {
                        proof {
                            let c2 = choose|c2: int|
                                0 <= c2 < c && at(nn, cells, r as int, c2) == d;
                            assert(at(nn, cells, r as int, c2) == at(nn, cells, r as int, c as int));
                            assert(!row_distinct(nn, cells, r as int));
                        }
                        return false;
                    }
                    seen.set(d, true);
                }
                c += 1;
            }
            assert(row_distinct(nn, cells, r as int));
            r += 1;
        }
        // Columns
        let mut c: usize = 0;
        while c < n
            invariant
                c <= n,
                n == self.n,
                nn == n,
                cells == self.cells@,
                self.covers(),
                grid_in_range(nn, cells),
                n * n <= usize::MAX,
                n + 1 <= usize::MAX,
                forall|r2: int| 0 <= r2 < n ==> #[trigger] row_distinct(nn, cells, r2),
                forall|c2: int| 0 <= c2 < c ==> #[trigger] col_distinct(nn, cells, c2),
            decreases n - c,
        {
            let mut seen: Vec<bool> = vec![false; n + 1];
            let mut r: usize = 0;
            while r < n
                invariant
                    c < n,
                    r <= n,
                    n == self.n,
                    nn == n,
                    cells == self.cells@,
                    self.covers(),
                    grid_in_range(nn, cells),
                    n * n <= usize::MAX,
                    seen@.len() == n + 1,
                    forall|d: int|
                        1 <= d <= n ==> (#[trigger] seen@[d] <==> exists|r2: int|
                            0 <= r2 < r && at(nn, cells, r2, c as int) == d),
                    forall|r1: int, r2: int|
                        #![trigger at(nn, cells, r1, c as int), at(nn, cells, r2, c as int)]
                        0 <= r1 < r && 0 <= r2 < r && r1 != r2 && at(nn, cells, r1, c as int)
                            != 0 ==> at(nn, cells, r1, c as int) != at(nn, cells, r2, c as int),
                decreases n - r,
            {
                proof {
                    lemma_cell_index(n as int, r as int, c as int);
                }
                let d: usize = self.cells[r * n + c] as usize;
                assert(at(nn, cells, r as int, c as int) == d);
                if d != 0 {
                    if seen[d] {
                        proof {
                            let r2 = choose|r2: int|
                                0 <= r2 < r && at(nn, cells, r2, c as int) == d;
                            assert(at(nn, cells, r2, c as int) == at(nn, cells, r as int, c as int));
                            assert(!col_distinct(nn, cells, c as int));
                        }
                        return false;
                    }
                    seen.set(d, true);
                }
                r += 1;
            }
            assert(col_distinct(nn, cells, c as int));
            c += 1;
        }
        true
    }

    /// Whether digit `d` (`1..=n`) may stand at `(r, c)`: no other cell of row `r`
    /// or column `c` holds it. Refuses `d == 0` and `d > n`.
    pub fn is_valid_digit(&self, r: usize, c: usize, d: Digit) -> (res: Result<bool, CoreError>)
        requires
            d == 0 || d > self.n || scan_fits(self.n as nat, self.cells@.len(), r as int, c as int),
        ensures
            (d == 0 || d > self.n) ==> (res matches Err(CoreError::BadDigit { d: ed, n: en })
                && ed == d && en == self.n),
            (1 <= d <= self.n) ==> res == Ok::<bool, CoreError>(
                placeable(self.n as nat, self.cells@, r as int, c as int, d),
            ),
    {
        if d == 0 || d as usize > self.n {
            return Err(CoreError::BadDigit { d, n: self.n });
        }
        let n: usize = self.n;
        let len: usize = self.cells.len();
        let ghost cells = self.cells@;
        let ghost nn = n as nat;
        let mut cc: usize = 0;
        while cc < n
            invariant
                1 <= d <= n,
                cc <= n,
                n == self.n,
                nn == n,
                len == cells.len(),
                cells == self.cells@,
                scan_fits(nn, len as nat, r as int, c as int),
                forall|k: int| 0 <= k < cc && k != c ==> #[trigger] at(nn, cells, r as int, k) != d,
            decreases n - cc,
        {
            if cc != c {
                assert(index_of(nn, r as int, cc as int) < len);
                assert(r * n <= r * n + cc) by (nonlinear_arith)
                    requires
                        r * n + cc < len,
                ;
                if self.cells[r * n + cc] == d {
                    assert(at(nn, cells, r as int, cc as int) == d);
                    return Ok(false);
                }
            }
            cc += 1;
        }
        let mut rr: usize = 0;
        while rr < n
            invariant
                1 <= d <= n,
                rr <= n,
                n == self.n,
                nn == n,
                len == cells.len(),
                cells == self.cells@,
                scan_fits(nn, len as nat, r as int, c as int),
                forall|k: int| 0 <= k < n && k != c ==> #[trigger] at(nn, cells, r as int, k) != d,
                forall|k: int| 0 <= k < rr && k != r ==> #[trigger] at(nn, cells, k, c as int) != d,
            decreases n - rr,
        {
            if rr != r {
                assert(index_of(nn, rr as int, c as int) < len);
                if self.cells[rr * n + c] == d {
                    assert(at(nn, cells, rr as int, c as int) == d);
                    return Ok(false);
                }
            }
            rr += 1;
        }
        Ok(true)
    }

    /// The digits that may go into `(r, c)`, in increasing order: those of `1..=n`
    /// standing neither in row `r` nor in column `c`; none when the cell is filled.
    /// Refuses positions outside the board.
    pub fn allowed_digits(&self, r: usize, c: usize) -> (res: Result<Vec<Digit>, CoreError>)
        requires
            self.covers(),
            r < self.n && c < self.n && at(self.n as nat, self.cells@, r as int, c as int) == 0
                ==> lines_in_range(self.n as nat, self.cells@, r as int, c as int),
        ensures
            !(r < self.n && c < self.n) ==> (res matches Err(CoreError::Oob { r: er, c: ec, n: en })
                && er == r && ec == c && en == self.n),
            (r < self.n && c < self.n) ==> res is Ok,
            res matches Ok(v) ==> v@ == if at(self.n as nat, self.cells@, r as int, c as int) != 0 {
                Seq::<u32>::empty()
            } else {
                candidates(self.n as nat, self.cells@, r as int, c as int)
            },
    {
        proof {
            if r < self.n && c < self.n {
                lemma_cell_index(self.n as int, r as int, c as int);
            }
        }
        if self.get(r, c)? != 0 {
            return Ok(vec![]);
        }
        let n: usize = self.n;
        let len: usize = self.cells.len();
        let ghost cells = self.cells@;
        let ghost nn = n as nat;
        proof {
            lemma_side_small(n as int);
        }
        let mut used: Vec<bool> = vec![false; n + 1];
        let mut cc: usize = 0;
        while cc < n
            invariant
                r < n,
                c < n,
                cc <= n,
                n == self.n,
                nn == n,
                cells == self.cells@,
                self.covers(),
                lines_in_range(nn, cells, r as int, c as int),
                n * n <= usize::MAX,
                used@.len() == n + 1,
                forall|d: int|
                    1 <= d <= n ==> (#[trigger] used@[d] <==> exists|k: int|
                        0 <= k < cc && at(nn, cells, r as int, k) == d),
            decreases n - cc,
        {
            proof {
                lemma_cell_index(n as int, r as int, cc as int);
            }
            let d: usize = self.cells[r * n + cc] as usize;
            assert(at(nn, cells, r as int, cc as int) == d);
            if d != 0 {
                used.set(d, true);
            }
            cc += 1;
        }
        let mut rr: usize = 0;
        while rr < n
            invariant
                r < n,
                c < n,
                rr <= n,
                n == self.n,
                nn == n,
                cells == self.cells@,
                self.covers(),
                lines_in_range(nn, cells, r as int, c as int),
                n * n <= usize::MAX,
                used@.len() == n + 1,
                forall|d: int|
                    1 <= d <= n ==> (#[trigger] used@[d] <==> (in_row(nn, cells, r as int, d as u32)
                        || exists|k: int| 0 <= k < rr && at(nn, cells, k, c as int) == d)),
            decreases n - rr,
        {
            proof {
                lemma_cell_index(n as int, rr as int, c as int);
            }
            let d: usize = self.cells[rr * n + c] as usize;
            assert(at(nn, cells, rr as int, c as int) == d);
            if d != 0 {
                used.set(d, true);
            }
            rr += 1;
        }
        let mut out: Vec<Digit> = Vec::new();
        let mut d: usize = 1;
        while d <= n
            invariant
                1 <= d <= n + 1,
                n == self.n,
                nn == n,
                cells == self.cells@,
                n <= u32::MAX,
                n + 1 <= usize::MAX,
                used@.len() == n + 1,
                forall|k: int|
                    1 <= k <= n ==> (#[trigger] used@[k] <==> (in_row(nn, cells, r as int, k as u32)
                        || in_col(nn, cells, c as int, k as u32))),
                out@ == free_digits(nn, cells, r as int, c as int, (d - 1) as nat),
            decreases n + 1 - d,
        {
            if !used[d] {
                out.push(d as u32);
            }
            d += 1;
        }
        Ok(out)
    }

    /// The grid with cell texts joined by `sep` and rows by newlines.
    fn render(&self, sep: char) -> (s: String)
        requires
            self.covers(),
        ensures
            s@ == grid_text(self.n as nat, self.cells@, sep),
    {
        let n: usize = self.n;
        let len: usize = self.cells.len();
        let ghost cells = self.cells@;
        let ghost nn = n as nat;
        let ghost rows = row_texts(nn, cells, sep);
        let mut out: Vec<char> = Vec::new();
        let mut r: usize = 0;
        assert(rows.take(0) =~= Seq::<Seq<char>>::empty());
        while r < n
            invariant
                r <= n,
                n == self.n,
                nn == n,
                cells == self.cells@,
                self.covers(),
                n * n <= usize::MAX,
                rows == row_texts(nn, cells, sep),
                out@ == join(rows.take(r as int), '\n'),
            decreases n - r,
        {
            if r > 0 {
                out.push('\n');
            }
            let ghost before = out@;
            let ghost parts = row_cell_texts(nn, cells, r as int);
            let mut c: usize = 0;
            assert(parts.take(0) =~= Seq::<Seq<char>>::empty());
            while c < n
                invariant
                    r < n,
                    c <= n,
                    n == self.n,
                    nn == n,
                    cells == self.cells@,
                    self.covers(),
                    n * n <= usize::MAX,
                    parts == row_cell_texts(nn, cells, r as int),
                    out@ == before + join(parts.take(c as int), sep),
                decreases n - c,
            {
                if c > 0 {
                    out.push(sep);
                }
                proof {
                    lemma_cell_index(n as int, r as int, c as int);
                    lemma_join_take(parts, c as int, sep);
                }
                let d: u32 = self.cells[r * n + c];
                assert(parts[c as int] == cell_text(d));
                if d == 0 {
                    out.push('.');
                } else {
                    push_dec(&mut out, d as u64);
                }
                assert(out@ =~= before + join(parts.take(c + 1), sep));
                c += 1;
            }
            assert(parts.take(n as int) =~= parts);
            proof {
                lemma_join_take(rows, r as int, '\n');
            }
            assert(out@ =~= join(rows.take(r + 1), '\n'));
            r += 1;
        }
        assert(rows.take(n as int) =~= rows);
        string_from_chars(&out)
    }

    /// The grid as text: cells separated by spaces (`.` for an empty cell), rows by
    /// newlines, no trailing newline.
    pub fn to_pretty_string(&self) -> (s: String)
        requires
            self.covers(),
        ensures
            s@ == grid_text(self.n as nat, self.cells@, ' '),
    {
        self.render(' ')
    }

    /// The board as it is displayed: the same text as `to_pretty_string`.
    pub fn to_string(&self) -> (s: String)
        requires
            self.covers(),
        ensures
            s@ == grid_text(self.n as nat, self.cells@, ' '),
    {
        self.to_pretty_string()
    }

    /// The grid as CSV: cells separated by commas (`.` for an empty cell), rows by
    /// newlines, no trailing newline.
    pub fn to_csv_string(&self) -> (s: String)
        requires
            self.covers(),
        ensures
            s@ == grid_text(self.n as nat, self.cells@, ','),
    {
        self.render(',')
    }
}

} // verus!
