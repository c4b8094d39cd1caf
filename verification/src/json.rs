//! The JSON form of a board: `{"n":n,"grid":[[...],...]}`.

use vstd::prelude::*;

use crate::board::{
    at, board_result, join, lemma_cell_div, lemma_cell_index, lemma_join_take, lemma_side_small, Board, CoreError,
    Digit, ErrorView,
};
use crate::parse::{
    cell_result, cells_result, collect, lemma_collect_err, lemma_collect_len, lemma_collect_step,
    read_rows, rows_board, CellReader,
};
use crate::text::{chars_of, dec, push_dec, string_from_chars, views};

verus! {

/// The compact JSON text of a list of lists of numbers: brackets around, commas
/// between, each number in decimal.
pub open spec fn json_grid_text(grid: Seq<Seq<u32>>) -> Seq<char> {
    "["@ + join(
        grid.map_values(
            |row: Seq<u32>| "["@ + join(row.map_values(|d: u32| dec(d as nat)), ',') + "]"@,
        ),
        ',',
    ) + "]"@
}

/// The view of each list in a list of lists of numbers.
pub open spec fn lists_view(v: Seq<Vec<u32>>) -> Seq<Seq<u32>> {
    v.map_values(|x: Vec<u32>| x@)
}

/// The rows of a board, each a list of its cells.
pub open spec fn grid_rows(n: nat, cells: Seq<u32>) -> Seq<Seq<u32>> {
    Seq::new(n, |r: int| Seq::new(n, |c: int| at(n, cells, r, c)))
}

/// The JSON text of a board: `{"n":` then `n`, then `,"grid":` then its rows.
pub open spec fn json_text(n: nat, cells: Seq<u32>) -> Seq<char> {
    "{\"n\":"@ + dec(n) + ",\"grid\":"@ + json_grid_text(grid_rows(n, cells)) + "}"@
}

/// Wraps `serde_json::to_string` on a `Vec<Vec<u32>>`.
/// Claims: the text is the compact JSON array of arrays of the numbers in decimal
/// (`CompactFormatter`: `[`, `,` between values, `]`; integers through `itoa`).
/// serde_json documents that `to_string` fails only when a `Serialize` impl fails or
/// a map has non-string keys, neither of which can happen here.
#[verifier::external_body]
fn json_of_grid(grid: &Vec<Vec<u32>>) -> (s: String)
    ensures
        s@ == json_grid_text(lists_view(grid@)),
{
    serde_json::to_string(grid).unwrap()
}

/// The rows of the board, as lists of cells.
fn grid_of(b: &Board) -> (grid: Vec<Vec<Digit>>)
    requires
        b.covers(),
    ensures
        lists_view(grid@) == grid_rows(b.n as nat, b.cells@),
{
    let n: usize = b.n;
    let len: usize = b.cells.len();
    let ghost nn = n as nat;
    let ghost rows = grid_rows(nn, b.cells@);
    let mut grid: Vec<Vec<Digit>> = Vec::new();
    let mut r: usize = 0;
    while r < n
        invariant
            r <= n,
            n == b.n,
            nn == n,
            b.covers(),
            n * n <= usize::MAX,
            rows == grid_rows(nn, b.cells@),
            lists_view(grid@) == rows.take(r as int),
        decreases n - r,
    {
        let mut row: Vec<Digit> = Vec::new();
        let mut c: usize = 0;
        while c < n
            invariant
                r < n,
                c <= n,
                n == b.n,
                nn == n,
                b.covers(),
                n * n <= usize::MAX,
                row@ == Seq::new(c as nat, |j: int| at(nn, b.cells@, r as int, j)),
            decreases n - c,
        {
            proof {
                lemma_cell_index(n as int, r as int, c as int);
            }
            row.push(b.cells[r * n + c]);
            c += 1;
            assert(row@ =~= Seq::new(c as nat, |j: int| at(nn, b.cells@, r as int, j)));
        }
        let ghost before = lists_view(grid@);
        let ghost rv = row@;
        grid.push(row);
        assert(rv =~= rows[r as int]);
        assert(lists_view(grid@) =~= before.push(rv));
        assert(rows.take(r + 1) =~= rows.take(r as int).push(rows[r as int]));
        r += 1;
    }
    assert(rows.take(n as int) =~= rows);
    grid
}

/// Appends the chars of `s`.
fn push_literal(out: &mut Vec<char>, s: &str)
    ensures
        final(out)@ == old(out)@ + s@,
{
    let mut v: Vec<char> = chars_of(s);
    out.append(&mut v);
}

impl Board {
    /// The board as JSON: `{"n":n,"grid":[[...],...]}`, the grid being the list of
    /// rows, each the list of its cells.
    pub fn to_json_string(&self) -> (s: String)
        requires
            self.covers(),
        ensures
            s@ == json_text(self.n as nat, self.cells@),
    {
        let grid: Vec<Vec<Digit>> = grid_of(self);
        let text: String = json_of_grid(&grid);
        let mut out: Vec<char> = Vec::new();
        push_literal(&mut out, "{\"n\":");
        push_dec(&mut out, self.n as u64);
        push_literal(&mut out, ",\"grid\":");
        let mut g: Vec<char> = chars_of(text.as_str());
        out.append(&mut g);
        push_literal(&mut out, "}");
        assert(out@ =~= json_text(self.n as nat, self.cells@));
        string_from_chars(&out)
    }
}


/// The cells of a square grid, row by row.
pub open spec fn grid_cells(n: nat, g: Seq<Seq<u32>>) -> Seq<u32> {
    Seq::new(n * n, |i: int| g[i / (n as int)][i % (n as int)])
}

/// The grid has `n` rows of `n` numbers.
pub open spec fn grid_square(n: nat, g: Seq<Seq<u32>>) -> bool {
    &&& g.len() == n
    &&& forall|r: int| 0 <= r < g.len() ==> #[trigger] g[r].len() == n
}

/// The reader of checked digits: a digit above `n` is refused.
pub open spec fn digit_cells(n: usize) -> CellReader<u32> {
    |i: int, d: u32|
        if d > n {
            Err(ErrorView::BadDigit { d, n })
        } else {
            Ok(seq![d])
        }
}

/// The board read from the `n` and `grid` fields of its JSON form: a grid that is
/// not `n` by `n` is refused first (`Parse`), then `n == 0` (`BadDim`), then the
/// first digit above `n` in row-major order (`BadDigit`).
pub open spec fn grid_board(n: usize, g: Seq<Seq<u32>>) -> Result<(nat, Seq<u32>), ErrorView> {
    if !grid_square(n as nat, g) {
        Err(ErrorView::Parse("grid must be n x n"@))
    } else if n == 0 {
        Err(ErrorView::BadDim)
    } else {
        match collect(grid_cells(n as nat, g), digit_cells(n)) {
            Ok(cs) => Ok((n as nat, cs)),
            Err(e) => Err(e),
        }
    }
}

/// The board read from the `n` and `rows` fields of the older JSON form: as many
/// rows as `n` (else `Parse`), read as `Board::from_rows` reads them.
pub open spec fn row_strings_board(n: usize, rows: Seq<Seq<char>>) -> Result<
    (nat, Seq<u32>),
    ErrorView,
> {
    if rows.len() != n {
        Err(ErrorView::Parse("rows length != n"@))
    } else {
        match rows_board(rows) {
            Err(e) => Err(e),
            Ok((m, cs)) => if m != n {
                Err(ErrorView::Parse("n mismatch"@))
            } else {
                Ok((m, cs))
            },
        }
    }
}

/// A `String` holding the chars of `s`.
fn text_of(s: &str) -> (t: String)
    ensures
        t@ == s@,
{
    string_from_chars(&chars_of(s))
}

impl Board {
    /// Reads a board from the `n` and `grid` fields of its JSON form.
    pub fn from_grid_values(n: usize, grid: &Vec<Vec<Digit>>) -> (res: Result<Board, CoreError>)
        requires
            grid_square(n as nat, lists_view(grid@)) ==> n * n <= usize::MAX,
        ensures
            board_result(res) == grid_board(n, lists_view(grid@)),
            res matches Ok(b) ==> b.wf(),
    {
        let ghost g = lists_view(grid@);
        let ghost nn = n as nat;
        let mut square: bool = grid.len() == n;
        let mut r: usize = 0;
        while r < grid.len()
            invariant
                r <= grid@.len(),
                g == lists_view(grid@),
                square == (grid@.len() == n && forall|i: int| 0 <= i < r ==> #[trigger] g[i].len()
                    == n),
            decreases grid@.len() - r,
        {
            assert(g[r as int] == grid@[r as int]@);
            if grid[r].len() != n {
                square = false;
            }
            r += 1;
        }
        if !square {
            return Err(CoreError::Parse(text_of("grid must be n x n")));
        }
        let mut b: Board = Board::new(n)?;
        let ghost flat = grid_cells(nn, g);
        proof {
            lemma_side_small(n as int);
        }
        let mut r: usize = 0;
        assert(flat.take(0) =~= Seq::<u32>::empty());
        while r < n
            invariant
                r <= n,
                0 < n,
                nn == n,
                n * n <= usize::MAX,
                n <= u32::MAX,
                g == lists_view(grid@),
                grid_square(nn, g),
                flat == grid_cells(nn, g),
                b.n == n,
                b.cells@.len() == n * n,
                forall|q: int| 0 <= q < r * n ==> #[trigger] b.cells@[q] == flat[q],
                collect(flat.take(r * n), digit_cells(n)) == Ok::<Seq<u32>, ErrorView>(
                    flat.take(r * n),
                ),
            decreases n - r,
        {
            let mut c: usize = 0;
            while c < n
                invariant
                    r < n,
                    c <= n,
                    0 < n,
                    nn == n,
                    n * n <= usize::MAX,
                    n <= u32::MAX,
                    g == lists_view(grid@),
                    grid_square(nn, g),
                    flat == grid_cells(nn, g),
                    b.n == n,
                    b.cells@.len() == n * n,
                    forall|q: int| 0 <= q < r * n + c ==> #[trigger] b.cells@[q] == flat[q],
                    collect(flat.take(r * n + c), digit_cells(n)) == Ok::<Seq<u32>, ErrorView>(
                        flat.take(r * n + c),
                    ),
                decreases n - c,
            {
                proof {
                    lemma_cell_index(n as int, r as int, c as int);
                    lemma_cell_div(n as int, r as int, c as int);
                    lemma_collect_step(flat, digit_cells(n), r * n + c);
                }
                let d: Digit = grid[r][c];
                assert(flat[r * n + c] == d);
                if d as usize > n {
                    proof {
                        lemma_collect_err(flat, digit_cells(n), r * n + c + 1);
                    }
                    return Err(CoreError::BadDigit { d, n });
                }
                b.cells.set(r * n + c, d);
                assert(digit_cells(n)(r * n + c, d) == Ok::<Seq<u32>, ErrorView>(seq![d]));
                assert(flat.take(r * n + c) + seq![d] =~= flat.take(r * n + c + 1));
                c += 1;
            }
            assert((r + 1) * n == r * n + n) by (nonlinear_arith);
            r += 1;
        }
        assert(flat.take(n * n) =~= flat);
        assert(b.cells@ =~= flat);
        proof {
            assert forall|q: int| 0 <= q < b.cells@.len() implies #[trigger] b.cells@[q] <= n by {
                lemma_collect_len(flat, digit_cells(n), 1, n as nat);
                assert(flat.len() == (n * n) as nat * 1) by (nonlinear_arith)
                    requires
                        flat.len() == n * n,
                ;
            }
        }
        Ok(b)
    }

    /// Reads a board from the `n` and `rows` fields of the older JSON form.
    pub fn from_row_strings(n: usize, rows: &Vec<String>) -> (res: Result<Board, CoreError>)
        ensures
            board_result(res) == row_strings_board(
                n,
                rows@.map_values(|s: String| s@),
            ),
            res matches Ok(b) ==> b.wf(),
    {
        if rows.len() != n {
            return Err(CoreError::Parse(text_of("rows length != n")));
        }
        let mut rv: Vec<Vec<char>> = Vec::new();
        let mut k: usize = 0;
        while k < rows.len()
            invariant
                k <= rows@.len(),
                views(rv@) == rows@.take(k as int).map_values(|s: String| s@),
            decreases rows@.len() - k,
        {
            let row: Vec<char> = chars_of(rows[k].as_str());
            let ghost before = views(rv@);
            let ghost row_view = row@;
            rv.push(row);
            assert(views(rv@) =~= before.push(row_view));
            assert(rows@.take(k + 1).map_values(|s: String| s@) =~= rows@.take(
                k as int,
            ).map_values(|s: String| s@).push(rows@[k as int]@));
            k += 1;
        }
        assert(rows@.take(rows@.len() as int) =~= rows@);
        let board: Board = read_rows(&rv)?;
        if board.n != n {
            return Err(CoreError::Parse(text_of("n mismatch")));
        }
        Ok(board)
    }
}

} // verus!
