//! Backtracking search for completions of a board (minimum-remaining-values order).

use vstd::prelude::*;

use crate::board::{
    at, candidates, lemma_cell_div, complete, consistent, col_distinct, digits_in_range, free_digits, in_col,
    in_row, lemma_cell_index, lemma_cell_index_injective, lemma_index_cell, lemma_side_small,
    row_distinct, Board, Digit,
};

verus! {

// ---------------------------------------------------------------------------
// Solutions.
// ---------------------------------------------------------------------------

/// `s` keeps every filled cell of `base`.
pub open spec fn extends(base: Seq<u32>, s: Seq<u32>) -> bool {
    &&& s.len() == base.len()
    &&& forall|i: int| 0 <= i < base.len() && base[i] != 0 ==> #[trigger] s[i] == base[i]
}

/// `s` is a solution of the `n`-board `base`: it fills every cell with a digit of
/// `1..=n`, keeps the filled cells of `base`, and no row or column repeats a digit.
pub open spec fn is_solution(n: nat, base: Seq<u32>, s: Seq<u32>) -> bool {
    &&& s.len() == n * n
    &&& extends(base, s)
    &&& forall|i: int| 0 <= i < s.len() ==> 1 <= #[trigger] s[i] <= n
    &&& consistent(n, s)
}

/// Some solution of `base` exists.
pub open spec fn solvable(n: nat, base: Seq<u32>) -> bool {
    exists|s: Seq<u32>| is_solution(n, base, s)
}

/// All solutions of `base`.
pub open spec fn solutions(n: nat, base: Seq<u32>) -> Set<Seq<u32>> {
    Set::new(|s: Seq<u32>| is_solution(n, base, s))
}

/// The number of empty cells.
pub open spec fn empty_count(s: Seq<u32>) -> nat
    decreases s.len(),
{
    if s.len() == 0 {
        0
    } else {
        empty_count(s.drop_last()) + if s.last() == 0 {
            1nat
        } else {
            0nat
        }
    }
}

/// The usage tables agree with the board: `ru[r][d]` says whether digit `d` stands
/// in row `r`, `cu[c][d]` whether it stands in column `c`.
pub open spec fn tables_match(
    n: nat,
    cells: Seq<u32>,
    ru: Seq<Vec<bool>>,
    cu: Seq<Vec<bool>>,
) -> bool {
    &&& ru.len() == n
    &&& cu.len() == n
    &&& forall|r: int| 0 <= r < n ==> #[trigger] ru[r]@.len() == n + 1
    &&& forall|c: int| 0 <= c < n ==> #[trigger] cu[c]@.len() == n + 1
    &&& forall|r: int, d: int|
        0 <= r < n && 1 <= d <= n ==> (#[trigger] ru[r]@[d] <==> in_row(n, cells, r, d as u32))
    &&& forall|c: int, d: int|
        0 <= c < n && 1 <= d <= n ==> (#[trigger] cu[c]@[d] <==> in_col(n, cells, c, d as u32))
}

// ---------------------------------------------------------------------------
// The search order.
// ---------------------------------------------------------------------------

/// The number of digits free at cell `i` (the cell at position `i` in row-major order).
pub open spec fn free_count(n: nat, cells: Seq<u32>, i: int) -> nat {
    candidates(n, cells, i / (n as int), i % (n as int)).len()
}

/// Cell `i` is empty and has at most one free digit.
pub open spec fn tight(n: nat, cells: Seq<u32>, i: int) -> bool {
    &&& 0 <= i < n * n
    &&& cells[i] == 0
    &&& free_count(n, cells, i) <= 1
}

/// Cell `i` is the first tight cell in row-major order.
pub open spec fn first_tight(n: nat, cells: Seq<u32>, i: int) -> bool {
    &&& tight(n, cells, i)
    &&& forall|j: int| 0 <= j < i ==> !#[trigger] tight(n, cells, j)
}

/// Cell `i` is the first empty cell, in row-major order, with the fewest free digits.
pub open spec fn first_fewest(n: nat, cells: Seq<u32>, i: int) -> bool {
    &&& 0 <= i < n * n
    &&& cells[i] == 0
    &&& forall|j: int|
        0 <= j < n * n && #[trigger] cells[j] == 0 ==> free_count(n, cells, j) >= free_count(
            n,
            cells,
            i,
        )
    &&& forall|j: int|
        0 <= j < i && #[trigger] cells[j] == 0 ==> free_count(n, cells, j) > free_count(n, cells, i)
}

/// The cell that the search fills next: the first empty cell with at most one free
/// digit; failing that, the first with the fewest; none when no cell is empty.
pub open spec fn next_cell(n: nat, cells: Seq<u32>) -> Option<int> {
    if exists|i: int| first_tight(n, cells, i) {
        Some(choose|i: int| first_tight(n, cells, i))
    } else if exists|i: int| first_fewest(n, cells, i) {
        Some(choose|i: int| first_fewest(n, cells, i))
    } else {
        None
    }
}

/// The completion that the search finds: with no empty cell, the board itself;
/// otherwise the first completion found by placing the free digits of the next
/// cell in increasing order.
pub open spec fn search(n: nat, cells: Seq<u32>) -> Option<Seq<u32>>
    decreases empty_count(cells), 1int, 0int,
{
    match next_cell(n, cells) {
        None => Some(cells),
        Some(i) => search_from(n, cells, i, candidates(n, cells, i / (n as int), i % (n as int)), 0),
    }
}

/// The first completion found by placing `opts[k]`, `opts[k + 1]`, ... at cell `i`.
pub open spec fn search_from(n: nat, cells: Seq<u32>, i: int, opts: Seq<u32>, k: int) -> Option<
    Seq<u32>,
>
    decreases empty_count(cells), 0int, opts.len() - k,
{
    if k < 0 || k >= opts.len() || !(0 <= i < cells.len() && cells[i] == 0 && opts[k] != 0) {
        None
    } else {
        proof {
            lemma_empty_count_fill(cells, i, opts[k]);
        }
        match search(n, cells.update(i, opts[k])) {
            Some(s) => Some(s),
            None => search_from(n, cells, i, opts, k + 1),
        }
    }
}

/// What `solve` returns: nothing for an inconsistent board, else what the search finds.
pub open spec fn solve_result(n: nat, cells: Seq<u32>) -> Option<Seq<u32>> {
    if consistent(n, cells) {
        search(n, cells)
    } else {
        None
    }
}

/// There is only one first tight cell and only one first cell with the fewest free digits.
pub proof fn lemma_first_unique(n: nat, cells: Seq<u32>, i: int, j: int)
    ensures
        first_tight(n, cells, i) && first_tight(n, cells, j) ==> i == j,
        first_fewest(n, cells, i) && first_fewest(n, cells, j) ==> i == j,
{
    if first_tight(n, cells, i) && first_tight(n, cells, j) {
        if i < j {
            assert(!tight(n, cells, i));
        } else if j < i {
            assert(!tight(n, cells, j));
        }
    }
    if first_fewest(n, cells, i) && first_fewest(n, cells, j) {
        if i < j {
            assert(cells[i] == 0);
        } else if j < i {
            assert(cells[j] == 0);
        }
    }
}

// ---------------------------------------------------------------------------
// Lemmas.
// ---------------------------------------------------------------------------

/// Filling an empty cell removes one empty cell.
pub proof fn lemma_empty_count_fill(s: Seq<u32>, i: int, d: u32)
    requires
        0 <= i < s.len(),
        s[i] == 0,
        d != 0,
    ensures
        empty_count(s.update(i, d)) + 1 == empty_count(s),
    decreases s.len(),
{
    let t = s.update(i, d);
    if i == s.len() - 1 {
        assert(t.drop_last() =~= s.drop_last());
    } else {
        assert(t.drop_last() =~= s.drop_last().update(i, d));
        lemma_empty_count_fill(s.drop_last(), i, d);
    }
}

/// What `free_digits` holds: increasing digits of `1..=k`, free in row `r` and
/// column `c`, and every such digit.
pub proof fn lemma_free_digits(n: nat, cells: Seq<u32>, r: int, c: int, k: nat)
    requires
        k <= u32::MAX,
    ensures
        free_digits(n, cells, r, c, k).len() <= k,
        forall|j: int|
            0 <= j < free_digits(n, cells, r, c, k).len() ==> {
                let x = #[trigger] free_digits(n, cells, r, c, k)[j];
                &&& 1 <= x <= k
                &&& !in_row(n, cells, r, x)
                &&& !in_col(n, cells, c, x)
            },
        forall|x: u32|
            1 <= x <= k && !in_row(n, cells, r, x) && !in_col(n, cells, c, x) ==> #[trigger] free_digits(
                n,
                cells,
                r,
                c,
                k,
            ).contains(x),
        forall|i: int, j: int|
            0 <= i < j < free_digits(n, cells, r, c, k).len() ==> #[trigger] free_digits(
                n,
                cells,
                r,
                c,
                k,
            )[i] < #[trigger] free_digits(n, cells, r, c, k)[j],
    decreases k,
{
    if k > 0 {
        lemma_free_digits(n, cells, r, c, (k - 1) as nat);
        let p = free_digits(n, cells, r, c, (k - 1) as nat);
        let f = free_digits(n, cells, r, c, k);
        assert forall|x: u32|
            1 <= x <= k && !in_row(n, cells, r, x) && !in_col(n, cells, c, x) implies #[trigger] f.contains(
            x,
        ) by {
            if x == k {
                assert(f[f.len() - 1] == x);
            } else {
                assert(p.contains(x));
                let j = choose|j: int| 0 <= j < p.len() && p[j] == x;
                assert(f[j] == x);
            }
        }
    }
}

/// A cell of a solution holds a digit free in the base's row and column there.
pub proof fn lemma_solution_value_free(n: nat, cells: Seq<u32>, r: int, c: int, s: Seq<u32>)
    requires
        is_solution(n, cells, s),
        0 <= r < n,
        0 <= c < n,
        at(n, cells, r, c) == 0,
    ensures
        1 <= at(n, s, r, c) <= n,
        !in_row(n, cells, r, at(n, s, r, c)),
        !in_col(n, cells, c, at(n, s, r, c)),
{
    lemma_cell_index(n as int, r, c);
    let v = at(n, s, r, c);
    if in_row(n, cells, r, v) {
        let c2 = choose|c2: int| 0 <= c2 < n && #[trigger] at(n, cells, r, c2) == v;
        lemma_cell_index(n as int, r, c2);
        assert(s[r * n + c2] == cells[r * n + c2]);
        assert(row_distinct(n, s, r));
        assert(at(n, s, r, c2) == at(n, s, r, c));
    }
    if in_col(n, cells, c, v) {
        let r2 = choose|r2: int| 0 <= r2 < n && #[trigger] at(n, cells, r2, c) == v;
        lemma_cell_index(n as int, r2, c);
        assert(s[r2 * n + c] == cells[r2 * n + c]);
        assert(col_distinct(n, s, c));
        assert(at(n, s, r2, c) == at(n, s, r, c));
    }
}

/// Solutions of the board with `d` placed at an empty cell are exactly the
/// solutions of the board that hold `d` there.
pub proof fn lemma_solution_place(n: nat, cells: Seq<u32>, i: int, d: u32, s: Seq<u32>)
    requires
        0 <= i < cells.len(),
        cells[i] == 0,
        d != 0,
    ensures
        is_solution(n, cells.update(i, d), s) <==> (is_solution(n, cells, s) && s[i] == d),
{
    let t = cells.update(i, d);
    if is_solution(n, t, s) {
        assert(s[i] == t[i]);
        assert forall|j: int| 0 <= j < cells.len() && cells[j] != 0 implies #[trigger] s[j]
            == cells[j] by {
            assert(t[j] == cells[j]);
        }
    }
    if is_solution(n, cells, s) && s[i] == d {
        assert forall|j: int| 0 <= j < t.len() && t[j] != 0 implies #[trigger] s[j] == t[j] by {
            if j != i {
                assert(t[j] == cells[j]);
            }
        }
    }
}

/// A complete, consistent board with digits in range is its own solution.
pub proof fn lemma_complete_solution(n: nat, cells: Seq<u32>)
    requires
        cells.len() == n * n,
        digits_in_range(n, cells),
        complete(cells),
        consistent(n, cells),
    ensures
        is_solution(n, cells, cells),
{
}

/// An inconsistent board has no solution.
pub proof fn lemma_inconsistent_unsolvable(n: nat, cells: Seq<u32>)
    requires
        cells.len() == n * n,
        !consistent(n, cells),
    ensures
        !solvable(n, cells),
{
    if solvable(n, cells) {
        let s = choose|s: Seq<u32>| is_solution(n, cells, s);
        if !(forall|r: int| 0 <= r < n ==> #[trigger] row_distinct(n, cells, r)) {
            let r = choose|r: int| 0 <= r < n && !#[trigger] row_distinct(n, cells, r);
            let (c1, c2) = choose|c1: int, c2: int|
                0 <= c1 < n && 0 <= c2 < n && c1 != c2 && at(n, cells, r, c1) != 0 && at(
                    n,
                    cells,
                    r,
                    c1,
                ) == at(n, cells, r, c2);
            lemma_cell_index(n as int, r, c1);
            lemma_cell_index(n as int, r, c2);
            assert(s[r * n + c1] == cells[r * n + c1]);
            assert(s[r * n + c2] == cells[r * n + c2]);
            assert(row_distinct(n, s, r));
            assert(at(n, s, r, c1) == at(n, s, r, c2));
        } else {
            let c = choose|c: int| 0 <= c < n && !#[trigger] col_distinct(n, cells, c);
            let (r1, r2) = choose|r1: int, r2: int|
                0 <= r1 < n && 0 <= r2 < n && r1 != r2 && at(n, cells, r1, c) != 0 && at(
                    n,
                    cells,
                    r1,
                    c,
                ) == at(n, cells, r2, c);
            lemma_cell_index(n as int, r1, c);
            lemma_cell_index(n as int, r2, c);
            assert(s[r1 * n + c] == cells[r1 * n + c]);
            assert(s[r2 * n + c] == cells[r2 * n + c]);
            assert(col_distinct(n, s, c));
            assert(at(n, s, r1, c) == at(n, s, r2, c));
        }
    }
}

/// Placing a free digit at an empty cell: rows and columns gain exactly that digit.
pub proof fn lemma_place_usage(n: nat, cells: Seq<u32>, r: int, c: int, d: u32)
    requires
        cells.len() == n * n,
        0 <= r < n,
        0 <= c < n,
        at(n, cells, r, c) == 0,
        d != 0,
    ensures
        ({
            let t = cells.update(r * n + c, d);
            &&& forall|r2: int, d2: u32|
                0 <= r2 < n && d2 != 0 ==> (#[trigger] in_row(n, t, r2, d2) <==> (in_row(
                    n,
                    cells,
                    r2,
                    d2,
                ) || (r2 == r && d2 == d)))
            &&& forall|c2: int, d2: u32|
                0 <= c2 < n && d2 != 0 ==> (#[trigger] in_col(n, t, c2, d2) <==> (in_col(
                    n,
                    cells,
                    c2,
                    d2,
                ) || (c2 == c && d2 == d)))
        }),
{
    let t = cells.update(r * n + c, d);
    lemma_cell_index(n as int, r, c);
    assert forall|r2: int, d2: u32| 0 <= r2 < n && d2 != 0 implies (#[trigger] in_row(
        n,
        t,
        r2,
        d2,
    ) <==> (in_row(n, cells, r2, d2) || (r2 == r && d2 == d))) by {
        if in_row(n, t, r2, d2) {
            let c2 = choose|c2: int| 0 <= c2 < n && #[trigger] at(n, t, r2, c2) == d2;
            lemma_cell_index(n as int, r2, c2);
            if r2 * n + c2 == r * n + c {
                lemma_cell_index_injective(n as int, r2, c2, r, c);
            } else {
                assert(at(n, cells, r2, c2) == d2);
            }
        }
        if in_row(n, cells, r2, d2) {
            let c2 = choose|c2: int| 0 <= c2 < n && #[trigger] at(n, cells, r2, c2) == d2;
            lemma_cell_index(n as int, r2, c2);
            if r2 * n + c2 == r * n + c {
                lemma_cell_index_injective(n as int, r2, c2, r, c);
            } else {
                assert(at(n, t, r2, c2) == d2);
            }
        }
        if r2 == r && d2 == d {
            assert(at(n, t, r, c) == d);
        }
    }
    assert forall|c2: int, d2: u32| 0 <= c2 < n && d2 != 0 implies (#[trigger] in_col(
        n,
        t,
        c2,
        d2,
    ) <==> (in_col(n, cells, c2, d2) || (c2 == c && d2 == d))) by {
        if in_col(n, t, c2, d2) {
            let r2 = choose|r2: int| 0 <= r2 < n && #[trigger] at(n, t, r2, c2) == d2;
            lemma_cell_index(n as int, r2, c2);
            if r2 * n + c2 == r * n + c {
                lemma_cell_index_injective(n as int, r2, c2, r, c);
            } else {
                assert(at(n, cells, r2, c2) == d2);
            }
        }
        if in_col(n, cells, c2, d2) {
            let r2 = choose|r2: int| 0 <= r2 < n && #[trigger] at(n, cells, r2, c2) == d2;
            lemma_cell_index(n as int, r2, c2);
            if r2 * n + c2 == r * n + c {
                lemma_cell_index_injective(n as int, r2, c2, r, c);
            } else {
                assert(at(n, t, r2, c2) == d2);
            }
        }
        if c2 == c && d2 == d {
            assert(at(n, t, r, c) == d);
        }
    }
}

/// Placing a digit free in its row and column at an empty cell keeps the board consistent.
pub proof fn lemma_place_consistent(n: nat, cells: Seq<u32>, r: int, c: int, d: u32)
    requires
        cells.len() == n * n,
        consistent(n, cells),
        0 <= r < n,
        0 <= c < n,
        at(n, cells, r, c) == 0,
        d != 0,
        !in_row(n, cells, r, d),
        !in_col(n, cells, c, d),
    ensures
        consistent(n, cells.update(r * n + c, d)),
{
    let t = cells.update(r * n + c, d);
    lemma_cell_index(n as int, r, c);
    assert forall|r2: int| 0 <= r2 < n implies #[trigger] row_distinct(n, t, r2) by {
        assert forall|c1: int, c2: int|
            0 <= c1 < n && 0 <= c2 < n && c1 != c2 && at(n, t, r2, c1) != 0 implies at(
            n,
            t,
            r2,
            c1,
        ) != at(n, t, r2, c2) by {
            lemma_cell_index(n as int, r2, c1);
            lemma_cell_index(n as int, r2, c2);
            let hit1 = r2 * n + c1 == r * n + c;
            let hit2 = r2 * n + c2 == r * n + c;
            if hit1 {
                lemma_cell_index_injective(n as int, r2, c1, r, c);
            }
            if hit2 {
                lemma_cell_index_injective(n as int, r2, c2, r, c);
            }
            if !hit1 && !hit2 {
                assert(row_distinct(n, cells, r2));
                assert(at(n, cells, r2, c1) == at(n, t, r2, c1));
                assert(at(n, cells, r2, c2) == at(n, t, r2, c2));
            } else if hit1 {
                assert(at(n, cells, r2, c2) == at(n, t, r2, c2));
            } else {
                assert(at(n, cells, r2, c1) == at(n, t, r2, c1));
            }
        }
    }
    assert forall|c2: int| 0 <= c2 < n implies #[trigger] col_distinct(n, t, c2) by {
        assert forall|r1: int, r3: int|
            0 <= r1 < n && 0 <= r3 < n && r1 != r3 && at(n, t, r1, c2) != 0 implies at(
            n,
            t,
            r1,
            c2,
        ) != at(n, t, r3, c2) by {
            lemma_cell_index(n as int, r1, c2);
            lemma_cell_index(n as int, r3, c2);
            let hit1 = r1 * n + c2 == r * n + c;
            let hit3 = r3 * n + c2 == r * n + c;
            if hit1 {
                lemma_cell_index_injective(n as int, r1, c2, r, c);
            }
            if hit3 {
                lemma_cell_index_injective(n as int, r3, c2, r, c);
            }
            if !hit1 && !hit3 {
                assert(col_distinct(n, cells, c2));
                assert(at(n, cells, r1, c2) == at(n, t, r1, c2));
                assert(at(n, cells, r3, c2) == at(n, t, r3, c2));
            } else if hit1 {
                assert(at(n, cells, r3, c2) == at(n, t, r3, c2));
            } else {
                assert(at(n, cells, r1, c2) == at(n, t, r1, c2));
            }
        }
    }
}


// ---------------------------------------------------------------------------
// Search.
// ---------------------------------------------------------------------------

/// The usage tables of a board: which digits stand in each row and each column.
fn used_tables(board: &Board) -> (res: (Vec<Vec<bool>>, Vec<Vec<bool>>))
    requires
        board.wf(),
    ensures
        tables_match(board.n as nat, board.cells@, res.0@, res.1@),
{
    let n: usize = board.n;
    let len: usize = board.cells.len();
    let ghost cells = board.cells@;
    let ghost nn = n as nat;
    proof {
        lemma_side_small(n as int);
    }
    let mut row_used: Vec<Vec<bool>> = Vec::new();
    let mut col_used: Vec<Vec<bool>> = Vec::new();
    let mut k: usize = 0;
    while k < n
        invariant
            k <= n,
            n + 1 <= usize::MAX,
            row_used@.len() == k,
            col_used@.len() == k,
            forall|i: int| 0 <= i < k ==> #[trigger] row_used@[i]@ == Seq::new((n + 1) as nat, |j: int| false),
            forall|i: int| 0 <= i < k ==> #[trigger] col_used@[i]@ == Seq::new((n + 1) as nat, |j: int| false),
        decreases n - k,
    {
        let mut a: Vec<bool> = Vec::new();
        let mut j: usize = 0;
        while j <= n
            invariant
                j <= n + 1,
                n + 1 <= usize::MAX,
                a@ == Seq::new(j as nat, |i: int| false),
            decreases n + 1 - j,
        {
            a.push(false);
            j += 1;
            assert(a@ =~= Seq::new(j as nat, |i: int| false));
        }
        let b: Vec<bool> = a.clone();
        assert(b@ =~= a@);
        row_used.push(a);
        col_used.push(b);
        k += 1;
    }
    let mut r: usize = 0;
    while r < n
        invariant
            r <= n,
            n == board.n,
            nn == n,
            cells == board.cells@,
            board.wf(),
            n * n <= usize::MAX,
            n <= u32::MAX,
            row_used@.len() == n,
            col_used@.len() == n,
            forall|i: int| 0 <= i < n ==> #[trigger] row_used@[i]@.len() == n + 1,
            forall|i: int| 0 <= i < n ==> #[trigger] col_used@[i]@.len() == n + 1,
            forall|i: int, d: int|
                0 <= i < r && 1 <= d <= n ==> (#[trigger] row_used@[i]@[d] <==> in_row(
                    nn,
                    cells,
                    i,
                    d as u32,
                )),
            forall|i: int, d: int|
                r <= i < n && 1 <= d <= n ==> !#[trigger] row_used@[i]@[d],
            forall|c: int, d: int|
                0 <= c < n && 1 <= d <= n ==> (#[trigger] col_used@[c]@[d] <==> exists|i: int|
                    0 <= i < r && at(nn, cells, i, c) == d),
        decreases n - r,
    {
        let mut c: usize = 0;
        while c < n
            invariant
                r < n,
                c <= n,
                n == board.n,
                nn == n,
                cells == board.cells@,
                board.wf(),
                n * n <= usize::MAX,
                n <= u32::MAX,
                row_used@.len() == n,
                col_used@.len() == n,
                forall|i: int| 0 <= i < n ==> #[trigger] row_used@[i]@.len() == n + 1,
                forall|i: int| 0 <= i < n ==> #[trigger] col_used@[i]@.len() == n + 1,
                forall|i: int, d: int|
                    0 <= i < r && 1 <= d <= n ==> (#[trigger] row_used@[i]@[d] <==> in_row(
                        nn,
                        cells,
                        i,
                        d as u32,
                    )),
                forall|d: int|
                    1 <= d <= n ==> (#[trigger] row_used@[r as int]@[d] <==> exists|j: int|
                        0 <= j < c && at(nn, cells, r as int, j) == d),
                forall|i: int, d: int|
                    r < i < n && 1 <= d <= n ==> !#[trigger] row_used@[i]@[d],
                forall|cc: int, d: int|
                    0 <= cc < n && 1 <= d <= n ==> (#[trigger] col_used@[cc]@[d] <==> exists|i: int|
                        (0 <= i < r || (i == r && cc < c)) && at(nn, cells, i, cc) == d),
            decreases n - c,
        {
            proof {
                lemma_cell_index(n as int, r as int, c as int);
            }
            let d: usize = board.cells[r * n + c] as usize;
            assert(at(nn, cells, r as int, c as int) == d);
            if d != 0 {
                row_used[r][d] = true;
                col_used[c][d] = true;
            }
            proof {
                assert forall|cc: int, d2: int|
                    0 <= cc < n && 1 <= d2 <= n implies (#[trigger] col_used@[cc]@[d2] <==> exists|
                    i: int,
                | (0 <= i < r || (i == r && cc < c + 1)) && at(nn, cells, i, cc) == d2) by {
                    if cc == c && d2 == d {
                        assert(at(nn, cells, r as int, cc) == d2);
                    }
                }
                assert forall|d2: int|
                    1 <= d2 <= n implies (#[trigger] row_used@[r as int]@[d2] <==> exists|j: int|
                    0 <= j < c + 1 && at(nn, cells, r as int, j) == d2) by {
                    if d2 == d {
                        assert(at(nn, cells, r as int, c as int) == d2);
                    }
                }
            }
            c += 1;
        }
        assert forall|d: int| 1 <= d <= n implies (#[trigger] row_used@[r as int]@[d] <==> in_row(
            nn,
            cells,
            r as int,
            d as u32,
        )) by {
            assert((d as u32) as int == d);
        }
        r += 1;
    }
    assert forall|c: int, d: int| 0 <= c < n && 1 <= d <= n implies (#[trigger] col_used@[c]@[d]
        <==> in_col(nn, cells, c, d as u32)) by {
        assert((d as u32) as int == d);
    }
    (row_used, col_used)
}


/// The digits free at `(r, c)`, in increasing order, read from the usage tables.
fn options(
    n: usize,
    board: &Board,
    row_used: &Vec<Vec<bool>>,
    col_used: &Vec<Vec<bool>>,
    r: usize,
    c: usize,
) -> (opts: Vec<Digit>)
    requires
        board.wf(),
        board.n == n,
        r < n,
        c < n,
        tables_match(n as nat, board.cells@, row_used@, col_used@),
    ensures
        opts@ == candidates(n as nat, board.cells@, r as int, c as int),
        opts@.len() <= n,
{
    let len: usize = board.cells.len();
    proof {
        lemma_side_small(n as int);
        lemma_free_digits(n as nat, board.cells@, r as int, c as int, n as nat);
    }
    let mut opts: Vec<Digit> = Vec::new();
    let mut d: usize = 1;
    while d <= n
        invariant
            1 <= d <= n + 1,
            r < n,
            c < n,
            n <= u32::MAX,
            n + 1 <= usize::MAX,
            tables_match(n as nat, board.cells@, row_used@, col_used@),
            opts@ == free_digits(n as nat, board.cells@, r as int, c as int, (d - 1) as nat),
        decreases n + 1 - d,
    {
        if !row_used[r][d] && !col_used[c][d] {
            opts.push(d as Digit);
        }
        d += 1;
    }
    opts
}

/// The cell to fill next, with the digits free there, as `next_cell` chooses it:
/// the first empty cell without any free digit or with exactly one, else the first
/// with the fewest. `None` when no cell is empty.
fn mrv(n: usize, board: &Board, row_used: &Vec<Vec<bool>>, col_used: &Vec<Vec<bool>>) -> (res:
    Option<(usize, usize, Vec<Digit>)>)
    requires
        board.wf(),
        board.n == n,
        tables_match(n as nat, board.cells@, row_used@, col_used@),
    ensures
        res is None ==> complete(board.cells@) && next_cell(n as nat, board.cells@) is None,
        res matches Some((r, c, opts)) ==> r < n && c < n && at(
            n as nat,
            board.cells@,
            r as int,
            c as int,
        ) == 0 && opts@ == candidates(n as nat, board.cells@, r as int, c as int) && next_cell(
            n as nat,
            board.cells@,
        ) == Some(r * n + c),
{
    let len: usize = board.cells.len();
    let ghost cells = board.cells@;
    let ghost nn = n as nat;
    proof {
        lemma_side_small(n as int);
    }
    let mut best: Option<(usize, usize, Vec<Digit>)> = None;
    let mut r: usize = 0;
    while r < n
        invariant
            r <= n,
            n == board.n,
            nn == n,
            cells == board.cells@,
            board.wf(),
            n * n <= usize::MAX,
            n < usize::MAX,
            tables_match(nn, cells, row_used@, col_used@),
            forall|j: int| 0 <= j < r * n ==> !#[trigger] tight(nn, cells, j),
            best is None ==> forall|j: int| 0 <= j < r * n ==> #[trigger] cells[j] != 0,
            best matches Some((br, bc, bo)) ==> {
                &&& br < n
                &&& bc < n
                &&& br * n + bc < r * n
                &&& at(nn, cells, br as int, bc as int) == 0
                &&& bo@ == candidates(nn, cells, br as int, bc as int)
                &&& bo@.len() >= 2
                &&& forall|j: int|
                    0 <= j < r * n && #[trigger] cells[j] == 0 ==> free_count(nn, cells, j)
                        >= bo@.len()
                &&& forall|j: int|
                    0 <= j < br * n + bc && #[trigger] cells[j] == 0 ==> free_count(nn, cells, j)
                        > bo@.len()
            },
        decreases n - r,
    {
        let mut c: usize = 0;
        while c < n
            invariant
                r < n,
                c <= n,
                n == board.n,
                nn == n,
                cells == board.cells@,
                board.wf(),
                n * n <= usize::MAX,
                n < usize::MAX,
                tables_match(nn, cells, row_used@, col_used@),
                forall|j: int| 0 <= j < r * n + c ==> !#[trigger] tight(nn, cells, j),
                best is None ==> forall|j: int| 0 <= j < r * n + c ==> #[trigger] cells[j] != 0,
                best matches Some((br, bc, bo)) ==> {
                    &&& br < n
                    &&& bc < n
                    &&& br * n + bc < r * n + c
                    &&& at(nn, cells, br as int, bc as int) == 0
                    &&& bo@ == candidates(nn, cells, br as int, bc as int)
                    &&& bo@.len() >= 2
                    &&& forall|j: int|
                        0 <= j < r * n + c && #[trigger] cells[j] == 0 ==> free_count(nn, cells, j)
                            >= bo@.len()
                    &&& forall|j: int|
                        0 <= j < br * n + bc && #[trigger] cells[j] == 0 ==> free_count(
                            nn,
                            cells,
                            j,
                        ) > bo@.len()
                },
            decreases n - c,
        {
            proof {
                lemma_cell_index(n as int, r as int, c as int);
                lemma_cell_div(n as int, r as int, c as int);
            }
            let ghost p = r * n + c;
            if board.cells[r * n + c] == 0 {
                let opts: Vec<Digit> = options(n, board, row_used, col_used, r, c);
                assert(free_count(nn, cells, p) == opts@.len());
                if opts.len() == 0 {
                    proof {
                        assert(first_tight(nn, cells, p));
                        let i = choose|i: int| first_tight(nn, cells, i);
                        lemma_first_unique(nn, cells, i, p);
                    }
                    return Some((r, c, opts));
                }
                let best_len: usize = match &best {
                    Some((_, _, v)) => v.len(),
                    None => usize::MAX,
                };
                if best_len > opts.len() {
                    let one: bool = opts.len() == 1;
                    best = Some((r, c, opts));
                    if one {
                        proof {
                            assert(first_tight(nn, cells, p));
                            let i = choose|i: int| first_tight(nn, cells, i);
                            lemma_first_unique(nn, cells, i, p);
                        }
                        return best;
                    }
                }
            }
            assert((r * n + c) + 1 == r * n + (c + 1));
            c += 1;
        }
        assert(r * n + n == (r + 1) * n) by (nonlinear_arith);
        r += 1;
    }
    proof {
        assert(n * n == r * n);
        assert(!exists|i: int| first_tight(nn, cells, i));
        match &best {
            None => {
                assert forall|i: int| 0 <= i < cells.len() implies #[trigger] cells[i] != 0 by {}
                assert(!exists|i: int| first_fewest(nn, cells, i));
            },
            Some((br, bc, bo)) => {
                let br = *br;
                let bc = *bc;
                let bi = br * n + bc;
                lemma_cell_div(n as int, br as int, bc as int);
                assert(free_count(nn, cells, bi) == bo@.len());
                assert(first_fewest(nn, cells, bi));
                let i = choose|i: int| first_fewest(nn, cells, i);
                lemma_first_unique(nn, cells, i, bi);
            },
        }
    }
    best
}

/// Fills the empty cells depth-first. On success the board holds a solution of the
/// board it started from; otherwise that board has no solution and is restored.
fn backtrack(
    n: usize,
    board: &mut Board,
    row_used: &mut Vec<Vec<bool>>,
    col_used: &mut Vec<Vec<bool>>,
) -> (found: bool)
    requires
        old(board).wf(),
        old(board).n == n,
        consistent(n as nat, old(board).cells@),
        tables_match(n as nat, old(board).cells@, old(row_used)@, old(col_used)@),
    ensures
        final(board).n == n,
        final(board).wf(),
        tables_match(n as nat, final(board).cells@, final(row_used)@, final(col_used)@),
        found ==> is_solution(n as nat, old(board).cells@, final(board).cells@),
        !found ==> final(board).cells@ == old(board).cells@ && !solvable(
            n as nat,
            old(board).cells@,
        ),
        found == search(n as nat, old(board).cells@) is Some,
        found ==> search(n as nat, old(board).cells@) == Some(final(board).cells@),
    decreases empty_count(old(board).cells@),
{
    let ghost cells0 = board.cells@;
    let ghost nn = n as nat;
    let len: usize = board.cells.len();
    proof {
        lemma_side_small(n as int);
    }
    let next = mrv(n, board, row_used, col_used);
    let (r, c, opts) = match next {
        None => {
            proof {
                lemma_complete_solution(nn, cells0);
            }
            return true;
        },
        Some(found) => found,
    };
    proof {
        lemma_free_digits(nn, cells0, r as int, c as int, nn);
        lemma_cell_index(n as int, r as int, c as int);
        lemma_cell_div(n as int, r as int, c as int);
    }
    let ghost idx = r * n + c;
    assert(search(nn, cells0) == search_from(nn, cells0, idx, opts@, 0));
    if opts.len() == 0 {
        proof {
            if solvable(nn, cells0) {
                let s = choose|s: Seq<u32>| is_solution(nn, cells0, s);
                lemma_solution_value_free(nn, cells0, r as int, c as int, s);
                assert(candidates(nn, cells0, r as int, c as int).contains(
                    at(nn, s, r as int, c as int),
                ));
            }
        }
        return false;
    }
    let mut k: usize = 0;
    while k < opts.len()
        invariant
            k <= opts@.len(),
            r < n,
            c < n,
            idx == r * n + c,
            0 <= idx < n * n,
            nn == n,
            n * n <= usize::MAX,
            n <= u32::MAX,
            board.n == n,
            board.cells@ == cells0,
            old(board).cells@ == cells0,
            board.wf(),
            consistent(nn, cells0),
            at(nn, cells0, r as int, c as int) == 0,
            opts@ == candidates(nn, cells0, r as int, c as int),
            forall|j: int|
                0 <= j < opts@.len() ==> {
                    let x = #[trigger] opts@[j];
                    &&& 1 <= x <= nn
                    &&& !in_row(nn, cells0, r as int, x)
                    &&& !in_col(nn, cells0, c as int, x)
                },
            tables_match(nn, cells0, row_used@, col_used@),
            forall|j: int| 0 <= j < k ==> !solvable(nn, #[trigger] cells0.update(idx, opts@[j])),
            search(nn, cells0) == search_from(nn, cells0, idx, opts@, k as int),
        decreases opts@.len() - k,
    {
        let d: Digit = opts[k];
        let du: usize = d as usize;
        if row_used[r][du] || col_used[c][du] {
            k += 1;
            continue;
        }
        board.cells.set(r * n + c, d);
        row_used[r][du] = true;
        col_used[c][du] = true;
        let ghost cells1 = board.cells@;
        proof {
            assert(cells1 == cells0.update(idx, d));
            lemma_place_usage(nn, cells0, r as int, c as int, d);
            lemma_place_consistent(nn, cells0, r as int, c as int, d);
            lemma_empty_count_fill(cells0, idx, d);
            assert(tables_match(nn, cells1, row_used@, col_used@)) by {
                assert forall|r2: int, d2: int| 0 <= r2 < n && 1 <= d2 <= n implies (
                #[trigger] row_used@[r2]@[d2] <==> in_row(nn, cells1, r2, d2 as u32)) by {
                    assert(in_row(nn, cells1, r2, d2 as u32) <==> (in_row(nn, cells0, r2, d2 as u32)
                        || (r2 == r && d2 as u32 == d)));
                }
                assert forall|c2: int, d2: int| 0 <= c2 < n && 1 <= d2 <= n implies (
                #[trigger] col_used@[c2]@[d2] <==> in_col(nn, cells1, c2, d2 as u32)) by {
                    assert(in_col(nn, cells1, c2, d2 as u32) <==> (in_col(nn, cells0, c2, d2 as u32)
                        || (c2 == c && d2 as u32 == d)));
                }
            }
            assert(digits_in_range(nn, cells1));
        }
        if backtrack(n, board, row_used, col_used) {
            proof {
                let s = board.cells@;
                lemma_solution_place(nn, cells0, idx, d, s);
            }
            return true;
        }
        board.cells.set(r * n + c, 0);
        row_used[r][du] = false;
        col_used[c][du] = false;
        proof {
            assert(board.cells@ =~= cells0);
            assert(tables_match(nn, cells0, row_used@, col_used@)) by {
                assert forall|r2: int, d2: int| 0 <= r2 < n && 1 <= d2 <= n implies (
                #[trigger] row_used@[r2]@[d2] <==> in_row(nn, cells0, r2, d2 as u32)) by {
                    assert(in_row(nn, cells1, r2, d2 as u32) <==> (in_row(nn, cells0, r2, d2 as u32)
                        || (r2 == r && d2 as u32 == d)));
                }
                assert forall|c2: int, d2: int| 0 <= c2 < n && 1 <= d2 <= n implies (
                #[trigger] col_used@[c2]@[d2] <==> in_col(nn, cells0, c2, d2 as u32)) by {
                    assert(in_col(nn, cells1, c2, d2 as u32) <==> (in_col(nn, cells0, c2, d2 as u32)
                        || (c2 == c && d2 as u32 == d)));
                }
            }
        }
        k += 1;
    }
    proof {
        if solvable(nn, cells0) {
            let s = choose|s: Seq<u32>| is_solution(nn, cells0, s);
            lemma_solution_value_free(nn, cells0, r as int, c as int, s);
            let v = at(nn, s, r as int, c as int);
            assert(candidates(nn, cells0, r as int, c as int).contains(v));
            let j = choose|j: int| 0 <= j < opts@.len() && opts@[j] == v;
            lemma_solution_place(nn, cells0, idx, v, s);
            assert(is_solution(nn, cells0.update(idx, opts@[j]), s));
        }
    }
    false
}

/// Solves the board by backtracking in the order of `search`: the first solution
/// met, or `None` when the board has none (an inconsistent board has none).
pub fn solve(board: Board) -> (res: Option<Board>)
    requires
        board.wf(),
    ensures
        (match res {
            Some(s) => solve_result(board.n as nat, board.cells@) == Some(s.cells@),
            None => solve_result(board.n as nat, board.cells@) is None,
        }),
        res matches Some(s) ==> s.n == board.n && s.wf() && is_solution(
            board.n as nat,
            board.cells@,
            s.cells@,
        ),
        res is None <==> !solvable(board.n as nat, board.cells@),
{
    let mut board = board;
    if !board.is_consistent() {
        proof {
            lemma_inconsistent_unsolvable(board.n as nat, board.cells@);
        }
        return None;
    }
    let n: usize = board.n;
    let (mut row_used, mut col_used) = used_tables(&board);
    if backtrack(n, &mut board, &mut row_used, &mut col_used) {
        Some(board)
    } else {
        None
    }
}


// ---------------------------------------------------------------------------
// Counting.
// ---------------------------------------------------------------------------

/// The sequences of length `len` whose entries are at most `m`.
pub open spec fn bounded_seqs(len: nat, m: u32) -> Set<Seq<u32>> {
    Set::new(|s: Seq<u32>| s.len() == len && forall|i: int| 0 <= i < s.len() ==> #[trigger] s[i] <= m)
}

/// The sequences of `bounded_seqs(len + 1, m)` that end below `k`.
pub open spec fn bounded_seqs_last_below(len: nat, m: u32, k: int) -> Set<Seq<u32>> {
    bounded_seqs(len + 1, m).filter(|s: Seq<u32>| s.last() < k)
}

proof fn lemma_bounded_seqs_last_below_finite(len: nat, m: u32, k: int)
    requires
        0 <= k <= m as int + 1,
        bounded_seqs(len, m).finite(),
    ensures
        bounded_seqs_last_below(len, m, k).finite(),
    decreases k,
{
    if k == 0 {
        assert(bounded_seqs_last_below(len, m, k) =~= Set::<Seq<u32>>::empty());
    } else {
        lemma_bounded_seqs_last_below_finite(len, m, k - 1);
        let d = (k - 1) as u32;
        let pushed = bounded_seqs(len, m).map(|s: Seq<u32>| s.push(d));
        bounded_seqs(len, m).lemma_map_finite(|s: Seq<u32>| s.push(d));
        let whole = bounded_seqs_last_below(len, m, k - 1).union(pushed);
        assert(whole.finite());
        assert forall|t: Seq<u32>| #[trigger] bounded_seqs_last_below(len, m, k).contains(t) implies whole.contains(t) by {
            if t.last() == d {
                let p = t.drop_last();
                assert(p.push(d) =~= t);
                assert(bounded_seqs(len, m).contains(p));
                assert(pushed.contains(t));
            }
        }
        assert(bounded_seqs_last_below(len, m, k).subset_of(whole));
        vstd::set_lib::lemma_set_subset_finite(whole, bounded_seqs_last_below(len, m, k));
    }
}

/// There are finitely many sequences of a given length with bounded entries.
pub proof fn lemma_bounded_seqs_finite(len: nat, m: u32)
    ensures
        bounded_seqs(len, m).finite(),
    decreases len,
{
    if len == 0 {
        assert forall|s: Seq<u32>| #[trigger] bounded_seqs(0, m).contains(s) implies s
            == Seq::<u32>::empty() by {
            assert(s =~= Seq::<u32>::empty());
        }
        assert(bounded_seqs(0, m) =~= Set::<Seq<u32>>::empty().insert(Seq::<u32>::empty()));
    } else {
        let l = (len - 1) as nat;
        lemma_bounded_seqs_finite(l, m);
        lemma_bounded_seqs_last_below_finite(l, m, m as int + 1);
        assert(bounded_seqs(len, m) =~= bounded_seqs_last_below(l, m, m as int + 1));
    }
}

/// A board has finitely many solutions.
pub proof fn lemma_solutions_finite(n: nat, cells: Seq<u32>)
    requires
        n <= u32::MAX,
    ensures
        solutions(n, cells).finite(),
{
    lemma_bounded_seqs_finite(n * n, n as u32);
    assert(solutions(n, cells).subset_of(bounded_seqs(n * n, n as u32)));
    vstd::set_lib::lemma_set_subset_finite(bounded_seqs(n * n, n as u32), solutions(n, cells));
}


/// The number of solutions with each of `opts[..k]` placed at cell `i`, summed.
pub open spec fn branch_count(n: nat, cells: Seq<u32>, i: int, opts: Seq<u32>, k: int) -> nat
    decreases k,
{
    if k <= 0 {
        0
    } else {
        branch_count(n, cells, i, opts, k - 1) + solutions(n, cells.update(i, opts[k - 1])).len()
    }
}

/// The solutions whose cell `i` holds one of `opts[..k]`.
pub open spec fn solutions_among(n: nat, cells: Seq<u32>, i: int, opts: Seq<u32>, k: int) -> Set<
    Seq<u32>,
> {
    solutions(n, cells).filter(|s: Seq<u32>| exists|j: int| 0 <= j < k && s[i] == opts[j])
}

/// Branching on the value of an empty cell splits the solutions without overlap.
pub proof fn lemma_branch_count(n: nat, cells: Seq<u32>, i: int, opts: Seq<u32>, k: int)
    requires
        n <= u32::MAX,
        0 <= i < cells.len(),
        cells[i] == 0,
        0 <= k <= opts.len(),
        forall|j: int| 0 <= j < opts.len() ==> #[trigger] opts[j] != 0,
        forall|a: int, b: int| 0 <= a < b < opts.len() ==> #[trigger] opts[a] < #[trigger] opts[b],
    ensures
        solutions_among(n, cells, i, opts, k).finite(),
        solutions_among(n, cells, i, opts, k).len() == branch_count(n, cells, i, opts, k),
    decreases k,
{
    lemma_solutions_finite(n, cells);
    let all = solutions(n, cells);
    let here = solutions_among(n, cells, i, opts, k);
    assert(here.subset_of(all));
    vstd::set_lib::lemma_set_subset_finite(all, here);
    if k == 0 {
        assert(here =~= Set::<Seq<u32>>::empty());
    } else {
        lemma_branch_count(n, cells, i, opts, k - 1);
        let before = solutions_among(n, cells, i, opts, k - 1);
        let d = opts[k - 1];
        let b = solutions(n, cells.update(i, d));
        assert forall|s: Seq<u32>| #[trigger] b.contains(s) <==> (all.contains(s) && s[i] == d) by {
            lemma_solution_place(n, cells, i, d, s);
        }
        assert(b.subset_of(all));
        vstd::set_lib::lemma_set_subset_finite(all, b);
        assert forall|s: Seq<u32>| #[trigger] here.contains(s) <==> (before + b).contains(s) by {
            if here.contains(s) {
                let j = choose|j: int| 0 <= j < k && s[i] == opts[j];
                if j < k - 1 {
                    assert(before.contains(s));
                }
            }
            if b.contains(s) {
                assert(s[i] == opts[k - 1]);
            }
        }
        assert(here =~= before + b);
        assert(before.disjoint(b)) by {
            assert forall|s: Seq<u32>| before.contains(s) implies !b.contains(s) by {
                let j = choose|j: int| 0 <= j < k - 1 && s[i] == opts[j];
                assert(opts[j] < opts[k - 1]);
            }
        }
        vstd::set_lib::lemma_set_disjoint_lens(before, b);
    }
}

/// Later partial sums are no smaller.
pub proof fn lemma_branch_count_monotone(n: nat, cells: Seq<u32>, i: int, opts: Seq<u32>, k: int, m: int)
    requires
        0 <= k <= m,
    ensures
        branch_count(n, cells, i, opts, k) <= branch_count(n, cells, i, opts, m),
    decreases m - k,
{
    if k < m {
        lemma_branch_count_monotone(n, cells, i, opts, k, m - 1);
    }
}

/// A complete, consistent board with digits in range has itself as its only solution.
pub proof fn lemma_complete_single(n: nat, cells: Seq<u32>)
    requires
        n <= u32::MAX,
        cells.len() == n * n,
        digits_in_range(n, cells),
        complete(cells),
        consistent(n, cells),
    ensures
        solutions(n, cells).len() == 1,
{
    lemma_complete_solution(n, cells);
    assert forall|s: Seq<u32>| #[trigger] solutions(n, cells).contains(s) <==> s == cells by {
        if solutions(n, cells).contains(s) {
            assert(s =~= cells);
        }
    }
    assert(solutions(n, cells) =~= Set::<Seq<u32>>::empty().insert(cells));
}

/// An unsolvable board has no solutions to count.
pub proof fn lemma_unsolvable_none(n: nat, cells: Seq<u32>)
    requires
        !solvable(n, cells),
    ensures
        solutions(n, cells).len() == 0,
{
    assert(solutions(n, cells) =~= Set::<Seq<u32>>::empty());
}

/// The smaller of two numbers.
pub open spec fn min_nat(a: nat, b: nat) -> nat {
    if a <= b {
        a
    } else {
        b
    }
}


/// Every solution of a board holds, at an empty cell, one of the digits free there:
/// branching over those digits reaches them all.
pub proof fn lemma_branch_covers(n: nat, cells: Seq<u32>, r: int, c: int)
    requires
        n <= u32::MAX,
        cells.len() == n * n,
        0 <= r < n,
        0 <= c < n,
        at(n, cells, r, c) == 0,
    ensures
        solutions_among(n, cells, r * n + c, candidates(n, cells, r, c), candidates(
            n,
            cells,
            r,
            c,
        ).len() as int) == solutions(n, cells),
        solutions(n, cells).len() == branch_count(n, cells, r * n + c, candidates(n, cells, r, c), candidates(
            n,
            cells,
            r,
            c,
        ).len() as int),
{
    let opts = candidates(n, cells, r, c);
    lemma_free_digits(n, cells, r, c, n);
    lemma_cell_index(n as int, r, c);
    let i = r * n + c;
    assert forall|s: Seq<u32>| #[trigger] solutions(n, cells).contains(s) implies solutions_among(
        n,
        cells,
        i,
        opts,
        opts.len() as int,
    ).contains(s) by {
        lemma_solution_value_free(n, cells, r, c, s);
        assert(opts.contains(at(n, s, r, c)));
    }
    assert(solutions_among(n, cells, i, opts, opts.len() as int) =~= solutions(n, cells));
    lemma_branch_count(n, cells, i, opts, opts.len() as int);
}

/// Counts the solutions of the board, stopping once the count reaches `limit`;
/// the board and the tables are left as they were.
fn backtrack_count(
    n: usize,
    board: &mut Board,
    row_used: &mut Vec<Vec<bool>>,
    col_used: &mut Vec<Vec<bool>>,
    count: &mut usize,
    limit: usize,
)
    requires
        old(board).wf(),
        old(board).n == n,
        consistent(n as nat, old(board).cells@),
        tables_match(n as nat, old(board).cells@, old(row_used)@, old(col_used)@),
        *old(count) <= limit,
    ensures
        final(board).n == n,
        final(board).cells@ == old(board).cells@,
        tables_match(n as nat, old(board).cells@, final(row_used)@, final(col_used)@),
        *final(count) as nat == min_nat(
            limit as nat,
            *old(count) as nat + solutions(n as nat, old(board).cells@).len(),
        ),
    decreases empty_count(old(board).cells@),
{
    let ghost cells0 = board.cells@;
    let ghost nn = n as nat;
    let ghost count0 = *count as nat;
    let len: usize = board.cells.len();
    proof {
        lemma_side_small(n as int);
        lemma_solutions_finite(nn, cells0);
    }
    if *count >= limit {
        return;
    }
    let next = mrv(n, board, row_used, col_used);
    let (r, c, opts) = match next {
        None => {
            proof {
                lemma_complete_single(nn, cells0);
            }
            *count += 1;
            return;
        },
        Some(found) => found,
    };
    proof {
        lemma_free_digits(nn, cells0, r as int, c as int, nn);
        lemma_cell_index(n as int, r as int, c as int);
        lemma_branch_covers(nn, cells0, r as int, c as int);
    }
    let ghost idx = r * n + c;
    let ghost total = branch_count(nn, cells0, idx, opts@, opts@.len() as int);
    if opts.len() == 0 {
        return;
    }
    let mut k: usize = 0;
    while k < opts.len()
        invariant
            k <= opts@.len(),
            r < n,
            c < n,
            idx == r * n + c,
            0 <= idx < n * n,
            nn == n,
            n * n <= usize::MAX,
            n <= u32::MAX,
            board.n == n,
            board.cells@ == cells0,
            old(board).cells@ == cells0,
            board.wf(),
            consistent(nn, cells0),
            at(nn, cells0, r as int, c as int) == 0,
            opts@ == candidates(nn, cells0, r as int, c as int),
            forall|j: int|
                0 <= j < opts@.len() ==> {
                    let x = #[trigger] opts@[j];
                    &&& 1 <= x <= nn
                    &&& !in_row(nn, cells0, r as int, x)
                    &&& !in_col(nn, cells0, c as int, x)
                },
            tables_match(nn, cells0, row_used@, col_used@),
            count0 < limit,
            *old(count) as nat == count0,
            total == branch_count(nn, cells0, idx, opts@, opts@.len() as int),
            solutions(nn, cells0).len() == total,
            *count as nat == min_nat(
                limit as nat,
                count0 + branch_count(nn, cells0, idx, opts@, k as int),
            ),
        decreases opts@.len() - k,
    {
        proof {
            lemma_branch_count_monotone(nn, cells0, idx, opts@, k as int, opts@.len() as int);
        }
        if *count >= limit {
            return;
        }
        let d: Digit = opts[k];
        let du: usize = d as usize;
        if row_used[r][du] || col_used[c][du] {
            k += 1;
            continue;
        }
        board.cells.set(r * n + c, d);
        row_used[r][du] = true;
        col_used[c][du] = true;
        let ghost cells1 = board.cells@;
        proof {
            assert(cells1 == cells0.update(idx, d));
            lemma_place_usage(nn, cells0, r as int, c as int, d);
            lemma_place_consistent(nn, cells0, r as int, c as int, d);
            lemma_empty_count_fill(cells0, idx, d);
            assert(tables_match(nn, cells1, row_used@, col_used@)) by {
                assert forall|r2: int, d2: int| 0 <= r2 < n && 1 <= d2 <= n implies (
                #[trigger] row_used@[r2]@[d2] <==> in_row(nn, cells1, r2, d2 as u32)) by {
                    assert(in_row(nn, cells1, r2, d2 as u32) <==> (in_row(nn, cells0, r2, d2 as u32)
                        || (r2 == r && d2 as u32 == d)));
                }
                assert forall|c2: int, d2: int| 0 <= c2 < n && 1 <= d2 <= n implies (
                #[trigger] col_used@[c2]@[d2] <==> in_col(nn, cells1, c2, d2 as u32)) by {
                    assert(in_col(nn, cells1, c2, d2 as u32) <==> (in_col(nn, cells0, c2, d2 as u32)
                        || (c2 == c && d2 as u32 == d)));
                }
            }
            assert(digits_in_range(nn, cells1));
        }
        backtrack_count(n, board, row_used, col_used, count, limit);
        board.cells.set(r * n + c, 0);
        row_used[r][du] = false;
        col_used[c][du] = false;
        proof {
            assert(board.cells@ =~= cells0);
            assert(tables_match(nn, cells0, row_used@, col_used@)) by {
                assert forall|r2: int, d2: int| 0 <= r2 < n && 1 <= d2 <= n implies (
                #[trigger] row_used@[r2]@[d2] <==> in_row(nn, cells0, r2, d2 as u32)) by {
                    assert(in_row(nn, cells1, r2, d2 as u32) <==> (in_row(nn, cells0, r2, d2 as u32)
                        || (r2 == r && d2 as u32 == d)));
                }
                assert forall|c2: int, d2: int| 0 <= c2 < n && 1 <= d2 <= n implies (
                #[trigger] col_used@[c2]@[d2] <==> in_col(nn, cells0, c2, d2 as u32)) by {
                    assert(in_col(nn, cells1, c2, d2 as u32) <==> (in_col(nn, cells0, c2, d2 as u32)
                        || (c2 == c && d2 as u32 == d)));
                }
            }
            assert(branch_count(nn, cells0, idx, opts@, k + 1) == branch_count(
                nn,
                cells0,
                idx,
                opts@,
                k as int,
            ) + solutions(nn, cells1).len());
        }
        k += 1;
        if *count >= limit {
            proof {
                lemma_branch_count_monotone(nn, cells0, idx, opts@, k as int, opts@.len() as int);
            }
            return;
        }
    }
}

/// Counts the solutions of the board, up to `limit`: the smaller of `limit` and
/// the number of solutions.
pub fn count_solutions(board: Board, limit: usize) -> (count: usize)
    requires
        limit > 0 ==> board.wf(),
    ensures
        count as nat == min_nat(limit as nat, solutions(board.n as nat, board.cells@).len()),
{
    let mut board = board;
    if limit == 0 {
        return 0;
    }
    if !board.is_consistent() {
        proof {
            lemma_inconsistent_unsolvable(board.n as nat, board.cells@);
            lemma_unsolvable_none(board.n as nat, board.cells@);
        }
        return 0;
    }
    let n: usize = board.n;
    let (mut row_used, mut col_used) = used_tables(&board);
    let mut count: usize = 0;
    backtrack_count(n, &mut board, &mut row_used, &mut col_used, &mut count, limit);
    count
}

} // verus!
