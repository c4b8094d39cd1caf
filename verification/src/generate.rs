//! Puzzle generation: random Latin squares and clue removal.

use rand::rngs::StdRng;
use rand::seq::SliceRandom;
use vstd::prelude::*;

use crate::board::{
    at, complete, consistent, col_distinct, digits_in_range, lemma_cell_index, lemma_side_small,
    row_distinct, Board, Digit,
};
use crate::solve::{
    count_solutions, empty_count, is_solution, lemma_empty_count_fill, min_nat, solutions, solvable,
    solve,
};

verus! {

/// The random number generator that puzzles are generated with.
#[verifier::external_type_specification]
#[verifier::external_body]
pub struct ExStdRng(StdRng);

/// Wraps `SliceRandom::shuffle` (rand 0.8) on a vector.
/// Claims: afterwards the vector holds the same elements, each as often as before
/// (the source performs a sequence of swaps). Which order comes out depends on the
/// generator's state and is not stated.
#[verifier::external_body]
fn shuffle<T>(v: &mut Vec<T>, rng: &mut StdRng)
    ensures
        final(v)@.to_multiset() == old(v)@.to_multiset(),
        final(v)@.len() == old(v)@.len(),
{
    v.shuffle(rng);
}

/// `s` lists each of `lo..lo + n` exactly once.
pub open spec fn is_permutation_of_range(s: Seq<usize>, lo: int, n: int) -> bool {
    &&& s.len() == n
    &&& s.no_duplicates()
    &&& forall|i: int| 0 <= i < s.len() ==> lo <= #[trigger] s[i] < lo + n
}

/// `s` lists each of the digits `1..=n` exactly once.
pub open spec fn is_digit_permutation(s: Seq<u32>, n: int) -> bool {
    &&& s.len() == n
    &&& s.no_duplicates()
    &&& forall|i: int| 0 <= i < s.len() ==> 1 <= #[trigger] s[i] <= n
}

/// A reordering of a sequence without duplicates has none, and the same members.
pub proof fn lemma_reorder_no_duplicates<T>(s: Seq<T>, t: Seq<T>)
    requires
        s.to_multiset() == t.to_multiset(),
        t.no_duplicates(),
    ensures
        s.no_duplicates(),
        forall|x: T| s.contains(x) <==> t.contains(x),
{
    t.lemma_multiset_has_no_duplicates();
    s.lemma_multiset_has_no_duplicates_conv();
    assert forall|x: T| s.contains(x) <==> t.contains(x) by {
        vstd::seq_lib::to_multiset_contains(s, x);
        vstd::seq_lib::to_multiset_contains(t, x);
        assert(s.to_multiset().count(x) == t.to_multiset().count(x));
    }
}

/// Adding two positions below `n` and wrapping at `n` keeps distinct positions distinct.
pub proof fn lemma_wrap_injective(n: int, a: int, x: int, y: int)
    requires
        0 <= a < n,
        0 <= x < n,
        0 <= y < n,
        (a + x) % n == (a + y) % n,
    ensures
        x == y,
{
    assert(x == y) by (nonlinear_arith)
        requires
            0 <= a < n,
            0 <= x < n,
            0 <= y < n,
            (a + x) % n == (a + y) % n,
    {
        vstd::arithmetic::div_mod::lemma_fundamental_div_mod(a + x, n);
        vstd::arithmetic::div_mod::lemma_fundamental_div_mod(a + y, n);
        vstd::arithmetic::div_mod::lemma_mod_bound(a + x, n);
        vstd::arithmetic::div_mod::lemma_mod_bound(a + y, n);
    }
}


/// The Latin square that `gen_solved` builds from its random choices: cell
/// `(rr, cc)` holds `digits[(rows[rr] + cols[cc]) % n]`.
pub open spec fn arranged_cell(n: int, digits: Seq<u32>, rows: Seq<usize>, cols: Seq<usize>, rr: int, cc: int) -> u32 {
    digits[(rows[rr] + cols[cc]) % n]
}

/// Builds a Latin square from a relabelling of the digits and a reordering of the
/// rows and of the columns: the base square holds `(r + c) % n + 1` at `(r, c)`;
/// each digit `v` becomes `digits[v - 1]`; then row `rr` of the result is row
/// `rows[rr]` of that square, and column `cc` is its column `cols[cc]`.
pub fn arrange_latin(n: usize, digits: &Vec<Digit>, rows: &Vec<usize>, cols: &Vec<usize>) -> (b:
    Board)
    requires
        0 < n,
        n * n <= usize::MAX,
        is_digit_permutation(digits@, n as int),
        is_permutation_of_range(rows@, 0, n as int),
        is_permutation_of_range(cols@, 0, n as int),
    ensures
        b.n == n,
        b.wf(),
        forall|rr: int, cc: int|
            0 <= rr < n && 0 <= cc < n ==> #[trigger] at(n as nat, b.cells@, rr, cc)
                == arranged_cell(n as int, digits@, rows@, cols@, rr, cc),
        complete(b.cells@),
        consistent(n as nat, b.cells@),
{
    let ghost nn = n as nat;
    proof {
        lemma_side_small(n as int);
        assert(2 * n <= usize::MAX + 1) by (nonlinear_arith)
            requires
                n * n <= usize::MAX,
                n >= 1,
        ;
    }
    // base square: (r + c) % n + 1
    let mut base: Vec<Digit> = Vec::new();
    let mut r: usize = 0;
    while r < n
        invariant
            r <= n,
            nn == n,
            n * n <= usize::MAX,
            n <= u32::MAX,
            2 * n <= usize::MAX + 1,
            base@.len() == r * n,
            forall|i: int, j: int|
                0 <= i < r && 0 <= j < n ==> #[trigger] at(nn, base@, i, j) == ((i + j) % (n as int)
                    + 1),
        decreases n - r,
    {
        let mut c: usize = 0;
        while c < n
            invariant
                r < n,
                c <= n,
                nn == n,
                n * n <= usize::MAX,
                n <= u32::MAX,
                2 * n <= usize::MAX + 1,
                base@.len() == r * n + c,
                forall|i: int, j: int|
                    (0 <= i < r && 0 <= j < n) || (i == r && 0 <= j < c) ==> #[trigger] at(
                        nn,
                        base@,
                        i,
                        j,
                    ) == ((i + j) % (n as int) + 1),
            decreases n - c,
        {
            proof {
                lemma_cell_index(n as int, r as int, c as int);
            }
            assert((r + c) % (n as int) < n);
            let v: u32 = ((r + c) % n + 1) as u32;
            assert(v == (r + c) % (n as int) + 1);
            let ghost before = base@;
            base.push(v);
            assert(base@[r * n + c] == v);
            proof {
                assert forall|i: int, j: int|
                    (0 <= i < r && 0 <= j < n) || (i == r && 0 <= j < c + 1) implies #[trigger] at(
                    nn,
                    base@,
                    i,
                    j,
                ) == ((i + j) % (n as int) + 1) by {
                    lemma_cell_index(n as int, i, j);
                    if i == r && j == c {
                        assert(at(nn, base@, i, j) == base@[r * n + c]);
                    } else {
                        assert(i * n + j < r * n + c) by (nonlinear_arith)
                            requires
                                (0 <= i < r && 0 <= j < n) || (i == r && 0 <= j < c),
                                c < n,
                        ;
                        assert(base@[i * n + j] == before[i * n + j]);
                        assert(at(nn, before, i, j) == ((i + j) % (n as int) + 1));
                    }
                }
            }
            c += 1;
        }
        assert((r + 1) * n == r * n + n) by (nonlinear_arith);
        r += 1;
    }
    // digit relabelling: v becomes digits[v - 1]
    let mut perm_digits: Vec<Digit> = Vec::new();
    let mut v: usize = 0;
    while v <= n
        invariant
            v <= n + 1,
            n + 1 <= usize::MAX,
            n <= u32::MAX,
            perm_digits@.len() == v,
            forall|i: int| 0 <= i < v ==> #[trigger] perm_digits@[i] == i,
        decreases n + 1 - v,
    {
        perm_digits.push(v as u32);
        v += 1;
    }
    let mut i: usize = 0;
    while i < n
        invariant
            i <= n,
            perm_digits@.len() == n + 1,
            digits@.len() == n,
            perm_digits@[0] == 0,
            forall|j: int| 1 <= j <= i ==> #[trigger] perm_digits@[j] == digits@[j - 1],
        decreases n - i,
    {
        perm_digits.set(i + 1, digits[i]);
        i += 1;
    }
    let ghost base0 = base@;
    proof {
        assert forall|p: int| 0 <= p < base0.len() implies 1 <= #[trigger] base0[p] <= n by {
            crate::board::lemma_index_cell(n as int, p);
            let i2 = p / (n as int);
            let j = p % (n as int);
            assert(at(nn, base0, i2, j) == (i2 + j) % (n as int) + 1);
        }
    }
    let mut k: usize = 0;
    while k < base.len()
        invariant
            k <= base@.len(),
            base@.len() == n * n,
            base0.len() == n * n,
            nn == n,
            perm_digits@.len() == n + 1,
            digits@.len() == n,
            forall|j: int| 1 <= j <= n ==> #[trigger] perm_digits@[j] == digits@[j - 1],
            forall|i2: int, j: int|
                0 <= i2 < n && 0 <= j < n ==> #[trigger] at(nn, base0, i2, j) == ((i2 + j) % (
                    n as int) + 1),
            forall|j: int| 0 <= j < base0.len() ==> 1 <= #[trigger] base0[j] <= n,
            forall|j: int| 0 <= j < k ==> #[trigger] base@[j] == digits@[base0[j] - 1],
            forall|j: int| k <= j < base@.len() ==> #[trigger] base@[j] == base0[j],
        decreases base@.len() - k,
    {
        let w: usize = base[k] as usize;
        base.set(k, perm_digits[w]);
        k += 1;
    }
    // row and column reordering
    let mut out: Vec<Digit> = Vec::new();
    let mut rr: usize = 0;
    while rr < n
        invariant
            rr <= n,
            nn == n,
            n * n <= usize::MAX,
            base@.len() == n * n,
            rows@.len() == n,
            cols@.len() == n,
            forall|i2: int| 0 <= i2 < n ==> #[trigger] rows@[i2] < n,
            forall|i2: int| 0 <= i2 < n ==> #[trigger] cols@[i2] < n,
            out@.len() == rr * n,
            forall|i2: int, j: int|
                0 <= i2 < rr && 0 <= j < n ==> #[trigger] at(nn, out@, i2, j) == at(
                    nn,
                    base@,
                    rows@[i2] as int,
                    cols@[j] as int,
                ),
        decreases n - rr,
    {
        let mut cc: usize = 0;
        while cc < n
            invariant
                rr < n,
                cc <= n,
                nn == n,
                n * n <= usize::MAX,
                base@.len() == n * n,
                rows@.len() == n,
                cols@.len() == n,
                forall|i2: int| 0 <= i2 < n ==> #[trigger] rows@[i2] < n,
                forall|i2: int| 0 <= i2 < n ==> #[trigger] cols@[i2] < n,
                out@.len() == rr * n + cc,
                forall|i2: int, j: int|
                    (0 <= i2 < rr && 0 <= j < n) || (i2 == rr && 0 <= j < cc) ==> #[trigger] at(
                        nn,
                        out@,
                        i2,
                        j,
                    ) == at(nn, base@, rows@[i2] as int, cols@[j] as int),
            decreases n - cc,
        {
            let r0: usize = rows[rr];
            let c0: usize = cols[cc];
            proof {
                lemma_cell_index(n as int, r0 as int, c0 as int);
                lemma_cell_index(n as int, rr as int, cc as int);
            }
            let ghost before = out@;
            let x: u32 = base[r0 * n + c0];
            assert(x == at(nn, base@, r0 as int, c0 as int));
            out.push(x);
            assert(out@[rr * n + cc] == x);
            proof {
                assert forall|i2: int, j: int|
                    (0 <= i2 < rr && 0 <= j < n) || (i2 == rr && 0 <= j < cc + 1) implies #[trigger] at(
                    nn,
                    out@,
                    i2,
                    j,
                ) == at(nn, base@, rows@[i2] as int, cols@[j] as int) by {
                    lemma_cell_index(n as int, i2, j);
                    if i2 == rr && j == cc {
                        assert(at(nn, out@, i2, j) == out@[rr * n + cc]);
                    } else {
                        assert(i2 * n + j < rr * n + cc) by (nonlinear_arith)
                            requires
                                (0 <= i2 < rr && 0 <= j < n) || (i2 == rr && 0 <= j < cc),
                                cc < n,
                        ;
                        assert(out@[i2 * n + j] == before[i2 * n + j]);
                        assert(at(nn, before, i2, j) == at(nn, base@, rows@[i2] as int, cols@[j] as int));
                    }
                }
            }
            cc += 1;
        }
        assert((rr + 1) * n == rr * n + n) by (nonlinear_arith);
        rr += 1;
    }
    let b = Board { n, cells: out };
    proof {
        let cells = b.cells@;
        assert forall|i2: int, j: int| 0 <= i2 < n && 0 <= j < n implies #[trigger] at(
            nn,
            cells,
            i2,
            j,
        ) == arranged_cell(n as int, digits@, rows@, cols@, i2, j) by {
            let r0 = rows@[i2] as int;
            let c0 = cols@[j] as int;
            lemma_cell_index(n as int, r0, c0);
            assert(at(nn, base0, r0, c0) == (r0 + c0) % (n as int) + 1);
        }
        // every cell holds a digit of 1..=n
        assert forall|p: int| 0 <= p < cells.len() implies 1 <= #[trigger] cells[p] <= n by {
            crate::board::lemma_index_cell(n as int, p);
            let i2 = p / (n as int);
            let j = p % (n as int);
            assert(at(nn, cells, i2, j) == arranged_cell(n as int, digits@, rows@, cols@, i2, j));
            let q = (rows@[i2] + cols@[j]) % (n as int);
            assert(0 <= q < n);
        }
        assert(digits_in_range(nn, cells));
        assert forall|i2: int| 0 <= i2 < n implies #[trigger] row_distinct(nn, cells, i2) by {
            assert forall|c1: int, c2: int|
                0 <= c1 < n && 0 <= c2 < n && c1 != c2 && at(nn, cells, i2, c1) != 0 implies at(
                nn,
                cells,
                i2,
                c1,
            ) != at(nn, cells, i2, c2) by {
                let a = rows@[i2] as int;
                let x = cols@[c1] as int;
                let y = cols@[c2] as int;
                assert(x != y);
                if (a + x) % (n as int) == (a + y) % (n as int) {
                    lemma_wrap_injective(n as int, a, x, y);
                }
            }
        }
        assert forall|j: int| 0 <= j < n implies #[trigger] col_distinct(nn, cells, j) by {
            assert forall|r1: int, r2: int|
                0 <= r1 < n && 0 <= r2 < n && r1 != r2 && at(nn, cells, r1, j) != 0 implies at(
                nn,
                cells,
                r1,
                j,
            ) != at(nn, cells, r2, j) by {
                let a = cols@[j] as int;
                let x = rows@[r1] as int;
                let y = rows@[r2] as int;
                assert(x != y);
                assert((x + a) % (n as int) == (a + x) % (n as int));
                assert((y + a) % (n as int) == (a + y) % (n as int));
                if (a + x) % (n as int) == (a + y) % (n as int) {
                    lemma_wrap_injective(n as int, a, x, y);
                }
            }
        }
    }
    b
}


/// The positions `lo..hi`, in order.
fn range_vec(lo: usize, hi: usize) -> (v: Vec<usize>)
    requires
        lo <= hi,
    ensures
        v@ == Seq::new((hi - lo) as nat, |i: int| (lo + i) as usize),
        is_permutation_of_range(v@, lo as int, hi - lo),
{
    let mut v: Vec<usize> = Vec::new();
    let mut k: usize = lo;
    while k < hi
        invariant
            lo <= k <= hi,
            v@ == Seq::new((k - lo) as nat, |i: int| (lo + i) as usize),
        decreases hi - k,
    {
        v.push(k);
        k += 1;
        assert(v@ =~= Seq::new((k - lo) as nat, |i: int| (lo + i) as usize));
    }
    v
}

/// Generates a solved board of dimension `n`: the Latin square of `arrange_latin`
/// with a random relabelling of the digits and random reorderings of rows and columns.
pub fn gen_solved(n: usize, rng: &mut StdRng) -> (b: Board)
    requires
        0 < n,
        n * n <= usize::MAX,
    ensures
        b.n == n,
        b.wf(),
        complete(b.cells@),
        consistent(n as nat, b.cells@),
        exists|digits: Seq<u32>, rows: Seq<usize>, cols: Seq<usize>|
            #![trigger is_digit_permutation(digits, n as int), is_permutation_of_range(rows, 0, n as int), is_permutation_of_range(cols, 0, n as int)]
            is_digit_permutation(digits, n as int) && is_permutation_of_range(rows, 0, n as int)
                && is_permutation_of_range(cols, 0, n as int) && forall|rr: int, cc: int|
                0 <= rr < n && 0 <= cc < n ==> #[trigger] at(n as nat, b.cells@, rr, cc)
                    == arranged_cell(n as int, digits, rows, cols, rr, cc),
{
    proof {
        lemma_side_small(n as int);
    }
    let mut digits: Vec<Digit> = Vec::new();
    let mut d: usize = 1;
    while d <= n
        invariant
            1 <= d <= n + 1,
            n <= u32::MAX,
            n + 1 <= usize::MAX,
            digits@ == Seq::new((d - 1) as nat, |i: int| (i + 1) as u32),
        decreases n + 1 - d,
    {
        digits.push(d as u32);
        d += 1;
        assert(digits@ =~= Seq::new((d - 1) as nat, |i: int| (i + 1) as u32));
    }
    let ghost sorted = digits@;
    shuffle(&mut digits, rng);
    let mut rows: Vec<usize> = range_vec(0, n);
    let ghost rows0 = rows@;
    shuffle(&mut rows, rng);
    let mut cols: Vec<usize> = range_vec(0, n);
    let ghost cols0 = cols@;
    shuffle(&mut cols, rng);
    proof {
        lemma_reorder_no_duplicates(digits@, sorted);
        lemma_reorder_no_duplicates(rows@, rows0);
        lemma_reorder_no_duplicates(cols@, cols0);
        assert forall|i: int| 0 <= i < digits@.len() implies 1 <= #[trigger] digits@[i] <= n by {
            assert(digits@.contains(digits@[i]));
            assert(sorted.contains(digits@[i]));
        }
        assert forall|i: int| 0 <= i < rows@.len() implies 0 <= #[trigger] rows@[i] < n by {
            assert(rows@.contains(rows@[i]));
            assert(rows0.contains(rows@[i]));
        }
        assert forall|i: int| 0 <= i < cols@.len() implies 0 <= #[trigger] cols@[i] < n by {
            assert(cols@.contains(cols@[i]));
            assert(cols0.contains(cols@[i]));
        }
        assert(is_digit_permutation(digits@, n as int));
        assert(is_permutation_of_range(rows@, 0, n as int));
        assert(is_permutation_of_range(cols@, 0, n as int));
    }
    arrange_latin(n, &digits, &rows, &cols)
}

/// The number of filled (nonzero) cells.
pub open spec fn clue_count(s: Seq<u32>) -> nat {
    (s.len() - empty_count(s)) as nat
}

/// There are never more empty cells than cells.
pub proof fn lemma_empty_count_bound(s: Seq<u32>)
    ensures
        empty_count(s) <= s.len(),
    decreases s.len(),
{
    if s.len() > 0 {
        lemma_empty_count_bound(s.drop_last());
    }
}

/// Counts the filled cells.
fn count_clues(cells: &Vec<Digit>) -> (k: usize)
    ensures
        k == clue_count(cells@),
{
    let mut k: usize = 0;
    let mut i: usize = 0;
    assert(cells@.take(0) =~= Seq::<u32>::empty());
    while i < cells.len()
        invariant
            i <= cells@.len(),
            k <= i,
            k == clue_count(cells@.take(i as int)),
        decreases cells@.len() - i,
    {
        assert(cells@.take(i + 1).drop_last() =~= cells@.take(i as int));
        proof {
            lemma_empty_count_bound(cells@.take(i as int));
        }
        if cells[i] != 0 {
            k += 1;
        }
        i += 1;
    }
    assert(cells@.take(cells@.len() as int) =~= cells@);
    k
}

/// A copy of a board.
fn copy_board(b: &Board) -> (c: Board)
    ensures
        c.n == b.n,
        c.cells@ == b.cells@,
{
    let cells: Vec<Digit> = b.cells.clone();
    assert(cells@ =~= b.cells@);
    Board { n: b.n, cells }
}

/// The smaller of two numbers.
fn min_usize(a: usize, b: usize) -> (m: usize)
    ensures
        m == min_nat(a as nat, b as nat),
{
    if a <= b {
        a
    } else {
        b
    }
}

/// Whether a puzzle meets what clue removal asks of it: consistent, and with exactly
/// one solution when uniqueness is asked for, else with some solution.
pub open spec fn acceptable(n: nat, cells: Seq<u32>, unique: bool) -> bool {
    &&& consistent(n, cells)
    &&& unique ==> solutions(n, cells).len() == 1
    &&& !unique ==> solvable(n, cells)
}

/// The greedy removal of clues: the cells `order[k..]` are tried in turn, each
/// emptied and kept empty when the puzzle stays acceptable; it stops once at most
/// `target` clues remain.
pub open spec fn stripped(
    n: nat,
    cells: Seq<u32>,
    target: nat,
    unique: bool,
    order: Seq<usize>,
    k: int,
) -> Seq<u32>
    decreases order.len() - k,
{
    if k < 0 || k >= order.len() || clue_count(cells) <= target {
        cells
    } else {
        let emptied = cells.update(order[k] as int, 0);
        let next = if acceptable(n, emptied, unique) {
            emptied
        } else {
            cells
        };
        stripped(n, next, target, unique, order, k + 1)
    }
}

/// Removes clues from `solved` in the given order of cell indices: each cell in turn
/// is emptied and kept empty when the puzzle stays consistent and (with `unique`)
/// has exactly one solution or (without) has some solution; the removal stops once
/// at most `min(clues, n * n)` clues remain.
pub fn strip_clues(solved: &Board, clues: usize, enforce_unique: bool, order: &Vec<usize>) -> (p:
    Board)
    requires
        solved.wf(),
        forall|k: int| 0 <= k < order@.len() ==> #[trigger] order@[k] < solved.n * solved.n,
    ensures
        p.n == solved.n,
        p.wf(),
        p.cells@ == stripped(
            solved.n as nat,
            solved.cells@,
            min_nat(clues as nat, solved.n as nat * solved.n as nat),
            enforce_unique,
            order@,
            0,
        ),
        forall|i: int|
            0 <= i < p.cells@.len() ==> #[trigger] p.cells@[i] == solved.cells@[i] || p.cells@[i]
                == 0,
        forall|i: int|
            0 <= i < p.cells@.len() && !order@.contains(i as usize) ==> #[trigger] p.cells@[i]
                == solved.cells@[i],
        clue_count(p.cells@) >= min_nat(
            min_nat(clues as nat, solved.n as nat * solved.n as nat),
            clue_count(solved.cells@),
        ),
        p.cells@ == solved.cells@ || acceptable(solved.n as nat, p.cells@, enforce_unique),
{
    let n: usize = solved.n;
    let len: usize = solved.cells.len();
    let ghost nn = n as nat;
    let ghost orig = solved.cells@;
    let n2: usize = n * n;
    let target_clues: usize = min_usize(clues, n2);
    let mut puzzle: Board = copy_board(solved);
    let mut k: usize = 0;
    proof {
        lemma_empty_count_bound(orig);
    }
    while k < order.len()
        invariant
            k <= order@.len(),
            n == solved.n,
            nn == n,
            n2 == n * n,
            orig == solved.cells@,
            solved.wf(),
            puzzle.n == n,
            puzzle.wf(),
            target_clues == min_nat(clues as nat, n2 as nat),
            forall|j: int| 0 <= j < order@.len() ==> #[trigger] order@[j] < n * n,
            forall|i: int|
                0 <= i < puzzle.cells@.len() ==> #[trigger] puzzle.cells@[i] == orig[i]
                    || puzzle.cells@[i] == 0,
            forall|i: int|
                0 <= i < puzzle.cells@.len() && !order@.take(k as int).contains(i as usize)
                    ==> #[trigger] puzzle.cells@[i] == orig[i],
            clue_count(puzzle.cells@) >= min_nat(target_clues as nat, clue_count(orig)),
            puzzle.cells@ == orig || acceptable(nn, puzzle.cells@, enforce_unique),
            stripped(nn, orig, target_clues as nat, enforce_unique, order@, 0) == stripped(
                nn,
                puzzle.cells@,
                target_clues as nat,
                enforce_unique,
                order@,
                k as int,
            ),
        ensures
            k == order@.len() || clue_count(puzzle.cells@) <= target_clues,
        decreases order@.len() - k,
    {
        proof {
            assert forall|i: int|
                0 <= i < puzzle.cells@.len() && !#[trigger] order@.take(k + 1).contains(i as usize)
                    implies !order@.take(k as int).contains(i as usize) by {
                if order@.take(k as int).contains(i as usize) {
                    let j = choose|j: int| 0 <= j < k && order@.take(k as int)[j] == i as usize;
                    assert(order@.take(k + 1)[j] == i as usize);
                }
            }
        }
        if count_clues(&puzzle.cells) <= target_clues {
            break;
        }
        let i: usize = order[k];
        let prev: Digit = puzzle.cells[i];
        let ghost before = puzzle.cells@;
        puzzle.cells.set(i, 0);
        proof {
            lemma_empty_count_bound(puzzle.cells@);
            lemma_empty_count_bound(before);
            assert(clue_count(before) > target_clues);
            assert(order@.take(k + 1)[k as int] == i);
            if prev != 0 {
                assert(puzzle.cells@.update(i as int, prev) =~= before);
                lemma_empty_count_fill(puzzle.cells@, i as int, prev);
            } else {
                assert(puzzle.cells@ =~= before);
            }
        }
        if !puzzle.is_consistent() {
            puzzle.cells.set(i, prev);
            assert(puzzle.cells@ =~= before);
        } else if enforce_unique {
            let count: usize = count_solutions(copy_board(&puzzle), 2);
            if count != 1 {
                puzzle.cells.set(i, prev);
                assert(puzzle.cells@ =~= before);
            }
        } else {
            if solve(copy_board(&puzzle)).is_none() {
                puzzle.cells.set(i, prev);
                assert(puzzle.cells@ =~= before);
            }
        }
        k += 1;
    }
    proof {
        assert forall|i: int|
            0 <= i < puzzle.cells@.len() && !order@.contains(i as usize) implies #[trigger] puzzle.cells@[i]
            == orig[i] by {
            if order@.take(k as int).contains(i as usize) {
                let j = choose|j: int| 0 <= j < k && order@.take(k as int)[j] == i as usize;
                assert(order@[j] == i as usize);
            }
        }
    }
    puzzle
}

/// Makes a puzzle from a solved board by removing clues in a random order, as
/// `strip_clues` removes them.
pub fn make_puzzle_clues(solved: &Board, clues: usize, enforce_unique: bool, rng: &mut StdRng) -> (p:
    Board)
    requires
        solved.wf(),
    ensures
        p.n == solved.n,
        p.wf(),
        exists|order: Seq<usize>|
            #![trigger is_permutation_of_range(order, 0, solved.n * solved.n)]
            is_permutation_of_range(order, 0, solved.n * solved.n) && p.cells@ == stripped(
                solved.n as nat,
                solved.cells@,
                min_nat(clues as nat, solved.n as nat * solved.n as nat),
                enforce_unique,
                order,
                0,
            ),
        forall|i: int|
            0 <= i < p.cells@.len() ==> #[trigger] p.cells@[i] == solved.cells@[i] || p.cells@[i]
                == 0,
        clue_count(p.cells@) >= min_nat(
            min_nat(clues as nat, solved.n as nat * solved.n as nat),
            clue_count(solved.cells@),
        ),
        p.cells@ == solved.cells@ || acceptable(solved.n as nat, p.cells@, enforce_unique),
{
    let len: usize = solved.cells.len();
    let n2: usize = solved.n * solved.n;
    let mut idxs: Vec<usize> = range_vec(0, n2);
    let ghost idxs0 = idxs@;
    shuffle(&mut idxs, rng);
    proof {
        lemma_reorder_no_duplicates(idxs@, idxs0);
        assert forall|k: int| 0 <= k < idxs@.len() implies 0 <= #[trigger] idxs@[k] < solved.n
            * solved.n by {
            assert(idxs@.contains(idxs@[k]));
            assert(idxs0.contains(idxs@[k]));
        }
    }
    proof {
        assert(is_permutation_of_range(idxs@, 0, solved.n * solved.n));
    }
    strip_clues(solved, clues, enforce_unique, &idxs)
}

} // verus!
