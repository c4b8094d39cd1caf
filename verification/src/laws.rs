//! Properties that tie the library's operations together.

use vstd::prelude::*;

use crate::board::{
    at, candidates, complete, digits_in_range, lemma_cell_index_injective, cell_text, col_distinct, consistent, grid_text, in_col, in_row, join, lemma_cell_index,
    placeable, row_cell_texts, row_distinct, row_text, row_texts, Board,
};
use crate::parse::{
    char_cell, char_cells, collect, csv_board, csv_fields, csv_row_cells, csv_row_reader,
    csv_token_cell, csv_token_cells, lemma_collect_chunks, lemma_collect_singletons, row_cells,
    row_reader, rows_board, token_cell, token_cells,
};
use crate::generate::{acceptable, clue_count, stripped};
use crate::json::{digit_cells, grid_board, grid_cells, grid_rows};
use crate::solve::{
    is_solution, lemma_complete_single, lemma_complete_solution, lemma_free_digits, lemma_place_consistent,
    lemma_solutions_finite, solutions, solvable,
};
use crate::text::{
    dec, digit_char, is_digit, is_ws, lemma_dec_digits, lemma_non_empty_all, lemma_parse_dec, lemma_split_join,
    lemma_non_empty_members, lemma_trim_ends, lemma_trim_plain, lemma_words_join, non_empty,
    nonblank_lines, split_on, trim, words,
};

verus! {

// ---------------------------------------------------------------------------
// Cell and grid texts.
// ---------------------------------------------------------------------------

/// The chars that cell texts are made of: `.` and the ASCII digits.
pub open spec fn cell_char(ch: char) -> bool {
    ch == '.' || is_digit(ch)
}

proof fn lemma_cell_text(d: u32)
    ensures
        cell_text(d).len() >= 1,
        forall|j: int| 0 <= j < cell_text(d).len() ==> cell_char(#[trigger] cell_text(d)[j]),
        d != 0 ==> cell_text(d) != seq!['.'] && cell_text(d) != seq!['0'],
        d != 0 ==> parse_u32_of_text(d),
{
    if d != 0 {
        lemma_dec_digits(d as nat);
        lemma_parse_dec(d);
        if dec(d as nat) == seq!['0'] {
            let z = dec(d as nat);
            assert(z.drop_last() =~= Seq::<char>::empty());
            assert(crate::text::digits_value(z.drop_last()) == 0);
            assert(z.last() == '0');
            assert(crate::text::digit_value('0') == 0);
            assert(crate::text::digits_value(z) == 0);
        }
        if dec(d as nat) == seq!['.'] {
            assert(is_digit(dec(d as nat)[0]));
        }
    }
}

spec fn parse_u32_of_text(d: u32) -> bool {
    crate::text::parse_u32(cell_text(d)) == Some(d)
}

/// Every char of pieces joined with `sep` is `sep` or a char of a piece.
proof fn lemma_join_chars(parts: Seq<Seq<char>>, sep: char, p: spec_fn(char) -> bool)
    requires
        p(sep),
        forall|i: int, j: int| 0 <= i < parts.len() && 0 <= j < parts[i].len() ==> p(#[trigger] parts[i][j]),
    ensures
        forall|k: int| 0 <= k < join(parts, sep).len() ==> p(#[trigger] join(parts, sep)[k]),
    decreases parts.len(),
{
    if parts.len() > 1 {
        let q = parts.drop_last();
        assert forall|i: int, j: int| 0 <= i < q.len() && 0 <= j < q[i].len() implies p(#[trigger] q[i][j]) by {
            assert(q[i] == parts[i]);
        }
        lemma_join_chars(q, sep, p);
        let a = join(q, sep);
        let l = parts.last();
        assert forall|k: int| 0 <= k < join(parts, sep).len() implies p(#[trigger] join(parts, sep)[k]) by {
            assert(join(parts, sep) == a + seq![sep] + l);
            if k < a.len() {
                assert(join(parts, sep)[k] == a[k]);
            } else if k == a.len() {
            } else {
                assert(join(parts, sep)[k] == l[k - a.len() - 1]);
                assert(l == parts[parts.len() - 1]);
            }
        }
    } else if parts.len() == 1 {
        assert forall|k: int| 0 <= k < join(parts, sep).len() implies p(#[trigger] join(parts, sep)[k]) by {
            assert(parts[0][k] == join(parts, sep)[k]);
        }
    }
}

/// Nonempty pieces joined: the text starts with the first piece and ends with the last.
proof fn lemma_join_ends(parts: Seq<Seq<char>>, sep: char)
    requires
        parts.len() >= 1,
        forall|i: int| 0 <= i < parts.len() ==> #[trigger] parts[i].len() >= 1,
    ensures
        join(parts, sep).len() >= 1,
        join(parts, sep)[0] == parts[0][0],
        join(parts, sep).last() == parts.last().last(),
    decreases parts.len(),
{
    if parts.len() > 1 {
        let q = parts.drop_last();
        assert forall|i: int| 0 <= i < q.len() implies #[trigger] q[i].len() >= 1 by {
            assert(q[i] == parts[i]);
        }
        lemma_join_ends(q, sep);
        assert(q[0] == parts[0]);
        assert(parts.last() == parts[parts.len() - 1]);
    }
}

/// What a row text is made of: cell chars and separators, starting and ending with a cell char.
proof fn lemma_row_text(n: nat, cells: Seq<u32>, r: int, sep: char)
    requires
        n >= 1,
        !cell_char(sep),
    ensures
        row_text(n, cells, r, sep).len() >= 1,
        cell_char(row_text(n, cells, r, sep)[0]),
        cell_char(row_text(n, cells, r, sep).last()),
        forall|k: int|
            0 <= k < row_text(n, cells, r, sep).len() ==> (#[trigger] row_text(n, cells, r, sep)[k]
                == sep || cell_char(row_text(n, cells, r, sep)[k])),
{
    let parts = row_cell_texts(n, cells, r);
    assert forall|i: int| 0 <= i < parts.len() implies #[trigger] parts[i].len() >= 1 by {
        lemma_cell_text(at(n, cells, r, i));
    }
    assert forall|i: int, j: int| 0 <= i < parts.len() && 0 <= j < parts[i].len() implies (
    #[trigger] parts[i][j] == sep || cell_char(parts[i][j])) by {
        lemma_cell_text(at(n, cells, r, i));
    }
    lemma_join_ends(parts, sep);
    lemma_join_chars(parts, sep, |ch: char| ch == sep || cell_char(ch));
    let last = parts.last();
    lemma_cell_text(at(n, cells, r, n - 1));
    assert(last == parts[n - 1]);
    assert(cell_char(last[last.len() - 1]));
    lemma_cell_text(at(n, cells, r, 0));
    assert(cell_char(parts[0][0]));
}

/// The non-blank lines of a grid text are its row texts.
proof fn lemma_grid_lines(n: nat, cells: Seq<u32>, sep: char)
    requires
        n >= 1,
        !cell_char(sep),
        sep != '\n',
        !is_ws(sep) || sep == ' ',
    ensures
        nonblank_lines(grid_text(n, cells, sep)) == row_texts(n, cells, sep),
{
    let rows = row_texts(n, cells, sep);
    assert forall|i: int, j: int| 0 <= i < rows.len() && 0 <= j < rows[i].len() implies #[trigger] rows[i][j]
        != '\n' by {
        lemma_row_text(n, cells, i, sep);
        assert(rows[i] == row_text(n, cells, i, sep));
    }
    lemma_split_join(rows, '\n');
    let trimmed = rows.map_values(|l: Seq<char>| trim(l));
    assert forall|i: int| 0 <= i < rows.len() implies #[trigger] trimmed[i] == rows[i] by {
        lemma_row_text(n, cells, i, sep);
        assert(rows[i] == row_text(n, cells, i, sep));
        lemma_trim_plain(rows[i]);
    }
    assert(trimmed =~= rows);
    assert forall|i: int| 0 <= i < rows.len() implies #[trigger] rows[i].len() > 0 by {
        lemma_row_text(n, cells, i, sep);
    }
    lemma_non_empty_all(rows);
}

/// Cell `(r, c)` lies in row `r`'s stretch of the cells.
proof fn lemma_row_chunk(n: nat, cells: Seq<u32>, r: int)
    requires
        cells.len() == n * n,
        0 <= r < n,
    ensures
        r * n + n <= n * n,
        0 <= r * n,
        cells.subrange(r * n, r * n + n) == Seq::new(n, |c: int| at(n, cells, r, c)),
{
    assert(r * n + n <= n * n) by (nonlinear_arith)
        requires
            0 <= r < n,
    ;
    assert(0 <= r * n) by (nonlinear_arith)
        requires
            0 <= r,
    ;
    assert(cells.subrange(r * n, r * n + n) =~= Seq::new(n, |c: int| at(n, cells, r, c)));
}

// ---------------------------------------------------------------------------
// Laws.
// ---------------------------------------------------------------------------

/// Reading back the text of a board gives the board: for a well-formed board of
/// dimension at least one, `Board::from_str(&b.to_pretty_string())` is `Ok(b)`
/// (and so is `Board::from_rows` of its lines).
pub proof fn law_text_roundtrip(b: Board)
    requires
        b.wf(),
        b.n >= 1,
    ensures
        rows_board(nonblank_lines(grid_text(b.n as nat, b.cells@, ' '))) == Ok::<
            (nat, Seq<u32>),
            crate::board::ErrorView,
        >((b.n as nat, b.cells@)),
{
    let n = b.n as nat;
    let cells = b.cells@;
    lemma_grid_lines(n, cells, ' ');
    let rows = row_texts(n, cells, ' ');
    assert(rows.len() as usize == b.n);
    assert forall|r: int| 0 <= r < rows.len() implies #[trigger] row_reader(b.n)(r, rows[r])
        == Ok::<Seq<u32>, crate::board::ErrorView>(cells.subrange(r * n, r * n + n)) by {
        lemma_row_chunk(n, cells, r);
        let parts = row_cell_texts(n, cells, r);
        let vals = cells.subrange(r * n, r * n + n);
        assert(rows[r] == join(parts, ' '));
        assert forall|i: int| 0 <= i < parts.len() implies #[trigger] parts[i].len() > 0 by {
            lemma_cell_text(at(n, cells, r, i));
        }
        assert forall|i: int, j: int| 0 <= i < parts.len() && 0 <= j < parts[i].len() implies !is_ws(
            #[trigger] parts[i][j],
        ) by {
            lemma_cell_text(at(n, cells, r, i));
        }
        lemma_words_join(parts);
        lemma_cell_index(n as int, r, 0);
        if n >= 2 {
            assert forall|i: int| 0 <= i < parts.len() implies #[trigger] token_cells(b.n)(i, parts[i])
                == Ok::<Seq<u32>, crate::board::ErrorView>(seq![vals[i]]) by {
                let d = at(n, cells, r, i);
                lemma_cell_index(n as int, r, i);
                lemma_cell_text(d);
                assert(vals[i] == d);
                assert(d <= n);
            }
            lemma_collect_singletons(parts, token_cells(b.n), vals);
        } else {
            let d = at(n, cells, r, 0);
            lemma_cell_text(d);
            assert(d <= 1);
            assert(rows[r] == cell_text(d));
            if d == 1 {
                assert(dec(1) =~= seq!['1']);
            }
            assert(rows[r].len() == 1);
            assert forall|i: int| 0 <= i < rows[r].len() implies #[trigger] char_cells(b.n)(i, rows[r][i])
                == Ok::<Seq<u32>, crate::board::ErrorView>(seq![vals[i]]) by {
                assert(i == 0);
                assert(vals[0] == d);
                if d == 1 {
                    assert(rows[r][0] == '1');
                }
            }
            lemma_collect_singletons(rows[r], char_cells(b.n), vals);
        }
    }
    lemma_collect_chunks(rows, row_reader(b.n), n, cells);
}

/// `Board::from_str` reads each non-blank line of its text with its leading and
/// trailing whitespace removed: every row that it hands to the row reader is the
/// trim of some line of the text, is not empty, and neither starts nor ends with
/// whitespace (so indentation and `\r\n` line ends never count as cells).
pub proof fn law_from_str_rows_trimmed(s: Seq<char>)
    ensures
        forall|i: int|
            0 <= i < nonblank_lines(s).len() ==> {
                let row = #[trigger] nonblank_lines(s)[i];
                &&& row.len() > 0
                &&& !is_ws(row[0])
                &&& !is_ws(row.last())
                &&& exists|j: int|
                    0 <= j < split_on(s, '\n').len() && row == trim(split_on(s, '\n')[j])
            },
{
    let lines = split_on(s, '\n');
    let trimmed = lines.map_values(|l: Seq<char>| trim(l));
    lemma_non_empty_members(trimmed);
    assert forall|i: int| 0 <= i < nonblank_lines(s).len() implies {
        let row = #[trigger] nonblank_lines(s)[i];
        &&& row.len() > 0
        &&& !is_ws(row[0])
        &&& !is_ws(row.last())
        &&& exists|j: int| 0 <= j < lines.len() && row == trim(lines[j])
    } by {
        let row = nonblank_lines(s)[i];
        assert(non_empty(trimmed)[i] == row);
        let j = choose|j: int| 0 <= j < trimmed.len() && trimmed[j] == non_empty(trimmed)[i];
        assert(trimmed[j] == trim(lines[j]));
        lemma_trim_ends(lines[j]);
    }
}

/// The one-char form of a cell: `.` when empty, else its decimal digit.
pub open spec fn cell_char_of(d: u32) -> char {
    if d == 0 {
        '.'
    } else {
        digit_char(d as nat)
    }
}

/// The rows of a board written one char per cell.
pub open spec fn char_rows(n: nat, cells: Seq<u32>) -> Seq<Seq<char>> {
    Seq::new(n, |r: int| Seq::new(n, |c: int| cell_char_of(at(n, cells, r, c))))
}

/// Text without whitespace is a single word, or none when empty.
proof fn lemma_words_plain(s: Seq<char>)
    requires
        forall|i: int| 0 <= i < s.len() ==> !is_ws(#[trigger] s[i]),
    ensures
        words(s).len() == if s.len() == 0 {
            0nat
        } else {
            1nat
        },
    decreases s.len(),
{
    if s.len() > 0 {
        let q = s.drop_last();
        assert forall|i: int| 0 <= i < q.len() implies !is_ws(#[trigger] q[i]) by {
            assert(q[i] == s[i]);
        }
        lemma_words_plain(q);
        assert(!is_ws(s[s.len() - 1]));
        if s.len() >= 2 {
            assert(!is_ws(s[s.len() - 2]));
        }
    }
}

/// Reading back the one-char-per-cell rows of a board gives the board: for a
/// well-formed board with `1 <= n <= 9`, `Board::from_rows` of its rows, each cell
/// written as `.` when empty or as its digit `1`..`9`, is `Ok(b)`.
pub proof fn law_char_rows_roundtrip(b: Board)
    requires
        b.wf(),
        1 <= b.n <= 9,
    ensures
        rows_board(char_rows(b.n as nat, b.cells@)) == Ok::<(nat, Seq<u32>), crate::board::ErrorView>(
            (b.n as nat, b.cells@),
        ),
{
    let n = b.n as nat;
    let cells = b.cells@;
    let rows = char_rows(n, cells);
    assert(rows.len() as usize == b.n);
    assert forall|r: int| 0 <= r < rows.len() implies #[trigger] row_reader(b.n)(r, rows[r])
        == Ok::<Seq<u32>, crate::board::ErrorView>(cells.subrange(r * n, r * n + n)) by {
        lemma_row_chunk(n, cells, r);
        let row = rows[r];
        let vals = cells.subrange(r * n, r * n + n);
        assert(row == Seq::new(n, |c: int| cell_char_of(at(n, cells, r, c))));
        assert forall|i: int| 0 <= i < row.len() implies #[trigger] char_cells(b.n)(i, row[i])
            == Ok::<Seq<u32>, crate::board::ErrorView>(seq![vals[i]]) by {
            let d = at(n, cells, r, i);
            lemma_cell_index(n as int, r, i);
            assert(vals[i] == d);
            assert(d <= n);
            assert(row[i] == cell_char_of(d));
            if d != 0 {
                assert((digit_char(d as nat) as u32) == 48 + d);
            }
        }
        assert forall|i: int| 0 <= i < row.len() implies !is_ws(#[trigger] row[i]) by {
            let d = at(n, cells, r, i);
            lemma_cell_index(n as int, r, i);
            assert(d <= n);
            if d != 0 {
                assert((digit_char(d as nat) as u32) == 48 + d);
            }
        }
        lemma_words_plain(row);
        lemma_collect_singletons(row, char_cells(b.n), vals);
    }
    lemma_collect_chunks(rows, row_reader(b.n), n, cells);
}

/// Reading back the CSV text of a board gives the board: for a well-formed board of
/// dimension at least one, `Board::from_csv_str(&b.to_csv_string())` is `Ok(b)`.
pub proof fn law_csv_roundtrip(b: Board)
    requires
        b.wf(),
        b.n >= 1,
    ensures
        csv_board(grid_text(b.n as nat, b.cells@, ',')) == Ok::<
            (nat, Seq<u32>),
            crate::board::ErrorView,
        >((b.n as nat, b.cells@)),
{
    let n = b.n as nat;
    let cells = b.cells@;
    lemma_grid_lines(n, cells, ',');
    let rows = row_texts(n, cells, ',');
    assert(rows.len() as usize == b.n);
    assert forall|r: int| 0 <= r < rows.len() implies #[trigger] csv_row_reader(b.n)(r, rows[r])
        == Ok::<Seq<u32>, crate::board::ErrorView>(cells.subrange(r * n, r * n + n)) by {
        lemma_row_chunk(n, cells, r);
        let parts = row_cell_texts(n, cells, r);
        let vals = cells.subrange(r * n, r * n + n);
        assert(rows[r] == join(parts, ','));
        assert forall|i: int, j: int| 0 <= i < parts.len() && 0 <= j < parts[i].len() implies #[trigger] parts[i][j]
            != ',' by {
            lemma_cell_text(at(n, cells, r, i));
        }
        lemma_split_join(parts, ',');
        let fields = csv_fields(rows[r]);
        assert forall|i: int| 0 <= i < parts.len() implies #[trigger] fields[i] == parts[i] by {
            lemma_cell_text(at(n, cells, r, i));
            lemma_trim_plain(parts[i]);
        }
        assert(fields =~= parts);
        assert forall|i: int| 0 <= i < parts.len() implies #[trigger] csv_token_cells(b.n)(i, parts[i])
            == Ok::<Seq<u32>, crate::board::ErrorView>(seq![vals[i]]) by {
            let d = at(n, cells, r, i);
            lemma_cell_index(n as int, r, i);
            lemma_cell_text(d);
            assert(vals[i] == d);
            assert(d <= n);
        }
        lemma_collect_singletons(parts, csv_token_cells(b.n), vals);
    }
    lemma_collect_chunks(rows, csv_row_reader(b.n), n, cells);
}


/// Reading a cell after writing it gives what was written, and leaves every other
/// cell as it was: after `b.set(r, c, d)` succeeds, `b.get(r, c)` is `Ok(d)` and
/// `get` of any other cell is unchanged.
pub proof fn law_get_after_set(n: nat, cells: Seq<u32>, r: int, c: int, d: u32, r2: int, c2: int)
    requires
        cells.len() == n * n,
        0 <= r < n,
        0 <= c < n,
        0 <= r2 < n,
        0 <= c2 < n,
    ensures
        at(n, cells.update(r * n + c, d), r, c) == d,
        (r2 != r || c2 != c) ==> at(n, cells.update(r * n + c, d), r2, c2) == at(n, cells, r2, c2),
{
    lemma_cell_index(n as int, r, c);
    lemma_cell_index(n as int, r2, c2);
    if r2 * n + c2 == r * n + c {
        lemma_cell_index_injective(n as int, r2, c2, r, c);
    }
}

/// At an empty cell, the digits that `allowed_digits` lists are exactly those that
/// `is_valid_digit` accepts.
pub proof fn law_allowed_iff_valid(n: nat, cells: Seq<u32>, r: int, c: int, d: u32)
    requires
        cells.len() == n * n,
        n <= u32::MAX,
        0 <= r < n,
        0 <= c < n,
        at(n, cells, r, c) == 0,
        1 <= d <= n,
    ensures
        candidates(n, cells, r, c).contains(d) <==> placeable(n, cells, r, c, d),
{
    lemma_free_digits(n, cells, r, c, n);
    if candidates(n, cells, r, c).contains(d) {
        let j = choose|j: int| 0 <= j < candidates(n, cells, r, c).len() && candidates(n, cells, r, c)[j] == d;
        assert(!in_row(n, cells, r, d));
        assert(!in_col(n, cells, c, d));
    }
    if placeable(n, cells, r, c, d) {
        if in_row(n, cells, r, d) {
            let k = choose|k: int| 0 <= k < n && #[trigger] at(n, cells, r, k) == d;
        }
        if in_col(n, cells, c, d) {
            let k = choose|k: int| 0 <= k < n && #[trigger] at(n, cells, k, c) == d;
        }
    }
}

/// Whether a digit may go into a cell does not depend on what that cell holds now:
/// `is_valid_digit(r, c, d)` gives the same answer whatever value stands at
/// `(r, c)`, the digit `d` itself, another digit or none.
pub proof fn law_valid_ignores_own_cell(n: nat, cells: Seq<u32>, r: int, c: int, d: u32, e: u32)
    requires
        cells.len() == n * n,
        0 <= r < n,
        0 <= c < n,
    ensures
        placeable(n, cells, r, c, d) == placeable(n, cells.update(r * n + c, e), r, c, d),
{
    let upd = cells.update(r * n + c, e);
    lemma_cell_index(n as int, r, c);
    assert forall|cc: int| 0 <= cc < n && cc != c implies #[trigger] at(n, upd, r, cc) == at(
        n,
        cells,
        r,
        cc,
    ) by {
        lemma_cell_index(n as int, r, cc);
        if r * n + cc == r * n + c {
            lemma_cell_index_injective(n as int, r, cc, r, c);
        }
    }
    assert forall|rr: int| 0 <= rr < n && rr != r implies #[trigger] at(n, upd, rr, c) == at(
        n,
        cells,
        rr,
        c,
    ) by {
        lemma_cell_index(n as int, rr, c);
        if rr * n + c == r * n + c {
            lemma_cell_index_injective(n as int, rr, c, r, c);
        }
    }
    if placeable(n, cells, r, c, d) {
        assert forall|cc: int| 0 <= cc < n && cc != c implies #[trigger] at(n, upd, r, cc) != d by {
            assert(at(n, cells, r, cc) != d);
        }
        assert forall|rr: int| 0 <= rr < n && rr != r implies #[trigger] at(n, upd, rr, c) != d by {
            assert(at(n, cells, rr, c) != d);
        }
    }
    if placeable(n, upd, r, c, d) {
        assert forall|cc: int| 0 <= cc < n && cc != c implies #[trigger] at(n, cells, r, cc) != d by {
            assert(at(n, upd, r, cc) != d);
        }
        assert forall|rr: int| 0 <= rr < n && rr != r implies #[trigger] at(n, cells, rr, c) != d by {
            assert(at(n, upd, rr, c) != d);
        }
    }
}

/// Writing a digit that `is_valid_digit` accepts into an empty cell of a consistent
/// board keeps it consistent.
pub proof fn law_valid_placement_consistent(n: nat, cells: Seq<u32>, r: int, c: int, d: u32)
    requires
        cells.len() == n * n,
        consistent(n, cells),
        0 <= r < n,
        0 <= c < n,
        at(n, cells, r, c) == 0,
        1 <= d <= n,
        placeable(n, cells, r, c, d),
    ensures
        consistent(n, cells.update(r * n + c, d)),
{
    if in_row(n, cells, r, d) {
        let k = choose|k: int| 0 <= k < n && #[trigger] at(n, cells, r, k) == d;
    }
    if in_col(n, cells, c, d) {
        let k = choose|k: int| 0 <= k < n && #[trigger] at(n, cells, k, c) == d;
    }
    lemma_place_consistent(n, cells, r, c, d);
}

/// `solve` finds a solution exactly when `count_solutions` (with a positive limit)
/// counts at least one.
pub proof fn law_solve_agrees_with_count(n: nat, cells: Seq<u32>)
    requires
        n <= u32::MAX,
    ensures
        solvable(n, cells) <==> solutions(n, cells).len() >= 1,
{
    lemma_solutions_finite(n, cells);
    if solvable(n, cells) {
        let s = choose|s: Seq<u32>| is_solution(n, cells, s);
        assert(solutions(n, cells).contains(s));
    } else {
        assert(solutions(n, cells) =~= Set::<Seq<u32>>::empty());
    }
}

/// A solution is a complete and consistent board, and it is its own only solution:
/// `count_solutions` of what `solve` returns is `1` for any positive limit.
pub proof fn law_solution_is_solved(n: nat, base: Seq<u32>, s: Seq<u32>)
    requires
        n <= u32::MAX,
        is_solution(n, base, s),
    ensures
        complete(s),
        consistent(n, s),
        solutions(n, s).len() == 1,
{
    assert(digits_in_range(n, s));
    lemma_complete_single(n, s);
}

/// A puzzle made by emptying cells of a solved board has that board as a solution;
/// when it has exactly one solution (what `make_puzzle_clues` ensures when asked for
/// uniqueness), that solution is the solved board.
pub proof fn law_puzzle_keeps_solution(n: nat, solved: Seq<u32>, puzzle: Seq<u32>)
    requires
        n <= u32::MAX,
        solved.len() == n * n,
        digits_in_range(n, solved),
        complete(solved),
        consistent(n, solved),
        puzzle.len() == solved.len(),
        forall|i: int| 0 <= i < puzzle.len() ==> #[trigger] puzzle[i] == solved[i] || puzzle[i] == 0,
    ensures
        is_solution(n, puzzle, solved),
        solutions(n, puzzle).len() == 1 ==> solutions(n, puzzle) == Set::<Seq<u32>>::empty().insert(
            solved,
        ),
{
    assert(is_solution(n, puzzle, solved));
    lemma_solutions_finite(n, puzzle);
    if solutions(n, puzzle).len() == 1 {
        let all = solutions(n, puzzle);
        assert(all.contains(solved));
        assert(all.remove(solved).len() == 0);
        assert(all.remove(solved) =~= Set::<Seq<u32>>::empty());
        assert(all =~= Set::<Seq<u32>>::empty().insert(solved)) by {
            assert forall|s: Seq<u32>| all.contains(s) implies s == solved by {
                if s != solved {
                    assert(all.remove(solved).contains(s));
                }
            }
        }
    }
}


// ---------------------------------------------------------------------------
// Clue removal.
// ---------------------------------------------------------------------------

/// `p` is `q` with some cells emptied.
pub open spec fn emptied_from(p: Seq<u32>, q: Seq<u32>) -> bool {
    &&& p.len() == q.len()
    &&& forall|i: int| 0 <= i < p.len() ==> #[trigger] p[i] == q[i] || p[i] == 0
}

/// Emptying cells keeps a consistent board consistent.
proof fn lemma_emptied_consistent(n: nat, p: Seq<u32>, q: Seq<u32>)
    requires
        q.len() == n * n,
        emptied_from(p, q),
        consistent(n, q),
    ensures
        consistent(n, p),
{
    assert forall|r: int| 0 <= r < n implies #[trigger] row_distinct(n, p, r) by {
        assert(row_distinct(n, q, r));
        assert forall|c1: int, c2: int|
            0 <= c1 < n && 0 <= c2 < n && c1 != c2 && at(n, p, r, c1) != 0 implies #[trigger] at(
            n,
            p,
            r,
            c1,
        ) != #[trigger] at(n, p, r, c2) by {
            lemma_cell_index(n as int, r, c1);
            lemma_cell_index(n as int, r, c2);
            assert(p[r * n + c1] == q[r * n + c1] || p[r * n + c1] == 0);
            assert(p[r * n + c2] == q[r * n + c2] || p[r * n + c2] == 0);
            assert(at(n, q, r, c1) != at(n, q, r, c2));
        }
    }
    assert forall|c: int| 0 <= c < n implies #[trigger] col_distinct(n, p, c) by {
        assert(col_distinct(n, q, c));
        assert forall|r1: int, r2: int|
            0 <= r1 < n && 0 <= r2 < n && r1 != r2 && at(n, p, r1, c) != 0 implies #[trigger] at(
            n,
            p,
            r1,
            c,
        ) != #[trigger] at(n, p, r2, c) by {
            lemma_cell_index(n as int, r1, c);
            lemma_cell_index(n as int, r2, c);
            assert(p[r1 * n + c] == q[r1 * n + c] || p[r1 * n + c] == 0);
            assert(p[r2 * n + c] == q[r2 * n + c] || p[r2 * n + c] == 0);
            assert(at(n, q, r1, c) != at(n, q, r2, c));
        }
    }
}

/// A solution of a board is a solution of the board with some cells emptied.
proof fn lemma_emptied_solution(n: nat, p: Seq<u32>, q: Seq<u32>, s: Seq<u32>)
    requires
        emptied_from(p, q),
        is_solution(n, q, s),
    ensures
        is_solution(n, p, s),
{
    assert forall|i: int| 0 <= i < p.len() && p[i] != 0 implies #[trigger] s[i] == p[i] by {
        assert(p[i] == q[i] || p[i] == 0);
        assert(s[i] == q[i]);
    }
}

/// Emptying a cell of an acceptable board that the clue removal refuses to empty
/// is refused again after further cells have been emptied.
proof fn lemma_refusal_persists(n: nat, p: Seq<u32>, r: Seq<u32>, i: int, unique: bool)
    requires
        n <= u32::MAX,
        p.len() == n * n,
        0 <= i < p.len(),
        acceptable(n, p, unique),
        !acceptable(n, p.update(i, 0), unique),
        emptied_from(r, p),
        acceptable(n, r, unique),
        r[i] != 0,
    ensures
        !acceptable(n, r.update(i, 0), unique),
{
    let q = p.update(i, 0);
    let r2 = r.update(i, 0);
    assert(emptied_from(q, p));
    assert(emptied_from(r2, q)) by {
        assert forall|x: int| 0 <= x < r2.len() implies #[trigger] r2[x] == q[x] || r2[x] == 0 by {
            if x != i {
                assert(r[x] == p[x] || r[x] == 0);
            }
        }
    }
    lemma_emptied_consistent(n, q, p);
    if !unique {
        let s = choose|s: Seq<u32>| is_solution(n, p, s);
        lemma_emptied_solution(n, q, p, s);
        assert(solvable(n, q));
    } else {
        let sp = solutions(n, p);
        let sq = solutions(n, q);
        let sr = solutions(n, r2);
        lemma_solutions_finite(n, p);
        lemma_solutions_finite(n, q);
        lemma_solutions_finite(n, r2);
        vstd::set::axiom_set_choose_len(sp);
        let s0 = sp.choose();
        assert(is_solution(n, p, s0));
        lemma_emptied_solution(n, q, p, s0);
        assert(sq.contains(s0));
        vstd::set::axiom_set_remove_len(sq, s0);
        vstd::set::axiom_set_remove_finite(sq, s0);
        assert(sq.len() != 1);
        assert(sq.remove(s0).len() != 0);
        vstd::set::axiom_set_choose_len(sq.remove(s0));
        let s1 = sq.remove(s0).choose();
        assert(sq.contains(s1) && s1 != s0);
        lemma_emptied_solution(n, r2, q, s0);
        lemma_emptied_solution(n, r2, q, s1);
        assert(sr.contains(s0));
        assert(sr.contains(s1));
        vstd::set::axiom_set_remove_len(sr, s0);
        vstd::set::axiom_set_remove_finite(sr, s0);
        assert(sr.remove(s0).contains(s1));
        if sr.len() == 1 {
            vstd::set_lib::lemma_set_empty_equivalency_len(sr.remove(s0));
            assert(sr.remove(s0) == Set::<Seq<u32>>::empty());
            assert(false);
        }
    }
}

/// Clue removal only empties cells, and leaves an acceptable board acceptable.
proof fn lemma_stripped_shape(
    n: nat,
    p: Seq<u32>,
    target: nat,
    unique: bool,
    order: Seq<usize>,
    k: int,
)
    requires
        forall|j: int| 0 <= j < order.len() ==> #[trigger] order[j] < p.len(),
    ensures
        emptied_from(stripped(n, p, target, unique, order, k), p),
        acceptable(n, p, unique) ==> acceptable(n, stripped(n, p, target, unique, order, k), unique),
    decreases order.len() - k,
{
    if !(k < 0 || k >= order.len() || clue_count(p) <= target) {
        let i = order[k] as int;
        let e = p.update(i, 0);
        let next = if acceptable(n, e, unique) {
            e
        } else {
            p
        };
        lemma_stripped_shape(n, next, target, unique, order, k + 1);
        let res = stripped(n, next, target, unique, order, k + 1);
        assert forall|x: int| 0 <= x < res.len() implies #[trigger] res[x] == p[x] || res[x] == 0 by {
            assert(res[x] == next[x] || res[x] == 0);
        }
    }
}

/// The greedy removal from cell `order[k]` on: unless it got down to `target`
/// clues, no cell of `order[k..]` that still holds a clue can be emptied.
proof fn lemma_stripped_greedy(
    n: nat,
    p: Seq<u32>,
    target: nat,
    unique: bool,
    order: Seq<usize>,
    k: int,
)
    requires
        n <= u32::MAX,
        p.len() == n * n,
        0 <= k,
        acceptable(n, p, unique),
        forall|j: int| 0 <= j < order.len() ==> #[trigger] order[j] < p.len(),
    ensures
        ({
            let res = stripped(n, p, target, unique, order, k);
            clue_count(res) <= target || forall|j: int|
                k <= j < order.len() && res[order[j] as int] != 0 ==> !acceptable(
                    n,
                    #[trigger] res.update(order[j] as int, 0),
                    unique,
                )
        }),
    decreases order.len() - k,
{
    if !(k >= order.len() || clue_count(p) <= target) {
        let i = order[k] as int;
        let e = p.update(i, 0);
        if acceptable(n, e, unique) {
            lemma_stripped_greedy(n, e, target, unique, order, k + 1);
            lemma_stripped_shape(n, e, target, unique, order, k + 1);
            let res = stripped(n, e, target, unique, order, k + 1);
            assert(res[i] == e[i] || res[i] == 0);
        } else {
            lemma_stripped_greedy(n, p, target, unique, order, k + 1);
            lemma_stripped_shape(n, p, target, unique, order, k + 1);
            let res = stripped(n, p, target, unique, order, k + 1);
            if res[i] != 0 {
                lemma_refusal_persists(n, p, res, i, unique);
            }
        }
    }
}

/// Clue removal is greedy over the whole order: in the puzzle that
/// `strip_clues(solved, clues, unique, order)` (and so `make_puzzle_clues`) makes,
/// either at most the requested number of clues is left, or no clue left on a cell
/// of the order can be emptied without the puzzle becoming inconsistent or losing
/// its unique solution (with `unique`) or every solution (without). Without
/// `unique` this means the removal always gets down to the requested count or
/// empties every cell of the order.
pub proof fn law_strip_clues_greedy(
    n: nat,
    solved: Seq<u32>,
    target: nat,
    unique: bool,
    order: Seq<usize>,
)
    requires
        n <= u32::MAX,
        solved.len() == n * n,
        digits_in_range(n, solved),
        complete(solved),
        consistent(n, solved),
        forall|j: int| 0 <= j < order.len() ==> #[trigger] order[j] < n * n,
    ensures
        ({
            let p = stripped(n, solved, target, unique, order, 0);
            clue_count(p) <= target || forall|j: int|
                0 <= j < order.len() && p[order[j] as int] != 0 ==> !acceptable(
                    n,
                    #[trigger] p.update(order[j] as int, 0),
                    unique,
                )
        }),
        ({
            let p = stripped(n, solved, target, unique, order, 0);
            !unique ==> clue_count(p) <= target || forall|j: int|
                0 <= j < order.len() ==> #[trigger] p[order[j] as int] == 0
        }),
{
    lemma_complete_solution(n, solved);
    lemma_complete_single(n, solved);
    assert(acceptable(n, solved, unique));
    lemma_stripped_greedy(n, solved, target, unique, order, 0);
    lemma_stripped_shape(n, solved, target, unique, order, 0);
    let p = stripped(n, solved, target, unique, order, 0);
    if !unique && clue_count(p) > target {
        assert forall|j: int| 0 <= j < order.len() implies #[trigger] p[order[j] as int] == 0 by {
            let i = order[j] as int;
            if p[i] != 0 {
                let q = p.update(i, 0);
                assert(!acceptable(n, q, unique));
                assert(emptied_from(q, p));
                lemma_emptied_consistent(n, q, p);
                let s = choose|s: Seq<u32>| is_solution(n, p, s);
                lemma_emptied_solution(n, q, p, s);
                assert(false);
            }
        }
    }
}

/// Reading back the grid that `to_json_string` writes gives the board: for a
/// well-formed board of dimension at least one, `Board::from_grid_values(b.n, rows)`
/// with `rows` its rows (the `grid` field of its JSON form) is `Ok(b)`.
pub proof fn law_grid_roundtrip(b: Board)
    requires
        b.wf(),
        b.n >= 1,
    ensures
        grid_board(b.n, grid_rows(b.n as nat, b.cells@)) == Ok::<
            (nat, Seq<u32>),
            crate::board::ErrorView,
        >((b.n as nat, b.cells@)),
{
    let n = b.n as nat;
    let cells = b.cells@;
    let g = grid_rows(n, cells);
    assert(grid_cells(n, g) =~= cells) by {
        assert forall|i: int| 0 <= i < cells.len() implies #[trigger] grid_cells(n, g)[i] == cells[i] by {
            crate::board::lemma_index_cell(n as int, i);
        }
    }
    assert forall|i: int| 0 <= i < cells.len() implies #[trigger] digit_cells(b.n)(i, cells[i])
        == Ok::<Seq<u32>, crate::board::ErrorView>(seq![cells[i]]) by {}
    lemma_collect_singletons(cells, digit_cells(b.n), cells);
}

} // verus!
