//! Reading boards from text: rows of cells, CSV, and multi-line strings.

use vstd::prelude::*;

use crate::board::{board_result, Board, CoreError, Digit, ErrorView};
use crate::text::{
    chars_of, dec, is_digit, nonblank_lines, nonblank_lines_of, parse_u32, parse_u32_chars,
    push_dec, split_chars, split_on, string_from_chars, trim, trim_chars, views, words, words_of,
};

verus! {

// ---------------------------------------------------------------------------
// Reading a sequence of items into cells, stopping at the first error.
// ---------------------------------------------------------------------------

/// A reader of one item (with its position) into zero or more cells.
pub type CellReader<A> = spec_fn(int, A) -> Result<Seq<u32>, ErrorView>;

/// The cells that `f` reads from the items in order, or the first error it meets.
pub open spec fn collect<A>(items: Seq<A>, f: CellReader<A>) -> Result<Seq<u32>, ErrorView>
    decreases items.len(),
{
    if items.len() == 0 {
        Ok(seq![])
    } else {
        match collect(items.drop_last(), f) {
            Err(e) => Err(e),
            Ok(done) => match f(items.len() - 1, items.last()) {
                Err(e) => Err(e),
                Ok(more) => Ok(done + more),
            },
        }
    }
}

/// Reading one more item.
pub proof fn lemma_collect_step<A>(items: Seq<A>, f: CellReader<A>, k: int)
    requires
        0 <= k < items.len(),
    ensures
        collect(items.take(k + 1), f) == match collect(items.take(k), f) {
            Err(e) => Err(e),
            Ok(done) => match f(k, items[k]) {
                Err(e) => Err(e),
                Ok(more) => Ok(done + more),
            },
        },
{
    assert(items.take(k + 1).drop_last() =~= items.take(k));
}

/// Once reading a prefix fails, reading the whole fails with the same error.
pub proof fn lemma_collect_err<A>(items: Seq<A>, f: CellReader<A>, k: int)
    requires
        0 <= k <= items.len(),
        collect(items.take(k), f) is Err,
    ensures
        collect(items, f) == collect(items.take(k), f),
    decreases items.len() - k,
{
    if k == items.len() {
        assert(items.take(k) =~= items);
    } else {
        lemma_collect_step(items, f, k);
        lemma_collect_err(items, f, k + 1);
    }
}

/// When every item reads into `m` cells of at most `bound`, all items read into
/// `items.len() * m` such cells.
pub proof fn lemma_collect_len<A>(items: Seq<A>, f: CellReader<A>, m: nat, bound: nat)
    requires
        forall|i: int|
            0 <= i < items.len() ==> (#[trigger] f(i, items[i]) matches Ok(v) ==> v.len() == m
                && forall|j: int| 0 <= j < v.len() ==> v[j] <= bound),
    ensures
        collect(items, f) matches Ok(v) ==> v.len() == items.len() * m && forall|j: int|
            0 <= j < v.len() ==> v[j] <= bound,
    decreases items.len(),
{
    if items.len() > 0 {
        let p = items.drop_last();
        assert forall|i: int| 0 <= i < p.len() implies (#[trigger] f(i, p[i]) matches Ok(v) ==> v.len()
            == m && forall|j: int| 0 <= j < v.len() ==> v[j] <= bound) by {
            assert(p[i] == items[i]);
        }
        lemma_collect_len(p, f, m, bound);
        let k = items.len() - 1;
        assert(f(k, items[k]) matches Ok(v) ==> v.len() == m);
        if let Ok(v) = collect(items, f) {
            let done = collect(p, f)->Ok_0;
            let more = f(k, items.last())->Ok_0;
            assert(v == done + more);
            assert((items.len() - 1) * m + m == items.len() * m) by (nonlinear_arith);
            assert forall|j: int| 0 <= j < v.len() implies v[j] <= bound by {
                if j < done.len() {
                    assert(v[j] == done[j]);
                } else {
                    assert(v[j] == more[j - done.len()]);
                }
            }
        }
    }
}

/// When each item reads into exactly one given cell, all items read into those cells.
pub proof fn lemma_collect_singletons<A>(items: Seq<A>, f: CellReader<A>, vals: Seq<u32>)
    requires
        items.len() == vals.len(),
        forall|i: int| 0 <= i < items.len() ==> #[trigger] f(i, items[i]) == Ok::<Seq<u32>, ErrorView>(seq![vals[i]]),
    ensures
        collect(items, f) == Ok::<Seq<u32>, ErrorView>(vals),
    decreases items.len(),
{
    if items.len() > 0 {
        let p = items.drop_last();
        let q = vals.drop_last();
        assert forall|i: int| 0 <= i < p.len() implies #[trigger] f(i, p[i]) == Ok::<Seq<u32>, ErrorView>(seq![q[i]]) by {
            assert(p[i] == items[i]);
            assert(f(i, items[i]) == Ok::<Seq<u32>, ErrorView>(seq![vals[i]]));
        }
        lemma_collect_singletons(p, f, q);
        let k = items.len() - 1;
        assert(f(k, items[k]) == Ok::<Seq<u32>, ErrorView>(seq![vals[k]]));
        assert(items.last() == items[k]);
        assert(q + seq![vals[k]] =~= vals);
    } else {
        assert(vals =~= Seq::<u32>::empty());
    }
}

/// When item `i` reads into cells `i * m .. i * m + m` of `cells`, all items read into `cells`.
pub proof fn lemma_collect_chunks<A>(items: Seq<A>, f: CellReader<A>, m: nat, cells: Seq<u32>)
    requires
        cells.len() == items.len() * m,
        forall|i: int|
            0 <= i < items.len() ==> #[trigger] f(i, items[i]) == Ok::<Seq<u32>, ErrorView>(
                cells.subrange(i * m, i * m + m),
            ),
    ensures
        collect(items, f) == Ok::<Seq<u32>, ErrorView>(cells),
    decreases items.len(),
{
    if items.len() > 0 {
        let k = items.len() - 1;
        let p = items.drop_last();
        assert(k * m + m == items.len() * m) by (nonlinear_arith)
            requires
                k == items.len() - 1,
        ;
        assert(0 <= k * m) by (nonlinear_arith)
            requires
                k >= 0,
        ;
        let q = cells.take(k * m);
        assert forall|i: int| 0 <= i < p.len() implies #[trigger] f(i, p[i]) == Ok::<Seq<u32>, ErrorView>(
            q.subrange(i * m, i * m + m),
        ) by {
            assert(p[i] == items[i]);
            assert(f(i, items[i]) == Ok::<Seq<u32>, ErrorView>(cells.subrange(i * m, i * m + m)));
            assert(i * m + m <= k * m) by (nonlinear_arith)
                requires
                    0 <= i < k,
            ;
            assert(0 <= i * m) by (nonlinear_arith)
                requires
                    i >= 0,
            ;
            assert(q.subrange(i * m, i * m + m) =~= cells.subrange(i * m, i * m + m));
        }
        lemma_collect_chunks(p, f, m, q);
        assert(f(k, items[k]) == Ok::<Seq<u32>, ErrorView>(cells.subrange(k * m, k * m + m)));
        assert(items.last() == items[k]);
        assert(q + cells.subrange(k * m, k * m + m) =~= cells);
    } else {
        assert(items.len() * m == 0) by (nonlinear_arith)
            requires
                items.len() == 0,
        ;
        assert(cells =~= Seq::<u32>::empty());
    }
}

/// The cells of a result, or its error.
pub open spec fn cells_result(res: Result<Vec<u32>, CoreError>) -> Result<Seq<u32>, ErrorView> {
    match res {
        Ok(v) => Ok(v@),
        Err(e) => Err(e@),
    }
}

/// The cell of a result, or its error.
pub open spec fn cell_result(res: Result<u32, CoreError>) -> Result<Seq<u32>, ErrorView> {
    match res {
        Ok(d) => Ok(seq![d]),
        Err(e) => Err(e@),
    }
}

// ---------------------------------------------------------------------------
// Messages.
// ---------------------------------------------------------------------------

/// `row {r}{mid}{k}{tail}{n}`: the message for a row of the wrong size.
pub open spec fn row_message(r: nat, mid: Seq<char>, k: nat, tail: Seq<char>, n: nat) -> Seq<
    char,
> {
    "row "@ + dec(r) + mid + dec(k) + tail + dec(n)
}

/// `{prefix}'{t}'`: the message for an unreadable token.
pub open spec fn quoted_message(prefix: Seq<char>, t: Seq<char>) -> Seq<char> {
    prefix + "'"@ + t + "'"@
}

/// Appends the chars of `s`.
fn push_str(out: &mut Vec<char>, s: &str)
    ensures
        final(out)@ == old(out)@ + s@,
{
    let mut v: Vec<char> = chars_of(s);
    out.append(&mut v);
}

fn make_row_message(r: usize, mid: &str, k: usize, tail: &str, n: usize) -> (m: String)
    ensures
        m@ == row_message(r as nat, mid@, k as nat, tail@, n as nat),
{
    let mut out: Vec<char> = Vec::new();
    push_str(&mut out, "row ");
    push_dec(&mut out, r as u64);
    push_str(&mut out, mid);
    push_dec(&mut out, k as u64);
    push_str(&mut out, tail);
    push_dec(&mut out, n as u64);
    assert(out@ =~= row_message(r as nat, mid@, k as nat, tail@, n as nat));
    string_from_chars(&out)
}

fn make_quoted_message(prefix: &str, t: &Vec<char>) -> (m: String)
    ensures
        m@ == quoted_message(prefix@, t@),
{
    let mut out: Vec<char> = Vec::new();
    push_str(&mut out, prefix);
    push_str(&mut out, "'");
    let mut tt: Vec<char> = t.clone();
    assert(tt@ =~= t@);
    out.append(&mut tt);
    push_str(&mut out, "'");
    assert(out@ =~= quoted_message(prefix@, t@));
    string_from_chars(&out)
}

// ---------------------------------------------------------------------------
// Rows of cells (`Board::from_rows`).
// ---------------------------------------------------------------------------

/// The value of a whitespace-separated token: `.` and `0` mean an empty cell,
/// anything else is read as a `u32`.
pub open spec fn token_value(t: Seq<char>) -> Option<u32> {
    if t == seq!['.'] || t == seq!['0'] {
        Some(0u32)
    } else {
        parse_u32(t)
    }
}

/// A whitespace-separated token read as one cell of an `n`-board.
pub open spec fn token_cell(n: usize, t: Seq<char>) -> Result<Seq<u32>, ErrorView> {
    match token_value(t) {
        None => Err(ErrorView::Parse(quoted_message("bad token "@, t))),
        Some(d) => if d > n {
            Err(ErrorView::BadDigit { d, n })
        } else {
            Ok(seq![d])
        },
    }
}

/// The reader of whitespace-separated tokens.
pub open spec fn token_cells(n: usize) -> CellReader<Seq<char>> {
    |i: int, t: Seq<char>| token_cell(n, t)
}

/// The value of a single-char cell: `.` and `0` mean empty, `1`..`9` a digit.
pub open spec fn char_value(ch: char) -> Option<u32> {
    if ch == '.' || ch == '0' {
        Some(0u32)
    } else if is_digit(ch) {
        Some(((ch as u32) - 48) as u32)
    } else {
        None
    }
}

/// A char read as one cell of an `n`-board.
pub open spec fn char_cell(n: usize, ch: char) -> Result<Seq<u32>, ErrorView> {
    match char_value(ch) {
        None => Err(ErrorView::Parse(quoted_message("bad char "@, seq![ch]))),
        Some(d) => if d > n {
            Err(ErrorView::BadDigit { d, n })
        } else {
            Ok(seq![d])
        },
    }
}

/// The reader of single-char cells.
pub open spec fn char_cells(n: usize) -> CellReader<char> {
    |i: int, ch: char| char_cell(n, ch)
}

/// Row `r` of an `n`-board: more than one whitespace-separated token means one
/// token per cell; otherwise one char per cell.
pub open spec fn row_cells(n: usize, r: int, row: Seq<char>) -> Result<Seq<u32>, ErrorView> {
    let toks = words(row);
    if toks.len() > 1 {
        if toks.len() != n {
            Err(
                ErrorView::Parse(
                    row_message(r as nat, " has "@, toks.len(), " tokens, expected "@, n as nat),
                ),
            )
        } else {
            collect(toks, token_cells(n))
        }
    } else if row.len() != n {
        Err(
            ErrorView::Parse(
                row_message(r as nat, " has length "@, row.len(), ", expected "@, n as nat),
            ),
        )
    } else {
        collect(row, char_cells(n))
    }
}

/// The reader of the rows of an `n`-board.
pub open spec fn row_reader(n: usize) -> CellReader<Seq<char>> {
    |r: int, row: Seq<char>| row_cells(n, r, row)
}

/// The board that `Board::from_rows` reads: as many rows as `n`, each row read in turn;
/// the first error met, or `BadDim` for no rows.
pub open spec fn rows_board(rows: Seq<Seq<char>>) -> Result<(nat, Seq<u32>), ErrorView> {
    if rows.len() == 0 {
        Err(ErrorView::BadDim)
    } else {
        match collect(rows, row_reader(rows.len() as usize)) {
            Ok(cs) => Ok((rows.len(), cs)),
            Err(e) => Err(e),
        }
    }
}

/// Reads the cell of one checked digit.
fn digit_cell(d: u32, n: usize) -> (res: Result<u32, CoreError>)
    ensures
        cell_result(res) == if d > n {
            Err(ErrorView::BadDigit { d, n })
        } else {
            Ok(seq![d])
        },
{
    if d as usize > n {
        return Err(CoreError::BadDigit { d, n });
    }
    Ok(d)
}

fn read_token(n: usize, t: &Vec<char>) -> (res: Result<u32, CoreError>)
    ensures
        cell_result(res) == token_cell(n, t@),
{
    let d: u32 = if t.len() == 1 && (t[0] == '.' || t[0] == '0') {
        assert(t@ =~= seq![t@[0]]);
        0
    } else {
        assert(t@ != seq!['.'] && t@ != seq!['0']) by {
            if t@.len() == 1 {
                assert(t@ == seq!['.'] ==> t@[0] == '.');
                assert(t@ == seq!['0'] ==> t@[0] == '0');
            }
        }
        match parse_u32_chars(t) {
            Some(d) => d,
            None => {
                return Err(CoreError::Parse(make_quoted_message("bad token ", t)));
            },
        }
    };
    digit_cell(d, n)
}

fn read_char(n: usize, ch: char) -> (res: Result<u32, CoreError>)
    ensures
        cell_result(res) == char_cell(n, ch),
{
    let d: u32 = if ch == '.' || ch == '0' {
        0
    } else if 48 <= (ch as u32) && (ch as u32) <= 57 {
        (ch as u32) - 48
    } else {
        let mut one: Vec<char> = Vec::new();
        one.push(ch);
        assert(one@ =~= seq![ch]);
        return Err(CoreError::Parse(make_quoted_message("bad char ", &one)));
    };
    digit_cell(d, n)
}

/// Reads row `r` of an `n`-board.
fn read_row(n: usize, r: usize, row: &Vec<char>) -> (res: Result<Vec<u32>, CoreError>)
    ensures
        cells_result(res) == row_cells(n, r as int, row@),
{
    let toks: Vec<Vec<char>> = words_of(row);
    let ghost tv = views(toks@);
    let mut out: Vec<u32> = Vec::new();
    if toks.len() > 1 {
        if toks.len() != n {
            return Err(
                CoreError::Parse(
                    make_row_message(r, " has ", toks.len(), " tokens, expected ", n),
                ),
            );
        }
        let mut k: usize = 0;
        assert(tv.take(0) =~= Seq::<Seq<char>>::empty());
        while k < toks.len()
            invariant
                k <= toks@.len(),
                tv == views(toks@),
                tv == words(row@),
                tv.len() > 1,
                tv.len() == n,
                collect(tv.take(k as int), token_cells(n)) == Ok::<Seq<u32>, ErrorView>(out@),
            decreases toks@.len() - k,
        {
            proof {
                lemma_collect_step(tv, token_cells(n), k as int);
            }
            match read_token(n, &toks[k]) {
                Ok(d) => {
                    let ghost before = out@;
                    out.push(d);
                    assert(out@ =~= before + seq![d]);
                },
                Err(e) => {
                    proof {
                        lemma_collect_err(tv, token_cells(n), k + 1);
                    }
                    return Err(e);
                },
            }
            k += 1;
        }
        assert(tv.take(toks@.len() as int) =~= tv);
        Ok(out)
    } else {
        if row.len() != n {
            return Err(
                CoreError::Parse(make_row_message(r, " has length ", row.len(), ", expected ", n)),
            );
        }
        let mut k: usize = 0;
        assert(row@.take(0) =~= Seq::<char>::empty());
        while k < row.len()
            invariant
                k <= row@.len(),
                words(row@).len() <= 1,
                row@.len() == n,
                collect(row@.take(k as int), char_cells(n)) == Ok::<Seq<u32>, ErrorView>(out@),
            decreases row@.len() - k,
        {
            proof {
                lemma_collect_step(row@, char_cells(n), k as int);
            }
            match read_char(n, row[k]) {
                Ok(d) => {
                    let ghost before = out@;
                    out.push(d);
                    assert(out@ =~= before + seq![d]);
                },
                Err(e) => {
                    proof {
                        lemma_collect_err(row@, char_cells(n), k + 1);
                    }
                    return Err(e);
                },
            }
            k += 1;
        }
        assert(row@.take(row@.len() as int) =~= row@);
        Ok(out)
    }
}

/// What a read row holds: `n` cells of at most `n`, when it reads at all.
proof fn lemma_row_cells_shape(n: usize, r: int, row: Seq<char>)
    ensures
        row_cells(n, r, row) matches Ok(v) ==> v.len() == n && forall|j: int|
            0 <= j < v.len() ==> v[j] <= n,
{
    let toks = words(row);
    if toks.len() > 1 {
        assert forall|i: int| 0 <= i < toks.len() implies (#[trigger] token_cells(n)(
            i,
            toks[i],
        ) matches Ok(v) ==> v.len() == 1 && forall|j: int| 0 <= j < v.len() ==> v[j] <= n) by {}
        lemma_collect_len(toks, token_cells(n), 1, n as nat);
    } else {
        assert forall|i: int| 0 <= i < row.len() implies (#[trigger] char_cells(n)(
            i,
            row[i],
        ) matches Ok(v) ==> v.len() == 1 && forall|j: int| 0 <= j < v.len() ==> v[j] <= n) by {}
        lemma_collect_len(row, char_cells(n), 1, n as nat);
    }
}

/// Reads the rows of a board, given as char sequences.
pub(crate) fn read_rows(rows: &Vec<Vec<char>>) -> (res: Result<Board, CoreError>)
    ensures
        board_result(res) == rows_board(views(rows@)),
        res matches Ok(b) ==> b.wf(),
{
    let n: usize = rows.len();
    if n == 0 {
        return Err(CoreError::BadDim);
    }
    let ghost rv = views(rows@);
    let mut cells: Vec<Digit> = Vec::new();
    let mut r: usize = 0;
    assert(rv.take(0) =~= Seq::<Seq<char>>::empty());
    while r < n
        invariant
            n == rows@.len(),
            r <= n,
            rv == views(rows@),
            collect(rv.take(r as int), row_reader(n)) == Ok::<Seq<u32>, ErrorView>(cells@),
        decreases n - r,
    {
        proof {
            lemma_collect_step(rv, row_reader(n), r as int);
        }
        match read_row(n, r, &rows[r]) {
            Ok(mut v) => {
                cells.append(&mut v);
            },
            Err(e) => {
                proof {
                    lemma_collect_err(rv, row_reader(n), r + 1);
                }
                return Err(e);
            },
        }
        r += 1;
    }
    assert(rv.take(n as int) =~= rv);
    proof {
        assert forall|i: int| 0 <= i < rv.len() implies (#[trigger] row_reader(n)(
            i,
            rv[i],
        ) matches Ok(v) ==> v.len() == n && forall|j: int| 0 <= j < v.len() ==> v[j] <= n) by {
            lemma_row_cells_shape(n, i, rv[i]);
        }
        lemma_collect_len(rv, row_reader(n), n as nat, n as nat);
    }
    Ok(Board { n, cells })
}

// ---------------------------------------------------------------------------
// CSV (`Board::from_csv_str`).
// ---------------------------------------------------------------------------

/// The value of a CSV field: `.` and the empty field mean an empty cell, anything
/// else is read as a `u32`.
pub open spec fn csv_token_value(t: Seq<char>) -> Option<u32> {
    if t == seq!['.'] || t.len() == 0 {
        Some(0u32)
    } else {
        parse_u32(t)
    }
}

/// A CSV field read as one cell of an `n`-board.
pub open spec fn csv_token_cell(n: usize, t: Seq<char>) -> Result<Seq<u32>, ErrorView> {
    match csv_token_value(t) {
        None => Err(ErrorView::Csv(quoted_message("bad token "@, t))),
        Some(d) => if d > n {
            Err(ErrorView::BadDigit { d, n })
        } else {
            Ok(seq![d])
        },
    }
}

/// The reader of CSV fields.
pub open spec fn csv_token_cells(n: usize) -> CellReader<Seq<char>> {
    |i: int, t: Seq<char>| csv_token_cell(n, t)
}

/// The trimmed comma-separated fields of a line.
pub open spec fn csv_fields(line: Seq<char>) -> Seq<Seq<char>> {
    split_on(line, ',').map_values(|t: Seq<char>| trim(t))
}

/// Line `r` of the CSV text of an `n`-board: `n` fields, each one cell.
pub open spec fn csv_row_cells(n: usize, r: int, line: Seq<char>) -> Result<Seq<u32>, ErrorView> {
    let cols = csv_fields(line);
    if cols.len() != n {
        Err(ErrorView::Csv(row_message(r as nat, " has "@, cols.len(), " cols, expected "@, n as nat)))
    } else {
        collect(cols, csv_token_cells(n))
    }
}

/// The reader of the lines of the CSV text of an `n`-board.
pub open spec fn csv_row_reader(n: usize) -> CellReader<Seq<char>> {
    |r: int, line: Seq<char>| csv_row_cells(n, r, line)
}

/// The board that `Board::from_csv_str` reads: its non-blank trimmed lines are the
/// rows, as many as `n`; the first error met, or `BadDim` for no such line.
pub open spec fn csv_board(s: Seq<char>) -> Result<(nat, Seq<u32>), ErrorView> {
    let lines = nonblank_lines(s);
    if lines.len() == 0 {
        Err(ErrorView::BadDim)
    } else {
        match collect(lines, csv_row_reader(lines.len() as usize)) {
            Ok(cs) => Ok((lines.len(), cs)),
            Err(e) => Err(e),
        }
    }
}

fn read_csv_token(n: usize, t: &Vec<char>) -> (res: Result<u32, CoreError>)
    ensures
        cell_result(res) == csv_token_cell(n, t@),
{
    let d: u32 = if t.len() == 0 || (t.len() == 1 && t[0] == '.') {
        if t.len() == 1 {
            assert(t@ =~= seq!['.']);
        }
        0
    } else {
        assert(t@ != seq!['.']) by {
            if t@.len() == 1 {
                assert(t@ == seq!['.'] ==> t@[0] == '.');
            }
        }
        match parse_u32_chars(t) {
            Some(d) => d,
            None => {
                return Err(CoreError::Csv(make_quoted_message("bad token ", t)));
            },
        }
    };
    digit_cell(d, n)
}

/// The trimmed comma-separated fields of a line.
fn csv_fields_of(line: &Vec<char>) -> (cols: Vec<Vec<char>>)
    ensures
        views(cols@) == csv_fields(line@),
{
    let pieces: Vec<Vec<char>> = split_chars(line, ',');
    let ghost pv = views(pieces@);
    let mut cols: Vec<Vec<char>> = Vec::new();
    let mut k: usize = 0;
    while k < pieces.len()
        invariant
            k <= pieces@.len(),
            pv == views(pieces@),
            pv == split_on(line@, ','),
            views(cols@) == pv.take(k as int).map_values(|t: Seq<char>| trim(t)),
        decreases pieces@.len() - k,
    {
        let t: Vec<char> = trim_chars(&pieces[k]);
        let ghost before = views(cols@);
        let ghost tv = t@;
        cols.push(t);
        assert(views(cols@) =~= before.push(tv));
        assert(pv.take(k + 1).map_values(|t: Seq<char>| trim(t)) =~= pv.take(k as int).map_values(
            |t: Seq<char>| trim(t),
        ).push(trim(pv[k as int])));
        k += 1;
    }
    assert(pv.take(pieces@.len() as int) =~= pv);
    cols
}

/// Reads line `r` of the CSV text of an `n`-board.
fn read_csv_row(n: usize, r: usize, line: &Vec<char>) -> (res: Result<Vec<u32>, CoreError>)
    ensures
        cells_result(res) == csv_row_cells(n, r as int, line@),
{
    let cols: Vec<Vec<char>> = csv_fields_of(line);
    let ghost cv = views(cols@);
    if cols.len() != n {
        return Err(
            CoreError::Csv(make_row_message(r, " has ", cols.len(), " cols, expected ", n)),
        );
    }
    let mut out: Vec<u32> = Vec::new();
    let mut k: usize = 0;
    assert(cv.take(0) =~= Seq::<Seq<char>>::empty());
    while k < cols.len()
        invariant
            k <= cols@.len(),
            cv == views(cols@),
            cv == csv_fields(line@),
            cv.len() == n,
            collect(cv.take(k as int), csv_token_cells(n)) == Ok::<Seq<u32>, ErrorView>(out@),
        decreases cols@.len() - k,
    {
        proof {
            lemma_collect_step(cv, csv_token_cells(n), k as int);
        }
        match read_csv_token(n, &cols[k]) {
            Ok(d) => {
                let ghost before = out@;
                out.push(d);
                assert(out@ =~= before + seq![d]);
            },
            Err(e) => {
                proof {
                    lemma_collect_err(cv, csv_token_cells(n), k + 1);
                }
                return Err(e);
            },
        }
        k += 1;
    }
    assert(cv.take(cols@.len() as int) =~= cv);
    Ok(out)
}

impl Board {
    /// Reads a board from CSV text: the non-blank trimmed lines are the rows, as many
    /// as `n`; each holds `n` comma-separated fields, trimmed, each `.` or empty
    /// for an empty cell, else a decimal number. Refuses no rows (`BadDim`), a line
    /// with the wrong number of fields or an unreadable field (`Csv`), and a digit
    /// above `n` (`BadDigit`); the first such fault decides the error.
    pub fn from_csv_str(s: &str) -> (res: Result<Board, CoreError>)
        ensures
            board_result(res) == csv_board(s@),
            res matches Ok(b) ==> b.wf(),
    {
        let chars: Vec<char> = chars_of(s);
        let lines: Vec<Vec<char>> = nonblank_lines_of(&chars);
        let ghost lv = views(lines@);
        let n: usize = lines.len();
        if n == 0 {
            return Err(CoreError::BadDim);
        }
        let mut cells: Vec<Digit> = Vec::new();
        let mut r: usize = 0;
        assert(lv.take(0) =~= Seq::<Seq<char>>::empty());
        while r < n
            invariant
                n == lines@.len(),
                r <= n,
                lv == views(lines@),
                lv == nonblank_lines(s@),
                collect(lv.take(r as int), csv_row_reader(n)) == Ok::<Seq<u32>, ErrorView>(
                    cells@,
                ),
            decreases n - r,
        {
            proof {
                lemma_collect_step(lv, csv_row_reader(n), r as int);
            }
            match read_csv_row(n, r, &lines[r]) {
                Ok(mut v) => {
                    cells.append(&mut v);
                },
                Err(e) => {
                    proof {
                        lemma_collect_err(lv, csv_row_reader(n), r + 1);
                    }
                    return Err(e);
                },
            }
            r += 1;
        }
        assert(lv.take(n as int) =~= lv);
        proof {
            assert forall|i: int| 0 <= i < lv.len() implies (#[trigger] csv_row_reader(n)(
                i,
                lv[i],
            ) matches Ok(v) ==> v.len() == n && forall|j: int| 0 <= j < v.len() ==> v[j] <= n) by {
                let cols = csv_fields(lv[i]);
                assert forall|t: int| 0 <= t < cols.len() implies (#[trigger] csv_token_cells(n)(
                    t,
                    cols[t],
                ) matches Ok(v) ==> v.len() == 1 && forall|j: int| 0 <= j < v.len() ==> v[j]
                    <= n) by {}
                lemma_collect_len(cols, csv_token_cells(n), 1, n as nat);
            }
            lemma_collect_len(lv, csv_row_reader(n), n as nat, n as nat);
        }
        Ok(Board { n, cells })
    }
}

impl Board {
    /// Reads a board from its rows. A row with more than one whitespace-separated
    /// token holds one token per cell (`.` or `0` for empty, else a decimal number);
    /// any other row holds one char per cell (`.` or `0` for empty, `1`..`9`).
    /// Refuses no rows (`BadDim`), a row of the wrong size or an unreadable
    /// token or char (`Parse`), and a digit above `n` (`BadDigit`); the first such
    /// fault, row by row and cell by cell, decides the error.
    pub fn from_rows(rows: &[&str]) -> (res: Result<Board, CoreError>)
        ensures
            board_result(res) == rows_board(rows@.map_values(|s: &str| s@)),
            res matches Ok(b) ==> b.wf(),
    {
        let mut rv: Vec<Vec<char>> = Vec::new();
        let mut k: usize = 0;
        while k < rows.len()
            invariant
                k <= rows@.len(),
                views(rv@) == rows@.take(k as int).map_values(|s: &str| s@),
            decreases rows@.len() - k,
        {
            let row: Vec<char> = chars_of(rows[k]);
            let ghost before = views(rv@);
            let ghost row_view = row@;
            rv.push(row);
            assert(views(rv@) =~= before.push(row_view));
            assert(rows@.take(k + 1).map_values(|s: &str| s@) =~= rows@.take(k as int).map_values(
                |s: &str| s@,
            ).push(rows@[k as int]@));
            k += 1;
        }
        assert(rows@.take(rows@.len() as int) =~= rows@);
        read_rows(&rv)
    }

    /// Reads a board from text: its non-blank lines, trimmed, are the rows read
    /// as `from_rows` reads them.
    pub fn from_str(s: &str) -> (res: Result<Board, CoreError>)
        ensures
            board_result(res) == rows_board(nonblank_lines(s@)),
            res matches Ok(b) ==> b.wf(),
    {
        let chars: Vec<char> = chars_of(s);
        let lines: Vec<Vec<char>> = nonblank_lines_of(&chars);
        read_rows(&lines)
    }
}

impl std::str::FromStr for Board {
    type Err = CoreError;

    fn from_str(s: &str) -> (res: Result<Board, CoreError>)
        ensures
            board_result(res) == rows_board(nonblank_lines(s@)),
            res matches Ok(b) ==> b.wf(),
    {
        Board::from_str(s)
    }
}

} // verus!
