//! Character-level helpers: whitespace, trimming, splitting, decimal numbers.
//!
//! All text is handled as sequences of `char` (the view of `&str` and `String`).

use vstd::prelude::*;
use vstd::std_specs::iter::IteratorSpec;

verus! {

broadcast use vstd::string::group_string_axioms;

/// A char is whitespace exactly when it carries the Unicode `White_Space`
/// property, which is what `char::is_whitespace` tests.
pub open spec fn is_ws(c: char) -> bool {
    let x = c as u32;
    ||| 9 <= x <= 13
    ||| x == 32
    ||| x == 0x85
    ||| x == 0xA0
    ||| x == 0x1680
    ||| 0x2000 <= x <= 0x200A
    ||| x == 0x2028
    ||| x == 0x2029
    ||| x == 0x202F
    ||| x == 0x205F
    ||| x == 0x3000
}

/// Executable whitespace test.
pub fn is_ws_char(c: char) -> (b: bool)
    ensures
        b == is_ws(c),
{
    let x: u32 = c as u32;
    (9 <= x && x <= 13) || x == 32 || x == 0x85 || x == 0xA0 || x == 0x1680 || (0x2000 <= x
        && x <= 0x200A) || x == 0x2028 || x == 0x2029 || x == 0x202F || x == 0x205F || x
        == 0x3000
}

/// The chars of a string slice, in order.
pub fn chars_of(s: &str) -> (v: Vec<char>)
    ensures
        v@ == s@,
{
    let mut out: Vec<char> = Vec::new();
    let mut it = s.chars();
    loop
        invariant
            it.obeys_prophetic_iter_laws(),
            out@ + it.remaining() == s@,
            it.decrease() is Some,
        decreases it.decrease()->0,
    {
        match it.next() {
            Some(c) => {
                out.push(c);
            },
            None => {
                assert(out@ =~= s@);
                return out;
            },
        }
    }
}

/// Wraps `String::from_iter` over chars.
/// Claims: the resulting `String` holds exactly the given chars in order.
#[verifier::external_body]
pub fn string_from_chars(v: &Vec<char>) -> (s: String)
    ensures
        s@ == v@,
{
    String::from_iter(v.iter())
}


/// The view of each string-like piece in a sequence.
pub open spec fn views(v: Seq<Vec<char>>) -> Seq<Seq<char>> {
    v.map_values(|x: Vec<char>| x@)
}

/// `s` with its leading whitespace removed.
pub open spec fn trim_start(s: Seq<char>) -> Seq<char>
    decreases s.len(),
{
    if s.len() > 0 && is_ws(s[0]) {
        trim_start(s.drop_first())
    } else {
        s
    }
}

/// `s` with its trailing whitespace removed.
pub open spec fn trim_end(s: Seq<char>) -> Seq<char>
    decreases s.len(),
{
    if s.len() > 0 && is_ws(s.last()) {
        trim_end(s.drop_last())
    } else {
        s
    }
}

/// `s` with leading and trailing whitespace removed, as `str::trim` does.
pub open spec fn trim(s: Seq<char>) -> Seq<char> {
    trim_end(trim_start(s))
}

/// The pieces of `s` between occurrences of `sep`, as `str::split(sep)` yields them:
/// `k` separators give `k + 1` pieces, empty ones included.
pub open spec fn split_on(s: Seq<char>, sep: char) -> Seq<Seq<char>>
    decreases s.len(),
{
    if s.len() == 0 {
        seq![Seq::empty()]
    } else {
        let p = split_on(s.drop_last(), sep);
        if s.last() == sep {
            p.push(Seq::empty())
        } else {
            p.update(p.len() - 1, p.last().push(s.last()))
        }
    }
}

/// The maximal runs of non-whitespace chars of `s`, in order, as
/// `str::split_whitespace` yields them.
pub open spec fn words(s: Seq<char>) -> Seq<Seq<char>>
    decreases s.len(),
{
    if s.len() == 0 {
        seq![]
    } else {
        let p = words(s.drop_last());
        let c = s.last();
        if is_ws(c) {
            p
        } else if s.len() >= 2 && !is_ws(s[s.len() - 2]) {
            p.update(p.len() - 1, p.last().push(c))
        } else {
            p.push(seq![c])
        }
    }
}

/// The pieces of `ls` that are not empty, in order.
pub open spec fn non_empty(ls: Seq<Seq<char>>) -> Seq<Seq<char>>
    decreases ls.len(),
{
    if ls.len() == 0 {
        seq![]
    } else {
        let p = non_empty(ls.drop_last());
        if ls.last().len() > 0 {
            p.push(ls.last())
        } else {
            p
        }
    }
}

/// The trimmed lines of `s` that are not blank: what
/// `s.lines().map(str::trim).filter(|l| !l.is_empty())` yields.
pub open spec fn nonblank_lines(s: Seq<char>) -> Seq<Seq<char>> {
    non_empty(split_on(s, '\n').map_values(|l: Seq<char>| trim(l)))
}

/// A copy of `s[lo..hi]`.
pub fn copy_range(s: &Vec<char>, lo: usize, hi: usize) -> (t: Vec<char>)
    requires
        lo <= hi <= s@.len(),
    ensures
        t@ == s@.subrange(lo as int, hi as int),
{
    let mut t: Vec<char> = Vec::new();
    let mut i: usize = lo;
    while i < hi
        invariant
            lo <= i <= hi <= s@.len(),
            t@ == s@.subrange(lo as int, i as int),
        decreases hi - i,
    {
        t.push(s[i]);
        i += 1;
        assert(t@ =~= s@.subrange(lo as int, i as int));
    }
    t
}

/// `s` with leading and trailing whitespace removed.
pub fn trim_chars(s: &Vec<char>) -> (t: Vec<char>)
    ensures
        t@ == trim(s@),
{
    let len: usize = s.len();
    let mut i: usize = 0;
    assert(s@.subrange(0, len as int) =~= s@);
    while i < len && is_ws_char(s[i])
        invariant
            len == s@.len(),
            i <= len,
            trim_start(s@) == trim_start(s@.subrange(i as int, len as int)),
        decreases len - i,
    {
        assert(s@.subrange(i as int, len as int).drop_first() =~= s@.subrange(
            i + 1,
            len as int,
        ));
        i += 1;
    }
    let mut j: usize = len;
    while j > i && is_ws_char(s[j - 1])
        invariant
            len == s@.len(),
            i <= j <= len,
            trim_start(s@) == s@.subrange(i as int, len as int),
            trim(s@) == trim_end(s@.subrange(i as int, j as int)),
        decreases j,
    {
        assert(s@.subrange(i as int, j as int).drop_last() =~= s@.subrange(
            i as int,
            j - 1,
        ));
        j -= 1;
    }
    copy_range(s, i, j)
}

/// The pieces of `s` between occurrences of `sep`.
pub fn split_chars(s: &Vec<char>, sep: char) -> (pieces: Vec<Vec<char>>)
    ensures
        views(pieces@) == split_on(s@, sep),
{
    let mut done: Vec<Vec<char>> = Vec::new();
    let mut cur: Vec<char> = Vec::new();
    let mut i: usize = 0;
    assert(s@.take(0) =~= Seq::<char>::empty());
    assert(views(done@).push(cur@) =~= split_on(s@.take(0), sep));
    while i < s.len()
        invariant
            i <= s@.len(),
            views(done@).push(cur@) == split_on(s@.take(i as int), sep),
        decreases s@.len() - i,
    {
        let c: char = s[i];
        assert(s@.take(i + 1).drop_last() =~= s@.take(i as int));
        if c == sep {
            let ghost before = views(done@);
            let ghost cur_v = cur@;
            done.push(cur);
            cur = Vec::new();
            assert(views(done@) =~= before.push(cur_v));
            assert(views(done@).push(cur@) =~= split_on(s@.take(i + 1), sep));
        } else {
            cur.push(c);
            assert(views(done@).push(cur@) =~= split_on(s@.take(i + 1), sep));
        }
        i += 1;
    }
    assert(s@.take(s@.len() as int) =~= s@);
    let ghost before = views(done@);
    let ghost cur_v = cur@;
    done.push(cur);
    assert(views(done@) =~= before.push(cur_v));
    done
}

/// The maximal runs of non-whitespace chars of `s`.
pub fn words_of(s: &Vec<char>) -> (ws: Vec<Vec<char>>)
    ensures
        views(ws@) == words(s@),
{
    let mut done: Vec<Vec<char>> = Vec::new();
    let mut cur: Vec<char> = Vec::new();
    let mut i: usize = 0;
    assert(s@.take(0) =~= Seq::<char>::empty());
    while i < s.len()
        invariant
            i <= s@.len(),
            cur@.len() == 0 ==> views(done@) == words(s@.take(i as int)),
            cur@.len() > 0 ==> views(done@).push(cur@) == words(s@.take(i as int)),
            cur@.len() > 0 ==> i > 0 && !is_ws(s@[i - 1]),
            cur@.len() == 0 ==> (i == 0 || is_ws(s@[i - 1])),
        decreases s@.len() - i,
    {
        let c: char = s[i];
        let ghost t = s@.take(i + 1);
        assert(t.drop_last() =~= s@.take(i as int));
        assert(t.last() == c);
        if is_ws_char(c) {
            if cur.len() > 0 {
                let ghost before = views(done@);
                let ghost cur_v = cur@;
                done.push(cur);
                cur = Vec::new();
                assert(views(done@) =~= before.push(cur_v));
            }
        } else {
            if cur.len() > 0 {
                assert(t[t.len() - 2] == s@[i - 1]);
                cur.push(c);
                assert(views(done@).push(cur@) =~= words(t));
            } else {
                cur.push(c);
                assert(cur@ =~= seq![c]);
            }
        }
        i += 1;
    }
    assert(s@.take(s@.len() as int) =~= s@);
    if cur.len() > 0 {
        let ghost before = views(done@);
        let ghost cur_v = cur@;
        done.push(cur);
        assert(views(done@) =~= before.push(cur_v));
    }
    done
}

/// The trimmed, non-blank lines of `s`.
pub fn nonblank_lines_of(s: &Vec<char>) -> (ls: Vec<Vec<char>>)
    ensures
        views(ls@) == nonblank_lines(s@),
{
    let pieces: Vec<Vec<char>> = split_chars(s, '\n');
    let ghost trimmed = views(pieces@).map_values(|l: Seq<char>| trim(l));
    let mut out: Vec<Vec<char>> = Vec::new();
    let mut k: usize = 0;
    assert(trimmed.take(0) =~= Seq::<Seq<char>>::empty());
    while k < pieces.len()
        invariant
            k <= pieces@.len(),
            trimmed == views(pieces@).map_values(|l: Seq<char>| trim(l)),
            views(out@) == non_empty(trimmed.take(k as int)),
        decreases pieces@.len() - k,
    {
        let t: Vec<char> = trim_chars(&pieces[k]);
        assert(trimmed.take(k + 1).drop_last() =~= trimmed.take(k as int));
        assert(trimmed[k as int] == t@);
        if t.len() > 0 {
            let ghost before = views(out@);
            out.push(t);
            assert(views(out@) =~= before.push(trimmed[k as int]));
        }
        k += 1;
    }
    assert(trimmed.take(pieces@.len() as int) =~= trimmed);
    out
}


/// The ASCII digit char for `d` (`0 <= d <= 9`).
pub open spec fn digit_char(d: nat) -> char {
    (48 + d) as char
}

/// The decimal text of `x`, without sign or leading zeros, as `to_string` writes it.
pub open spec fn dec(x: nat) -> Seq<char>
    decreases x,
{
    if x < 10 {
        seq![digit_char(x)]
    } else {
        dec(x / 10).push(digit_char(x % 10))
    }
}

/// Appends the decimal text of `x` to `out`.
pub fn push_dec(out: &mut Vec<char>, x: u64)
    ensures
        final(out)@ == old(out)@ + dec(x as nat),
    decreases x,
{
    if x >= 10 {
        push_dec(out, x / 10);
    }
    let d: u8 = (x % 10) as u8;
    let c: char = (48u8 + d) as char;
    out.push(c);
    assert(out@ =~= old(out)@ + dec(x as nat));
}

/// Whether `c` is one of the ASCII digits `0`..`9`.
pub open spec fn is_digit(c: char) -> bool {
    48 <= (c as u32) <= 57
}

/// The value of the ASCII digit `c`.
pub open spec fn digit_value(c: char) -> nat {
    ((c as u32) - 48) as nat
}

/// The value of a run of ASCII digits, most significant first.
pub open spec fn digits_value(s: Seq<char>) -> nat
    decreases s.len(),
{
    if s.len() == 0 {
        0
    } else {
        digits_value(s.drop_last()) * 10 + digit_value(s.last())
    }
}

/// `t` without one leading `+`, if it has one.
pub open spec fn unsigned_digits(t: Seq<char>) -> Seq<char> {
    if t.len() > 0 && t[0] == '+' {
        t.drop_first()
    } else {
        t
    }
}

/// What `str::parse::<u32>` gives for `t`: an optional `+`, then one or more ASCII
/// digits whose value is at most `u32::MAX`; anything else is refused.
pub open spec fn parse_u32(t: Seq<char>) -> Option<u32> {
    let ds = unsigned_digits(t);
    if ds.len() > 0 && (forall|i: int| 0 <= i < ds.len() ==> is_digit(#[trigger] ds[i]))
        && digits_value(ds) <= u32::MAX {
        Some(digits_value(ds) as u32)
    } else {
        None
    }
}

/// Parses `t` as an unsigned 32-bit decimal number.
pub fn parse_u32_chars(t: &Vec<char>) -> (r: Option<u32>)
    ensures
        r == parse_u32(t@),
{
    let start: usize = if t.len() > 0 && t[0] == '+' {
        1
    } else {
        0
    };
    let ghost ds = unsigned_digits(t@);
    assert(ds =~= t@.subrange(start as int, t@.len() as int));
    if start == t.len() {
        return None;
    }
    let mut i: usize = start;
    while i < t.len()
        invariant
            start <= i <= t@.len(),
            ds == t@.subrange(start as int, t@.len() as int),
            ds == unsigned_digits(t@),
            forall|k: int| 0 <= k < i - start ==> is_digit(#[trigger] ds[k]),
        decreases t@.len() - i,
    {
        let x: u32 = t[i] as u32;
        if x < 48 || x > 57 {
            assert(ds[i - start] == t@[i as int]);
            assert(!is_digit(ds[i - start]));
            return None;
        }
        i += 1;
    }
    // value of ds.take(k), capped just above u32::MAX
    let mut v: u64 = 0;
    let mut k: usize = start;
    assert(ds.take(0) =~= Seq::<char>::empty());
    while k < t.len()
        invariant
            start <= k <= t@.len(),
            ds == t@.subrange(start as int, t@.len() as int),
            ds == unsigned_digits(t@),
            forall|j: int| 0 <= j < ds.len() ==> is_digit(#[trigger] ds[j]),
            v == if digits_value(ds.take(k - start)) > u32::MAX {
                u32::MAX as nat + 1
            } else {
                digits_value(ds.take(k - start))
            },
        decreases t@.len() - k,
    {
        let ghost pre = ds.take(k - start);
        let ghost post = ds.take(k + 1 - start);
        assert(post.drop_last() =~= pre);
        assert(post.last() == ds[k - start]);
        assert(is_digit(ds[k - start]));
        let d: u64 = (t[k] as u32 - 48) as u64;
        if v > 0xFFFF_FFFF {
            v = 0x1_0000_0000;
        } else {
            v = v * 10 + d;
            if v > 0xFFFF_FFFF {
                v = 0x1_0000_0000;
            }
        }
        k += 1;
    }
    assert(ds.take(ds.len() as int) =~= ds);
    if v > 0xFFFF_FFFF {
        None
    } else {
        Some(v as u32)
    }
}


// ---------------------------------------------------------------------------
// Facts about the text functions.
// ---------------------------------------------------------------------------

/// `split_on` always yields at least one piece.
pub proof fn lemma_split_on_nonempty(s: Seq<char>, sep: char)
    ensures
        split_on(s, sep).len() >= 1,
    decreases s.len(),
{
    if s.len() > 0 {
        lemma_split_on_nonempty(s.drop_last(), sep);
    }
}

/// Appending text without separators extends the last piece.
pub proof fn lemma_split_on_plain(s: Seq<char>, t: Seq<char>, sep: char)
    requires
        forall|i: int| 0 <= i < t.len() ==> #[trigger] t[i] != sep,
    ensures
        ({
            let p = split_on(s, sep);
            split_on(s + t, sep) == p.update(p.len() - 1, p.last() + t)
        }),
    decreases t.len(),
{
    lemma_split_on_nonempty(s, sep);
    let p = split_on(s, sep);
    if t.len() == 0 {
        assert(s + t =~= s);
        assert(p.last() + t =~= p.last());
        assert(p.update(p.len() - 1, p.last() + t) =~= p);
    } else {
        let t0 = t.drop_last();
        lemma_split_on_plain(s, t0, sep);
        assert((s + t).drop_last() =~= s + t0);
        assert((s + t).last() == t.last());
        assert(p.last() + t0 + seq![t.last()] =~= p.last() + t);
        assert(t[t.len() - 1] != sep);
        let q = split_on(s + t0, sep);
        assert(q.len() == p.len());
        assert(q.last() == p.last() + t0);
        assert(split_on(s + t, sep) == q.update(q.len() - 1, q.last().push(t.last())));
        assert(q.last().push(t.last()) =~= p.last() + t);
        assert(split_on(s + t, sep) =~= p.update(p.len() - 1, p.last() + t));
    }
}

/// Splitting pieces joined with a separator they do not hold gives them back.
pub proof fn lemma_split_join(parts: Seq<Seq<char>>, sep: char)
    requires
        parts.len() >= 1,
        forall|i: int, j: int|
            0 <= i < parts.len() && 0 <= j < parts[i].len() ==> #[trigger] parts[i][j] != sep,
    ensures
        split_on(crate::board::join(parts, sep), sep) == parts,
    decreases parts.len(),
{
    let e = Seq::<char>::empty();
    if parts.len() == 1 {
        assert(e + parts[0] =~= parts[0]);
        lemma_split_on_plain(e, parts[0], sep);
        assert(seq![e].update(0, e + parts[0]) =~= parts);
    } else {
        let q = parts.drop_last();
        lemma_split_join(q, sep);
        let s = crate::board::join(q, sep).push(sep);
        assert(s.drop_last() =~= crate::board::join(q, sep));
        assert(split_on(s, sep) == q.push(e));
        lemma_split_on_plain(s, parts.last(), sep);
        assert(crate::board::join(q, sep) + seq![sep] + parts.last() =~= s + parts.last());
        assert(e + parts.last() =~= parts.last());
        assert(q.push(e).update(q.len() as int, e + parts.last()) =~= parts);
    }
}

/// Appending a whitespace char adds no word.
pub proof fn lemma_words_push_ws(s: Seq<char>, c: char)
    requires
        is_ws(c),
    ensures
        words(s.push(c)) == words(s),
{
    assert(s.push(c).drop_last() =~= s);
}

/// Appending a word after nothing or after whitespace adds that word.
pub proof fn lemma_words_push_word(s: Seq<char>, t: Seq<char>)
    requires
        t.len() > 0,
        forall|i: int| 0 <= i < t.len() ==> !is_ws(#[trigger] t[i]),
        s.len() == 0 || is_ws(s.last()),
    ensures
        words(s + t) == words(s).push(t),
{
    lemma_words_push_prefix(s, t, t.len() as int);
    assert(t.take(t.len() as int) =~= t);
}

proof fn lemma_words_push_prefix(s: Seq<char>, t: Seq<char>, k: int)
    requires
        1 <= k <= t.len(),
        forall|i: int| 0 <= i < t.len() ==> !is_ws(#[trigger] t[i]),
        s.len() == 0 || is_ws(s.last()),
    ensures
        words(s + t.take(k)) == words(s).push(t.take(k)),
    decreases k,
{
    let u = s + t.take(k);
    assert(u.drop_last() =~= s + t.take(k - 1));
    assert(u.last() == t[k - 1]);
    if k == 1 {
        assert(s + t.take(0) =~= s);
        assert(t.take(1) =~= seq![t[0]]);
        if s.len() > 0 {
            assert(u[u.len() - 2] == s.last());
        }
    } else {
        lemma_words_push_prefix(s, t, k - 1);
        assert(u[u.len() - 2] == t[k - 2]);
        assert(t.take(k - 1).push(t[k - 1]) =~= t.take(k));
    }
}

/// Splitting words joined with spaces gives them back.
pub proof fn lemma_words_join(parts: Seq<Seq<char>>)
    requires
        forall|i: int| 0 <= i < parts.len() ==> #[trigger] parts[i].len() > 0,
        forall|i: int, j: int|
            0 <= i < parts.len() && 0 <= j < parts[i].len() ==> !is_ws(#[trigger] parts[i][j]),
    ensures
        words(crate::board::join(parts, ' ')) == parts,
    decreases parts.len(),
{
    let e = Seq::<char>::empty();
    if parts.len() == 0 {
        assert(crate::board::join(parts, ' ') =~= e);
        assert(words(e) =~= parts);
    } else if parts.len() == 1 {
        assert(forall|j: int| 0 <= j < parts[0].len() ==> !is_ws(#[trigger] parts[0][j]));
        lemma_words_push_word(e, parts[0]);
        assert(e + parts[0] =~= parts[0]);
        assert(words(e).push(parts[0]) =~= parts);
    } else {
        let q = parts.drop_last();
        assert forall|i: int| 0 <= i < q.len() implies #[trigger] q[i].len() > 0 by {
            assert(q[i] == parts[i]);
        }
        assert forall|i: int, j: int| 0 <= i < q.len() && 0 <= j < q[i].len() implies !is_ws(
            #[trigger] q[i][j],
        ) by {
            assert(q[i] == parts[i]);
        }
        lemma_words_join(q);
        let s = crate::board::join(q, ' ').push(' ');
        lemma_words_push_ws(crate::board::join(q, ' '), ' ');
        let last = parts.last();
        assert(forall|j: int| 0 <= j < last.len() ==> !is_ws(#[trigger] last[j])) by {
            assert(last == parts[parts.len() - 1]);
        }
        lemma_words_push_word(s, last);
        assert(crate::board::join(q, ' ') + seq![' '] + last =~= s + last);
        assert(q.push(last) =~= parts);
    }
}

/// Text that starts and ends with non-whitespace is its own trim.
pub proof fn lemma_trim_plain(x: Seq<char>)
    requires
        x.len() > 0,
        !is_ws(x[0]),
        !is_ws(x.last()),
    ensures
        trim(x) == x,
{
}

/// Trimming the start leaves no leading whitespace.
pub proof fn lemma_trim_start_first(s: Seq<char>)
    ensures
        trim_start(s).len() > 0 ==> !is_ws(trim_start(s)[0]),
    decreases s.len(),
{
    if s.len() > 0 && is_ws(s[0]) {
        lemma_trim_start_first(s.drop_first());
    }
}

/// Trimming the end keeps a prefix and leaves no trailing whitespace.
pub proof fn lemma_trim_end_prefix(s: Seq<char>)
    ensures
        trim_end(s).len() <= s.len(),
        trim_end(s) == s.take(trim_end(s).len() as int),
        trim_end(s).len() > 0 ==> !is_ws(trim_end(s).last()),
    decreases s.len(),
{
    if s.len() > 0 && is_ws(s.last()) {
        let q = s.drop_last();
        lemma_trim_end_prefix(q);
        assert(q.take(trim_end(q).len() as int) =~= s.take(trim_end(q).len() as int));
    } else {
        assert(s.take(s.len() as int) =~= s);
    }
}

/// A trimmed text, when not empty, starts and ends with non-whitespace.
pub proof fn lemma_trim_ends(s: Seq<char>)
    ensures
        trim(s).len() > 0 ==> !is_ws(trim(s)[0]) && !is_ws(trim(s).last()),
{
    let t = trim_start(s);
    lemma_trim_start_first(s);
    lemma_trim_end_prefix(t);
    if trim(s).len() > 0 {
        assert(trim(s)[0] == t.take(trim(s).len() as int)[0]);
    }
}

/// Each piece that `non_empty` keeps is a non-empty piece of its input.
pub proof fn lemma_non_empty_members(ls: Seq<Seq<char>>)
    ensures
        forall|i: int|
            0 <= i < non_empty(ls).len() ==> (#[trigger] non_empty(ls)[i]).len() > 0 && exists|j: int|
                0 <= j < ls.len() && ls[j] == non_empty(ls)[i],
    decreases ls.len(),
{
    if ls.len() > 0 {
        let q = ls.drop_last();
        lemma_non_empty_members(q);
        assert forall|i: int| 0 <= i < non_empty(ls).len() implies (#[trigger] non_empty(ls)[i]).len()
            > 0 && exists|j: int| 0 <= j < ls.len() && ls[j] == non_empty(ls)[i] by {
            if i < non_empty(q).len() {
                assert(non_empty(ls)[i] == non_empty(q)[i]);
                let j = choose|j: int| 0 <= j < q.len() && q[j] == non_empty(q)[i];
                assert(ls[j] == q[j]);
            } else {
                assert(non_empty(ls)[i] == ls.last());
                assert(ls[ls.len() - 1] == ls.last());
            }
        }
    }
}

/// Dropping empty pieces from pieces that are never empty keeps them all.
pub proof fn lemma_non_empty_all(ls: Seq<Seq<char>>)
    requires
        forall|i: int| 0 <= i < ls.len() ==> #[trigger] ls[i].len() > 0,
    ensures
        non_empty(ls) == ls,
    decreases ls.len(),
{
    if ls.len() > 0 {
        let q = ls.drop_last();
        assert forall|i: int| 0 <= i < q.len() implies #[trigger] q[i].len() > 0 by {
            assert(q[i] == ls[i]);
        }
        lemma_non_empty_all(q);
        assert(q.push(ls.last()) =~= ls);
    }
}

/// The decimal text of a number consists of ASCII digits, at least one.
pub proof fn lemma_dec_digits(x: nat)
    ensures
        dec(x).len() >= 1,
        forall|i: int| 0 <= i < dec(x).len() ==> is_digit(#[trigger] dec(x)[i]),
        digits_value(dec(x)) == x,
    decreases x,
{
    if x < 10 {
        assert(dec(x).drop_last() =~= Seq::<char>::empty());
        assert(digit_value(digit_char(x)) == x);
        assert(digits_value(Seq::<char>::empty()) == 0);
        assert(digits_value(dec(x)) == digits_value(dec(x).drop_last()) * 10 + digit_value(
            dec(x).last(),
        ));
    } else {
        lemma_dec_digits(x / 10);
        assert(digit_value(digit_char(x % 10)) == x % 10);
        assert(dec(x).last() == digit_char(x % 10));
        assert(x == (x / 10) * 10 + x % 10);
        assert(digits_value(dec(x)) == digits_value(dec(x).drop_last()) * 10 + digit_value(
            dec(x).last(),
        ));
        let p = dec(x / 10);
        assert(dec(x).drop_last() =~= p);
        assert forall|i: int| 0 <= i < dec(x).len() implies is_digit(#[trigger] dec(x)[i]) by {
            if i < p.len() {
                assert(dec(x)[i] == p[i]);
            }
        }
    }
}

/// Reading the decimal text of a `u32` gives it back.
pub proof fn lemma_parse_dec(x: u32)
    ensures
        parse_u32(dec(x as nat)) == Some(x),
{
    lemma_dec_digits(x as nat);
    assert(unsigned_digits(dec(x as nat)) == dec(x as nat)) by {
        assert(is_digit(dec(x as nat)[0]));
    }
}

} // verus!
