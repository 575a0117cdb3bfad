//! The plain-text matrix format: one row per line, entries separated by
//! runs of white space, blank lines skipped. The library splits text into
//! tokens, builds a matrix from parsed tokens and lays tokens out again; the
//! caller turns tokens into numbers and numbers into tokens.

use vstd::prelude::*;

use crate::error::MatrixError;
use crate::matrix::{flat_entry, lemma_flat_index, lemma_next_row, Matrix};

verus! {

/// The characters with the Unicode `White_Space` property, which
/// `char::is_whitespace` recognises.
pub open spec fn is_space(c: char) -> bool {
    ('\t' <= c && c <= '\r') || c == ' ' || c == '\u{85}' || c == '\u{a0}' || c == '\u{1680}' || (
    '\u{2000}' <= c && c <= '\u{200a}') || c == '\u{2028}' || c == '\u{2029}' || c == '\u{202f}'
        || c == '\u{205f}' || c == '\u{3000}'
}

/// Whether `c` is white space, as `char::is_whitespace` says.
pub fn char_is_space(c: char) -> (r: bool)
    ensures
        r == is_space(c),
{
    ('\t' <= c && c <= '\r') || c == ' ' || c == '\u{85}' || c == '\u{a0}' || c == '\u{1680}' || (
    '\u{2000}' <= c && c <= '\u{200a}') || c == '\u{2028}' || c == '\u{2029}' || c == '\u{202f}'
        || c == '\u{205f}' || c == '\u{3000}'
}

/// The lines of `s`: the pieces between line feeds, the last one possibly
/// empty.
pub open spec fn split_lines(s: Seq<char>) -> Seq<Seq<char>>
    decreases s.len(),
{
    if s.len() == 0 {
        seq![Seq::<char>::empty()]
    } else {
        let prev = split_lines(s.drop_last());
        if s.last() == '\n' {
            prev.push(Seq::<char>::empty())
        } else {
            prev.update(prev.len() - 1, prev.last().push(s.last()))
        }
    }
}

/// The tokens of `s`: its maximal runs of characters that are not white
/// space, in order.
pub open spec fn tokens(s: Seq<char>) -> Seq<Seq<char>>
    decreases s.len(),
{
    if s.len() == 0 {
        Seq::<Seq<char>>::empty()
    } else {
        let prev = tokens(s.drop_last());
        if is_space(s.last()) {
            prev
        } else if s.len() >= 2 && !is_space(s[s.len() - 2]) {
            prev.update(prev.len() - 1, prev.last().push(s.last()))
        } else {
            prev.push(seq![s.last()])
        }
    }
}

/// Each line of `s` as its sequence of tokens.
pub open spec fn scan(s: Seq<char>) -> Seq<Seq<Seq<char>>> {
    split_lines(s).map_values(|l: Seq<char>| tokens(l))
}

pub open spec fn views(v: Seq<Vec<char>>) -> Seq<Seq<char>> {
    v.map_values(|t: Vec<char>| t@)
}

proof fn lemma_split_lines_nonempty(s: Seq<char>)
    ensures
        split_lines(s).len() >= 1,
    decreases s.len(),
{
    if s.len() > 0 {
        lemma_split_lines_nonempty(s.drop_last());
    }
}

/// Splits `s` at its line feeds.
fn split_at_newlines(s: &Vec<char>) -> (r: Vec<Vec<char>>)
    ensures
        views(r@) == split_lines(s@),
{
    let mut done: Vec<Vec<char>> = Vec::new();
    let mut cur: Vec<char> = Vec::new();
    let mut i: usize = 0;
    while i < s.len()
        invariant
            i <= s@.len(),
            views(done@).push(cur@) == split_lines(s@.take(i as int)),
        decreases s@.len() - i,
    {
        let c = s[i];
        proof {
            assert(s@.take(i + 1).drop_last() =~= s@.take(i as int));
        }
        if c == '\n' {
            let finished = cur;
            cur = Vec::new();
            done.push(finished);
            assert(views(done@).push(cur@) =~= split_lines(s@.take(i + 1)));
        } else {
            cur.push(c);
            assert(views(done@).push(cur@) =~= split_lines(s@.take(i + 1)));
        }
        i += 1;
    }
    assert(s@.take(s@.len() as int) =~= s@);
    done.push(cur);
    assert(views(done@) =~= split_lines(s@));
    done
}

/// The tokens of `s`.
fn split_tokens(s: &Vec<char>) -> (r: Vec<Vec<char>>)
    ensures
        views(r@) == tokens(s@),
{
    let mut done: Vec<Vec<char>> = Vec::new();
    let mut cur: Vec<char> = Vec::new();
    let mut i: usize = 0;
    while i < s.len()
        invariant
            i <= s@.len(),
            cur@.len() > 0 <==> (i > 0 && !is_space(s@[i - 1])),
            tokens(s@.take(i as int)) == if cur@.len() > 0 {
                views(done@).push(cur@)
            } else {
                views(done@)
            },
        decreases s@.len() - i,
    {
        let c = s[i];
        let ghost before = views(done@);
        proof {
            assert(s@.take(i + 1).drop_last() =~= s@.take(i as int));
            assert(s@.take(i + 1).last() == c);
            if i >= 1 {
                assert(s@.take(i + 1)[i - 1] == s@[i - 1]);
            }
        }
        if char_is_space(c) {
            if cur.len() > 0 {
                let finished = cur;
                cur = Vec::new();
                done.push(finished);
                assert(views(done@) =~= before.push(finished@));
            }
        } else {
            let ghost old_cur = cur@;
            cur.push(c);
            proof {
                if old_cur.len() > 0 {
                    assert(before.push(old_cur).update(before.len() as int, old_cur.push(c)) =~= before.push(cur@));
                } else {
                    assert(cur@ =~= seq![c]);
                }
            }
        }
        i += 1;
    }
    assert(s@.take(s@.len() as int) =~= s@);
    if cur.len() > 0 {
        done.push(cur);
    }
    assert(views(done@) =~= tokens(s@));
    done
}

pub open spec fn deep_views(v: Seq<Vec<Vec<char>>>) -> Seq<Seq<Seq<char>>> {
    v.map_values(|l: Vec<Vec<char>>| views(l@))
}

/// Splits a text into lines and each line into its white-space separated
/// tokens.
pub fn tokenize(text: &Vec<char>) -> (r: Vec<Vec<Vec<char>>>)
    ensures
        deep_views(r@) == scan(text@),
{
    let lines = split_at_newlines(text);
    let mut r: Vec<Vec<Vec<char>>> = Vec::new();
    let mut i: usize = 0;
    while i < lines.len()
        invariant
            i <= lines@.len(),
            views(lines@) == split_lines(text@),
            deep_views(r@) == scan(text@).take(i as int),
        decreases lines@.len() - i,
    {
        let toks = split_tokens(&lines[i]);
        proof {
            assert(views(lines@)[i as int] == lines@[i as int]@);
            assert(scan(text@)[i as int] == tokens(split_lines(text@)[i as int]));
        }
        let ghost before = r@;
        r.push(toks);
        proof {
            assert(deep_views(r@) =~= deep_views(before).push(views(toks@)));
            assert(scan(text@).take(i + 1) =~= scan(text@).take(i as int).push(scan(text@)[i as int]));
        }
        i += 1;
    }
    assert(deep_views(r@) =~= scan(text@));
    r
}

pub open spec fn opt_views<T>(v: Seq<Vec<Option<T>>>) -> Seq<Seq<Option<T>>> {
    v.map_values(|l: Vec<Option<T>>| l@)
}

/// The rows of a matrix read from lines of parsed tokens (`None` for a
/// token that is not a number), in order: lines without tokens are skipped;
/// the first line with a bad token gives `ParseError` with its number,
/// counted from one; a line whose length differs from the first row's gives
/// `InconsistentShape`. The first failing line decides.
pub open spec fn read_rows<T>(lines: Seq<Seq<Option<T>>>) -> Result<Seq<Seq<T>>, MatrixError>
    decreases lines.len(),
{
    if lines.len() == 0 {
        Ok(Seq::<Seq<T>>::empty())
    } else {
        match read_rows(lines.drop_last()) {
            Err(e) => Err(e),
            Ok(rows) => {
                let l = lines.last();
                if l.len() == 0 {
                    Ok(rows)
                } else if exists|k: int| 0 <= k < l.len() && l[k] is None {
                    Err(MatrixError::ParseError { line: lines.len() as usize })
                } else if rows.len() > 0 && l.len() != rows[0].len() {
                    Err(MatrixError::InconsistentShape)
                } else {
                    Ok(rows.push(l.map_values(|o: Option<T>| o->Some_0)))
                }
            },
        }
    }
}

/// What reading `lines` gives: the error of [`read_rows`], `EmptyInput`
/// when no row remains, or the rows.
pub open spec fn read_matrix<T>(lines: Seq<Seq<Option<T>>>) -> Result<Seq<Seq<T>>, MatrixError> {
    match read_rows(lines) {
        Err(e) => Err(e),
        Ok(rows) => if rows.len() == 0 {
            Err(MatrixError::EmptyInput)
        } else {
            Ok(rows)
        },
    }
}

/// `m` holds exactly `rows`, one row of the matrix for each.
pub open spec fn holds_rows<T>(m: Matrix<T>, rows: Seq<Seq<T>>) -> bool {
    &&& m.wf()
    &&& m.rows == rows.len()
    &&& rows.len() > 0 ==> m.cols == rows[0].len()
    &&& forall|i: int, j: int| m.in_bounds(i, j) ==> #[trigger] m.entry(i, j) == rows[i][j]
}

proof fn lemma_read_rows_err<T>(lines: Seq<Seq<Option<T>>>, n: int)
    requires
        0 <= n <= lines.len(),
        read_rows(lines.take(n)) is Err,
    ensures
        read_rows(lines) == read_rows(lines.take(n)),
    decreases lines.len(),
{
    if n < lines.len() {
        assert(lines.drop_last().take(n) =~= lines.take(n));
        lemma_read_rows_err(lines.drop_last(), n);
    } else {
        assert(lines.take(n) =~= lines);
    }
}

proof fn lemma_read_rows_shape<T>(lines: Seq<Seq<Option<T>>>)
    requires
        read_rows(lines) is Ok,
    ensures
        forall|i: int| 0 <= i < read_rows(lines)->Ok_0.len() ==> #[trigger] read_rows(lines)->Ok_0[i].len()
            == read_rows(lines)->Ok_0[0].len(),
    decreases lines.len(),
{
    if lines.len() > 0 {
        lemma_read_rows_shape(lines.drop_last());
    }
}

/// Whether every token of the line was parsed.
fn all_present<T>(line: &Vec<Option<T>>) -> (r: bool)
    ensures
        r == forall|m: int| 0 <= m < line@.len() ==> (#[trigger] line@[m]) is Some,
{
    let mut k: usize = 0;
    while k < line.len()
        invariant
            k <= line@.len(),
            forall|m: int| 0 <= m < k ==> (#[trigger] line@[m]) is Some,
        decreases line@.len() - k,
    {
        if line[k].is_none() {
            return false;
        }
        k += 1;
    }
    true
}

/// Builds the matrix whose rows are the lines of parsed tokens, as
/// [`read_matrix`] says.
pub fn from_token_rows<T: Copy>(lines: &Vec<Vec<Option<T>>>) -> (r: Result<Matrix<T>, MatrixError>)
    ensures
        match read_matrix(opt_views(lines@)) {
            Err(e) => r == Err::<Matrix<T>, MatrixError>(e),
            Ok(rows) => r matches Ok(m) && holds_rows(m, rows),
        },
{
    let ghost all = opt_views(lines@);
    let mut data: Vec<T> = Vec::new();
    let mut nrows: usize = 0;
    let mut ncols: usize = 0;
    let mut i: usize = 0;
    while i < lines.len()
        invariant
            i <= lines@.len(),
            all == opt_views(lines@),
            read_rows(all.take(i as int)) is Ok,
            read_rows(all.take(i as int))->Ok_0.len() == nrows,
            nrows <= i,
            nrows > 0 ==> read_rows(all.take(i as int))->Ok_0[0].len() == ncols,
            data@.len() == nrows * ncols,
            forall|a: int, b: int|
                0 <= a < nrows && 0 <= b < ncols ==> #[trigger] flat_entry(data@, ncols as int, a, b)
                    == read_rows(all.take(i as int))->Ok_0[a][b],
        decreases lines@.len() - i,
    {
        let line = &lines[i];
        let ghost rows = read_rows(all.take(i as int))->Ok_0;
        proof {
            assert(all.take(i + 1).drop_last() =~= all.take(i as int));
            assert(all.take(i + 1).last() == line@);
            lemma_read_rows_shape(all.take(i as int));
        }
        if line.len() > 0 {
            if !all_present(line) {
                proof {
                    let m = choose|m: int| 0 <= m < line@.len() && line@[m] is None;
                    assert(all.take(i + 1).last()[m] is None);
                    assert(read_rows(all.take(i + 1)) == Err::<Seq<Seq<T>>, MatrixError>(
                        MatrixError::ParseError { line: (i + 1) as usize },
                    ));
                    lemma_read_rows_err(all, i + 1);
                }
                return Err(MatrixError::ParseError { line: i + 1 });
            }
            if nrows > 0 && line.len() != ncols {
                proof {
                    lemma_read_rows_err(all, i + 1);
                }
                return Err(MatrixError::InconsistentShape);
            }
            if nrows == 0 {
                ncols = line.len();
            }
            let ghost values = line@.map_values(|o: Option<T>| o->Some_0);
            let mut j: usize = 0;
            while j < line.len()
                invariant
                    j <= line@.len(),
                    line@.len() == ncols,
                    forall|m: int| 0 <= m < line@.len() ==> (#[trigger] line@[m]) is Some,
                    values == line@.map_values(|o: Option<T>| o->Some_0),
                    data@.len() == nrows * ncols + j,
                    forall|a: int, b: int|
                        0 <= a < nrows && 0 <= b < ncols ==> #[trigger] flat_entry(data@, ncols as int, a, b)
                            == rows[a][b],
                    forall|b: int| 0 <= b < j ==> #[trigger] flat_entry(data@, ncols as int, nrows as int, b) == values[b],
                decreases line@.len() - j,
            {
                let v = line[j].unwrap();
                let ghost prev = data@;
                data.push(v);
                proof {
                    assert forall|a: int, b: int| 0 <= a < nrows && 0 <= b < ncols implies #[trigger] flat_entry(
                        data@,
                        ncols as int,
                        a,
                        b,
                    ) == rows[a][b] by {
                        lemma_flat_index(a, b, nrows as int, ncols as int);
                        assert(flat_entry(data@, ncols as int, a, b) == flat_entry(prev, ncols as int, a, b));
                    }
                    assert forall|b: int| 0 <= b < j + 1 implies #[trigger] flat_entry(data@, ncols as int, nrows as int, b) == values[b] by {
                        if b < j {
                            assert(flat_entry(data@, ncols as int, nrows as int, b) == flat_entry(prev, ncols as int, nrows as int, b));
                        }
                    }
                }
                j += 1;
            }
            proof {
                assert(!(exists|m: int| 0 <= m < line@.len() && line@[m] is None));
                let next = rows.push(values);
                assert(read_rows(all.take(i + 1)) == Ok::<Seq<Seq<T>>, MatrixError>(next));
                lemma_next_row(nrows as int, ncols as int);
                assert forall|a: int, b: int| 0 <= a < nrows + 1 && 0 <= b < ncols implies #[trigger] flat_entry(
                    data@,
                    ncols as int,
                    a,
                    b,
                ) == next[a][b] by {
                    if a < nrows {
                        assert(next[a] == rows[a]);
                    }
                }
            }
            nrows = nrows + 1;
        }
        i += 1;
    }
    proof {
        assert(all.take(lines@.len() as int) =~= all);
    }
    if nrows == 0 {
        return Err(MatrixError::EmptyInput);
    }
    let m = Matrix { data, rows: nrows, cols: ncols };
    proof {
        assert forall|a: int, b: int| m.in_bounds(a, b) implies #[trigger] m.entry(a, b) == read_rows(all)->Ok_0[a][b] by {
        }
    }
    Ok(m)
}

/// A line of text: the tokens separated by single spaces.
pub open spec fn join_tokens(toks: Seq<Seq<char>>) -> Seq<char>
    decreases toks.len(),
{
    if toks.len() == 0 {
        Seq::<char>::empty()
    } else if toks.len() == 1 {
        toks[0]
    } else {
        join_tokens(toks.drop_last()) + seq![' '] + toks.last()
    }
}

/// The text of a matrix: each row's tokens joined by single spaces, each
/// row ended by a line feed.
pub open spec fn render_spec(rows: Seq<Seq<Seq<char>>>) -> Seq<char>
    decreases rows.len(),
{
    if rows.len() == 0 {
        Seq::<char>::empty()
    } else {
        render_spec(rows.drop_last()) + join_tokens(rows.last()) + seq!['\n']
    }
}

fn append(out: &mut Vec<char>, t: &Vec<char>)
    ensures
        final(out)@ == old(out)@ + t@,
{
    let mut k: usize = 0;
    while k < t.len()
        invariant
            k <= t@.len(),
            out@ == old(out)@ + t@.take(k as int),
        decreases t@.len() - k,
    {
        out.push(t[k]);
        assert(t@.take(k + 1) =~= t@.take(k as int).push(t@[k as int]));
        k += 1;
    }
    assert(t@.take(t@.len() as int) =~= t@);
}

/// Lays out rows of tokens as text, one row per line.
pub fn render(rows: &Vec<Vec<Vec<char>>>) -> (r: Vec<char>)
    ensures
        r@ == render_spec(deep_views(rows@)),
{
    let mut out: Vec<char> = Vec::new();
    let mut i: usize = 0;
    while i < rows.len()
        invariant
            i <= rows@.len(),
            out@ == render_spec(deep_views(rows@).take(i as int)),
        decreases rows@.len() - i,
    {
        let row = &rows[i];
        let ghost all = deep_views(rows@);
        let ghost start = out@;
        let mut j: usize = 0;
        while j < row.len()
            invariant
                j <= row@.len(),
                row@ == rows@[i as int]@,
                out@ == start + join_tokens(views(row@).take(j as int)),
            decreases row@.len() - j,
        {
            if j > 0 {
                out.push(' ');
            }
            append(&mut out, &row[j as usize]);
            proof {
                let t = views(row@).take(j + 1);
                assert(t.drop_last() =~= views(row@).take(j as int));
                if j == 0 {
                    assert(t =~= seq![row@[0]@]);
                }
            }
            j += 1;
        }
        out.push('\n');
        proof {
            assert(views(row@).take(row@.len() as int) =~= views(row@));
            assert(all.take(i + 1).drop_last() =~= all.take(i as int));
            assert(all[i as int] == views(row@));
        }
        i += 1;
    }
    assert(deep_views(rows@).take(rows@.len() as int) =~= deep_views(rows@));
    out
}

/// A token as written: not empty, and without white space.
pub open spec fn is_token(t: Seq<char>) -> bool {
    t.len() > 0 && forall|k: int| 0 <= k < t.len() ==> !is_space(#[trigger] t[k])
}

proof fn lemma_split_lines_append(s: Seq<char>, t: Seq<char>)
    requires
        forall|k: int| 0 <= k < t.len() ==> #[trigger] t[k] != '\n',
    ensures
        split_lines(s + t) == split_lines(s).update(
            split_lines(s).len() - 1,
            split_lines(s).last() + t,
        ),
    decreases t.len(),
{
    lemma_split_lines_nonempty(s);
    if t.len() == 0 {
        assert(s + t =~= s);
        assert(split_lines(s).last() + t =~= split_lines(s).last());
        assert(split_lines(s).update(split_lines(s).len() - 1, split_lines(s).last()) =~= split_lines(s));
    } else {
        let t1 = t.drop_last();
        lemma_split_lines_append(s, t1);
        assert((s + t).drop_last() =~= s + t1);
        assert((s + t).last() == t.last());
        assert(split_lines(s).last() + t1 + seq![t.last()] =~= split_lines(s).last() + t);
        assert((split_lines(s).last() + t1).push(t.last()) =~= split_lines(s).last() + t);
        let p = split_lines(s);
        assert(p.update(p.len() - 1, p.last() + t1).update(p.len() - 1, (p.last() + t1).push(t.last()))
            =~= p.update(p.len() - 1, p.last() + t));
    }
}

proof fn lemma_tokens_space(s: Seq<char>, c: char)
    requires
        is_space(c),
    ensures
        tokens(s.push(c)) == tokens(s),
{
    assert(s.push(c).drop_last() =~= s);
}

/// Appending a token after white space (or at the start) adds it as the last
/// token.
proof fn lemma_tokens_append(s: Seq<char>, t: Seq<char>)
    requires
        s.len() == 0 || is_space(s.last()),
        is_token(t),
    ensures
        tokens(s + t) == tokens(s).push(t),
    decreases t.len(),
{
    let n = (s + t).len();
    assert((s + t).drop_last() =~= s + t.drop_last());
    assert((s + t).last() == t.last());
    if t.len() == 1 {
        assert(s + t.drop_last() =~= s);
        assert(t =~= seq![t.last()]);
        if n >= 2 {
            assert((s + t)[n - 2] == s.last());
        }
    } else {
        let t1 = t.drop_last();
        assert(is_token(t1)) by {
            assert forall|k: int| 0 <= k < t1.len() implies !is_space(#[trigger] t1[k]) by {
                assert(t1[k] == t[k]);
            }
        }
        lemma_tokens_append(s, t1);
        assert((s + t)[n - 2] == t[t.len() - 2]);
        assert(!is_space(t[t.len() - 2]));
        assert(t1.push(t.last()) =~= t);
        assert(tokens(s).push(t1).update(tokens(s).len() as int, t) =~= tokens(s).push(t));
    }
}

proof fn lemma_join_no_newline(toks: Seq<Seq<char>>)
    requires
        forall|i: int| 0 <= i < toks.len() ==> is_token(#[trigger] toks[i]),
    ensures
        forall|k: int| 0 <= k < join_tokens(toks).len() ==> #[trigger] join_tokens(toks)[k] != '\n',
        toks.len() > 0 ==> join_tokens(toks).len() > 0 && !is_space(join_tokens(toks).last()),
    decreases toks.len(),
{
    if toks.len() == 1 {
        assert(is_token(toks[0]));
        assert forall|k: int| 0 <= k < join_tokens(toks).len() implies #[trigger] join_tokens(toks)[k] != '\n' by {
            assert(!is_space(toks[0][k]));
        }
        assert(!is_space(toks[0][toks[0].len() - 1]));
    } else if toks.len() >= 2 {
        let rest = toks.drop_last();
        lemma_join_no_newline(rest);
        let last = toks.last();
        assert(is_token(last));
        let j = join_tokens(toks);
        let a = join_tokens(rest) + seq![' '];
        assert(j =~= a + last);
        assert forall|k: int| 0 <= k < j.len() implies #[trigger] j[k] != '\n' by {
            if k >= a.len() {
                assert(j[k] == last[k - a.len()]);
                assert(!is_space(last[k - a.len()]));
            } else if k < join_tokens(rest).len() {
                assert(j[k] == join_tokens(rest)[k]);
            }
        }
        assert(j.last() == last.last());
        assert(!is_space(last[last.len() - 1]));
    }
}

proof fn lemma_tokens_join(toks: Seq<Seq<char>>)
    requires
        forall|i: int| 0 <= i < toks.len() ==> is_token(#[trigger] toks[i]),
    ensures
        tokens(join_tokens(toks)) == toks,
    decreases toks.len(),
{
    if toks.len() == 0 {
    } else if toks.len() == 1 {
        assert(is_token(toks[0]));
        lemma_tokens_append(Seq::<char>::empty(), toks[0]);
        assert(Seq::<char>::empty() + toks[0] =~= toks[0]);
        assert(Seq::<Seq<char>>::empty().push(toks[0]) =~= toks);
    } else {
        let rest = toks.drop_last();
        lemma_tokens_join(rest);
        let a = join_tokens(rest) + seq![' '];
        assert(a =~= join_tokens(rest).push(' '));
        lemma_tokens_space(join_tokens(rest), ' ');
        assert(is_token(toks.last()));
        lemma_tokens_append(a, toks.last());
        assert(rest.push(toks.last()) =~= toks);
    }
}

proof fn lemma_split_render(rows: Seq<Seq<Seq<char>>>)
    requires
        forall|i: int, j: int| 0 <= i < rows.len() && 0 <= j < rows[i].len() ==> is_token(#[trigger] rows[i][j]),
    ensures
        split_lines(render_spec(rows)) == rows.map_values(|r: Seq<Seq<char>>| join_tokens(r)).push(
            Seq::<char>::empty(),
        ),
    decreases rows.len(),
{
    if rows.len() == 0 {
        assert(split_lines(Seq::<char>::empty()) =~= seq![Seq::<char>::empty()]);
        assert(rows.map_values(|r: Seq<Seq<char>>| join_tokens(r)).push(Seq::<char>::empty()) =~= seq![
            Seq::<char>::empty(),
        ]);
    } else {
        let rest = rows.drop_last();
        lemma_split_render(rest);
        let line = join_tokens(rows.last());
        assert forall|j: int| 0 <= j < rows.last().len() implies is_token(#[trigger] rows.last()[j]) by {
            assert(is_token(rows[rows.len() - 1][j]));
        }
        lemma_join_no_newline(rows.last());
        lemma_split_lines_append(render_spec(rest), line);
        let body = render_spec(rest) + line;
        assert(render_spec(rows) =~= body.push('\n'));
        assert(body.push('\n').drop_last() =~= body);
        let p = split_lines(render_spec(rest));
        assert(Seq::<char>::empty() + line =~= line);
        assert(p.update(p.len() - 1, p.last() + line).push(Seq::<char>::empty()) =~= rows.map_values(
            |r: Seq<Seq<char>>| join_tokens(r),
        ).push(Seq::<char>::empty()));
    }
}

/// Text round trip: scanning the rendered text of rows of tokens gives the
/// rows back, followed by the empty line after the last line feed.
pub proof fn lemma_scan_render(rows: Seq<Seq<Seq<char>>>)
    requires
        forall|i: int, j: int| 0 <= i < rows.len() && 0 <= j < rows[i].len() ==> is_token(#[trigger] rows[i][j]),
    ensures
        scan(render_spec(rows)) == rows.push(Seq::<Seq<char>>::empty()),
{
    lemma_split_render(rows);
    assert forall|i: int| 0 <= i < rows.len() implies tokens(join_tokens(#[trigger] rows[i])) == rows[i] by {
        assert forall|j: int| 0 <= j < rows[i].len() implies is_token(#[trigger] rows[i][j]) by {}
        lemma_tokens_join(rows[i]);
    }
    assert(scan(render_spec(rows)) =~= rows.push(Seq::<Seq<char>>::empty()));
}

/// The rows of tokens that write the entries of `m` with `fmt`.
pub open spec fn written<T>(m: Matrix<T>, fmt: spec_fn(T) -> Seq<char>) -> Seq<Seq<Seq<char>>> {
    Seq::new(m.rows as nat, |i: int| Seq::new(m.cols as nat, |j: int| fmt(m.entry(i, j))))
}

/// Each line of tokens read with `parse`.
pub open spec fn parsed<T>(lines: Seq<Seq<Seq<char>>>, parse: spec_fn(Seq<char>) -> Option<T>) -> Seq<Seq<Option<T>>> {
    lines.map_values(|l: Seq<Seq<char>>| l.map_values(parse))
}

proof fn lemma_read_written<T>(m: Matrix<T>, lines: Seq<Seq<Option<T>>>, n: int)
    requires
        m.cols >= 1,
        0 <= n <= m.rows,
        lines.len() >= n,
        forall|i: int| 0 <= i < n ==> (#[trigger] lines[i]) == Seq::new(
            m.cols as nat,
            |j: int| Some(m.entry(i, j)),
        ),
    ensures
        read_rows(lines.take(n)) == Ok::<Seq<Seq<T>>, MatrixError>(
            Seq::new(n as nat, |i: int| m.row_seq(i)),
        ),
    decreases n,
{
    if n > 0 {
        lemma_read_written(m, lines, n - 1);
        assert(lines.take(n).drop_last() =~= lines.take(n - 1));
        let l = lines[n - 1];
        assert(lines.take(n).last() == l);
        assert(l.len() == m.cols);
        assert(!(exists|k: int| 0 <= k < l.len() && l[k] is None));
        assert(l.map_values(|o: Option<T>| o->Some_0) =~= m.row_seq(n - 1));
        assert(Seq::new((n - 1) as nat, |i: int| m.row_seq(i)).push(m.row_seq(n - 1)) =~= Seq::new(
            n as nat,
            |i: int| m.row_seq(i),
        ));
    } else {
        assert(Seq::new(0, |i: int| m.row_seq(i)) =~= Seq::<Seq<T>>::empty());
    }
}

/// Round trip of a matrix through its text: when each entry of `m` is
/// written as a token that `parse` reads back as that entry, reading the
/// rendered text gives back exactly the rows of `m`.
pub proof fn lemma_round_trip<T>(m: Matrix<T>, fmt: spec_fn(T) -> Seq<char>, parse: spec_fn(Seq<char>) -> Option<T>)
    requires
        m.wf(),
        m.rows >= 1,
        m.cols >= 1,
        forall|i: int, j: int|
            m.in_bounds(i, j) ==> is_token(#[trigger] fmt(m.entry(i, j))) && parse(fmt(m.entry(i, j)))
                == Some(m.entry(i, j)),
    ensures
        read_matrix(parsed(scan(render_spec(written(m, fmt))), parse)) matches Ok(rows) && holds_rows(
            m,
            rows,
        ),
{
    let toks = written(m, fmt);
    assert forall|i: int, j: int| 0 <= i < toks.len() && 0 <= j < toks[i].len() implies is_token(#[trigger] toks[i][j]) by {
        assert(toks[i][j] == fmt(m.entry(i, j)));
    }
    lemma_scan_render(toks);
    let lines = parsed(scan(render_spec(toks)), parse);
    assert(lines.len() == m.rows + 1);
    assert forall|i: int| 0 <= i < m.rows implies (#[trigger] lines[i]) == Seq::new(
        m.cols as nat,
        |j: int| Some(m.entry(i, j)),
    ) by {
        assert(lines[i] =~= Seq::new(m.cols as nat, |j: int| Some(m.entry(i, j))));
    }
    lemma_read_written(m, lines, m.rows as int);
    let rows = Seq::new(m.rows as nat, |i: int| m.row_seq(i));
    assert(lines.take(m.rows + 1).drop_last() =~= lines.take(m.rows as int));
    assert(lines[m.rows as int].len() == 0);
    assert(lines.take(m.rows + 1) =~= lines);
    assert(read_rows(lines) == Ok::<Seq<Seq<T>>, MatrixError>(rows));
}

} // verus!
