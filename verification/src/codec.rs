use vstd::prelude::*;
use vstd::string::{StrSliceExecFns, StringExecFns};

use crate::error::Error;
use crate::matrix::{
    lemma_model_of_rows_seq, model_of_rows, ragged_error_at, rect, rows_seq, MatModel, Matrix,
};
use crate::num_text::{
    dec_digits, i32_text, is_dec_digit, lemma_dec_digits, lemma_i32_text_roundtrip, parse_i32,
    push_i32_text, token_i32_ok, token_val,
};

verus! {

/// Whether `c` has the Unicode white-space property (the separator set of
/// the text format).
pub open spec fn is_space(c: char) -> bool {
    c == ' ' || c == '\t' || c == '\n' || c == '\r' || c == '\u{b}' || c == '\u{c}'
        || c == '\u{85}' || c == '\u{a0}' || c == '\u{1680}' || c == '\u{2000}' || c == '\u{2001}'
        || c == '\u{2002}' || c == '\u{2003}' || c == '\u{2004}' || c == '\u{2005}'
        || c == '\u{2006}' || c == '\u{2007}' || c == '\u{2008}' || c == '\u{2009}'
        || c == '\u{200a}' || c == '\u{2028}' || c == '\u{2029}' || c == '\u{202f}'
        || c == '\u{205f}' || c == '\u{3000}'
}

fn is_space_char(c: char) -> (r: bool)
    ensures
        r == is_space(c),
{
    c == ' ' || c == '\t' || c == '\n' || c == '\r' || c == '\u{b}' || c == '\u{c}'
        || c == '\u{85}' || c == '\u{a0}' || c == '\u{1680}' || c == '\u{2000}' || c == '\u{2001}'
        || c == '\u{2002}' || c == '\u{2003}' || c == '\u{2004}' || c == '\u{2005}'
        || c == '\u{2006}' || c == '\u{2007}' || c == '\u{2008}' || c == '\u{2009}'
        || c == '\u{200a}' || c == '\u{2028}' || c == '\u{2029}' || c == '\u{202f}'
        || c == '\u{205f}' || c == '\u{3000}'
}

/// The index of the first white-space character of `s`, or `s.len()`.
pub open spec fn find_space(s: Seq<char>) -> int
    decreases s.len(),
{
    if s.len() == 0 {
        0
    } else if is_space(s[0]) {
        0
    } else {
        1 + find_space(s.drop_first())
    }
}

proof fn lemma_find_space_bounds(s: Seq<char>)
    ensures
        0 <= find_space(s) <= s.len(),
        s.len() > 0 && !is_space(s[0]) ==> find_space(s) >= 1,
    decreases s.len(),
{
    if s.len() == 0 {
    } else if is_space(s[0]) {
    } else {
        lemma_find_space_bounds(s.drop_first());
    }
}

/// If no character before `k` is white space, and `k` is the length or a
/// white-space position, then `k` is exactly `find_space(s)`.
proof fn lemma_find_space_at(s: Seq<char>, k: int)
    requires
        0 <= k <= s.len(),
        forall|m: int| 0 <= m < k ==> !is_space(#[trigger] s[m]),
        k < s.len() ==> is_space(s[k]),
    ensures
        find_space(s) == k,
    decreases k,
{
    if k == 0 {
    } else {
        assert(!is_space(s[0]));
        lemma_find_space_at(s.drop_first(), k - 1);
    }
}

/// The index of the first line feed of `s`, or `s.len()`.
pub open spec fn find_nl(s: Seq<char>) -> int
    decreases s.len(),
{
    if s.len() == 0 {
        0
    } else if s[0] == '\n' {
        0
    } else {
        1 + find_nl(s.drop_first())
    }
}

proof fn lemma_find_nl_bounds(s: Seq<char>)
    ensures
        0 <= find_nl(s) <= s.len(),
    decreases s.len(),
{
    if s.len() == 0 {
    } else if s[0] == '\n' {
    } else {
        lemma_find_nl_bounds(s.drop_first());
    }
}

/// If no character before `k` is a line feed, and `k` is the length or a
/// line-feed position, then `k` is exactly `find_nl(s)`.
proof fn lemma_find_nl_at(s: Seq<char>, k: int)
    requires
        0 <= k <= s.len(),
        forall|m: int| 0 <= m < k ==> #[trigger] s[m] != '\n',
        k < s.len() ==> s[k] == '\n',
    ensures
        find_nl(s) == k,
    decreases k,
{
    if k == 0 {
    } else {
        lemma_find_nl_at(s.drop_first(), k - 1);
    }
}

/// The maximal runs of non-white-space characters of `s`, in order.
pub open spec fn tokens_of(s: Seq<char>) -> Seq<Seq<char>>
    decreases s.len(),
    via tokens_of_dec
{
    if s.len() == 0 {
        seq![]
    } else if is_space(s[0]) {
        tokens_of(s.drop_first())
    } else {
        seq![s.take(find_space(s))] + tokens_of(s.skip(find_space(s)))
    }
}

#[via_fn]
proof fn tokens_of_dec(s: Seq<char>) {
    if s.len() > 0 && !is_space(s[0]) {
        lemma_find_space_bounds(s);
    }
}

/// Removes one trailing carriage return, if present.
pub open spec fn strip_cr(s: Seq<char>) -> Seq<char> {
    if s.len() > 0 && s.last() == '\r' {
        s.drop_last()
    } else {
        s
    }
}

/// The lines of a text: split at line feeds, a carriage return before a
/// line feed removed, no final empty line for text that ends in a line
/// feed.
pub open spec fn lines_of(s: Seq<char>) -> Seq<Seq<char>>
    decreases s.len(),
    via lines_of_dec
{
    if s.len() == 0 {
        seq![]
    } else {
        let k = find_nl(s);
        if k >= s.len() {
            seq![s]
        } else {
            seq![strip_cr(s.take(k))] + lines_of(s.skip(k + 1))
        }
    }
}

#[via_fn]
proof fn lines_of_dec(s: Seq<char>) {
    lemma_find_nl_bounds(s);
}

/// The values of the tokens of one line (meaningful when every token
/// parses).
pub open spec fn line_vals(line: Seq<char>) -> Seq<i32> {
    Seq::new(tokens_of(line).len(), |k: int| token_val(tokens_of(line)[k]) as i32)
}

/// The rows of values a text denotes, one per line (meaningful when
/// every token parses).
pub open spec fn text_rows(text: Seq<char>) -> Seq<Seq<i32>> {
    Seq::new(lines_of(text).len(), |i: int| line_vals(lines_of(text)[i]))
}

/// Every token of every line is an integer token in range.
pub open spec fn all_tokens_ok(text: Seq<char>) -> bool {
    forall|i: int, j: int|
        0 <= i < lines_of(text).len() && 0 <= j < tokens_of(lines_of(text)[i]).len()
            ==> token_i32_ok(#[trigger] tokens_of(lines_of(text)[i])[j])
}

/// The token at line `i`, position `j` is the first one, in reading
/// order, that does not read as an in-range integer.
pub open spec fn first_bad_token_at(text: Seq<char>, i: int, j: int) -> bool {
    &&& 0 <= i < lines_of(text).len()
    &&& 0 <= j < tokens_of(lines_of(text)[i]).len()
    &&& !token_i32_ok(tokens_of(lines_of(text)[i])[j])
    &&& forall|i2: int, j2: int|
        0 <= i2 < lines_of(text).len() && 0 <= j2 < tokens_of(lines_of(text)[i2]).len() && (i2 < i
            || (i2 == i && j2 < j)) ==> token_i32_ok(#[trigger] tokens_of(lines_of(text)[i2])[j2])
}

/// The first index at or after `from` holding a line feed, or `n`.
fn find_newline(text: &str, from: usize, n: usize) -> (k: usize)
    requires
        n as int == text@.len(),
        from <= n,
    ensures
        from <= k <= n,
        forall|m: int| from <= m < k ==> #[trigger] text@[m] != '\n',
        k < n ==> text@[k as int] == '\n',
{
    let mut k = from;
    #[verifier::loop_isolation(false)]
    while k < n
        invariant
            from <= k <= n,
            forall|m: int| from <= m < k ==> #[trigger] text@[m] != '\n',
        decreases n - k,
    {
        if text.get_char(k) == '\n' {
            return k;
        }
        k = k + 1;
    }
    k
}

/// The first index at or after `from` holding white space, or `n`.
fn scan_token_end(line: &str, from: usize, n: usize) -> (j: usize)
    requires
        n as int == line@.len(),
        from <= n,
    ensures
        from <= j <= n,
        forall|m: int| from <= m < j ==> !is_space(#[trigger] line@[m]),
        j < n ==> is_space(line@[j as int]),
{
    let mut j = from;
    #[verifier::loop_isolation(false)]
    while j < n
        invariant
            from <= j <= n,
            forall|m: int| from <= m < j ==> !is_space(#[trigger] line@[m]),
        decreases n - j,
    {
        if is_space_char(line.get_char(j)) {
            return j;
        }
        j = j + 1;
    }
    j
}

/// Splits a line into its white-space-separated tokens.
fn tokenize_line(line: &str) -> (toks: Vec<String>)
    ensures
        toks.deep_view() == tokens_of(line@),
{
    let n = line.unicode_len();
    let mut toks: Vec<String> = Vec::new();
    let mut i: usize = 0;
    proof {
        assert(line@.skip(0) =~= line@);
        assert(toks.deep_view() =~= Seq::<Seq<char>>::empty());
        assert(tokens_of(line@) =~= toks.deep_view() + tokens_of(line@.skip(0)));
    }
    #[verifier::loop_isolation(false)]
    while i < n
        invariant
            0 <= i <= n,
            tokens_of(line@) == toks.deep_view() + tokens_of(line@.skip(i as int)),
        decreases n - i,
    {
        let c = line.get_char(i);
        if is_space_char(c) {
            proof {
                let t = line@.skip(i as int);
                assert(t[0] == line@[i as int]);
                assert(t.drop_first() =~= line@.skip(i as int + 1));
                assert(tokens_of(t) == tokens_of(line@.skip(i as int + 1)));
            }
            i = i + 1;
        } else {
            let j = scan_token_end(line, i, n);
            let ghost prev = toks.deep_view();
            let tok = line.substring_char(i, j);
            toks.push(tok.to_owned());
            proof {
                let t = line@.skip(i as int);
                assert forall|m: int| 0 <= m < j - i implies !is_space(#[trigger] t[m]) by {
                    assert(t[m] == line@[i + m]);
                }
                if j < n {
                    assert(t[j - i as int] == line@[j as int]);
                }
                lemma_find_space_at(t, j as int - i as int);
                assert(t.take(j as int - i as int) =~= line@.subrange(i as int, j as int));
                assert(t.skip(j as int - i as int) =~= line@.skip(j as int));
                assert(tokens_of(t) == seq![line@.subrange(i as int, j as int)] + tokens_of(
                    line@.skip(j as int),
                ));
                assert(toks.deep_view() =~= prev + seq![line@.subrange(i as int, j as int)]);
                assert(toks.deep_view() + tokens_of(line@.skip(j as int)) =~= prev + tokens_of(
                    t,
                ));
            }
            i = j;
        }
    }
    proof {
        assert(line@.skip(n as int) =~= Seq::<char>::empty());
        assert(tokens_of(line@) =~= toks.deep_view());
    }
    toks
}

/// The tab-joined text of row `r` from column `c` on.
pub open spec fn row_from(m: MatModel, r: int, c: int) -> Seq<char>
    decreases m.cols - c,
{
    if c < 0 || c >= m.cols {
        Seq::empty()
    } else if c == m.cols - 1 {
        i32_text(m.idx(r, c) as int)
    } else {
        i32_text(m.idx(r, c) as int) + seq!['\t'] + row_from(m, r, c + 1)
    }
}

/// The text of the matrix from row `r` on: each row tab-joined and
/// followed by a line feed.
pub open spec fn text_from(m: MatModel, r: int) -> Seq<char>
    decreases m.rows - r,
{
    if r < 0 || r >= m.rows {
        Seq::empty()
    } else {
        row_from(m, r, 0) + seq!['\n'] + text_from(m, r + 1)
    }
}

/// The text form of a matrix: rows tab-joined, each row followed by a
/// line feed; the empty matrix gives the empty text.
pub open spec fn text_of(m: MatModel) -> Seq<char> {
    text_from(m, 0)
}

/// The tab-joined text of a sequence of values.
pub open spec fn means_text_of(s: Seq<i32>) -> Seq<char>
    decreases s.len(),
{
    if s.len() == 0 {
        Seq::empty()
    } else if s.len() == 1 {
        i32_text(s[0] as int)
    } else {
        means_text_of(s.drop_last()) + seq!['\t'] + i32_text(s.last() as int)
    }
}

/// Renders a vector of values as one tab-joined line (no line feed), as
/// the column means are printed.
pub fn format_means(means: &Vec<i32>) -> (r: String)
    ensures
        r@ == means_text_of(means@),
{
    let mut out = String::new();
    let mut idx: usize = 0;
    proof {
        assert(means@.take(0) =~= Seq::<i32>::empty());
    }
    #[verifier::loop_isolation(false)]
    while idx < means.len()
        invariant
            0 <= idx <= means@.len(),
            out@ == means_text_of(means@.take(idx as int)),
        decreases means@.len() - idx,
    {
        if idx > 0 {
            out.append("\t");
            proof {
                reveal_strlit("\t");
            }
        }
        push_i32_text(&mut out, means[idx]);
        proof {
            let p = means@.take(idx as int + 1);
            assert(p.drop_last() =~= means@.take(idx as int));
            assert(p.last() == means@[idx as int]);
            if idx == 0 {
                assert(out@ =~= means_text_of(p));
            } else {
                assert(out@ =~= means_text_of(p));
            }
        }
        idx = idx + 1;
    }
    proof {
        assert(means@.take(means@.len() as int) =~= means@);
    }
    out
}

impl Matrix {
    /// Renders the matrix in its text form: elements of a row joined by
    /// tabs, each row followed by a line feed. A matrix with no rows
    /// gives the empty string.
    pub fn to_text(&self) -> (r: String)
        requires
            self@.wf(),
        ensures
            r@ == text_of(self@),
    {
        let (nr, nc) = self.dims();
        let rs = self.rows();
        let mut out = String::new();
        let mut r: usize = 0;
        proof {
            assert(out@ + text_from(self@, 0) =~= text_of(self@));
        }
        #[verifier::loop_isolation(false)]
        while r < nr
            invariant
                0 <= r <= self@.rows,
                out@ + text_from(self@, r as int) == text_of(self@),
            decreases nr - r,
        {
            let mut c: usize = 0;
            proof {
                assert(out@ + (row_from(self@, r as int, 0) + seq!['\n'] + text_from(
                    self@,
                    r as int + 1,
                )) =~= text_of(self@));
            }
            #[verifier::loop_isolation(false)]
            while c < nc
                invariant
                    r < self@.rows,
                    0 <= c <= self@.cols,
                    out@ + (row_from(self@, r as int, c as int) + seq!['\n'] + text_from(
                        self@,
                        r as int + 1,
                    )) == text_of(self@),
                decreases nc - c,
            {
                proof {
                    assert(rs.deep_view().len() == rs@.len());
                    assert(rs.deep_view()[r as int] == rs@[r as int].deep_view());
                    assert(rs@[r as int].deep_view().len() == rs@[r as int]@.len());
                    assert(crate::matrix::rows_seq(self@)[r as int].len() == self@.cols);
                }
                let v = rs[r][c];
                proof {
                    assert(rs@[r as int].deep_view()[c as int] == rs@[r as int]@[c as int]);
                    assert(v == crate::matrix::rows_seq(self@)[r as int][c as int]);
                    assert(v == self@.idx(r as int, c as int));
                }
                push_i32_text(&mut out, v);
                if c + 1 < nc {
                    out.append("\t");
                    proof {
                        reveal_strlit("\t");
                        assert(out@ + (row_from(self@, r as int, c as int + 1) + seq!['\n']
                            + text_from(self@, r as int + 1)) =~= text_of(self@));
                    }
                } else {
                    proof {
                        assert(row_from(self@, r as int, c as int) == i32_text(self@.idx(
                            r as int,
                            c as int,
                        ) as int));
                        assert(out@ + (row_from(self@, r as int, c as int + 1) + seq!['\n']
                            + text_from(self@, r as int + 1)) =~= text_of(self@));
                    }
                }
                c = c + 1;
            }
            out.append("\n");
            proof {
                reveal_strlit("\n");
                if self@.cols == 0 {
                    assert(row_from(self@, r as int, 0) =~= Seq::<char>::empty());
                }
                assert(row_from(self@, r as int, c as int) =~= Seq::<char>::empty());
                assert(out@ + text_from(self@, r as int + 1) =~= text_of(self@));
            }
            r = r + 1;
        }
        proof {
            assert(text_from(self@, self@.rows as int) =~= Seq::<char>::empty());
            assert(out@ =~= text_of(self@));
        }
        out
    }
}

impl Matrix {
    /// Parses a matrix from text: each line is a row, split on runs of
    /// white space, each token a decimal integer.
    ///
    /// A token that is not an in-range integer gives `ParseError` carrying
    /// the first such token in reading order. Lines with differing token
    /// counts give `DimensionError` as `from_2d` reports it; blank lines
    /// count as rows with no tokens, so a blank line beside non-blank ones
    /// is such a mismatch.
    pub fn from_text(text: &str) -> (r: Result<Matrix, Error>)
        ensures
            match r {
                Ok(m) => {
                    &&& all_tokens_ok(text@)
                    &&& rect(text_rows(text@))
                    &&& m@ == model_of_rows(text_rows(text@))
                    &&& m@.wf()
                },
                Err(e) => match e {
                    Error::ParseError { token } => {
                        &&& !all_tokens_ok(text@)
                        &&& exists|i: int, j: int|
                            #[trigger] first_bad_token_at(text@, i, j) && token@ == tokens_of(
                                lines_of(text@)[i],
                            )[j]
                    },
                    Error::DimensionError { .. } => {
                        &&& all_tokens_ok(text@)
                        &&& !rect(text_rows(text@))
                        &&& exists|i: int| #[trigger] ragged_error_at(text_rows(text@), i, e)
                    },
                },
            },
    {
        let n = text.unicode_len();
        let ghost lines = lines_of(text@);
        let mut rows_vals: Vec<Vec<i32>> = Vec::new();
        let mut pos: usize = 0;
        proof {
            assert(text@.skip(0) =~= text@);
        }
        #[verifier::loop_isolation(false)]
        while pos < n
            invariant
                0 <= pos <= n,
                rows_vals@.len() <= lines.len(),
                lines_of(text@.skip(pos as int)) == lines.skip(rows_vals@.len() as int),
                forall|i: int|
                    0 <= i < rows_vals@.len() ==> #[trigger] rows_vals@[i].deep_view()
                        == line_vals(lines[i]),
                forall|i: int, j: int|
                    0 <= i < rows_vals@.len() && 0 <= j < tokens_of(lines[i]).len()
                        ==> token_i32_ok(#[trigger] tokens_of(lines[i])[j]),
            decreases n - pos,
        {
            let ghost p = rows_vals@.len() as int;
            let k = find_newline(text, pos, n);
            proof {
                let t = text@.skip(pos as int);
                assert forall|m: int| 0 <= m < k as int - pos as int implies #[trigger] t[m]
                    != '\n' by {
                    assert(t[m] == text@[pos as int + m]);
                }
                if k < n {
                    assert(t[k as int - pos as int] == text@[k as int]);
                }
                lemma_find_nl_at(t, k as int - pos as int);
                assert(t.len() > 0);
                assert(lines.skip(p).len() >= 1);
                assert(p < lines.len());
            }
            let content_end: usize = if k < n && k > pos && text.get_char(k - 1) == '\r' {
                k - 1
            } else {
                k
            };
            let line = text.substring_char(pos, content_end);
            proof {
                let t = text@.skip(pos as int);
                if k < n {
                    assert(lines_of(t) == seq![strip_cr(t.take(k as int - pos as int))]
                        + lines_of(t.skip(k as int - pos as int + 1)));
                    assert(t.take(k as int - pos as int) =~= text@.subrange(
                        pos as int,
                        k as int,
                    ));
                    let taken = text@.subrange(pos as int, k as int);
                    if k > pos && text@[k as int - 1] == '\r' {
                        assert(taken.last() == text@[k as int - 1]);
                        assert(strip_cr(taken) =~= text@.subrange(pos as int, k as int - 1));
                    } else {
                        if taken.len() > 0 {
                            assert(taken.last() == text@[k as int - 1]);
                        }
                        assert(strip_cr(taken) == taken);
                    }
                    assert(line@ == strip_cr(t.take(k as int - pos as int)));
                    assert(lines[p] == lines.skip(p)[0]);
                    assert(line@ == lines[p]);
                    assert(t.skip(k as int - pos as int + 1) =~= text@.skip(k as int + 1));
                    assert(lines_of(text@.skip(k as int + 1)) =~= lines.skip(p).skip(1));
                    assert(lines.skip(p).skip(1) =~= lines.skip(p + 1));
                } else {
                    assert(lines_of(t) == seq![t]);
                    assert(line@ =~= t);
                    assert(lines[p] == lines.skip(p)[0]);
                    assert(line@ == lines[p]);
                    assert(lines.skip(p).len() == 1);
                    assert(lines.len() == p + 1);
                    assert(text@.skip(n as int) =~= Seq::<char>::empty());
                    assert(lines_of(text@.skip(n as int)) =~= lines.skip(p + 1));
                }
            }
            let toks = tokenize_line(line);
            let mut vals: Vec<i32> = Vec::new();
            let mut ti: usize = 0;
            #[verifier::loop_isolation(false)]
            while ti < toks.len()
                invariant
                    0 <= ti <= toks@.len(),
                    vals@.len() == ti as int,
                    forall|q: int|
                        0 <= q < ti ==> token_i32_ok(#[trigger] tokens_of(line@)[q]),
                    forall|q: int|
                        0 <= q < ti ==> #[trigger] vals@[q] as int == token_val(tokens_of(
                            line@,
                        )[q]),
                decreases toks@.len() - ti,
            {
                proof {
                    assert(toks@[ti as int]@ == toks.deep_view()[ti as int]);
                    assert(toks.deep_view()[ti as int] == tokens_of(line@)[ti as int]);
                }
                match parse_i32(toks[ti].as_str()) {
                    Some(v) => {
                        vals.push(v);
                    },
                    None => {
                        let bad = toks[ti].clone();
                        proof {
                            assert(bad@ == tokens_of(line@)[ti as int]);
                            assert(!token_i32_ok(tokens_of(lines[p])[ti as int]));
                            assert(first_bad_token_at(text@, p, ti as int));
                            assert(!all_tokens_ok(text@));
                        }
                        return Err(Error::ParseError { token: bad });
                    },
                }
                ti = ti + 1;
            }
            proof {
                assert(vals@.len() == tokens_of(line@).len());
                assert forall|q: int| 0 <= q < vals@.len() implies #[trigger] vals@[q]
                    == line_vals(line@)[q] by {
                    assert(vals@[q] as int == token_val(tokens_of(line@)[q]));
                    assert(token_i32_ok(tokens_of(line@)[q]));
                }
                assert(vals@ =~= line_vals(line@));
                assert(vals.deep_view() =~= vals@);
            }
            let ghost prev = rows_vals@;
            rows_vals.push(vals);
            proof {
                assert(rows_vals@.len() == p + 1);
                assert forall|i: int| 0 <= i < p + 1 implies #[trigger] rows_vals@[i]
                    .deep_view() == line_vals(lines[i]) by {
                    if i < p {
                        assert(rows_vals@[i] == prev[i]);
                    }
                }
            }
            pos = if k < n {
                k + 1
            } else {
                n
            };
        }
        proof {
            assert(text@.skip(pos as int) =~= Seq::<char>::empty());
            assert(lines_of(text@.skip(pos as int)) =~= Seq::<Seq<char>>::empty());
            assert(lines.skip(rows_vals@.len() as int).len() == 0);
            assert(rows_vals@.len() == lines.len());
            assert forall|i: int| 0 <= i < rows_vals.deep_view().len() implies #[trigger]
                rows_vals.deep_view()[i] == text_rows(text@)[i] by {
                assert(rows_vals.deep_view()[i] == rows_vals@[i].deep_view());
            }
            assert(rows_vals.deep_view() =~= text_rows(text@));
            assert(all_tokens_ok(text@));
        }
        let ghost rv = rows_vals.deep_view();
        match Matrix::from_2d(rows_vals) {
            Ok(m) => {
                proof {
                    assert(rect(text_rows(text@)));
                    assert(m@ == model_of_rows(text_rows(text@)));
                }
                Ok(m)
            },
            Err(e) => {
                proof {
                    let i = choose|i: int| ragged_error_at(rv, i, e);
                    assert(ragged_error_at(text_rows(text@), i, e));
                    assert(e matches Error::DimensionError { .. });
                }
                Err(e)
            },
        }
    }
}

/// The characters of a formatted value: at least one, none of them white
/// space, the last a decimal digit.
proof fn lemma_i32_text_chars(v: int)
    requires
        i32::MIN as int <= v <= i32::MAX as int,
    ensures
        i32_text(v).len() >= 1,
        forall|q: int| 0 <= q < i32_text(v).len() ==> !is_space(#[trigger] i32_text(v)[q]),
        is_dec_digit(i32_text(v).last()),
{
    lemma_i32_text_roundtrip(v);
    let s = i32_text(v);
    if v < 0 {
        lemma_dec_digits((-v) as nat);
        let d = dec_digits((-v) as nat);
        assert(s == seq!['-'] + d);
        assert forall|q: int| 0 <= q < s.len() implies !is_space(#[trigger] s[q]) by {
            if q == 0 {
                assert(s[q] == '-');
            } else {
                assert(s[q] == d[q - 1]);
                assert(is_dec_digit(d[q - 1]));
            }
        }
        assert(s.last() == d[d.len() - 1]);
        assert(is_dec_digit(s.last()));
    } else {
        lemma_dec_digits(v as nat);
        assert(s == dec_digits(v as nat));
        assert forall|q: int| 0 <= q < s.len() implies !is_space(#[trigger] s[q]) by {
            assert(is_dec_digit(s[q]));
        }
        assert(is_dec_digit(s.last()));
    }
}

/// The characters of a formatted row: at least one, never a line feed or
/// carriage return, the last a decimal digit.
proof fn lemma_row_chars(m: MatModel, r: int, c: int)
    requires
        m.wf(),
        0 <= r < m.rows,
        0 <= c < m.cols,
    ensures
        row_from(m, r, c).len() >= 1,
        forall|q: int|
            0 <= q < row_from(m, r, c).len() ==> #[trigger] row_from(m, r, c)[q] != '\n'
                && row_from(m, r, c)[q] != '\r',
        is_dec_digit(row_from(m, r, c).last()),
    decreases m.cols - c,
{
    let e = m.idx(r, c) as int;
    lemma_i32_text_chars(e);
    let s = row_from(m, r, c);
    if c == m.cols - 1 {
        assert(s == i32_text(e));
        assert forall|q: int| 0 <= q < s.len() implies #[trigger] s[q] != '\n' && s[q]
            != '\r' by {
            assert(!is_space(s[q]));
        }
    } else {
        lemma_row_chars(m, r, c + 1);
        let rest = row_from(m, r, c + 1);
        assert(s == i32_text(e) + seq!['\t'] + rest);
        let a = i32_text(e);
        assert forall|q: int| 0 <= q < s.len() implies #[trigger] s[q] != '\n' && s[q]
            != '\r' by {
            if q < a.len() {
                assert(s[q] == a[q]);
                assert(!is_space(a[q]));
            } else if q == a.len() {
                assert(s[q] == '\t');
            } else {
                assert(s[q] == rest[q - a.len() - 1]);
            }
        }
        assert(s.last() == rest.last());
    }
}

/// The tokens of a formatted row suffix are exactly the formatted
/// elements, in column order.
proof fn lemma_row_tokens(m: MatModel, r: int, c: int)
    requires
        m.wf(),
        0 <= r < m.rows,
        0 <= c <= m.cols,
    ensures
        tokens_of(row_from(m, r, c)) =~= Seq::new(
            (m.cols - c) as nat,
            |q: int| i32_text(m.idx(r, c + q) as int),
        ),
    decreases m.cols - c,
{
    let s = row_from(m, r, c);
    if c == m.cols {
        assert(s =~= Seq::<char>::empty());
    } else {
        let e = m.idx(r, c) as int;
        let a = i32_text(e);
        lemma_i32_text_chars(e);
        if c == m.cols - 1 {
            assert(s == a);
            assert forall|q: int| 0 <= q < a.len() implies !is_space(#[trigger] s[q]) by {}
            lemma_find_space_at(s, a.len() as int);
            assert(!is_space(s[0]));
            assert(tokens_of(s) == seq![s.take(a.len() as int)] + tokens_of(s.skip(
                a.len() as int,
            )));
            assert(s.take(a.len() as int) =~= a);
            assert(s.skip(a.len() as int) =~= Seq::<char>::empty());
            assert(tokens_of(s) =~= seq![a]);
        } else {
            lemma_row_tokens(m, r, c + 1);
            let rest = row_from(m, r, c + 1);
            assert(s == a + seq!['\t'] + rest);
            assert forall|q: int| 0 <= q < a.len() implies !is_space(#[trigger] s[q]) by {
                assert(s[q] == a[q]);
            }
            assert(s[a.len() as int] == '\t');
            lemma_find_space_at(s, a.len() as int);
            assert(!is_space(s[0]));
            assert(tokens_of(s) == seq![s.take(a.len() as int)] + tokens_of(s.skip(
                a.len() as int,
            )));
            assert(s.take(a.len() as int) =~= a);
            let after = s.skip(a.len() as int);
            assert(after[0] == '\t');
            assert(is_space(after[0]));
            assert(tokens_of(after) == tokens_of(after.drop_first()));
            assert(after.drop_first() =~= rest);
            assert forall|q: int| 0 <= q < (m.cols - c) as int implies (seq![a] + tokens_of(
                rest,
            ))[q] == i32_text(m.idx(r, c + q) as int) by {
                if q > 0 {
                    assert(tokens_of(rest)[q - 1] == i32_text(m.idx(r, c + 1 + (q - 1)) as int));
                }
            }
        }
    }
}

/// The lines of a formatted text suffix are exactly the formatted rows,
/// in row order.
proof fn lemma_text_lines(m: MatModel, r: int)
    requires
        m.wf(),
        m.cols >= 1,
        0 <= r <= m.rows,
    ensures
        lines_of(text_from(m, r)) =~= Seq::new(
            (m.rows - r) as nat,
            |q: int| row_from(m, r + q, 0),
        ),
    decreases m.rows - r,
{
    let s = text_from(m, r);
    if r == m.rows {
        assert(s =~= Seq::<char>::empty());
    } else {
        lemma_text_lines(m, r + 1);
        lemma_row_chars(m, r, 0);
        let row = row_from(m, r, 0);
        let rest = text_from(m, r + 1);
        assert(s == row + seq!['\n'] + rest);
        assert forall|q: int| 0 <= q < row.len() implies #[trigger] s[q] != '\n' by {
            assert(s[q] == row[q]);
        }
        assert(s[row.len() as int] == '\n');
        lemma_find_nl_at(s, row.len() as int);
        assert(s.len() > 0);
        assert(find_nl(s) < s.len());
        assert(lines_of(s) == seq![strip_cr(s.take(row.len() as int))] + lines_of(s.skip(
            row.len() as int + 1,
        )));
        assert(s.take(row.len() as int) =~= row);
        assert(row.last() != '\r');
        assert(strip_cr(row) == row);
        assert(s.skip(row.len() as int + 1) =~= rest);
        assert forall|q: int| 0 <= q < (m.rows - r) as int implies (seq![row] + lines_of(
            rest,
        ))[q] == row_from(m, r + q, 0) by {
            if q > 0 {
                assert(lines_of(rest)[q - 1] == row_from(m, r + 1 + (q - 1), 0));
            }
        }
    }
}

/// Parsing is a left inverse of formatting: the text of a well-formed
/// matrix with at least one row and one column parses back, with every
/// token in range, to equally long rows denoting the same matrix.
pub proof fn lemma_parse_format_roundtrip(m: MatModel)
    requires
        m.wf(),
        m.rows >= 1,
        m.cols >= 1,
    ensures
        all_tokens_ok(text_of(m)),
        rect(text_rows(text_of(m))),
        model_of_rows(text_rows(text_of(m))) == m,
{
    lemma_text_lines(m, 0);
    let text = text_of(m);
    let ls = lines_of(text);
    assert(ls.len() == m.rows);
    assert forall|i: int| 0 <= i < ls.len() implies #[trigger] tokens_of(ls[i]) =~= Seq::new(
        m.cols,
        |q: int| i32_text(m.idx(i, q) as int),
    ) by {
        assert(ls[i] == row_from(m, i, 0));
        lemma_row_tokens(m, i, 0);
    }
    assert forall|i: int, j: int|
        0 <= i < ls.len() && 0 <= j < tokens_of(ls[i]).len() implies token_i32_ok(
        #[trigger] tokens_of(ls[i])[j],
    ) by {
        lemma_i32_text_roundtrip(m.idx(i, j) as int);
        assert(tokens_of(ls[i])[j] == i32_text(m.idx(i, j) as int));
    }
    assert(all_tokens_ok(text));
    assert forall|i: int| 0 <= i < ls.len() implies #[trigger] line_vals(ls[i]) =~= rows_seq(
        m,
    )[i] by {
        assert forall|j: int| 0 <= j < tokens_of(ls[i]).len() implies #[trigger] line_vals(
            ls[i],
        )[j] == rows_seq(m)[i][j] by {
            lemma_i32_text_roundtrip(m.idx(i, j) as int);
            assert(tokens_of(ls[i])[j] == i32_text(m.idx(i, j) as int));
            assert(token_val(tokens_of(ls[i])[j]) == m.idx(i, j) as int);
        }
    }
    assert(text_rows(text) =~= rows_seq(m));
    lemma_model_of_rows_seq(m);
    assert(rect(text_rows(text)));
    assert(model_of_rows(text_rows(text)) == m);
}

} // verus!
