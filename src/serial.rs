//! The text form of a matrix: a header line `"<rows> <cols>"` in decimal,
//! then one line per row holding each cell in base 3 followed by a space.
use vstd::prelude::*;
use vstd::string::StringExecFns;

use crate::codec::{
    digits_of, from_ternary, in_i32, int_to_ternary, is_digit, lemma_digits_of,
    lemma_ternary_round_trip, ternary_from_chars, to_ternary, ParseError,
};
use crate::matrix::{fits, is_grid, row_cells, MatrixError, TMatrix};
use crate::text::{
    chars_of, is_space, lemma_line_fold_concat, lemma_line_fold_one, lemma_line_fold_plain,
    lemma_word_fold_concat, lemma_word_fold_one, lemma_word_fold_plain, line_fold, lines,
    push_char, seqs_of, split_lines, split_words, strip_cr, word_fold, words,
};

verus! {

/// Whether `c` is one of the decimal digits.
pub open spec fn is_dec(c: char) -> bool {
    '0' as u32 <= c as u32 <= '9' as u32
}

/// The value of a decimal digit.
pub open spec fn dec_value(c: char) -> int {
    c as u32 - '0' as u32
}

/// The decimal digit of `d`, for `d` in `0..10`.
pub open spec fn dec_char(d: int) -> char {
    ((d + 48) as u8) as char
}

/// The decimal digits of `n`, without leading zeros (empty for zero).
pub open spec fn dec_digits(n: nat) -> Seq<char>
    decreases n,
{
    if n == 0 {
        Seq::empty()
    } else {
        dec_digits(n / 10).push(dec_char((n % 10) as int))
    }
}

/// `n` in decimal: `"0"` for zero.
pub open spec fn decimal(n: nat) -> Seq<char> {
    if n == 0 {
        seq!['0']
    } else {
        dec_digits(n)
    }
}

/// The value of a string of decimal digits.
pub open spec fn decimal_value(s: Seq<char>) -> int
    decreases s.len(),
{
    if s.len() == 0 {
        0
    } else {
        decimal_value(s.drop_last()) * 10 + dec_value(s.last())
    }
}

/// Whether `w` is a decimal numeral whose value fits in `usize`.
pub open spec fn is_size(w: Seq<char>) -> bool {
    &&& w.len() > 0
    &&& forall|i: int| 0 <= i < w.len() ==> is_dec(#[trigger] w[i])
    &&& decimal_value(w) <= usize::MAX
}

/// The text of one row: each cell in base 3, followed by a space.
pub open spec fn row_text(r: Seq<int>) -> Seq<char>
    decreases r.len(),
{
    if r.len() == 0 {
        Seq::empty()
    } else {
        row_text(r.drop_last()) + to_ternary(r.last()) + seq![' ']
    }
}

/// The text of the rows of `c`, each ended by a line feed.
pub open spec fn rows_text(c: Seq<Seq<int>>) -> Seq<char>
    decreases c.len(),
{
    if c.len() == 0 {
        Seq::empty()
    } else {
        rows_text(c.drop_last()) + row_text(c.last()) + seq!['\n']
    }
}

/// The header line of a `rows` × `cols` matrix, without its line feed.
pub open spec fn header_line(rows: nat, cols: nat) -> Seq<char> {
    decimal(rows) + seq![' '] + decimal(cols)
}

/// The text of a `rows` × `cols` matrix with cells `c`.
pub open spec fn matrix_text(rows: nat, cols: nat, c: Seq<Seq<int>>) -> Seq<char> {
    header_line(rows, cols) + seq!['\n'] + rows_text(c)
}

/// The shape that a header line's words give, if they are two sizes.
pub open spec fn header(ws: Seq<Seq<char>>) -> Option<(nat, nat)> {
    if ws.len() == 2 && is_size(ws[0]) && is_size(ws[1]) {
        Some((decimal_value(ws[0]) as nat, decimal_value(ws[1]) as nat))
    } else {
        None
    }
}

/// The values of base-3 words, or the error of the first that is none.
pub open spec fn decode_words(ws: Seq<Seq<char>>) -> Result<Seq<int>, ParseError>
    decreases ws.len(),
{
    if ws.len() == 0 {
        Ok(Seq::empty())
    } else {
        match decode_words(ws.drop_last()) {
            Err(e) => Err(e),
            Ok(v) => match from_ternary(ws.last()) {
                Ok(x) => Ok(v.push(x as int)),
                Err(e) => Err(e),
            },
        }
    }
}

/// The cells of a row line that must hold `cols` of them.
pub open spec fn decode_row(line: Seq<char>, cols: nat) -> Result<Seq<int>, MatrixError> {
    match decode_words(words(line)) {
        Err(e) => Err(MatrixError::InvalidEntry(e)),
        Ok(v) => if v.len() == cols {
            Ok(v)
        } else {
            Err(MatrixError::RowLengthMismatch)
        },
    }
}

/// The rows of the lines `ls`, or the error of the first that is refused.
pub open spec fn decode_rows(ls: Seq<Seq<char>>, cols: nat) -> Result<Seq<Seq<int>>, MatrixError>
    decreases ls.len(),
{
    if ls.len() == 0 {
        Ok(Seq::empty())
    } else {
        match decode_rows(ls.drop_last(), cols) {
            Err(e) => Err(e),
            Ok(acc) => match decode_row(ls.last(), cols) {
                Err(e) => Err(e),
                Ok(r) => Ok(acc.push(r)),
            },
        }
    }
}

/// What reading the text `s` as a matrix gives: its shape and cells.
pub open spec fn parse_matrix(s: Seq<char>) -> Result<(nat, nat, Seq<Seq<int>>), MatrixError> {
    let ls = lines(s);
    if ls.len() == 0 {
        Err(MatrixError::InvalidDimensions)
    } else {
        match header(words(ls[0])) {
            None => Err(MatrixError::InvalidDimensions),
            Some((rows, cols)) => {
                let end = if ls.len() <= rows + 1 {
                    ls.len() as int
                } else {
                    rows + 1int
                };
                match decode_rows(ls.subrange(1, end), cols) {
                    Err(e) => Err(e),
                    Ok(c) => if c.len() == rows {
                        Ok((rows, cols, c))
                    } else {
                        Err(MatrixError::InsufficientRows)
                    },
                }
            },
        }
    }
}

/// `r` is the matrix that `expected` describes, or the same error.
pub open spec fn read_as(
    r: Result<TMatrix, MatrixError>,
    expected: Result<(nat, nat, Seq<Seq<int>>), MatrixError>,
) -> bool {
    match expected {
        Ok((rows, cols, c)) => match r {
            Ok(m) => m.wf() && m.n_rows() == rows && m.n_cols() == cols && m.cells() == c,
            Err(_) => false,
        },
        Err(e) => r == Err::<TMatrix, MatrixError>(e),
    }
}

/// Appends `n` in decimal to `out`.
fn push_decimal(out: &mut String, n: usize)
    ensures
        final(out)@ == old(out)@ + decimal(n as nat),
{
    if n == 0 {
        push_char(out, '0');
        return;
    }
    let mut num: usize = n;
    // least significant digit first
    let mut low_first: Vec<char> = Vec::new();
    while num > 0
        invariant
            0 <= num <= n,
            dec_digits(n as nat) == dec_digits(num as nat) + Seq::new(
                low_first.len() as nat,
                |i: int| low_first[low_first.len() - 1 - i],
            ),
        decreases num,
    {
        let c = ((num % 10) as u8 + 48u8) as char;
        let ghost before = low_first@;
        low_first.push(c);
        proof {
            let rev_old = Seq::new(before.len() as nat, |i: int| before[before.len() - 1 - i]);
            let rev_new = Seq::new(
                low_first.len() as nat,
                |i: int| low_first[low_first.len() - 1 - i],
            );
            assert(rev_new == seq![c] + rev_old);
            assert(dec_digits(num as nat) == dec_digits((num / 10) as nat).push(c));
        }
        num = num / 10;
    }
    let ghost head = out@;
    let mut k: usize = low_first.len();
    while k > 0
        invariant
            k <= low_first.len(),
            out@ == head + Seq::new(
                (low_first.len() - k) as nat,
                |i: int| low_first[low_first.len() - 1 - i],
            ),
        decreases k,
    {
        k = k - 1;
        push_char(out, low_first[k]);
        assert(out@ == head + Seq::new(
            (low_first.len() - k) as nat,
            |i: int| low_first[low_first.len() - 1 - i],
        ));
    }
    assert(out@ == head + dec_digits(n as nat));
}

/// The value of the decimal numeral `w`, if it is one that fits in `usize`.
fn parse_size(w: &Vec<char>) -> (r: Option<usize>)
    ensures
        match r {
            Some(n) => is_size(w@) && n as int == decimal_value(w@),
            None => !is_size(w@),
        },
{
    if w.len() == 0 {
        return None;
    }
    let mut value: u128 = 0;
    let mut i: usize = 0;
    while i < w.len()
        invariant
            i <= w@.len(),
            forall|k: int| 0 <= k < i ==> is_dec(#[trigger] w@[k]),
            value == decimal_value(w@.take(i as int)),
            value <= usize::MAX,
        decreases w@.len() - i,
    {
        let c = w[i];
        if !('0' as u32 <= c as u32 && c as u32 <= '9' as u32) {
            assert(!is_dec(w@[i as int]));
            return None;
        }
        let d = (c as u32 - '0' as u32) as u128;
        proof {
            let nxt = w@.take(i + 1);
            assert(nxt.drop_last() == w@.take(i as int));
            assert(nxt.last() == c);
        }
        value = value * 10 + d;
        i = i + 1;
        if value > usize::MAX as u128 {
            proof {
                if forall|k: int| 0 <= k < w@.len() ==> is_dec(#[trigger] w@[k]) {
                    lemma_decimal_value_prefix(w@, i as int);
                }
            }
            return None;
        }
    }
    assert(w@.take(w@.len() as int) == w@);
    proof {
        lemma_decimal_value_nonneg(w@);
    }
    Some(value as usize)
}

proof fn lemma_decimal_value_nonneg(s: Seq<char>)
    requires
        forall|i: int| 0 <= i < s.len() ==> is_dec(#[trigger] s[i]),
    ensures
        decimal_value(s) >= 0,
    decreases s.len(),
{
    if s.len() > 0 {
        lemma_decimal_value_nonneg(s.drop_last());
    }
}

proof fn lemma_decimal_value_prefix(s: Seq<char>, k: int)
    requires
        0 <= k <= s.len(),
        forall|i: int| 0 <= i < s.len() ==> is_dec(#[trigger] s[i]),
    ensures
        decimal_value(s.take(k)) <= decimal_value(s),
    decreases s.len(),
{
    if k == s.len() {
        assert(s.take(k) == s);
    } else {
        assert(s.take(k) == s.drop_last().take(k));
        lemma_decimal_value_prefix(s.drop_last(), k);
        lemma_decimal_value_nonneg(s.drop_last());
    }
}

proof fn lemma_decode_words_err(ws: Seq<Seq<char>>, k: int, e: ParseError)
    requires
        0 <= k <= ws.len(),
        decode_words(ws.take(k)) == Err::<Seq<int>, ParseError>(e),
    ensures
        decode_words(ws) == Err::<Seq<int>, ParseError>(e),
    decreases ws.len(),
{
    if k == ws.len() {
        assert(ws.take(k) == ws);
    } else {
        assert(ws.take(k) == ws.drop_last().take(k));
        lemma_decode_words_err(ws.drop_last(), k, e);
    }
}

proof fn lemma_decode_rows_err(ls: Seq<Seq<char>>, k: int, cols: nat, e: MatrixError)
    requires
        0 <= k <= ls.len(),
        decode_rows(ls.take(k), cols) == Err::<Seq<Seq<int>>, MatrixError>(e),
    ensures
        decode_rows(ls, cols) == Err::<Seq<Seq<int>>, MatrixError>(e),
    decreases ls.len(),
{
    if k == ls.len() {
        assert(ls.take(k) == ls);
    } else {
        assert(ls.take(k) == ls.drop_last().take(k));
        lemma_decode_rows_err(ls.drop_last(), k, cols, e);
    }
}

/// The cells of one row line, which must hold `cols` of them.
fn decode_line(line: &Vec<char>, cols: usize) -> (r: Result<Vec<i32>, MatrixError>)
    ensures
        match decode_row(line@, cols as nat) {
            Ok(v) => r matches Ok(row) && row_cells(row) == v && row@.len() == cols,
            Err(e) => r == Err::<Vec<i32>, MatrixError>(e),
        },
{
    let ws = split_words(line);
    let ghost wseq = seqs_of(ws@);
    let mut row: Vec<i32> = Vec::new();
    assert(wseq.take(0) =~= Seq::<Seq<char>>::empty());
    assert(row_cells(row) =~= Seq::<int>::empty());
    let mut k: usize = 0;
    while k < ws.len()
        invariant
            wseq == seqs_of(ws@),
            wseq == words(line@),
            k <= ws@.len(),
            row@.len() == k,
            decode_words(wseq.take(k as int)) == Ok::<Seq<int>, ParseError>(row_cells(row)),
        decreases ws@.len() - k,
    {
        let w = &ws[k];
        assert(w@ == wseq[k as int]);
        let ghost pre = wseq.take(k + 1);
        assert(pre.drop_last() == wseq.take(k as int));
        let ghost row_before = row_cells(row);
        match ternary_from_chars(w) {
            Ok(x) => {
                row.push(x);
                assert(row_cells(row) =~= row_before.push(x as int));
            },
            Err(e) => {
                proof {
                    lemma_decode_words_err(wseq, k + 1, e);
                }
                return Err(MatrixError::InvalidEntry(e));
            },
        }
        k = k + 1;
    }
    assert(wseq.take(ws@.len() as int) == wseq);
    if row.len() != cols {
        return Err(MatrixError::RowLengthMismatch);
    }
    Ok(row)
}

impl TMatrix {
    /// The text form of the matrix.
    pub fn serialize(&self) -> (r: String)
        requires
            self.wf(),
        ensures
            r@ == matrix_text(self.n_rows(), self.n_cols(), self.cells()),
    {
        let ghost c = self.cells();
        proof {
            self.lemma_wf();
        }
        let mut out = String::new();
        push_decimal(&mut out, self.rows());
        push_char(&mut out, ' ');
        push_decimal(&mut out, self.cols());
        push_char(&mut out, '\n');
        let ghost head = out@;
        assert(head == header_line(self.n_rows(), self.n_cols()) + seq!['\n']);
        let mut i: usize = 0;
        while i < self.rows()
            invariant
                self.wf(),
                c == self.cells(),
                is_grid(c, self.n_rows(), self.n_cols()),
                i <= self.n_rows(),
                out@ == head + rows_text(c.take(i as int)),
            decreases self.n_rows() - i,
        {
            let ghost before = out@;
            let mut j: usize = 0;
            while j < self.cols()
                invariant
                    self.wf(),
                    c == self.cells(),
                    is_grid(c, self.n_rows(), self.n_cols()),
                    i < self.n_rows(),
                    j <= self.n_cols(),
                    out@ == before + row_text(c[i as int].take(j as int)),
                decreases self.n_cols() - j,
            {
                let t = int_to_ternary(self.get(i, j));
                out.append(t.as_str());
                push_char(&mut out, ' ');
                proof {
                    let r = c[i as int].take(j + 1);
                    assert(r.drop_last() == c[i as int].take(j as int));
                }
                j = j + 1;
            }
            push_char(&mut out, '\n');
            proof {
                let rs = c.take(i + 1);
                assert(rs.drop_last() == c.take(i as int));
                assert(c[i as int].take(self.n_cols() as int) == c[i as int]);
            }
            i = i + 1;
        }
        assert(c.take(self.n_rows() as int) == c);
        out
    }

    /// Reads a matrix from its text form. A missing or malformed header is
    /// `InvalidDimensions`; each of the announced rows must follow, in order,
    /// with exactly `cols` base-3 cells.
    #[verifier::loop_isolation(false)]
    pub fn deserialize(text: &str) -> (r: Result<TMatrix, MatrixError>)
        ensures
            read_as(r, parse_matrix(text@)),
    {
        let chars = chars_of(text);
        let ls = split_lines(&chars);
        let ghost lns = seqs_of(ls@);
        if ls.len() == 0 {
            return Err(MatrixError::InvalidDimensions);
        }
        let hdr = split_words(&ls[0]);
        assert(ls@[0]@ == lns[0]);
        if hdr.len() != 2 {
            return Err(MatrixError::InvalidDimensions);
        }
        assert(hdr@[0]@ == seqs_of(hdr@)[0]);
        assert(hdr@[1]@ == seqs_of(hdr@)[1]);
        let rows = match parse_size(&hdr[0]) {
            Some(n) => n,
            None => {
                return Err(MatrixError::InvalidDimensions);
            },
        };
        let cols = match parse_size(&hdr[1]) {
            Some(n) => n,
            None => {
                return Err(MatrixError::InvalidDimensions);
            },
        };
        let ghost end: int = if lns.len() <= rows + 1 {
            lns.len() as int
        } else {
            rows + 1int
        };
        let ghost body = lns.subrange(1, end);
        assert(lns == lines(text@));
        assert(header(words(lns[0])) == Some::<(nat, nat)>((rows as nat, cols as nat)));
        assert(parse_matrix(text@) == match decode_rows(body, cols as nat) {
            Err(e) => Err(e),
            Ok(c) => if c.len() == rows {
                Ok((rows as nat, cols as nat, c))
            } else {
                Err(MatrixError::InsufficientRows)
            },
        });
        let mut data: Vec<Vec<i32>> = Vec::new();
        assert(body.take(0) =~= Seq::<Seq<char>>::empty());
        assert(data@.map_values(|r: Vec<i32>| row_cells(r)) =~= Seq::<Seq<int>>::empty());
        let mut i: usize = 0;
        while i < rows && i < ls.len() - 1
            invariant
                lns == seqs_of(ls@),
                ls@.len() >= 1,
                body == lns.subrange(1, end),
                end == (if lns.len() <= rows + 1 {
                    lns.len() as int
                } else {
                    rows + 1int
                }),
                i <= rows,
                i <= ls@.len() - 1,
                data@.len() == i,
                forall|k: int| 0 <= k < i ==> (#[trigger] data@[k])@.len() == cols,
                decode_rows(body.take(i as int), cols as nat) == Ok::<Seq<Seq<int>>, MatrixError>(
                    data@.map_values(|r: Vec<i32>| row_cells(r)),
                ),
            decreases rows - i,
        {
            let line = &ls[i + 1];
            assert(line@ == body[i as int]);
            let row = match decode_line(line, cols) {
                Ok(row) => row,
                Err(e) => {
                    proof {
                        let pre_rows = body.take(i + 1);
                        assert(pre_rows.drop_last() == body.take(i as int));
                        assert(pre_rows.last() == body[i as int]);
                        lemma_decode_rows_err(body, i + 1, cols as nat, e);
                    }
                    return Err(e);
                },
            };
            proof {
                let pre_rows = body.take(i + 1);
                assert(pre_rows.drop_last() == body.take(i as int));
                assert(pre_rows.last() == body[i as int]);
            }
            let ghost cells_before = data@.map_values(|r: Vec<i32>| row_cells(r));
            data.push(row);
            assert(data@.map_values(|r: Vec<i32>| row_cells(r)) =~= cells_before.push(row_cells(row)));
            i = i + 1;
        }
        assert(body.take(i as int) == body);
        if i < rows {
            return Err(MatrixError::InsufficientRows);
        }
        Ok(TMatrix::from_rows(rows, cols, data))
    }
}

proof fn lemma_dec_digits(n: nat)
    ensures
        forall|i: int| 0 <= i < dec_digits(n).len() ==> is_dec(#[trigger] dec_digits(n)[i]),
        decimal_value(dec_digits(n)) == n,
    decreases n,
{
    if n > 0 {
        lemma_dec_digits(n / 10);
        let d = dec_digits(n);
        assert(d.drop_last() == dec_digits(n / 10));
        assert(forall|i: int| 0 <= i < d.len() - 1 ==> d[i] == dec_digits(n / 10)[i]);
    }
}

proof fn lemma_decimal(n: nat)
    ensures
        decimal(n).len() > 0,
        forall|i: int| 0 <= i < decimal(n).len() ==> is_dec(#[trigger] decimal(n)[i]),
        forall|i: int| 0 <= i < decimal(n).len() ==> !is_space(#[trigger] decimal(n)[i]),
        forall|i: int| 0 <= i < decimal(n).len() ==> #[trigger] decimal(n)[i] != '\n',
        decimal_value(decimal(n)) == n,
{
    if n == 0 {
        assert(decimal(n).drop_last() =~= Seq::<char>::empty());
        assert(decimal_value(Seq::<char>::empty()) == 0);
    } else {
        lemma_dec_digits(n);
    }
}

/// The characters that the text of a cell may hold.
spec fn is_cell_char(c: char) -> bool {
    is_digit(c) || c == '-'
}

proof fn lemma_to_ternary_chars(x: int)
    ensures
        to_ternary(x).len() > 0,
        forall|i: int| 0 <= i < to_ternary(x).len() ==> is_cell_char(#[trigger] to_ternary(x)[i]),
{
    if x < 0 {
        lemma_digits_of((-x) as nat);
        let t = to_ternary(x);
        assert forall|i: int| 0 <= i < t.len() implies is_cell_char(#[trigger] t[i]) by {
            if i > 0 {
                assert(t[i] == digits_of((-x) as nat)[i - 1]);
            }
        }
    } else if x > 0 {
        lemma_digits_of(x as nat);
    }
}

proof fn lemma_row_words(r: Seq<int>)
    ensures
        word_fold((Seq::empty(), Seq::empty()), row_text(r)) == (
            Seq::new(r.len(), |i: int| to_ternary(r[i])),
            Seq::<char>::empty(),
        ),
        forall|i: int| 0 <= i < row_text(r).len() ==> #[trigger] row_text(r)[i] != '\n',
        row_text(r).len() > 0 ==> row_text(r).last() == ' ',
    decreases r.len(),
{
    let init = (Seq::<Seq<char>>::empty(), Seq::<char>::empty());
    if r.len() == 0 {
        assert(Seq::new(r.len(), |i: int| to_ternary(r[i])) =~= Seq::<Seq<char>>::empty());
    } else {
        let prev = r.drop_last();
        lemma_row_words(prev);
        let t = to_ternary(r.last());
        lemma_to_ternary_chars(r.last());
        let a = row_text(prev);
        let ws = Seq::new(prev.len(), |i: int| to_ternary(prev[i]));
        lemma_word_fold_concat(init, a + t, seq![' ']);
        lemma_word_fold_one((ws, t), ' ');
        lemma_word_fold_concat(init, a, t);
        assert forall|i: int| 0 <= i < t.len() implies !is_space(#[trigger] t[i]) by {
            assert(is_cell_char(t[i]));
        }
        lemma_word_fold_plain(ws, Seq::empty(), t);
        assert(Seq::<char>::empty() + t == t);
        assert(Seq::new(r.len(), |i: int| to_ternary(r[i])) =~= ws.push(t));
        let full = row_text(r);
        assert forall|i: int| 0 <= i < full.len() implies #[trigger] full[i] != '\n' by {
            if i < a.len() {
                assert(full[i] == a[i]);
            } else if i < a.len() + t.len() {
                assert(full[i] == t[i - a.len()]);
                assert(is_cell_char(t[i - a.len()]));
            }
        }
    }
}

proof fn lemma_decode_cells(r: Seq<int>)
    requires
        forall|i: int| 0 <= i < r.len() ==> in_i32(#[trigger] r[i]),
    ensures
        decode_words(Seq::new(r.len(), |i: int| to_ternary(r[i]))) == Ok::<Seq<int>, ParseError>(r),
    decreases r.len(),
{
    let ws = Seq::new(r.len(), |i: int| to_ternary(r[i]));
    if r.len() == 0 {
        assert(r =~= Seq::<int>::empty());
    } else {
        let prev = r.drop_last();
        lemma_decode_cells(prev);
        assert(ws.drop_last() =~= Seq::new(prev.len(), |i: int| to_ternary(prev[i])));
        let x = r.last();
        assert(in_i32(r[r.len() - 1]));
        lemma_ternary_round_trip(x as i32);
        assert(prev.push(x) =~= r);
    }
}

proof fn lemma_rows_lines(hd: Seq<Seq<char>>, c: Seq<Seq<int>>)
    ensures
        line_fold((hd, Seq::empty()), rows_text(c)) == (
            hd + Seq::new(c.len(), |i: int| row_text(c[i])),
            Seq::<char>::empty(),
        ),
    decreases c.len(),
{
    if c.len() == 0 {
        assert(hd + Seq::new(c.len(), |i: int| row_text(c[i])) =~= hd);
    } else {
        let prev = c.drop_last();
        lemma_rows_lines(hd, prev);
        let done = hd + Seq::new(prev.len(), |i: int| row_text(prev[i]));
        let a = rows_text(prev);
        let b = row_text(c.last());
        lemma_row_words(c.last());
        lemma_line_fold_concat((hd, Seq::empty()), a + b, seq!['\n']);
        lemma_line_fold_one((done, b), '\n');
        lemma_line_fold_concat((hd, Seq::empty()), a, b);
        lemma_line_fold_plain(done, Seq::empty(), b);
        assert(Seq::<char>::empty() + b == b);
        assert(strip_cr(b) == b);
        assert(hd + Seq::new(c.len(), |i: int| row_text(c[i])) =~= done.push(b));
    }
}

proof fn lemma_decode_rows_text(c: Seq<Seq<int>>, cols: nat)
    requires
        forall|i: int| 0 <= i < c.len() ==> (#[trigger] c[i]).len() == cols,
        fits(c),
    ensures
        decode_rows(Seq::new(c.len(), |i: int| row_text(c[i])), cols) == Ok::<
            Seq<Seq<int>>,
            MatrixError,
        >(c),
    decreases c.len(),
{
    let ls = Seq::new(c.len(), |i: int| row_text(c[i]));
    if c.len() == 0 {
        assert(c =~= Seq::<Seq<int>>::empty());
    } else {
        let prev = c.drop_last();
        assert(fits(prev));
        lemma_decode_rows_text(prev, cols);
        assert(ls.drop_last() =~= Seq::new(prev.len(), |i: int| row_text(prev[i])));
        let r = c.last();
        assert(r == c[c.len() - 1]);
        lemma_row_words(r);
        assert forall|j: int| 0 <= j < r.len() implies in_i32(#[trigger] r[j]) by {
            assert(in_i32(c[c.len() - 1][j]));
        }
        lemma_decode_cells(r);
        assert(prev.push(r) =~= c);
    }
}

/// Reading back the text form of a well-formed matrix gives its shape and
/// cells again.
pub proof fn lemma_matrix_round_trip(m: TMatrix)
    requires
        m.wf(),
    ensures
        parse_matrix(matrix_text(m.n_rows(), m.n_cols(), m.cells())) == Ok::<
            (nat, nat, Seq<Seq<int>>),
            MatrixError,
        >((m.n_rows(), m.n_cols(), m.cells())),
{
    m.lemma_wf();
    let (rows, cols, c) = (m.n_rows(), m.n_cols(), m.cells());
    let init = (Seq::<Seq<char>>::empty(), Seq::<char>::empty());
    let d1 = decimal(rows);
    let d2 = decimal(cols);
    lemma_decimal(rows);
    lemma_decimal(cols);
    let h = header_line(rows, cols);
    // the lines: the header, then one per row
    assert forall|i: int| 0 <= i < h.len() implies #[trigger] h[i] != '\n' by {
        if i < d1.len() {
            assert(h[i] == d1[i]);
        } else if i > d1.len() {
            assert(h[i] == d2[i - d1.len() - 1]);
        }
    }
    lemma_line_fold_concat(init, h + seq!['\n'], rows_text(c));
    lemma_line_fold_concat(init, h, seq!['\n']);
    lemma_line_fold_one((Seq::empty(), h), '\n');
    lemma_line_fold_plain(Seq::empty(), Seq::empty(), h);
    assert(Seq::<char>::empty() + h == h);
    assert(h.last() == d2.last());
    assert(strip_cr(h) == h);
    assert(Seq::<Seq<char>>::empty().push(h) == seq![h]);
    lemma_rows_lines(seq![h], c);
    let ls = lines(matrix_text(rows, cols, c));
    let body = Seq::new(c.len(), |i: int| row_text(c[i]));
    assert(ls == seq![h] + body);
    assert(ls[0] == h);
    assert(ls.subrange(1, rows + 1int) =~= body);
    // the header's words
    lemma_word_fold_concat(init, d1 + seq![' '], d2);
    lemma_word_fold_concat(init, d1, seq![' ']);
    lemma_word_fold_one((Seq::empty(), d1), ' ');
    lemma_word_fold_plain(Seq::empty(), Seq::empty(), d1);
    assert(Seq::<char>::empty() + d1 == d1);
    lemma_word_fold_plain(seq![d1], Seq::empty(), d2);
    assert(Seq::<char>::empty() + d2 == d2);
    assert(Seq::<Seq<char>>::empty().push(d1) == seq![d1]);
    assert(words(h) == seq![d1, d2]);
    assert(header(words(h)) == Some::<(nat, nat)>((rows, cols)));
    lemma_decode_rows_text(c, cols);
}

} // verus!
