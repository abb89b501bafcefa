use vstd::prelude::*;
use crate::grid::{walls_binary, walls_wf};
use crate::text::{
    is_ws, lemma_int_token_dec, lemma_tokens_concat, lemma_tokens_word, chars_of, dec, int_text, int_token, parse_int, push_dec, push_int, string_of, tokenize, tokens, trim_str,
    trimmed, views,
};

verus! {

/// One instance: the grid size `N`, the walls `h` and `v` (characters '0' open,
/// '1' wall), and the value `d` of each cell.
#[derive(Clone, Debug, PartialEq, Eq)]
pub struct Input {
    pub N: usize,
    pub h: Vec<Vec<char>>,
    pub v: Vec<Vec<char>>,
    pub d: Vec<Vec<i64>>,
}

/// The longest route that `parse_output` accepts, in characters.
pub const MAX_ROUTE_LEN: usize = 100000;

impl Input {
    /// The shape of an instance of any size: walls of the right lengths over '0' and
    /// '1', and an N by N matrix of values.
    pub open spec fn shape_ok(&self) -> bool {
        &&& walls_wf(self.N as int, self.h@, self.v@)
        &&& walls_binary(self.h@, self.v@)
        &&& self.d@.len() == self.N
        &&& forall|i: int| 0 <= i < self.N ==> (#[trigger] self.d@[i])@.len() == self.N
    }

    /// An instance as the generator makes them: N in [20, 40] and values that are not
    /// negative.
    pub open spec fn wf(&self) -> bool {
        &&& 20 <= self.N <= 40
        &&& self.shape_ok()
        &&& forall|i: int, j: int| 0 <= i < self.N && 0 <= j < self.N ==> #[trigger] self.d@[i]@[j] >= 0
    }

    /// The text of the instance: `N`, the rows of `h`, the rows of `v`, then the rows
    /// of `d` with values separated by one space, each on its own line.
    pub open spec fn text(&self) -> Seq<char> {
        dec(self.N as nat) + seq!['\n'] + char_lines(self.h@) + char_lines(self.v@) + int_lines(self.d@)
    }

    /// Writes the instance as text, one line per row.
    pub fn to_string(&self) -> (r: String)
        requires
            self.N >= 1,
        ensures
            r@ == self.text(),
    {
        let mut out: Vec<char> = Vec::new();
        push_dec(&mut out, self.N as u64);
        out.push('\n');
        push_char_lines(&mut out, &self.h);
        push_char_lines(&mut out, &self.v);
        push_int_lines(&mut out, &self.d);
        proof {
            assert(out@ =~= self.text());
        }
        string_of(&out)
    }
}

/// Each row, followed by a line break.
pub open spec fn char_lines(rows: Seq<Vec<char>>) -> Seq<char>
    decreases rows.len(),
{
    if rows.len() == 0 {
        seq![]
    } else {
        char_lines(rows.drop_last()) + rows.last()@ + seq!['\n']
    }
}

/// The values of `row` in decimal, separated by one space.
pub open spec fn joined(row: Seq<i64>) -> Seq<char>
    decreases row.len(),
{
    if row.len() == 0 {
        seq![]
    } else if row.len() == 1 {
        int_text(row[0] as int)
    } else {
        joined(row.drop_last()) + seq![' '] + int_text(row.last() as int)
    }
}

/// Each row of values, joined by spaces and followed by a line break.
pub open spec fn int_lines(rows: Seq<Vec<i64>>) -> Seq<char>
    decreases rows.len(),
{
    if rows.len() == 0 {
        seq![]
    } else {
        int_lines(rows.drop_last()) + joined(rows.last()@) + seq!['\n']
    }
}

fn push_char_lines(out: &mut Vec<char>, rows: &Vec<Vec<char>>)
    ensures
        final(out)@ == old(out)@ + char_lines(rows@),
{
    let mut i: usize = 0;
    while i < rows.len()
        invariant
            i <= rows@.len(),
            out@ == old(out)@ + char_lines(rows@.subrange(0, i as int)),
        decreases rows@.len() - i,
    {
        let ghost before = out@;
        let row = &rows[i];
        let mut j: usize = 0;
        while j < row.len()
            invariant
                j <= row@.len(),
                out@ == before + row@.subrange(0, j as int),
            decreases row@.len() - j,
        {
            out.push(row[j]);
            proof {
                assert(row@.subrange(0, j + 1) =~= row@.subrange(0, j as int).push(row@[j as int]));
                assert(out@ =~= before + row@.subrange(0, j + 1));
            }
            j += 1;
        }
        out.push('\n');
        proof {
            let s = rows@.subrange(0, i + 1);
            assert(s.drop_last() =~= rows@.subrange(0, i as int));
            assert(row@.subrange(0, row@.len() as int) =~= row@);
            assert(out@ =~= old(out)@ + char_lines(s));
        }
        i += 1;
    }
    proof {
        assert(rows@.subrange(0, rows@.len() as int) =~= rows@);
    }
}

fn push_int_lines(out: &mut Vec<char>, rows: &Vec<Vec<i64>>)
    ensures
        final(out)@ == old(out)@ + int_lines(rows@),
{
    let mut i: usize = 0;
    while i < rows.len()
        invariant
            i <= rows@.len(),
            out@ == old(out)@ + int_lines(rows@.subrange(0, i as int)),
        decreases rows@.len() - i,
    {
        let ghost before = out@;
        let row = &rows[i];
        let mut j: usize = 0;
        while j < row.len()
            invariant
                j <= row@.len(),
                out@ == before + joined(row@.subrange(0, j as int)),
            decreases row@.len() - j,
        {
            if j > 0 {
                out.push(' ');
            }
            push_int(out, row[j]);
            proof {
                let s = row@.subrange(0, j + 1);
                assert(s.drop_last() =~= row@.subrange(0, j as int));
                assert(out@ =~= before + joined(s));
            }
            j += 1;
        }
        out.push('\n');
        proof {
            let s = rows@.subrange(0, i + 1);
            assert(s.drop_last() =~= rows@.subrange(0, i as int));
            assert(row@.subrange(0, row@.len() as int) =~= row@);
            assert(out@ =~= old(out)@ + int_lines(s));
        }
        i += 1;
    }
    proof {
        assert(rows@.subrange(0, rows@.len() as int) =~= rows@);
    }
}

pub open spec fn binary_token(t: Seq<char>, len: int) -> bool {
    t.len() == len && forall|k: int| 0 <= k < len ==> ((#[trigger] t[k]) == '0' || t[k] == '1')
}

/// `toks` is what the text of an instance splits into: a size N >= 1, N - 1 rows of N
/// wall characters, N rows of N - 1 wall characters, and N * N values that are `i64`s.
pub open spec fn well_shaped(toks: Seq<Seq<char>>) -> bool {
    &&& toks.len() > 0
    &&& int_token(toks[0]) is Some
    &&& {
        let n = int_token(toks[0])->0;
        &&& n >= 1
        &&& toks.len() == n * n + 2 * n
        &&& forall|i: int| 0 <= i < n - 1 ==> binary_token(#[trigger] toks[1 + i], n)
        &&& forall|i: int| 0 <= i < n ==> binary_token(#[trigger] toks[n + i], n - 1)
        &&& forall|k: int| 0 <= k < n * n ==> (#[trigger] int_token(toks[2 * n + k])) is Some
    }
}

/// `x` is the instance that the tokens `toks` write.
pub open spec fn read_as(x: Input, toks: Seq<Seq<char>>) -> bool {
    let n = x.N as int;
    &&& toks.len() == n * n + 2 * n
    &&& int_token(toks[0]) == Some(n)
    &&& forall|i: int| 0 <= i < n - 1 ==> toks[1 + i] == (#[trigger] x.h@[i])@
    &&& forall|i: int| 0 <= i < n ==> toks[n + i] == (#[trigger] x.v@[i])@
    &&& forall|i: int, j: int| 0 <= i < n && 0 <= j < n ==>
        int_token(toks[2 * n + i * n + j]) == Some(#[trigger] x.d@[i]@[j] as int)
}

/// Row `a` of `rows` is token `start + a`, `len` wall characters.
pub open spec fn rows_read(ts: Seq<Seq<char>>, start: int, rows: Seq<Vec<char>>, len: int) -> bool {
    &&& forall|a: int| 0 <= a < rows.len() ==> ts[start + a] == (#[trigger] rows[a])@
    &&& forall|a: int| 0 <= a < rows.len() ==> binary_token((#[trigger] rows[a])@, len)
}

/// Row `a` of `d` holds the `n` values from token `2 * n + a * n` on.
pub open spec fn values_read(ts: Seq<Seq<char>>, n: int, d: Seq<Vec<i64>>) -> bool {
    &&& forall|a: int| 0 <= a < d.len() ==> (#[trigger] d[a])@.len() == n
    &&& forall|a: int, b: int| 0 <= a < d.len() && 0 <= b < n ==>
        int_token(ts[2 * n + a * n + b]) == Some(#[trigger] d[a]@[b] as int)
}

proof fn lemma_rows_push(ts: Seq<Seq<char>>, start: int, rows: Seq<Vec<char>>, len: int, row: Vec<char>)
    requires
        rows_read(ts, start, rows, len),
        binary_token(ts[start + rows.len()], len),
        ts[start + rows.len()] == row@,
    ensures
        rows_read(ts, start, rows.push(row), len),
{
    let r = rows.push(row);
    assert forall|a: int| 0 <= a < r.len() implies ts[start + a] == (#[trigger] r[a])@ by {
        if a < rows.len() {
            assert(r[a] == rows[a]);
        }
    }
    assert forall|a: int| 0 <= a < r.len() implies binary_token((#[trigger] r[a])@, len) by {
        if a < rows.len() {
            assert(r[a] == rows[a]);
        }
    }
}

fn is_binary(t: &Vec<char>, len: usize) -> (r: bool)
    ensures
        r == binary_token(t@, len as int),
{
    if t.len() != len {
        return false;
    }
    let mut k: usize = 0;
    while k < len
        invariant
            t@.len() == len,
            k <= len,
            forall|q: int| 0 <= q < k ==> ((#[trigger] t@[q]) == '0' || t@[q] == '1'),
        decreases len - k,
    {
        if t[k] != '0' && t[k] != '1' {
            return false;
        }
        k += 1;
    }
    true
}

fn copy_chars(t: &Vec<char>) -> (r: Vec<char>)
    ensures
        r@ == t@,
{
    let mut r: Vec<char> = Vec::new();
    let mut k: usize = 0;
    while k < t.len()
        invariant
            k <= t@.len(),
            r@ == t@.subrange(0, k as int),
        decreases t@.len() - k,
    {
        r.push(t[k]);
        proof {
            assert(r@ =~= t@.subrange(0, k + 1));
        }
        k += 1;
    }
    proof {
        assert(t@.subrange(0, t@.len() as int) =~= t@);
    }
    r
}

/// Reads an instance from its text; `None` when the text is not the text of one.
pub fn parse_input(f: &str) -> (r: Option<Input>)
    ensures
        r is Some <==> well_shaped(tokens(f@)),
        r is Some ==> r->0.shape_ok() && read_as(r->0, tokens(f@)),
{
    let cs = chars_of(f);
    let toks = tokenize(&cs);
    let ghost ts = tokens(f@);
    proof {
        assert forall|k: int| 0 <= k < toks@.len() implies #[trigger] toks@[k]@ == ts[k] by {
            assert(views(toks@)[k] == toks@[k]@);
        }
        assert(toks@.len() == ts.len());
    }
    if toks.len() == 0 {
        return None;
    }
    let first = parse_int(&toks[0]);
    let n64 = match first {
        Some(x) => x,
        None => {
            return None;
        },
    };
    let count = toks.len();
    if n64 < 1 || n64 as u64 > count as u64 {
        proof {
            if n64 >= 1 {
                let m = n64 as int;
                assert(m * m + 2 * m > m) by (nonlinear_arith)
                    requires m >= 1;
            }
        }
        return None;
    }
    let N = n64 as usize;
    let ghost n = N as int;
    proof {
        assert(int_token(ts[0]) == Some(n));
        assert(n * n + 2 * n <= 0xffff_ffff_ffff_ffff_ffff_ffff_ffff_ffff) by (nonlinear_arith)
            requires 1 <= n <= 0x7fff_ffff_ffff_ffff;
    }
    let wide = N as u128;
    if wide * wide + 2 * wide != count as u128 {
        return None;
    }
    let mut h: Vec<Vec<char>> = Vec::new();
    let mut i: usize = 0;
    while i + 1 < N
        invariant
            n == N as int,
            1 <= N,
            toks@.len() <= usize::MAX,
            int_token(ts[0]) == Some(n),
            ts == tokens(f@),
            toks@.len() == ts.len(),
            toks@.len() == n * n + 2 * n,
            forall|k: int| 0 <= k < toks@.len() ==> #[trigger] toks@[k]@ == ts[k],
            i <= N - 1,
            h@.len() == i,
            rows_read(ts, 1, h@, n),
        decreases N - i,
    {
        if !is_binary(&toks[i + 1], N) {
            proof {
                assert(!binary_token(ts[1 + i as int], n));
            }
            return None;
        }
        let ghost old_h = h@;
        let row = copy_chars(&toks[i + 1]);
        proof {
            assert(toks@[i + 1]@ == ts[1 + i]);
            lemma_rows_push(ts, 1, old_h, n, row);
        }
        h.push(row);
        i += 1;
    }
    let mut v: Vec<Vec<char>> = Vec::new();
    let mut i: usize = 0;
    while i < N
        invariant
            n == N as int,
            1 <= N,
            toks@.len() <= usize::MAX,
            int_token(ts[0]) == Some(n),
            ts == tokens(f@),
            toks@.len() == ts.len(),
            toks@.len() == n * n + 2 * n,
            forall|k: int| 0 <= k < toks@.len() ==> #[trigger] toks@[k]@ == ts[k],
            i <= N,
            v@.len() == i,
            h@.len() == n - 1,
            rows_read(ts, 1, h@, n),
            rows_read(ts, n, v@, n - 1),
        decreases N - i,
    {
        if !is_binary(&toks[N + i], N - 1) {
            proof {
                assert(!binary_token(ts[n + i], n - 1));
            }
            return None;
        }
        let ghost old_v = v@;
        let row = copy_chars(&toks[N + i]);
        proof {
            assert(toks@[N + i]@ == ts[n + i]);
            lemma_rows_push(ts, n, old_v, n - 1, row);
        }
        v.push(row);
        i += 1;
    }
    let mut d: Vec<Vec<i64>> = Vec::new();
    let mut i: usize = 0;
    while i < N
        invariant
            n == N as int,
            1 <= N,
            toks@.len() <= usize::MAX,
            int_token(ts[0]) == Some(n),
            ts == tokens(f@),
            toks@.len() == ts.len(),
            toks@.len() == n * n + 2 * n,
            forall|k: int| 0 <= k < toks@.len() ==> #[trigger] toks@[k]@ == ts[k],
            i <= N,
            d@.len() == i,
            h@.len() == n - 1,
            v@.len() == n,
            rows_read(ts, 1, h@, n),
            rows_read(ts, n, v@, n - 1),
            values_read(ts, n, d@),
        decreases N - i,
    {
        proof {
            assert(i * n + n <= n * n) by (nonlinear_arith)
                requires i < n;
            assert(i * n >= 0) by (nonlinear_arith)
                requires i >= 0, n >= 0;
        }
        let base = 2 * N + i * N;
        let mut row: Vec<i64> = Vec::new();
        let mut j: usize = 0;
        while j < N
            invariant
                n == N as int,
                1 <= N,
            toks@.len() <= usize::MAX,
                i < N,
                base == 2 * n + i * n,
                i * n + n <= n * n,
                int_token(ts[0]) == Some(n),
                ts == tokens(f@),
                toks@.len() == ts.len(),
                toks@.len() == n * n + 2 * n,
                forall|k: int| 0 <= k < toks@.len() ==> #[trigger] toks@[k]@ == ts[k],
                j <= N,
                row@.len() == j,
                d@.len() == i,
                values_read(ts, n, d@),
                forall|b: int| 0 <= b < j ==> int_token(ts[base + b]) == Some(#[trigger] row@[b] as int),
            decreases N - j,
        {
            let x = parse_int(&toks[base + j]);
            match x {
                Some(val) => {
                    row.push(val);
                },
                None => {
                    proof {
                        assert(2 * n + (i * n + j) == base + j);
                        assert(int_token(ts[2 * n + (i * n + j)]) is None);
                    }
                    return None;
                },
            }
            j += 1;
        }
        let ghost old_d = d@;
        d.push(row);
        proof {
            assert((i + 1) * n == i * n + n) by (nonlinear_arith);
            assert forall|a: int, b: int| 0 <= a < d@.len() && 0 <= b < n implies
                int_token(ts[2 * n + a * n + b]) == Some(#[trigger] d@[a]@[b] as int) by {
                if a < i {
                    assert(d@[a] == old_d[a]);
                } else {
                    assert(d@[a] == row);
                }
            }
            assert forall|a: int| 0 <= a < d@.len() implies (#[trigger] d@[a])@.len() == n by {
                if a < i {
                    assert(d@[a] == old_d[a]);
                }
            }
        }
        i += 1;
    }
    let r = Input { N, h, v, d };
    proof {
        assert forall|a: int| 0 <= a < n - 1 implies binary_token(#[trigger] ts[1 + a], n) by {
            assert(ts[1 + a] == h@[a]@);
        }
        assert forall|a: int| 0 <= a < n implies binary_token(#[trigger] ts[n + a], n - 1) by {
            assert(ts[n + a] == v@[a]@);
        }
        assert forall|k: int| 0 <= k < n * n implies (#[trigger] int_token(ts[2 * n + k])) is Some by {
            let a = k / n;
            let b = k % n;
            assert(k == a * n + b && 0 <= a < n && 0 <= b < n) by (nonlinear_arith)
                requires 0 <= k < n * n, n > 0, a == k / n, b == k % n;
            assert(int_token(ts[2 * n + a * n + b]) == Some(d@[a]@[b] as int));
        }
        assert(well_shaped(ts));
        assert forall|i: int, j: int| 0 <= i < n - 1 && 0 <= j < n implies ((#[trigger] r.h@[i]@[j]) == '0' || r.h@[i]@[j] == '1') by {
            assert(binary_token(ts[1 + i], n));
        }
        assert forall|i: int, j: int| 0 <= i < n && 0 <= j < n - 1 implies ((#[trigger] r.v@[i]@[j]) == '0' || r.v@[i]@[j] == '1') by {
            assert(binary_token(ts[n + i], n - 1));
        }
        assert(r.shape_ok());
    }
    Some(r)
}

/// The tokens of one row of values.
pub open spec fn row_tokens(row: Seq<i64>) -> Seq<Seq<char>> {
    row.map_values(|x: i64| int_text(x as int))
}

/// The tokens of all rows of values, row after row.
pub open spec fn value_tokens(rows: Seq<Vec<i64>>) -> Seq<Seq<char>>
    decreases rows.len(),
{
    if rows.len() == 0 {
        seq![]
    } else {
        value_tokens(rows.drop_last()) + row_tokens(rows.last()@)
    }
}

/// Two instances with the same size, walls and values.
pub open spec fn same_instance(x: Input, y: Input) -> bool {
    &&& x.N == y.N
    &&& views(x.h@) == views(y.h@)
    &&& views(x.v@) == views(y.v@)
    &&& x.d@.map_values(|r: Vec<i64>| r@) == y.d@.map_values(|r: Vec<i64>| r@)
}

proof fn lemma_char_lines_tokens(rows: Seq<Vec<char>>, len: int)
    requires
        len >= 1,
        forall|a: int| 0 <= a < rows.len() ==> binary_token((#[trigger] rows[a])@, len),
    ensures
        tokens(char_lines(rows)) == views(rows),
        char_lines(rows).len() == 0 || is_ws(char_lines(rows).last()),
    decreases rows.len(),
{
    if rows.len() == 0 {
        assert(tokens(char_lines(rows)) =~= views(rows));
    } else {
        let dl = rows.drop_last();
        assert forall|a: int| 0 <= a < dl.len() implies binary_token((#[trigger] dl[a])@, len) by {
            assert(dl[a] == rows[a]);
        }
        lemma_char_lines_tokens(dl, len);
        let w = rows.last()@;
        assert(binary_token(rows[rows.len() - 1]@, len));
        assert forall|k: int| 0 <= k < w.len() implies !is_ws(#[trigger] w[k]) by {
            assert(w[k] == '0' || w[k] == '1');
        }
        lemma_tokens_word(w);
        let b = w + seq!['\n'];
        assert(b =~= w.push('\n'));
        assert(b.drop_last() =~= w);
        assert(tokens(b) == tokens(w));
        lemma_tokens_concat(char_lines(dl), b);
        assert(char_lines(rows) =~= char_lines(dl) + b);
        assert(views(rows) =~= views(dl) + seq![w]);
    }
}

proof fn lemma_joined_tokens(row: Seq<i64>)
    requires
        forall|b: int| 0 <= b < row.len() ==> #[trigger] row[b] >= 0,
    ensures
        tokens(joined(row)) == row_tokens(row),
    decreases row.len(),
{
    if row.len() == 0 {
        assert(tokens(joined(row)) =~= row_tokens(row));
    } else {
        let last = row.last();
        assert(last >= 0);
        lemma_int_token_dec(last as nat);
        let w = int_text(last as int);
        lemma_tokens_word(w);
        if row.len() == 1 {
            assert(row_tokens(row) =~= seq![w]);
        } else {
            let dl = row.drop_last();
            assert forall|b: int| 0 <= b < dl.len() implies #[trigger] dl[b] >= 0 by {
                assert(dl[b] == row[b]);
            }
            lemma_joined_tokens(dl);
            let a = joined(dl) + seq![' '];
            assert(a =~= joined(dl).push(' '));
            assert(a.drop_last() =~= joined(dl));
            assert(tokens(a) == tokens(joined(dl)));
            lemma_tokens_concat(a, w);
            assert(row_tokens(row) =~= row_tokens(dl) + seq![w]);
        }
    }
}

proof fn lemma_int_lines_tokens(rows: Seq<Vec<i64>>)
    requires
        forall|a: int, b: int| 0 <= a < rows.len() && 0 <= b < rows[a]@.len() ==> #[trigger] rows[a]@[b] >= 0,
    ensures
        tokens(int_lines(rows)) == value_tokens(rows),
    decreases rows.len(),
{
    if rows.len() == 0 {
        assert(tokens(int_lines(rows)) =~= value_tokens(rows));
    } else {
        let dl = rows.drop_last();
        assert forall|a: int, b: int| 0 <= a < dl.len() && 0 <= b < dl[a]@.len() implies #[trigger] dl[a]@[b] >= 0 by {
            assert(dl[a] == rows[a]);
        }
        lemma_int_lines_tokens(dl);
        let row = rows.last()@;
        assert forall|b: int| 0 <= b < row.len() implies #[trigger] row[b] >= 0 by {
            assert(rows[rows.len() - 1]@[b] >= 0);
        }
        lemma_joined_tokens(row);
        let j = joined(row);
        let b = j + seq!['\n'];
        assert(b =~= j.push('\n'));
        assert(b.drop_last() =~= j);
        assert(tokens(b) == tokens(j));
        if dl.len() > 0 {
            let p = int_lines(dl.drop_last()) + joined(dl.last()@);
            assert(int_lines(dl) == p + seq!['\n']);
            assert((p + seq!['\n']).last() == '\n');
        }
        lemma_tokens_concat(int_lines(dl), b);
        assert(int_lines(rows) =~= int_lines(dl) + b);
    }
}

proof fn lemma_value_index(rows: Seq<Vec<i64>>, n: int)
    requires
        n >= 0,
        forall|a: int| 0 <= a < rows.len() ==> (#[trigger] rows[a])@.len() == n,
    ensures
        value_tokens(rows).len() == rows.len() * n,
        forall|a: int, b: int| 0 <= a < rows.len() && 0 <= b < n ==>
            value_tokens(rows)[a * n + b] == int_text(#[trigger] rows[a]@[b] as int),
    decreases rows.len(),
{
    if rows.len() > 0 {
        let dl = rows.drop_last();
        let m = dl.len();
        assert forall|a: int| 0 <= a < dl.len() implies (#[trigger] dl[a])@.len() == n by {
            assert(dl[a] == rows[a]);
        }
        lemma_value_index(dl, n);
        assert(rows.len() * n == m * n + n) by (nonlinear_arith)
            requires rows.len() == m + 1;
        let last = rows.last()@;
        assert(last.len() == n);
        assert forall|a: int, b: int| 0 <= a < rows.len() && 0 <= b < n implies
            value_tokens(rows)[a * n + b] == int_text(#[trigger] rows[a]@[b] as int) by {
            if a < m {
                assert(a * n + b < m * n) by (nonlinear_arith)
                    requires a < m, 0 <= b < n, 0 <= a;
                assert(a * n + b >= 0) by (nonlinear_arith)
                    requires 0 <= a, 0 <= b, n >= 0;
                assert(dl[a] == rows[a]);
            } else {
                assert(a * n + b - m * n == b) by (nonlinear_arith)
                    requires a == m;
            }
        }
    }
}

/// Reading the text of a well-formed instance gives back that instance: its tokens
/// are well shaped, they read as the instance, and as no other.
pub proof fn lemma_round_trip(x: Input)
    requires
        x.wf(),
    ensures
        well_shaped(tokens(x.text())),
        read_as(x, tokens(x.text())),
        forall|y: Input| y.wf() && read_as(y, tokens(x.text())) ==> same_instance(x, y),
{
    let n = x.N as int;
    lemma_int_token_dec(x.N as nat);
    let w = dec(x.N as nat);
    lemma_tokens_word(w);
    let a1 = w + seq!['\n'];
    assert(a1 =~= w.push('\n'));
    assert(a1.drop_last() =~= w);
    assert(tokens(a1) == seq![w]);
    assert forall|a: int| 0 <= a < x.h@.len() implies binary_token((#[trigger] x.h@[a])@, n) by {
        assert forall|k: int| 0 <= k < n implies ((#[trigger] x.h@[a]@[k]) == '0' || x.h@[a]@[k] == '1') by {}
    }
    assert forall|a: int| 0 <= a < x.v@.len() implies binary_token((#[trigger] x.v@[a])@, n - 1) by {
        assert forall|k: int| 0 <= k < n - 1 implies ((#[trigger] x.v@[a]@[k]) == '0' || x.v@[a]@[k] == '1') by {}
    }
    lemma_char_lines_tokens(x.h@, n);
    lemma_char_lines_tokens(x.v@, n - 1);
    assert forall|a: int, b: int| 0 <= a < x.d@.len() && 0 <= b < x.d@[a]@.len() implies #[trigger] x.d@[a]@[b] >= 0 by {}
    lemma_int_lines_tokens(x.d@);
    lemma_value_index(x.d@, n);
    let ch = char_lines(x.h@);
    let cv = char_lines(x.v@);
    lemma_tokens_concat(a1, ch);
    let a2 = a1 + ch;
    assert(a2.last() == '\n' || is_ws(a2.last())) by {
        if ch.len() == 0 {
            assert(a2 =~= a1);
        } else {
            assert(a2.last() == ch.last());
        }
    }
    lemma_tokens_concat(a2, cv);
    let a3 = a2 + cv;
    assert(is_ws(a3.last())) by {
        if cv.len() == 0 {
            assert(a3 =~= a2);
        } else {
            assert(a3.last() == cv.last());
        }
    }
    lemma_tokens_concat(a3, int_lines(x.d@));
    assert(x.text() =~= a3 + int_lines(x.d@));
    let ts = tokens(x.text());
    let vt = value_tokens(x.d@);
    assert(ts =~= seq![w] + views(x.h@) + views(x.v@) + vt);
    assert(n * n + 2 * n == 1 + (n - 1) + n + n * n);
    assert(ts[0] == w);
    assert forall|i: int| 0 <= i < n - 1 implies ts[1 + i] == (#[trigger] x.h@[i])@ by {
        assert(ts[1 + i] == views(x.h@)[i]);
    }
    assert forall|i: int| 0 <= i < n implies ts[n + i] == (#[trigger] x.v@[i])@ by {
        assert(ts[n + i] == views(x.v@)[i]);
    }
    assert forall|i: int, j: int| 0 <= i < n && 0 <= j < n implies
        int_token(ts[2 * n + i * n + j]) == Some(#[trigger] x.d@[i]@[j] as int) by {
        assert(0 <= i * n + j < n * n) by (nonlinear_arith)
            requires 0 <= i < n, 0 <= j < n;
        assert(ts[2 * n + i * n + j] == vt[i * n + j]);
        lemma_int_token_dec(x.d@[i]@[j] as nat);
    }
    assert(read_as(x, ts));
    assert forall|i: int| 0 <= i < n - 1 implies binary_token(#[trigger] ts[1 + i], n) by {
        assert(ts[1 + i] == x.h@[i]@);
    }
    assert forall|i: int| 0 <= i < n implies binary_token(#[trigger] ts[n + i], n - 1) by {
        assert(ts[n + i] == x.v@[i]@);
    }
    assert forall|k: int| 0 <= k < n * n implies {
        let t = #[trigger] int_token(ts[2 * n + k]);
        t is Some && t->0 >= 0
    } by {
        let i = k / n;
        let j = k % n;
        assert(k == i * n + j && 0 <= i < n && 0 <= j < n) by (nonlinear_arith)
            requires 0 <= k < n * n, n > 0, i == k / n, j == k % n;
        assert(int_token(ts[2 * n + i * n + j]) == Some(x.d@[i]@[j] as int));
    }
    assert(well_shaped(ts));
    assert forall|y: Input| y.wf() && read_as(y, ts) implies same_instance(x, y) by {
        assert(views(x.h@) =~= views(y.h@));
        assert(views(x.v@) =~= views(y.v@));
        assert forall|i: int| 0 <= i < n implies x.d@[i]@ =~= (#[trigger] y.d@[i])@ by {
            assert forall|j: int| 0 <= j < n implies x.d@[i]@[j] == (#[trigger] y.d@[i]@[j]) by {
                assert(int_token(ts[2 * n + i * n + j]) == Some(y.d@[i]@[j] as int));
                assert(int_token(ts[2 * n + i * n + j]) == Some(x.d@[i]@[j] as int));
            }
        }
        assert(x.d@.map_values(|r: Vec<i64>| r@) =~= y.d@.map_values(|r: Vec<i64>| r@));
    }
}

/// A route: the characters of a submitted answer.
#[derive(Clone, Debug, PartialEq, Eq)]
pub struct Output {
    pub out: Vec<char>,
}

/// Why a route was refused.
#[derive(Clone, Debug, PartialEq, Eq)]
pub enum OutputError {
    /// The trimmed route has more than `MAX_ROUTE_LEN` characters; the number it has.
    TooLong(usize),
}

/// Reads a route: the text without leading and trailing whitespace, refused when
/// longer than `MAX_ROUTE_LEN` characters. The characters are not checked further.
pub fn parse_output(_input: &Input, f: &str) -> (r: Result<Output, OutputError>)
    ensures
        trimmed(f@).len() > MAX_ROUTE_LEN ==> r == Err::<Output, OutputError>(
            OutputError::TooLong(trimmed(f@).len() as usize),
        ),
        trimmed(f@).len() <= MAX_ROUTE_LEN ==> r is Ok && r->Ok_0.out@ == trimmed(f@),
{
    let t = trim_str(f);
    let out = chars_of(t);
    if out.len() > MAX_ROUTE_LEN {
        Err(OutputError::TooLong(out.len()))
    } else {
        Ok(Output { out })
    }
}

} // verus!
