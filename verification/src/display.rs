//! The text table in which query results are shown.
use vstd::prelude::*;

use crate::batch::{Scalar, SpecScalar};
use crate::fmt::{int_text, int_to_string, push_str};
use crate::lexer::{push_char, str_chars};

verus! {

/// The number of bytes that UTF-8 takes for a character.
pub open spec fn utf8_width(c: char) -> nat {
    if (c as u32) < 0x80 {
        1
    } else if (c as u32) < 0x800 {
        2
    } else if (c as u32) < 0x10000 {
        3
    } else {
        4
    }
}

/// The number of bytes of a text in UTF-8 (what `str::len` gives).
pub open spec fn utf8_len(s: Seq<char>) -> nat
    decreases s.len(),
{
    if s.len() == 0 {
        0
    } else {
        utf8_len(s.drop_last()) + utf8_width(s.last())
    }
}

/// The text of a cell, where the library writes it: `NULL`, an integer in
/// decimal, `true` / `false`, a string as it is.  Doubles and ratios are
/// written by the caller (four decimals).
pub open spec fn spec_format_value(c: SpecScalar) -> Option<Seq<char>> {
    match c {
        SpecScalar::Null => Some("NULL"@),
        SpecScalar::Int(i) => Some(int_text(i as int)),
        SpecScalar::Bool(b) => Some(
            if b {
                "true"@
            } else {
                "false"@
            },
        ),
        SpecScalar::Str(s) => Some(s),
        _ => None,
    }
}

/// The text of a cell (see `spec_format_value`).
pub fn format_value(c: &Scalar) -> (r: Option<String>)
    ensures
        match (r, spec_format_value(c@)) {
            (Some(s), Some(t)) => s@ == t,
            (None, None) => true,
            _ => false,
        },
{
    proof {
        reveal_strlit("NULL");
        reveal_strlit("true");
        reveal_strlit("false");
    }
    match c {
        Scalar::Null => {
            let mut s = String::new();
            push_str(&mut s, "NULL");
            assert(s@ =~= "NULL"@);
            Some(s)
        },
        Scalar::Int(i) => Some(int_to_string(*i as i128)),
        Scalar::Bool(b) => {
            let mut s = String::new();
            if *b {
                push_str(&mut s, "true");
                assert(s@ =~= "true"@);
            } else {
                push_str(&mut s, "false");
                assert(s@ =~= "false"@);
            }
            Some(s)
        },
        Scalar::Str(t) => Some(t.clone()),
        _ => None,
    }
}

pub open spec fn max_nat(a: nat, b: nat) -> nat {
    if a >= b {
        a
    } else {
        b
    }
}

/// The width of a column: the byte length of its longest text, header included.
pub open spec fn column_width(header: Seq<char>, cells: Seq<Seq<char>>) -> nat
    decreases cells.len(),
{
    if cells.len() == 0 {
        utf8_len(header)
    } else {
        max_nat(column_width(header, cells.drop_last()), utf8_len(cells.last()))
    }
}

/// A text padded with spaces on the right to `w` characters.
pub open spec fn pad_right(s: Seq<char>, w: nat) -> Seq<char> {
    if s.len() >= w {
        s
    } else {
        s + Seq::new((w - s.len()) as nat, |i: int| ' ')
    }
}

/// Texts joined by a separator.
pub open spec fn join_with(v: Seq<Seq<char>>, sep: Seq<char>) -> Seq<char>
    decreases v.len(),
{
    if v.len() == 0 {
        Seq::empty()
    } else if v.len() == 1 {
        v[0]
    } else {
        join_with(v.drop_last(), sep) + sep + v.last()
    }
}

/// The widths of the columns.
pub open spec fn widths(header: Seq<Seq<char>>, cols: Seq<Seq<Seq<char>>>) -> Seq<nat> {
    Seq::new(header.len(), |i: int| column_width(header[i], cols[i]))
}

/// A line of texts, each padded to its column's width, separated by ` | `.
pub open spec fn row_line(cells: Seq<Seq<char>>, w: Seq<nat>) -> Seq<char> {
    join_with(Seq::new(w.len(), |i: int| pad_right(cells[i], w[i])), " | "@)
}

/// The rule under the header: `-` across each column, joined by `-+-`.
pub open spec fn rule_line(w: Seq<nat>) -> Seq<char> {
    join_with(Seq::new(w.len(), |i: int| Seq::new(w[i], |k: int| '-')), "-+-"@)
}

/// The texts of row `r`.
pub open spec fn row_cells(cols: Seq<Seq<Seq<char>>>, r: int) -> Seq<Seq<char>> {
    Seq::new(cols.len(), |i: int| cols[i][r])
}

/// The lines of the table of `header` names and the columns' cell texts:
/// the header, a rule of `-` under each column, then one line per row;
/// columns are as wide as their widest text and separated by ` | `.
pub open spec fn table_lines(header: Seq<Seq<char>>, cols: Seq<Seq<Seq<char>>>, n: nat) -> Seq<Seq<char>> {
    Seq::new(
        n + 2,
        |i: int|
            if i == 0 {
                row_line(header, widths(header, cols))
            } else if i == 1 {
                rule_line(widths(header, cols))
            } else {
                row_line(row_cells(cols, i - 2), widths(header, cols))
            },
    )
}

fn char_width_exec(c: char) -> (w: u128)
    ensures
        w == utf8_width(c),
{
    let v = c as u32;
    if v < 0x80 {
        1
    } else if v < 0x800 {
        2
    } else if v < 0x10000 {
        3
    } else {
        4
    }
}

/// The number of bytes of a text in UTF-8.
fn utf8_len_exec(s: &String) -> (n: u128)
    ensures
        n == utf8_len(s@),
{
    let cs = str_chars(s.as_str());
    let mut n: u128 = 0;
    let mut k: usize = 0;
    while k < cs.len()
        invariant
            cs@ == s@,
            k <= cs@.len(),
            n == utf8_len(cs@.take(k as int)),
            n <= 4 * k,
        decreases cs@.len() - k,
    {
        assert(cs@.take(k + 1).drop_last() =~= cs@.take(k as int));
        n = n + char_width_exec(cs[k]);
        k = k + 1;
    }
    assert(cs@.take(k as int) =~= cs@);
    n
}

pub open spec fn texts_of(v: Seq<String>) -> Seq<Seq<char>> {
    v.map_values(|s: String| s@)
}

fn push_padded(out: &mut String, s: &String, w: u128)
    ensures
        final(out)@ == old(out)@ + pad_right(s@, w as nat),
{
    let n = s.unicode_len() as u128;
    push_str(out, s.as_str());
    if n < w {
        let ghost mid = out@;
        let mut k: u128 = n;
        while k < w
            invariant
                n <= k <= w,
                out@ == mid + Seq::new((k - n) as nat, |i: int| ' '),
            decreases w - k,
        {
            push_char(out, ' ');
            k = k + 1;
            assert(out@ =~= mid + Seq::new((k - n) as nat, |i: int| ' '));
        }
    }
}

/// The lines of a table (see `table_lines`); `cols[i][r]` is the text of
/// column `i` in row `r`.
pub fn render_table(header: &Vec<String>, cols: &Vec<Vec<String>>, n: usize) -> (lines: Vec<String>)
    requires
        cols@.len() == header@.len(),
        forall|i: int| 0 <= i < cols@.len() ==> (#[trigger] cols@[i])@.len() == n,
    ensures
        texts_of(lines@) == table_lines(
            texts_of(header@),
            cols@.map_values(|c: Vec<String>| texts_of(c@)),
            n as nat,
        ),
{
    let ghost hv = texts_of(header@);
    let ghost cv = cols@.map_values(|c: Vec<String>| texts_of(c@));
    // the widths
    let mut w: Vec<u128> = Vec::new();
    let mut i: usize = 0;
    while i < header.len()
        invariant
            hv == texts_of(header@),
            cv == cols@.map_values(|c: Vec<String>| texts_of(c@)),
            cols@.len() == header@.len(),
            forall|q: int| 0 <= q < cols@.len() ==> (#[trigger] cols@[q])@.len() == n,
            i <= header@.len(),
            w@.len() == i,
            forall|q: int| 0 <= q < i ==> #[trigger] w@[q] == column_width(hv[q], cv[q]),
        decreases header@.len() - i,
    {
        let mut m = utf8_len_exec(&header[i]);
        let col = &cols[i];
        let mut r: usize = 0;
        assert(cv[i as int] == texts_of(col@));
        assert(cv[i as int].take(0) =~= Seq::<Seq<char>>::empty());
        assert(hv[i as int] == header@[i as int]@);
        while r < col.len()
            invariant
                hv == texts_of(header@),
                cv == cols@.map_values(|c: Vec<String>| texts_of(c@)),
                cols@.len() == header@.len(),
                i < header@.len(),
                cv[i as int] == texts_of(col@),
                r <= col@.len(),
                m == column_width(hv[i as int], cv[i as int].take(r as int)),
            decreases col@.len() - r,
        {
            assert(cv[i as int].take(r + 1).drop_last() =~= cv[i as int].take(r as int));
            assert(cv[i as int][r as int] == col@[r as int]@);
            let l = utf8_len_exec(&col[r]);
            if l > m {
                m = l;
            }
            r = r + 1;
        }
        assert(cv[i as int].take(r as int) =~= cv[i as int]);
        w.push(m);
        i = i + 1;
    }
    let ghost wv = widths(hv, cv);
    assert(w@.map_values(|x: u128| x as nat) =~= wv);
    let mut lines: Vec<String> = Vec::new();
    // the header
    let mut h = String::new();
    let mut k: usize = 0;
    while k < header.len()
        invariant
            hv == texts_of(header@),
            w@.len() == header@.len(),
            forall|q: int| 0 <= q < w@.len() ==> #[trigger] w@[q] == wv[q],
            wv.len() == hv.len(),
            k <= header@.len(),
            h@ == join_with(Seq::new(k as nat, |q: int| pad_right(hv[q], wv[q])), " | "@),
        decreases header@.len() - k,
    {
        if k > 0 {
            push_str(&mut h, " | ");
        }
        assert(hv[k as int] == header@[k as int]@);
        push_padded(&mut h, &header[k], w[k]);
        k = k + 1;
        assert(Seq::new(k as nat, |q: int| pad_right(hv[q], wv[q])).drop_last() =~= Seq::new(
            (k - 1) as nat,
            |q: int| pad_right(hv[q], wv[q]),
        ));
        assert(h@ =~= join_with(Seq::new(k as nat, |q: int| pad_right(hv[q], wv[q])), " | "@));
    }
    assert(Seq::new(k as nat, |q: int| pad_right(hv[q], wv[q])) =~= Seq::new(wv.len(), |i: int| pad_right(hv[i], wv[i])));
    assert(h@ == row_line(hv, wv));
    lines.push(h);
    // the rule
    let mut s = String::new();
    let mut k: usize = 0;
    while k < header.len()
        invariant
            w@.len() == header@.len(),
            forall|q: int| 0 <= q < w@.len() ==> #[trigger] w@[q] == wv[q],
            wv.len() == header@.len(),
            k <= header@.len(),
            s@ == join_with(Seq::new(k as nat, |q: int| Seq::new(wv[q], |p: int| '-')), "-+-"@),
        decreases header@.len() - k,
    {
        if k > 0 {
            push_str(&mut s, "-+-");
        }
        let ghost mid = s@;
        let mut d: u128 = 0;
        while d < w[k]
            invariant
                k < w@.len(),
                d <= w@[k as int],
                s@ == mid + Seq::new(d as nat, |p: int| '-'),
            decreases w@[k as int] - d,
        {
            push_char(&mut s, '-');
            d = d + 1;
            assert(s@ =~= mid + Seq::new(d as nat, |p: int| '-'));
        }
        k = k + 1;
        assert(Seq::new(k as nat, |q: int| Seq::new(wv[q], |p: int| '-')).drop_last() =~= Seq::new(
            (k - 1) as nat,
            |q: int| Seq::new(wv[q], |p: int| '-'),
        ));
        assert(s@ =~= join_with(Seq::new(k as nat, |q: int| Seq::new(wv[q], |p: int| '-')), "-+-"@));
    }
    assert(Seq::new(k as nat, |q: int| Seq::new(wv[q], |p: int| '-')) =~= Seq::new(wv.len(), |i: int| Seq::new(wv[i], |p: int| '-')));
    assert(s@ == rule_line(wv));
    lines.push(s);
    assert(texts_of(lines@) =~= table_lines(hv, cv, n as nat).take(2)) by {
        let t = table_lines(hv, cv, n as nat);
        assert(t[0] == row_line(hv, wv));
        assert(t[1] == rule_line(wv));
    }
    // the rows
    let mut r: usize = 0;
    while r < n
        invariant
            hv == texts_of(header@),
            cv == cols@.map_values(|c: Vec<String>| texts_of(c@)),
            cols@.len() == header@.len(),
            forall|q: int| 0 <= q < cols@.len() ==> (#[trigger] cols@[q])@.len() == n,
            w@.len() == header@.len(),
            forall|q: int| 0 <= q < w@.len() ==> #[trigger] w@[q] == wv[q],
            wv.len() == hv.len(),
            wv == widths(hv, cv),
            r <= n,
            lines@.len() == 2 + r,
            texts_of(lines@) == table_lines(hv, cv, n as nat).take(2 + r),
        decreases n - r,
    {
        let mut line = String::new();
        let mut k: usize = 0;
        while k < header.len()
            invariant
                cv == cols@.map_values(|c: Vec<String>| texts_of(c@)),
                cols@.len() == header@.len(),
                forall|q: int| 0 <= q < cols@.len() ==> (#[trigger] cols@[q])@.len() == n,
                w@.len() == header@.len(),
                forall|q: int| 0 <= q < w@.len() ==> #[trigger] w@[q] == wv[q],
                wv.len() == header@.len(),
                wv == widths(hv, cv),
                r < n,
                k <= header@.len(),
                line@ == join_with(Seq::new(k as nat, |q: int| pad_right(cv[q][r as int], wv[q])), " | "@),
            decreases header@.len() - k,
        {
            if k > 0 {
                push_str(&mut line, " | ");
            }
            assert(cols@[k as int]@.len() == n);
            assert(cv[k as int][r as int] == cols@[k as int]@[r as int]@);
            push_padded(&mut line, &cols[k][r], w[k]);
            k = k + 1;
            assert(Seq::new(k as nat, |q: int| pad_right(cv[q][r as int], wv[q])).drop_last() =~= Seq::new(
                (k - 1) as nat,
                |q: int| pad_right(cv[q][r as int], wv[q]),
            ));
            assert(line@ =~= join_with(Seq::new(k as nat, |q: int| pad_right(cv[q][r as int], wv[q])), " | "@));
        }
        let ghost before = texts_of(lines@);
        assert(Seq::new(k as nat, |q: int| pad_right(cv[q][r as int], wv[q])) =~= Seq::new(
            hv.len(),
            |q: int| pad_right(cv[q][r as int], wv[q]),
        ));
        assert(Seq::new(k as nat, |q: int| pad_right(cv[q][r as int], wv[q])) =~= Seq::new(
            wv.len(),
            |i: int| pad_right(row_cells(cv, r as int)[i], wv[i]),
        ));
        assert(line@ == row_line(row_cells(cv, r as int), wv));
        assert(wv == widths(hv, cv));
        assert(2 + r < n + 2);
        assert(table_lines(hv, cv, n as nat)[2 + r] == row_line(row_cells(cv, r as int), widths(hv, cv)));
        assert(table_lines(hv, cv, n as nat)[2 + r] == line@);
        lines.push(line);
        assert(texts_of(lines@) =~= before.push(line@));
        r = r + 1;
        assert(texts_of(lines@) =~= table_lines(hv, cv, n as nat).take(2 + r));
    }
    assert(table_lines(hv, cv, n as nat).take(2 + r) =~= table_lines(hv, cv, n as nat));
    lines
}

} // verus!
