//! Column types and schema inference from a CSV header and sample rows.
use vstd::prelude::*;

use crate::lexer::{ci_match, ci_match_exec, digits_end, is_digit, lemma_digits_end, str_chars};

verus! {

/// The column types of the engine.
#[derive(Debug, Clone, Copy, PartialEq, Eq, Structural)]
pub enum DataType {
    Int64,
    Float64,
    Utf8,
    Boolean,
}

/// Column metadata.
#[derive(Debug, Clone)]
pub struct ColumnDef {
    pub name: String,
    pub data_type: DataType,
}

/// Schema inferred from a CSV file's header + sample values.
#[derive(Debug, Clone)]
pub struct TableSchema {
    pub columns: Vec<ColumnDef>,
}

pub struct SpecColumnDef {
    pub name: Seq<char>,
    pub data_type: DataType,
}

impl View for ColumnDef {
    type V = SpecColumnDef;

    open spec fn view(&self) -> SpecColumnDef {
        SpecColumnDef { name: self.name@, data_type: self.data_type }
    }
}

impl View for TableSchema {
    type V = Seq<SpecColumnDef>;

    open spec fn view(&self) -> Seq<SpecColumnDef> {
        self.columns@.map_values(|c: ColumnDef| c@)
    }
}

impl ColumnDef {
    pub fn copy(&self) -> (r: ColumnDef)
        ensures
            r@ == self@,
    {
        ColumnDef { name: self.name.clone(), data_type: self.data_type }
    }
}

impl TableSchema {
    pub fn copy(&self) -> (r: TableSchema)
        ensures
            r@ == self@,
    {
        let mut cols: Vec<ColumnDef> = Vec::new();
        let mut i: usize = 0;
        while i < self.columns.len()
            invariant
                i <= self.columns@.len(),
                cols@.len() == i,
                forall|k: int| 0 <= k < i ==> cols@[k]@ == self.columns@[k]@,
            decreases self.columns@.len() - i,
        {
            cols.push(self.columns[i].copy());
            i = i + 1;
        }
        let r = TableSchema { columns: cols };
        assert(r@ =~= self@);
        r
    }
}

// ── What std's parsers accept ────────────────────────────────────────────────

/// `s` is `"true"` or `"false"` in any mix of ASCII case.
pub open spec fn spec_is_bool_str(s: Seq<char>) -> bool {
    ci_match(s, "TRUE"@) || ci_match(s, "FALSE"@)
}

pub open spec fn all_digits(s: Seq<char>) -> bool {
    forall|k: int| 0 <= k < s.len() ==> is_digit(#[trigger] s[k])
}

pub open spec fn is_sign(c: char) -> bool {
    c == '+' || c == '-'
}

/// The value of a string of decimal digits.
pub open spec fn dec_value(d: Seq<char>) -> int
    decreases d.len(),
{
    if d.len() == 0 {
        0
    } else {
        dec_value(d.drop_last()) * 10 + (d.last() as int - '0' as int)
    }
}

/// The integer that `s` denotes under std's `i64` parser (an optional
/// sign and at least one digit), if it denotes one at all.
pub open spec fn spec_int_of(s: Seq<char>) -> Option<int> {
    if s.len() > 0 && is_sign(s[0]) {
        let d = s.skip(1);
        if d.len() > 0 && all_digits(d) {
            Some(if s[0] == '-' { -dec_value(d) } else { dec_value(d) })
        } else {
            None
        }
    } else if s.len() > 0 && all_digits(s) {
        Some(dec_value(s))
    } else {
        None
    }
}

/// std's `i64` parser accepts `s`.
pub open spec fn spec_is_i64_str(s: Seq<char>) -> bool {
    match spec_int_of(s) {
        Some(v) => i64::MIN <= v <= i64::MAX,
        None => false,
    }
}

/// `e` is an exponent: `e` or `E`, an optional sign, at least one digit.
pub open spec fn is_exp(e: Seq<char>) -> bool {
    e.len() >= 2 && (e[0] == 'e' || e[0] == 'E') && {
        let r = if is_sign(e[1]) { e.skip(2) } else { e.skip(1) };
        r.len() > 0 && all_digits(r)
    }
}

/// `n` is a decimal number: digits, an optional `.` and digits (at least
/// one digit in all), then an optional exponent.
pub open spec fn is_number(n: Seq<char>) -> bool {
    let p = digits_end(n, 0);
    if p < n.len() && n[p] == '.' {
        let q = digits_end(n, p + 1);
        (p > 0 || q > p + 1) && (q == n.len() || is_exp(n.skip(q)))
    } else {
        p > 0 && (p == n.len() || is_exp(n.skip(p)))
    }
}

/// std's `f64` parser accepts `s` (its documented grammar: an optional
/// sign, then `inf`, `infinity`, `nan` in any case, or a decimal number).
pub open spec fn spec_is_f64_str(s: Seq<char>) -> bool {
    let b = if s.len() > 0 && is_sign(s[0]) { s.skip(1) } else { s };
    ci_match(b, "INF"@) || ci_match(b, "INFINITY"@) || ci_match(b, "NAN"@) || is_number(b)
}

/// Whether `s` is `"true"` or `"false"`, ignoring ASCII case.
pub fn is_strict_bool_str(s: &str) -> (b: bool)
    ensures
        b == spec_is_bool_str(s@),
{
    let cs = str_chars(s);
    let n = cs.len();
    assert(cs@.subrange(0, n as int) =~= s@);
    ci_match_exec(&cs, 0, n, "TRUE") || ci_match_exec(&cs, 0, n, "FALSE")
}

fn digits_run(cs: &Vec<char>, i: usize) -> (j: usize)
    requires
        i <= cs@.len(),
    ensures
        i <= j <= cs@.len(),
        all_digits(cs@.subrange(i as int, j as int)),
        j < cs@.len() ==> !is_digit(cs@[j as int]),
{
    let mut j = i;
    while j < cs.len() && '0' <= cs[j] && cs[j] <= '9'
        invariant
            i <= j <= cs@.len(),
            all_digits(cs@.subrange(i as int, j as int)),
        decreases cs@.len() - j,
    {
        j = j + 1;
        assert(cs@.subrange(i as int, j as int).drop_last() =~= cs@.subrange(i as int, j - 1));
    }
    j
}

pub proof fn lemma_dec_value_bound(d: Seq<char>)
    requires
        all_digits(d),
    ensures
        0 <= dec_value(d),
    decreases d.len(),
{
    if d.len() > 0 {
        assert(all_digits(d.drop_last()));
        lemma_dec_value_bound(d.drop_last());
    }
}

pub proof fn lemma_dec_value_prefix(d: Seq<char>, k: int)
    requires
        0 <= k <= d.len(),
        all_digits(d),
    ensures
        dec_value(d.take(k)) <= dec_value(d),
    decreases d.len() - k,
{
    if k < d.len() {
        lemma_dec_value_prefix(d, k + 1);
        assert(d.take(k + 1).drop_last() =~= d.take(k));
        assert(all_digits(d.take(k)));
        lemma_dec_value_bound(d.take(k));
    } else {
        assert(d.take(k) =~= d);
    }
}

/// The value of `s` under std's `i64` parser, if it accepts `s`.
pub fn parse_i64(s: &str) -> (r: Option<i64>)
    ensures
        r == (if spec_is_i64_str(s@) {
            Some(spec_int_of(s@).unwrap() as i64)
        } else {
            None
        }),
{
    let cs = str_chars(s);
    let n = cs.len();
    if n == 0 {
        return None;
    }
    let signed = cs[0] == '+' || cs[0] == '-';
    let neg = cs[0] == '-';
    let start: usize = if signed { 1 } else { 0 };
    let ghost d = s@.skip(start as int);
    assert(d =~= cs@.subrange(start as int, n as int));
    assert(s@.skip(0) =~= s@);
    if start == n {
        return None;
    }
    // the magnitude may reach 2^63 for a negative number
    let bound: u64 = if neg { 9223372036854775808u64 } else { 9223372036854775807u64 };
    let mut v: u64 = 0;
    let mut k: usize = start;
    while k < n
        invariant
            n == cs@.len(),
            cs@ == s@,
            start <= k <= n,
            start < n,
            d == cs@.subrange(start as int, n as int),
            all_digits(d.take(k - start)),
            v == dec_value(d.take(k - start)),
            v <= bound,
            bound >= 9,
            signed == (s@.len() > 0 && is_sign(s@[0])),
            signed ==> start == 1 && d == s@.skip(1),
            !signed ==> start == 0 && d == s@,
            neg == (s@[0] == '-'),
            neg ==> signed,
            bound == if neg { 9223372036854775808u64 } else { 9223372036854775807u64 },
        decreases n - k,
    {
        let c = cs[k];
        if !('0' <= c && c <= '9') {
            proof {
                assert(d[k - start] == c);
                assert(!is_digit(d[k - start]));
                assert(!all_digits(d));
            }
            return None;
        }
        let dig: u64 = (c as u32 - '0' as u32) as u64;
        proof {
            assert(d.take(k - start + 1).drop_last() =~= d.take(k - start));
            assert(d.take(k - start + 1).last() == c);
            assert(dec_value(d.take(k - start + 1)) == v * 10 + dig);
            assert(all_digits(d.take(k - start + 1)));
        }
        if v > (bound - dig) / 10 {
            proof {
                assert(v * 10 + dig > bound) by (nonlinear_arith)
                    requires
                        v > (bound - dig) / 10,
                        dig <= 9,
                        dig <= bound,
                ;
                // the rest of the text either is not all digits or has a larger value
                if all_digits(d) {
                    lemma_dec_value_prefix(d, k - start + 1);
                }
            }
            return None;
        }
        proof {
            assert(v * 10 + dig <= bound) by (nonlinear_arith)
                requires
                    v <= (bound - dig) / 10,
                    dig <= bound,
            ;
        }
        v = v * 10 + dig;
        k = k + 1;
    }
    proof {
        assert(d.take(n - start) =~= d);
    }
    if neg {
        if v == 9223372036854775808u64 {
            Some(-9223372036854775808i64)
        } else {
            Some(-(v as i64))
        }
    } else {
        Some(v as i64)
    }
}

/// Whether std's `i64` parser accepts `s`.
pub fn is_i64_str(s: &str) -> (b: bool)
    ensures
        b == spec_is_i64_str(s@),
{
    parse_i64(s).is_some()
}


fn scan_digits_from(cs: &Vec<char>, i: usize) -> (j: usize)
    requires
        i <= cs@.len(),
    ensures
        j == digits_end(cs@, i as int),
{
    let mut j = i;
    while j < cs.len() && '0' <= cs[j] && cs[j] <= '9'
        invariant
            i <= j <= cs@.len(),
            digits_end(cs@, i as int) == digits_end(cs@, j as int),
        decreases cs@.len() - j,
    {
        j = j + 1;
    }
    j
}

/// Whether `cs[i..]` is an exponent.
fn exp_at(cs: &Vec<char>, i: usize) -> (b: bool)
    requires
        i <= cs@.len(),
    ensures
        b == is_exp(cs@.skip(i as int)),
{
    let n = cs.len();
    let ghost e = cs@.skip(i as int);
    if n - i < 2 || !(cs[i] == 'e' || cs[i] == 'E') {
        return false;
    }
    let st: usize = if cs[i + 1] == '+' || cs[i + 1] == '-' { i + 2 } else { i + 1 };
    assert(e.skip((st - i) as int) =~= cs@.skip(st as int));
    if st == n {
        return false;
    }
    let j = digits_run(cs, st);
    proof {
        assert(cs@.skip(st as int) =~= cs@.subrange(st as int, n as int));
        if j < n {
            assert(cs@.skip(st as int)[j - st] == cs@[j as int]);
        } else {
            assert(cs@.subrange(st as int, j as int) =~= cs@.skip(st as int));
        }
    }
    j == n
}

/// Whether `cs[i..]` is a decimal number.
fn number_at(cs: &Vec<char>, i: usize) -> (b: bool)
    requires
        i <= cs@.len(),
    ensures
        b == is_number(cs@.skip(i as int)),
{
    let ghost m = cs@.skip(i as int);
    let n = cs.len();
    let p = scan_digits_from(cs, i);
    proof {
        lemma_digits_end(cs@, i as int);
        lemma_digits_shift(cs@, i as int, i as int);
    }
    if p < n && cs[p] == '.' {
        let q = scan_digits_from(cs, p + 1);
        proof {
            lemma_digits_end(cs@, p + 1);
            lemma_digits_shift(cs@, i as int, p + 1);
            assert(m.skip(q - i) =~= cs@.skip(q as int));
        }
        (p > i || q > p + 1) && (q == n || exp_at(cs, q))
    } else {
        proof {
            assert(m.skip(p - i) =~= cs@.skip(p as int));
        }
        p > i && (p == n || exp_at(cs, p))
    }
}

/// `digits_end` read on a suffix is `digits_end` on the whole, shifted.
proof fn lemma_digits_shift(s: Seq<char>, i: int, k: int)
    requires
        0 <= i <= k <= s.len(),
    ensures
        digits_end(s.skip(i), k - i) == digits_end(s, k) - i,
    decreases s.len() - k,
{
    if k < s.len() && is_digit(s[k]) {
        lemma_digits_shift(s, i, k + 1);
    }
}

/// Whether std's `f64` parser accepts `s` (its documented grammar).
pub fn is_f64_str(s: &str) -> (b: bool)
    ensures
        b == spec_is_f64_str(s@),
{
    let cs = str_chars(s);
    let n = cs.len();
    let start: usize = if n > 0 && (cs[0] == '+' || cs[0] == '-') { 1 } else { 0 };
    let ghost body = if s@.len() > 0 && is_sign(s@[0]) { s@.skip(1) } else { s@ };
    assert(body =~= cs@.subrange(start as int, n as int));
    assert(cs@.skip(start as int) =~= body);
    ci_match_exec(&cs, start, n, "INF") || ci_match_exec(&cs, start, n, "INFINITY") || ci_match_exec(
        &cs,
        start,
        n,
        "NAN",
    ) || number_at(&cs, start)
}


/// The number of data rows that schema inference looks at.
pub const SAMPLE_ROWS: usize = 100;

/// Row `r` has a non-empty value in column `c`.
pub open spec fn has_value(rows: Seq<Vec<String>>, r: int, c: int) -> bool {
    0 <= c < rows[r]@.len() && rows[r]@[c]@.len() > 0
}

/// Every non-empty value of column `c` in the first `n` rows satisfies `p`.
pub open spec fn all_values(rows: Seq<Vec<String>>, n: int, c: int, p: spec_fn(Seq<char>) -> bool) -> bool {
    forall|r: int| 0 <= r < n && #[trigger] has_value(rows, r, c) ==> p(rows[r]@[c]@)
}

/// The type of column `c`, judged from the first `n` rows: no non-empty
/// value gives `Utf8`; otherwise the first of `Boolean`, `Int64`, `Float64`
/// that every non-empty value parses as, or `Utf8`.
pub open spec fn spec_column_type(rows: Seq<Vec<String>>, n: int, c: int) -> DataType {
    if !(exists|r: int| 0 <= r < n && #[trigger] has_value(rows, r, c)) {
        DataType::Utf8
    } else if all_values(rows, n, c, |v: Seq<char>| spec_is_bool_str(v)) {
        DataType::Boolean
    } else if all_values(rows, n, c, |v: Seq<char>| spec_is_i64_str(v)) {
        DataType::Int64
    } else if all_values(rows, n, c, |v: Seq<char>| spec_is_f64_str(v)) {
        DataType::Float64
    } else {
        DataType::Utf8
    }
}

/// Infers the type of column `col_idx` from the sample rows.
pub fn infer_column_type(samples: &Vec<Vec<String>>, col_idx: usize) -> (t: DataType)
    ensures
        t == spec_column_type(samples@, samples@.len() as int, col_idx as int),
{
    column_type_of_first(samples, samples.len(), col_idx)
}

fn column_type_of_first(samples: &Vec<Vec<String>>, n: usize, col_idx: usize) -> (t: DataType)
    requires
        n <= samples@.len(),
    ensures
        t == spec_column_type(samples@, n as int, col_idx as int),
{
    let mut can_be_int = true;
    let mut can_be_float = true;
    let mut can_be_bool = true;
    let mut has_non_empty = false;
    let ghost rows = samples@;
    let mut r: usize = 0;
    while r < n
        invariant
            rows == samples@,
            r <= n,
            n <= rows.len(),
            has_non_empty == exists|q: int| 0 <= q < r && #[trigger] has_value(rows, q, col_idx as int),
            can_be_bool == all_values(rows, r as int, col_idx as int, |v: Seq<char>| spec_is_bool_str(v)),
            can_be_int == all_values(rows, r as int, col_idx as int, |v: Seq<char>| spec_is_i64_str(v)),
            can_be_float == all_values(rows, r as int, col_idx as int, |v: Seq<char>| spec_is_f64_str(v)),
        decreases n - r,
    {
        let row = &samples[r];
        if col_idx < row.len() {
            let val = row[col_idx].as_str();
            let n = val.unicode_len();
            if n > 0 {
                assert(has_value(rows, r as int, col_idx as int));
                has_non_empty = true;
                if can_be_bool && !is_strict_bool_str(val) {
                    can_be_bool = false;
                }
                if can_be_int && !is_i64_str(val) {
                    can_be_int = false;
                }
                if can_be_float && !is_f64_str(val) {
                    can_be_float = false;
                }
            }
        }
        r = r + 1;
    }
    if !has_non_empty {
        DataType::Utf8
    } else if can_be_bool {
        DataType::Boolean
    } else if can_be_int {
        DataType::Int64
    } else if can_be_float {
        DataType::Float64
    } else {
        DataType::Utf8
    }
}

/// The schema of a table with these header names, each column typed by
/// `spec_column_type` over the first `SAMPLE_ROWS` data rows.
pub open spec fn spec_infer_schema(headers: Seq<String>, rows: Seq<Vec<String>>) -> Seq<SpecColumnDef> {
    let n = if rows.len() < SAMPLE_ROWS { rows.len() as int } else { SAMPLE_ROWS as int };
    Seq::new(
        headers.len(),
        |c: int| SpecColumnDef { name: headers[c]@, data_type: spec_column_type(rows, n, c) },
    )
}

/// Infers the schema of a CSV table from its header row and its data rows
/// (of which it reads the first `SAMPLE_ROWS`).  Type priority: Boolean,
/// Int64, Float64, Utf8.
pub fn infer_schema(headers: &Vec<String>, rows: &Vec<Vec<String>>) -> (s: TableSchema)
    ensures
        s@ == spec_infer_schema(headers@, rows@),
{
    let n = if rows.len() < SAMPLE_ROWS { rows.len() } else { SAMPLE_ROWS };
    let mut columns: Vec<ColumnDef> = Vec::new();
    let mut c: usize = 0;
    while c < headers.len()
        invariant
            n <= rows@.len(),
            n == if rows@.len() < SAMPLE_ROWS { rows@.len() as int } else { SAMPLE_ROWS as int },
            c <= headers@.len(),
            columns@.len() == c,
            forall|k: int| 0 <= k < c ==> (#[trigger] columns@[k])@ == spec_infer_schema(headers@, rows@)[k],
        decreases headers@.len() - c,
    {
        let t = column_type_of_first(rows, n, c);
        columns.push(ColumnDef { name: headers[c].clone(), data_type: t });
        c = c + 1;
    }
    let s = TableSchema { columns };
    assert(s@ =~= spec_infer_schema(headers@, rows@));
    s
}

} // verus!
