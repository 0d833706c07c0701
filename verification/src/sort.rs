//! ORDER BY: the order of rows, and a stable sort of a batch by it.
use vstd::prelude::*;

use crate::ast::{OrderByItem, SpecOrderByItem};
use crate::agg::{is_nan_bits, is_zero_bits};
use crate::batch::{Batch, Column, ExecError, Field, Scalar, SpecBatch, SpecColumn, SpecField, SpecScalar};
use crate::eval::{find_field, index_of, order_int, order_str, order_strings, sign_bit, total_key};
use crate::lexer::str_chars;

verus! {

// ── Column names ─────────────────────────────────────────────────────────────

/// The position of the last `.` in `s` before position `k`, if any.
pub open spec fn last_dot_before(s: Seq<char>, k: int) -> Option<int>
    decreases k,
{
    if k <= 0 {
        None
    } else if s[k - 1] == '.' {
        Some(k - 1)
    } else {
        last_dot_before(s, k - 1)
    }
}

/// A column name without its table qualifier: the text after the last `.`.
pub open spec fn spec_strip_table_prefix(s: Seq<char>) -> Seq<char> {
    match last_dot_before(s, s.len() as int) {
        Some(i) => s.skip(i + 1),
        None => s,
    }
}

/// `col` without its table qualifier (`"t.price"` gives `"price"`).
pub fn strip_table_prefix(col: &str) -> (r: String)
    ensures
        r@ == spec_strip_table_prefix(col@),
{
    let cs = str_chars(col);
    let n = cs.len();
    let mut k = n;
    while k > 0 && cs[k - 1] != '.'
        invariant
            cs@ == col@,
            n == cs@.len(),
            k <= n,
            last_dot_before(col@, n as int) == last_dot_before(col@, k as int),
        decreases k,
    {
        k = k - 1;
    }
    if k == 0 {
        let r = crate::lexer::string_of(&cs, 0, n);
        assert(cs@.subrange(0, n as int) =~= col@);
        r
    } else {
        let r = crate::lexer::string_of(&cs, k, n);
        assert(cs@.subrange(k as int, n as int) =~= col@.skip(k as int));
        r
    }
}

// ── The order of cells and rows ──────────────────────────────────────────────

/// Cells of different kinds are ordered by kind, nulls last.
pub open spec fn kind_rank(c: SpecScalar) -> int {
    match c {
        SpecScalar::Int(_) => 0,
        SpecScalar::Ratio(_, _) => 1,
        SpecScalar::Float(_) => 2,
        SpecScalar::Calc(_) => 3,
        SpecScalar::Str(_) => 4,
        SpecScalar::Bool(_) => 5,
        SpecScalar::Null => 6,
    }
}

/// The key by which doubles are ordered: IEEE order with -0 equal to +0,
/// and NaN after every number.
pub open spec fn float_key(x: u64) -> int {
    if is_nan_bits(x) {
        0x1_0000_0000_0000_0000
    } else if is_zero_bits(x) {
        sign_bit()
    } else {
        total_key(x)
    }
}

/// A ratio's denominator, read as 1 when it is 0.
pub open spec fn den(d: u64) -> int {
    if d == 0 {
        1
    } else {
        d as int
    }
}

/// Three-way comparison of two cells: integers, ratios and doubles by
/// value, strings by code point, booleans all equal; nulls after everything.
pub open spec fn cell_order(a: SpecScalar, b: SpecScalar) -> int {
    if kind_rank(a) != kind_rank(b) {
        order_int(kind_rank(a), kind_rank(b))
    } else {
        match (a, b) {
            (SpecScalar::Int(x), SpecScalar::Int(y)) => order_int(x as int, y as int),
            (SpecScalar::Ratio(n, d), SpecScalar::Ratio(m, e)) => order_int(n * den(e), m * den(d)),
            (SpecScalar::Float(x), SpecScalar::Float(y)) => order_int(float_key(x), float_key(y)),
            (SpecScalar::Str(x), SpecScalar::Str(y)) => order_str(x, y),
            _ => 0,
        }
    }
}

/// Three-way comparison of rows `a` and `b` by the sort keys (column,
/// ascending) in turn: the first key that tells them apart decides; a
/// descending key reverses its cells' order, nulls included.
pub open spec fn row_order(cols: Seq<SpecColumn>, keys: Seq<(int, bool)>, a: int, b: int) -> int
    decreases keys.len(),
{
    if keys.len() == 0 {
        0
    } else {
        let c = cols[keys[0].0].values;
        let o = cell_order(c[a], c[b]);
        let o2 = if keys[0].1 {
            o
        } else {
            -o
        };
        if o2 != 0 {
            o2
        } else {
            row_order(cols, keys.drop_first(), a, b)
        }
    }
}

/// `p` orders rows `0..n` stably by the keys: it holds each row once, no
/// row comes after one that it precedes, and rows that compare equal keep
/// their input order.
pub open spec fn sorted_perm(cols: Seq<SpecColumn>, keys: Seq<(int, bool)>, p: Seq<usize>, n: nat) -> bool {
    &&& p.len() == n
    &&& forall|i: int| 0 <= i < p.len() ==> #[trigger] p[i] < n
    &&& forall|i: int, j: int| 0 <= i < j < p.len() ==> p[i] != p[j]
    &&& forall|i: int, j: int|
        0 <= i < j < p.len() ==> row_order(cols, keys, p[i] as int, p[j] as int) <= 0
    &&& forall|i: int, j: int|
        0 <= i < j < p.len() && row_order(cols, keys, p[i] as int, p[j] as int) == 0 ==> p[i] < p[j]
}

/// Where insertion sort puts row `x` into `p[..j]`: after the last row
/// that is not greater than `x`.
pub open spec fn insert_pos(cols: Seq<SpecColumn>, keys: Seq<(int, bool)>, p: Seq<usize>, x: int, j: int) -> int
    decreases j,
{
    if j > 0 && row_order(cols, keys, x, p[j - 1] as int) < 0 {
        insert_pos(cols, keys, p, x, j - 1)
    } else {
        j
    }
}

/// Rows `0..n` in the order that insertion sort gives them.
pub open spec fn spec_sort(cols: Seq<SpecColumn>, keys: Seq<(int, bool)>, n: nat) -> Seq<usize>
    decreases n,
{
    if n == 0 {
        Seq::empty()
    } else {
        let p = spec_sort(cols, keys, (n - 1) as nat);
        p.insert(insert_pos(cols, keys, p, n - 1, p.len() as int), (n - 1) as usize)
    }
}

// ── Laws of the order ────────────────────────────────────────────────────────

proof fn lemma_order_str(a: Seq<char>, b: Seq<char>, c: Seq<char>)
    ensures
        order_str(a, b) == -order_str(b, a),
        -1 <= order_str(a, b) <= 1,
        order_str(a, b) <= 0 && order_str(b, c) <= 0 ==> order_str(a, c) <= 0,
    decreases a.len(),
{
    if a.len() > 0 && b.len() > 0 && c.len() > 0 {
        lemma_order_str(a.skip(1), b.skip(1), c.skip(1));
    } else if a.len() > 0 && b.len() > 0 {
        lemma_order_str(a.skip(1), b.skip(1), c);
    }
}

proof fn lemma_ratio_trans(n: int, d: int, m: int, e: int, p: int, f: int)
    requires
        d > 0,
        e > 0,
        f > 0,
        n * e <= m * d,
        m * f <= p * e,
    ensures
        n * f <= p * d,
{
    assert(n * e * f <= m * d * f) by (nonlinear_arith)
        requires
            n * e <= m * d,
            f > 0,
    ;
    assert(m * f * d <= p * e * d) by (nonlinear_arith)
        requires
            m * f <= p * e,
            d > 0,
    ;
    assert(e * (n * f) <= e * (p * d)) by (nonlinear_arith)
        requires
            n * e * f <= m * d * f,
            m * f * d <= p * e * d,
    ;
    assert(n * f <= p * d) by (nonlinear_arith)
        requires
            e * (n * f) <= e * (p * d),
            e > 0,
    ;
}

/// The order of cells is antisymmetric and transitive.
pub proof fn lemma_cell_order(a: SpecScalar, b: SpecScalar, c: SpecScalar)
    ensures
        cell_order(a, b) == -cell_order(b, a),
        -1 <= cell_order(a, b) <= 1,
        cell_order(a, b) <= 0 && cell_order(b, c) <= 0 ==> cell_order(a, c) <= 0,
{
    match (a, b, c) {
        (SpecScalar::Str(x), SpecScalar::Str(y), SpecScalar::Str(z)) => {
            lemma_order_str(x, y, z);
        },
        (SpecScalar::Str(x), SpecScalar::Str(y), _) => {
            lemma_order_str(x, y, y);
        },
        (SpecScalar::Ratio(n, d), SpecScalar::Ratio(m, e), SpecScalar::Ratio(p, f)) => {
            if cell_order(a, b) <= 0 && cell_order(b, c) <= 0 {
                lemma_ratio_trans(n as int, den(d), m as int, den(e), p as int, den(f));
            }
        },
        _ => {},
    }
}

/// The order of rows is antisymmetric and transitive.
pub proof fn lemma_row_order(cols: Seq<SpecColumn>, keys: Seq<(int, bool)>, a: int, b: int, c: int)
    ensures
        row_order(cols, keys, a, b) == -row_order(cols, keys, b, a),
        -1 <= row_order(cols, keys, a, b) <= 1,
        row_order(cols, keys, a, b) <= 0 && row_order(cols, keys, b, c) <= 0 ==> row_order(cols, keys, a, c) <= 0,
    decreases keys.len(),
{
    if keys.len() > 0 {
        let v = cols[keys[0].0].values;
        lemma_cell_order(v[a], v[b], v[c]);
        lemma_cell_order(v[b], v[c], v[a]);
        lemma_cell_order(v[c], v[a], v[b]);
        lemma_cell_order(v[a], v[c], v[b]);
        lemma_cell_order(v[b], v[a], v[c]);
        lemma_cell_order(v[c], v[b], v[a]);
        lemma_row_order(cols, keys.drop_first(), a, b, c);
    }
}

// ── Executable comparison ────────────────────────────────────────────────────

fn float_key_exec(x: u64) -> (k: u128)
    ensures
        k == float_key(x),
{
    let m = x % 0x8000_0000_0000_0000u64;
    if m > 0x7ff0_0000_0000_0000u64 {
        0x1_0000_0000_0000_0000u128
    } else if m == 0 {
        0x8000_0000_0000_0000u128
    } else if x >= 0x8000_0000_0000_0000u64 {
        (u64::MAX - x) as u128
    } else {
        (x as u128) + 0x8000_0000_0000_0000u128
    }
}

fn order_u128(x: u128, y: u128) -> (c: i8)
    ensures
        c == order_int(x as int, y as int),
{
    if x < y {
        -1
    } else if x == y {
        0
    } else {
        1
    }
}

proof fn lemma_quot_order(q1: int, r1: int, d1: int, q2: int, r2: int, d2: int)
    requires
        d1 > 0,
        d2 > 0,
        0 <= r1 < d1,
        0 <= r2 < d2,
        q1 >= 0,
        q2 >= 0,
    ensures
        q1 < q2 ==> (q1 * d1 + r1) * d2 < (q2 * d2 + r2) * d1,
        q1 == q2 ==> (q1 * d1 + r1) * d2 - (q2 * d2 + r2) * d1 == r1 * d2 - r2 * d1,
{
    if q1 < q2 {
        assert((q1 * d1 + r1) * d2 < (q1 + 1) * d1 * d2) by (nonlinear_arith)
            requires
                r1 < d1,
                d2 > 0,
        ;
        assert((q1 + 1) * d1 * d2 <= q2 * d2 * d1) by (nonlinear_arith)
            requires
                q1 + 1 <= q2,
                d1 > 0,
                d2 > 0,
        ;
        assert(q2 * d2 * d1 <= (q2 * d2 + r2) * d1) by (nonlinear_arith)
            requires
                r2 >= 0,
                d1 > 0,
        ;
    }
    if q1 == q2 {
        assert((q1 * d1 + r1) * d2 - (q2 * d2 + r2) * d1 == r1 * d2 - r2 * d1) by (nonlinear_arith)
            requires
                q1 == q2,
        ;
    }
}

/// Compares `x / d1` with `y / d2` for magnitudes `x`, `y` and positive
/// denominators, exactly.
fn order_fractions(x: u128, d1: u128, y: u128, d2: u128) -> (c: i8)
    requires
        0 < d1 <= u64::MAX,
        0 < d2 <= u64::MAX,
    ensures
        c == order_int(x * d2, y * d1),
{
    let q1 = x / d1;
    let r1 = x % d1;
    let q2 = y / d2;
    let r2 = y % d2;
    proof {
        lemma_quot_order(q1 as int, r1 as int, d1 as int, q2 as int, r2 as int, d2 as int);
        lemma_quot_order(q2 as int, r2 as int, d2 as int, q1 as int, r1 as int, d1 as int);
        assert(x == q1 * d1 + r1) by (nonlinear_arith)
            requires
                q1 == x / d1,
                r1 == x % d1,
                d1 > 0,
        ;
        assert(y == q2 * d2 + r2) by (nonlinear_arith)
            requires
                q2 == y / d2,
                r2 == y % d2,
                d2 > 0,
        ;
    }
    if q1 < q2 {
        -1
    } else if q1 > q2 {
        1
    } else {
        proof {
            assert(r1 * d2 <= (u64::MAX as int) * (u64::MAX as int)) by (nonlinear_arith)
                requires
                    r1 < d1,
                    d1 <= u64::MAX,
                    d2 <= u64::MAX,
            ;
            assert(r2 * d1 <= (u64::MAX as int) * (u64::MAX as int)) by (nonlinear_arith)
                requires
                    r2 < d2,
                    d1 <= u64::MAX,
                    d2 <= u64::MAX,
            ;
        }
        order_u128(r1 * d2, r2 * d1)
    }
}

fn order_ratios(n: i128, d: u64, m: i128, e: u64) -> (c: i8)
    ensures
        c == order_int(n * den(e), m * den(d)),
{
    let dd: u128 = if d == 0 { 1 } else { d as u128 };
    let ee: u128 = if e == 0 { 1 } else { e as u128 };
    assert(dd == den(d) && ee == den(e));
    let sn: i8 = if n < 0 { -1 } else if n == 0 { 0 } else { 1 };
    let sm: i8 = if m < 0 { -1 } else if m == 0 { 0 } else { 1 };
    proof {
        assert(n < 0 ==> n * ee < 0) by (nonlinear_arith)
            requires
                ee > 0,
        ;
        assert(n > 0 ==> n * ee > 0) by (nonlinear_arith)
            requires
                ee > 0,
        ;
        assert(m < 0 ==> m * dd < 0) by (nonlinear_arith)
            requires
                dd > 0,
        ;
        assert(m > 0 ==> m * dd > 0) by (nonlinear_arith)
            requires
                dd > 0,
        ;
    }
    if sn != sm {
        return if sn < sm { -1 } else { 1 };
    }
    if sn == 0 {
        return 0;
    }
    let an: u128 = if n < 0 { if n == i128::MIN { 0x8000_0000_0000_0000_0000_0000_0000_0000u128 } else { (-n) as u128 } } else { n as u128 };
    let am: u128 = if m < 0 { if m == i128::MIN { 0x8000_0000_0000_0000_0000_0000_0000_0000u128 } else { (-m) as u128 } } else { m as u128 };
    let c = order_fractions(an, dd, am, ee);
    proof {
        if n < 0 {
            assert(an * ee == -(n * ee)) by (nonlinear_arith)
                requires
                    an == -n,
            ;
            assert(am * dd == -(m * dd)) by (nonlinear_arith)
                requires
                    am == -m,
            ;
        } else {
            assert(an * ee == n * ee);
            assert(am * dd == m * dd);
        }
    }
    if n < 0 {
        -c
    } else {
        c
    }
}

fn kind_rank_exec(c: &Scalar) -> (r: u8)
    ensures
        r == kind_rank(c@),
{
    match c {
        Scalar::Int(_) => 0,
        Scalar::Ratio(_, _) => 1,
        Scalar::Float(_) => 2,
        Scalar::Calc(_) => 3,
        Scalar::Str(_) => 4,
        Scalar::Bool(_) => 5,
        Scalar::Null => 6,
    }
}

/// Three-way comparison of two cells (see `cell_order`).
pub fn cell_order_exec(a: &Scalar, b: &Scalar) -> (c: i8)
    ensures
        c == cell_order(a@, b@),
{
    let ra = kind_rank_exec(a);
    let rb = kind_rank_exec(b);
    if ra != rb {
        return if ra < rb { -1 } else { 1 };
    }
    match (a, b) {
        (Scalar::Int(x), Scalar::Int(y)) => if *x < *y {
            -1
        } else if *x == *y {
            0
        } else {
            1
        },
        (Scalar::Ratio(n, d), Scalar::Ratio(m, e)) => order_ratios(*n, *d, *m, *e),
        (Scalar::Float(x), Scalar::Float(y)) => order_u128(float_key_exec(*x), float_key_exec(*y)),
        (Scalar::Str(x), Scalar::Str(y)) => order_strings(x, y),
        _ => 0,
    }
}

pub open spec fn keys_view(k: Seq<(usize, bool)>) -> Seq<(int, bool)> {
    k.map_values(|p: (usize, bool)| (p.0 as int, p.1))
}

pub open spec fn columns_view(v: Seq<Column>) -> Seq<SpecColumn> {
    v.map_values(|c: Column| c@)
}

/// Three-way comparison of two rows (see `row_order`).
fn row_order_exec(cols: &Vec<Column>, keys: &Vec<(usize, bool)>, a: usize, b: usize) -> (c: i8)
    requires
        forall|k: int| 0 <= k < keys@.len() ==> (#[trigger] keys@[k]).0 < cols@.len(),
        forall|k: int| 0 <= k < cols@.len() ==> a < (#[trigger] cols@[k]).values@.len() && b < cols@[k].values@.len(),
    ensures
        c == row_order(columns_view(cols@), keys_view(keys@), a as int, b as int),
{
    let ghost cv = columns_view(cols@);
    let ghost kv = keys_view(keys@);
    let mut k: usize = 0;
    assert(kv.skip(0) =~= kv);
    while k < keys.len()
        invariant
            cv == columns_view(cols@),
            kv == keys_view(keys@),
            k <= keys@.len(),
            forall|q: int| 0 <= q < keys@.len() ==> (#[trigger] keys@[q]).0 < cols@.len(),
            forall|q: int| 0 <= q < cols@.len() ==> a < (#[trigger] cols@[q]).values@.len() && b < cols@[q].values@.len(),
            row_order(cv, kv, a as int, b as int) == row_order(cv, kv.skip(k as int), a as int, b as int),
        decreases keys@.len() - k,
    {
        let (ci, asc) = keys[k];
        let col = &cols[ci];
        assert(cv[ci as int] == col@);
        assert(kv.skip(k as int)[0] == (ci as int, asc));
        assert(kv.skip(k as int).drop_first() =~= kv.skip(k + 1));
        let o = cell_order_exec(&col.values[a], &col.values[b]);
        proof {
            lemma_cell_order(col.values@[a as int]@, col.values@[b as int]@, col.values@[b as int]@);
        }
        let o2 = if asc { o } else { -o };
        if o2 != 0 {
            return o2;
        }
        k = k + 1;
    }
    0
}

/// The positions of the rows of `cols` in the stable order of the keys.
fn sort_rows(cols: &Vec<Column>, keys: &Vec<(usize, bool)>, n: usize) -> (p: Vec<usize>)
    requires
        forall|k: int| 0 <= k < keys@.len() ==> (#[trigger] keys@[k]).0 < cols@.len(),
        forall|k: int| 0 <= k < cols@.len() ==> (#[trigger] cols@[k]).values@.len() == n,
    ensures
        p@ == spec_sort(columns_view(cols@), keys_view(keys@), n as nat),
        sorted_perm(columns_view(cols@), keys_view(keys@), p@, n as nat),
{
    let ghost cv = columns_view(cols@);
    let ghost kv = keys_view(keys@);
    let mut p: Vec<usize> = Vec::new();
    let mut k: usize = 0;
    while k < n
        invariant
            cv == columns_view(cols@),
            kv == keys_view(keys@),
            k <= n,
            forall|q: int| 0 <= q < keys@.len() ==> (#[trigger] keys@[q]).0 < cols@.len(),
            forall|q: int| 0 <= q < cols@.len() ==> (#[trigger] cols@[q]).values@.len() == n,
            sorted_perm(cv, kv, p@, k as nat),
            p@ == spec_sort(cv, kv, k as nat),
        decreases n - k,
    {
        // find where row k goes: after every row that is not greater
        let mut j = k;
        while j > 0 && row_order_exec(cols, keys, k, p[j - 1]) < 0
            invariant
                cv == columns_view(cols@),
                kv == keys_view(keys@),
                k < n,
                j <= k,
                p@.len() == k,
                forall|q: int| 0 <= q < keys@.len() ==> (#[trigger] keys@[q]).0 < cols@.len(),
                forall|q: int| 0 <= q < cols@.len() ==> (#[trigger] cols@[q]).values@.len() == n,
                sorted_perm(cv, kv, p@, k as nat),
                p@ == spec_sort(cv, kv, k as nat),
                insert_pos(cv, kv, p@, k as int, k as int) == insert_pos(cv, kv, p@, k as int, j as int),
                forall|m: int| j <= m < k ==> row_order(cv, kv, k as int, #[trigger] p@[m] as int) < 0,
            decreases j,
        {
            j = j - 1;
        }
        let ghost old_p = p@;
        assert(insert_pos(cv, kv, old_p, k as int, j as int) == j);
        proof {
            assert forall|m: int| 0 <= m < j implies row_order(cv, kv, old_p[m] as int, k as int) <= 0 by {
                if j > 0 {
                    // the row at j-1 is not greater than row k
                    lemma_row_order(cv, kv, k as int, old_p[j - 1] as int, old_p[m] as int);
                    lemma_row_order(cv, kv, old_p[m] as int, old_p[j - 1] as int, k as int);
                    if m < j - 1 {
                        assert(row_order(cv, kv, old_p[m] as int, old_p[j - 1] as int) <= 0);
                    }
                }
            }
        }
        p.insert(j, k);
        proof {
            let np = p@;
            assert(np.len() == k + 1);
            assert forall|i: int| 0 <= i < np.len() implies #[trigger] np[i] < k + 1 by {
                if i < j {
                    assert(np[i] == old_p[i]);
                } else if i > j {
                    assert(np[i] == old_p[i - 1]);
                }
            }
            assert forall|a: int, b: int| 0 <= a < b < np.len() implies np[a] != np[b] by {
                if a < j && b < j {
                    assert(np[a] == old_p[a] && np[b] == old_p[b]);
                } else if a < j && b == j {
                    assert(np[a] == old_p[a]);
                } else if a < j && b > j {
                    assert(np[a] == old_p[a] && np[b] == old_p[b - 1]);
                } else if a == j {
                    assert(np[b] == old_p[b - 1]);
                } else {
                    assert(np[a] == old_p[a - 1] && np[b] == old_p[b - 1]);
                }
            }
            assert forall|a: int, b: int|
                0 <= a < b < np.len() implies row_order(cv, kv, np[a] as int, np[b] as int) <= 0 && (row_order(
                cv,
                kv,
                np[a] as int,
                np[b] as int,
            ) == 0 ==> np[a] < np[b]) by {
                if a < j && b < j {
                    assert(np[a] == old_p[a] && np[b] == old_p[b]);
                } else if a < j && b == j {
                    assert(np[a] == old_p[a]);
                } else if a < j && b > j {
                    assert(np[a] == old_p[a] && np[b] == old_p[b - 1]);
                } else if a == j {
                    assert(np[b] == old_p[b - 1]);
                    lemma_row_order(cv, kv, k as int, old_p[b - 1] as int, k as int);
                } else {
                    assert(np[a] == old_p[a - 1] && np[b] == old_p[b - 1]);
                }
            }
        }
        k = k + 1;
    }
    p
}


// ── Sorting a table ──────────────────────────────────────────────────────────

/// Column `k` of the batches, one after the other.
pub open spec fn concat_values(bs: Seq<SpecBatch>, k: int) -> Seq<SpecScalar>
    decreases bs.len(),
{
    if bs.len() == 0 {
        Seq::empty()
    } else {
        bs[0].columns[k].values + concat_values(bs.drop_first(), k)
    }
}

/// The batches have the first one's columns and column types.
pub open spec fn concat_ok(bs: Seq<SpecBatch>) -> bool {
    &&& bs.len() > 0
    &&& forall|i: int|
        0 <= i < bs.len() ==> (#[trigger] bs[i]).columns.len() == bs[0].columns.len() && forall|k: int|
            0 <= k < bs[0].columns.len() ==> (#[trigger] bs[i].columns[k]).data_type == bs[0].columns[k].data_type
}

pub open spec fn merged_columns(bs: Seq<SpecBatch>) -> Seq<SpecColumn> {
    Seq::new(
        bs[0].columns.len(),
        |k: int| SpecColumn { data_type: bs[0].columns[k].data_type, values: concat_values(bs, k) },
    )
}

/// The batches as one batch under `schema`, or why they cannot be one.
pub open spec fn spec_merge(schema: Seq<SpecField>, bs: Seq<SpecBatch>) -> Result<SpecBatch, ExecError> {
    if !concat_ok(bs) {
        Err(ExecError::SchemaMismatch)
    } else if crate::batch::can_build(schema, merged_columns(bs)) {
        Ok(crate::batch::built(schema, merged_columns(bs)))
    } else {
        Err(ExecError::SchemaMismatch)
    }
}

/// The column that an ORDER BY name denotes: by its unqualified name
/// first, then by the name as written.
pub open spec fn resolve_column(schema: Seq<SpecField>, col: Seq<char>) -> Option<int> {
    match index_of(schema, spec_strip_table_prefix(col)) {
        Some(i) => Some(i),
        None => index_of(schema, col),
    }
}

/// The sort keys of an ORDER BY list, or `ColumnNotFound`.
pub open spec fn sort_keys(schema: Seq<SpecField>, ob: Seq<SpecOrderByItem>) -> Result<Seq<(int, bool)>, ExecError> {
    if forall|i: int| 0 <= i < ob.len() ==> (#[trigger] resolve_column(schema, ob[i].column)) is Some {
        Ok(Seq::new(ob.len(), |i: int| (resolve_column(schema, ob[i].column)->Some_0, ob[i].asc)))
    } else {
        Err(ExecError::ColumnNotFound)
    }
}

/// A sort key column of `m` holds a double computation, whose value the
/// library does not compute, so that it cannot be ordered.
pub open spec fn keys_have_calc(m: SpecBatch, keys: Seq<(int, bool)>) -> bool {
    exists|i: int, r: int|
        0 <= i < keys.len() && 0 <= r < m.num_rows && (#[trigger] m.columns[keys[i].0].values[r]) is Calc
}

/// The rows of `m` in the stable order of the keys.
pub open spec fn sorted_batch(m: SpecBatch, keys: Seq<(int, bool)>) -> SpecBatch {
    crate::batch::spec_take(m, spec_sort(m.columns, keys, m.num_rows))
}

pub open spec fn order_by_view(v: Seq<OrderByItem>) -> Seq<SpecOrderByItem> {
    v.map_values(|o: OrderByItem| o@)
}

/// All the rows of the batches, sorted by the ORDER BY list: `None` when
/// there is no batch; else the batches are joined into one (see
/// `spec_merge`), the names resolved (see `sort_keys`), and the rows put
/// in the stable order of the keys; a key column that holds a double
/// computation is `Unsupported`.
pub fn sort_batches(schema: &Vec<Field>, batches: &Vec<Batch>, order_by: &Vec<OrderByItem>) -> (r: Result<Option<Batch>, ExecError>)
    ensures
        crate::exec::batches_view(batches@).len() == 0 ==> r == Ok::<Option<Batch>, ExecError>(None),
        crate::exec::batches_view(batches@).len() > 0 ==> match spec_merge(
            crate::batch::fields_view(schema@),
            crate::exec::batches_view(batches@),
        ) {
            Err(e) => r == Err::<Option<Batch>, ExecError>(e),
            Ok(m) => match sort_keys(crate::batch::fields_view(schema@), order_by_view(order_by@)) {
                Err(e) => r == Err::<Option<Batch>, ExecError>(e),
                Ok(keys) => if keys_have_calc(m, keys) {
                    r == Err::<Option<Batch>, ExecError>(ExecError::Unsupported)
                } else {
                    r matches Ok(Some(b)) && b@ == sorted_batch(m, keys) && sorted_perm(
                    m.columns,
                    keys,
                    spec_sort(m.columns, keys, m.num_rows),
                    m.num_rows,
                )
                },
            },
        },
{
    let ghost bv = crate::exec::batches_view(batches@);
    let ghost sv = crate::batch::fields_view(schema@);
    if batches.len() == 0 {
        return Ok(None);
    }
    let m = match merge_batches(schema, batches) {
        Err(e) => {
            return Err(e);
        },
        Ok(m) => m,
    };
    // the sort keys
    let ghost ov = order_by_view(order_by@);
    let mut keys: Vec<(usize, bool)> = Vec::new();
    let mut i: usize = 0;
    while i < order_by.len()
        invariant
            sv == crate::batch::fields_view(schema@),
            ov == order_by_view(order_by@),
            i <= order_by@.len(),
            bv == crate::exec::batches_view(batches@),
            bv.len() > 0,
            spec_merge(sv, bv) == Ok::<SpecBatch, ExecError>(m@),
            keys@.len() == i,
            forall|q: int| 0 <= q < i ==> (#[trigger] resolve_column(sv, ov[q].column)) is Some,
            forall|q: int|
                0 <= q < i ==> (#[trigger] keys@[q]).0 as int == resolve_column(sv, ov[q].column)->Some_0 && keys@[q].1
                    == ov[q].asc,
            forall|q: int| 0 <= q < i ==> (#[trigger] keys@[q]).0 < schema@.len(),
        decreases order_by@.len() - i,
    {
        let ob = &order_by[i];
        assert(ov[i as int] == ob@);
        let bare = strip_table_prefix(ob.column.as_str());
        let idx = match find_field(schema, &bare) {
            Some(x) => x,
            None => match find_field(schema, &ob.column) {
                Some(x) => x,
                None => {
                    assert(resolve_column(sv, ov[i as int].column) is None);
                    return Err(ExecError::ColumnNotFound);
                },
            },
        };
        keys.push((idx, ob.asc));
        i = i + 1;
    }
    let ghost kv = Seq::new(ov.len(), |q: int| (resolve_column(sv, ov[q].column)->Some_0, ov[q].asc));
    assert(sort_keys(sv, ov) == Ok::<Seq<(int, bool)>, ExecError>(kv));
    assert(keys_view(keys@) =~= kv);
    let n = m.num_rows();
    let _ = m.num_columns();
    let cols = m.columns();
    proof {
        assert forall|k: int| 0 <= k < cols@.len() implies (#[trigger] cols@[k]).values@.len() == n by {
            assert(crate::batch::column_fits_field(m@.columns[k], m@.schema[k], m@.num_rows));
            assert(m@.columns[k] == cols@[k]@);
        }
        assert(columns_view(cols@) == m@.columns);
    }
    let mut i: usize = 0;
    while i < keys.len()
        invariant
            bv == crate::exec::batches_view(batches@),
            bv.len() > 0,
            sv == crate::batch::fields_view(schema@),
            ov == order_by_view(order_by@),
            spec_merge(sv, bv) == Ok::<SpecBatch, ExecError>(m@),
            sort_keys(sv, ov) == Ok::<Seq<(int, bool)>, ExecError>(kv),
            i <= keys@.len(),
            keys_view(keys@) == kv,
            n == m@.num_rows,
            columns_view(cols@) == m@.columns,
            forall|q: int| 0 <= q < keys@.len() ==> (#[trigger] keys@[q]).0 < schema@.len(),
            cols@.len() == schema@.len(),
            forall|k: int| 0 <= k < cols@.len() ==> (#[trigger] cols@[k]).values@.len() == n,
            forall|a: int, r: int|
                0 <= a < i && 0 <= r < n ==> !(#[trigger] m@.columns[kv[a].0].values[r] is Calc),
        decreases keys@.len() - i,
    {
        let c = &cols[keys[i].0];
        assert(c@ == m@.columns[kv[i as int].0]);
        let mut r: usize = 0;
        while r < n
            invariant
                bv == crate::exec::batches_view(batches@),
                bv.len() > 0,
                sv == crate::batch::fields_view(schema@),
                ov == order_by_view(order_by@),
                spec_merge(sv, bv) == Ok::<SpecBatch, ExecError>(m@),
                sort_keys(sv, ov) == Ok::<Seq<(int, bool)>, ExecError>(kv),
                i < keys@.len(),
                keys_view(keys@) == kv,
                n == m@.num_rows,
                r <= n,
                c.values@.len() == n,
                c@ == m@.columns[kv[i as int].0],
                forall|q: int| 0 <= q < r ==> !(#[trigger] m@.columns[kv[i as int].0].values[q] is Calc),
            decreases n - r,
        {
            assert(c@.values[r as int] == c.values@[r as int]@);
            if let Scalar::Calc(_) = &c.values[r] {
                assert(m@.columns[kv[i as int].0].values[r as int] is Calc);
                assert(kv.len() == keys@.len());
                assert(keys_have_calc(m@, kv));
                return Err(ExecError::Unsupported);
            }
            r = r + 1;
        }
        i = i + 1;
    }
    let p = sort_rows(cols, &keys, n);
    let out = m.take_rows(&p);
    assert(sorted_perm(m@.columns, kv, p@, m@.num_rows));
    Ok(Some(out))
}

/// The columns of the batches, batch after batch (see `merged_columns`).
pub fn concat_columns(batches: &Vec<Batch>) -> (r: Result<Vec<Column>, ExecError>)
    requires
        batches@.len() > 0,
    ensures
        concat_ok(crate::exec::batches_view(batches@)) ==> (r matches Ok(cs) && columns_view(cs@) == merged_columns(
            crate::exec::batches_view(batches@),
        )),
        !concat_ok(crate::exec::batches_view(batches@)) ==> r == Err::<Vec<Column>, ExecError>(ExecError::SchemaMismatch),
{
    let ghost bv = crate::exec::batches_view(batches@);
    let first = batches[0].columns();
    let nc = first.len();
    assert(bv[0] == batches@[0]@);
    // every batch has the first one's columns and types
    let mut i: usize = 0;
    while i < batches.len()
        invariant
            bv == crate::exec::batches_view(batches@),
            batches@.len() > 0,
            bv[0].columns.len() == nc,
            columns_view(first@) == bv[0].columns,
            i <= batches@.len(),
            forall|q: int|
                0 <= q < i ==> (#[trigger] bv[q]).columns.len() == bv[0].columns.len() && forall|k: int|
                    0 <= k < bv[0].columns.len() ==> (#[trigger] bv[q].columns[k]).data_type == bv[0].columns[k].data_type,
        decreases batches@.len() - i,
    {
        let cs = batches[i].columns();
        assert(bv[i as int] == batches@[i as int]@);
        if cs.len() != nc {
            assert(!concat_ok(bv));
            return Err(ExecError::SchemaMismatch);
        }
        let mut k: usize = 0;
        while k < nc
            invariant
                bv == crate::exec::batches_view(batches@),
                i < batches@.len(),
                bv[i as int] == batches@[i as int]@,
                bv[0].columns.len() == nc,
                columns_view(first@) == bv[0].columns,
                columns_view(cs@) == bv[i as int].columns,
                cs@.len() == nc,
                k <= nc,
                forall|q: int| 0 <= q < k ==> (#[trigger] bv[i as int].columns[q]).data_type == bv[0].columns[q].data_type,
            decreases nc - k,
        {
            assert(bv[i as int].columns[k as int] == cs@[k as int]@);
            assert(bv[0].columns[k as int] == first@[k as int]@);
            if cs[k].data_type != first[k].data_type {
                assert(!concat_ok(bv));
                return Err(ExecError::SchemaMismatch);
            }
            k = k + 1;
        }
        i = i + 1;
    }
    assert(concat_ok(bv));
    let mut cols: Vec<Column> = Vec::new();
    let mut k: usize = 0;
    while k < nc
        invariant
            bv == crate::exec::batches_view(batches@),
            concat_ok(bv),
            bv[0].columns.len() == nc,
            columns_view(first@) == bv[0].columns,
            k <= nc,
            cols@.len() == k,
            forall|q: int| 0 <= q < k ==> (#[trigger] cols@[q])@ == merged_columns(bv)[q],
        decreases nc - k,
    {
        let mut vals: Vec<Scalar> = Vec::new();
        let mut j: usize = batches.len();
        // gather from the last batch back, so that what is gathered is a suffix
        while j > 0
            invariant
                bv == crate::exec::batches_view(batches@),
                concat_ok(bv),
                k < nc,
                bv[0].columns.len() == nc,
                j <= batches@.len(),
                crate::batch::scalars_view(vals@) == concat_values(bv.skip(j as int), k as int),
            decreases j,
        {
            j = j - 1;
            let cs = batches[j].columns();
            assert(bv[j as int] == batches@[j as int]@);
            assert(bv[j as int].columns.len() == nc);
            assert(cs@.len() == nc);
            let c = &cs[k];
            assert(c@ == bv[j as int].columns[k as int]);
            let mut v: Vec<Scalar> = Vec::new();
            crate::batch::append_values(&mut v, c);
            let mut q: usize = 0;
            while q < vals.len()
                invariant
                    q <= vals@.len(),
                    crate::batch::scalars_view(v@) == c@.values + crate::batch::scalars_view(vals@).take(q as int),
                decreases vals@.len() - q,
            {
                let ghost before = crate::batch::scalars_view(v@);
                let x = vals[q].copy();
                v.push(x);
                assert(crate::batch::scalars_view(v@) =~= before.push(x@));
                q = q + 1;
                assert(crate::batch::scalars_view(v@) =~= c@.values + crate::batch::scalars_view(vals@).take(q as int));
            }
            assert(crate::batch::scalars_view(vals@).take(q as int) =~= crate::batch::scalars_view(vals@));
            assert(bv.skip(j as int).drop_first() =~= bv.skip(j + 1));
            assert(bv.skip(j as int)[0] == bv[j as int]);
            vals = v;
        }
        assert(bv.skip(0) =~= bv);
        let col = Column { data_type: first[k].data_type, values: vals };
        assert(bv[0].columns[k as int] == first@[k as int]@);
        cols.push(col);
        k = k + 1;
    }
    assert(columns_view(cols@) =~= merged_columns(bv));
    Ok(cols)
}

/// The batches as one batch (see `spec_merge`).
fn merge_batches(schema: &Vec<Field>, batches: &Vec<Batch>) -> (r: Result<Batch, ExecError>)
    requires
        batches@.len() > 0,
    ensures
        match spec_merge(crate::batch::fields_view(schema@), crate::exec::batches_view(batches@)) {
            Ok(m) => r matches Ok(b) && b@ == m,
            Err(e) => r == Err::<Batch, ExecError>(e),
        },
{
    match concat_columns(batches) {
        Err(e) => Err(e),
        Ok(cols) => Batch::try_new(crate::batch::copy_fields(schema), cols),
    }
}

} // verus!
