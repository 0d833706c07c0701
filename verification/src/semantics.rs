//! What the operators compute, stated over the cells they read: the
//! results of comparisons, the type a column is inferred to have, the order
//! a sort leaves rows in, the rows a join pairs, and the least and greatest
//! values of a group.
use vstd::prelude::*;

use crate::ast::BinOp;
use crate::batch::{ExecError, SpecColumn, SpecScalar};
use crate::catalog::{has_value, spec_column_type, spec_is_bool_str, spec_is_f64_str, spec_is_i64_str, DataType};
use crate::eval::{binop_cell, spec_binop, zip_cells};
use crate::join::join_pairs;
use crate::agg::SpecGroup;
use crate::sort::{cell_order, row_order, sorted_perm};

verus! {

// ── Comparisons ──────────────────────────────────────────────────────────────

/// Whether `x op y` holds for integers, `op` a comparison.
pub open spec fn int_holds(op: BinOp, x: int, y: int) -> bool {
    match op {
        BinOp::Eq => x == y,
        BinOp::Ne => x != y,
        BinOp::Lt => x < y,
        BinOp::Le => x <= y,
        BinOp::Gt => x > y,
        _ => x >= y,
    }
}

pub open spec fn is_comparison(op: BinOp) -> bool {
    op == BinOp::Eq || op == BinOp::Ne || op == BinOp::Lt || op == BinOp::Le || op == BinOp::Gt || op == BinOp::Ge
}

/// A comparison of two integers is true exactly when the integers stand in
/// that relation; with a null on either side it is null.
pub proof fn law_compare_ints(op: BinOp, x: i64, y: i64)
    requires
        is_comparison(op),
    ensures
        binop_cell(op, SpecScalar::Int(x), SpecScalar::Int(y)) == Ok::<SpecScalar, ExecError>(
            SpecScalar::Bool(int_holds(op, x as int, y as int)),
        ),
        binop_cell(op, SpecScalar::Null, SpecScalar::Int(y)) == Ok::<SpecScalar, ExecError>(SpecScalar::Null),
        binop_cell(op, SpecScalar::Int(x), SpecScalar::Null) == Ok::<SpecScalar, ExecError>(SpecScalar::Null),
{
}

/// Comparing two integer columns row by row: row `i` of the result is null
/// where either cell is, else whether the two integers stand in the
/// relation.
pub proof fn law_compare_int_columns(op: BinOp, x: SpecColumn, y: SpecColumn)
    requires
        is_comparison(op),
        x.data_type == DataType::Int64,
        y.data_type == DataType::Int64,
        x.values.len() == y.values.len(),
        forall|i: int| 0 <= i < x.values.len() ==> (#[trigger] x.values[i] is Int || x.values[i] is Null),
        forall|i: int| 0 <= i < y.values.len() ==> (#[trigger] y.values[i] is Int || y.values[i] is Null),
    ensures
        spec_binop(op, x, y) is Ok,
        spec_binop(op, x, y)->Ok_0.data_type == DataType::Boolean,
        spec_binop(op, x, y)->Ok_0.values.len() == x.values.len(),
        forall|i: int|
            0 <= i < x.values.len() ==> #[trigger] spec_binop(op, x, y)->Ok_0.values[i] == if x.values[i] is Null
                || y.values[i] is Null {
                SpecScalar::Null
            } else {
                SpecScalar::Bool(int_holds(op, x.values[i]->Int_0 as int, y.values[i]->Int_0 as int))
            },
{
    lemma_zip_compare(op, x.values, y.values);
}

proof fn lemma_zip_compare(op: BinOp, xs: Seq<SpecScalar>, ys: Seq<SpecScalar>)
    requires
        is_comparison(op),
        xs.len() == ys.len(),
        forall|i: int| 0 <= i < xs.len() ==> (#[trigger] xs[i] is Int || xs[i] is Null),
        forall|i: int| 0 <= i < ys.len() ==> (#[trigger] ys[i] is Int || ys[i] is Null),
    ensures
        zip_cells(op, xs, ys) is Ok,
        zip_cells(op, xs, ys)->Ok_0.len() == xs.len(),
        forall|i: int|
            0 <= i < xs.len() ==> #[trigger] zip_cells(op, xs, ys)->Ok_0[i] == if xs[i] is Null || ys[i] is Null {
                SpecScalar::Null
            } else {
                SpecScalar::Bool(int_holds(op, xs[i]->Int_0 as int, ys[i]->Int_0 as int))
            },
    decreases xs.len(),
{
    if xs.len() > 0 {
        let n = xs.len() - 1;
        let xp = xs.drop_last();
        let yp = ys.take(n);
        assert forall|i: int| 0 <= i < xp.len() implies (#[trigger] xp[i] is Int || xp[i] is Null) by {
            assert(xp[i] == xs[i]);
        }
        assert forall|i: int| 0 <= i < yp.len() implies (#[trigger] yp[i] is Int || yp[i] is Null) by {
            assert(yp[i] == ys[i]);
        }
        lemma_zip_compare(op, xp, yp);
        assert(xs[n] is Int || xs[n] is Null);
        assert(ys[n] is Int || ys[n] is Null);
        let prev = zip_cells(op, xp, yp)->Ok_0;
        let v = binop_cell(op, xs.last(), ys[n]);
        if xs[n] is Int && ys[n] is Int {
            law_compare_ints(op, xs[n]->Int_0, ys[n]->Int_0);
        }
        assert(v is Ok);
        assert forall|i: int| 0 <= i < xs.len() implies #[trigger] zip_cells(op, xs, ys)->Ok_0[i] == if xs[i] is Null || ys[i]
            is Null {
            SpecScalar::Null
        } else {
            SpecScalar::Bool(int_holds(op, xs[i]->Int_0 as int, ys[i]->Int_0 as int))
        } by {
            if i < n {
                assert(xp[i] == xs[i]);
                assert(yp[i] == ys[i]);
                assert(zip_cells(op, xs, ys)->Ok_0[i] == prev[i]);
            } else {
                if xs[n] is Int && ys[n] is Int {
                    law_compare_ints(op, xs[n]->Int_0, ys[n]->Int_0);
                }
            }
        }
    }
}

/// Integer arithmetic on two cells: the exact sum, difference and product
/// when they fit in `i64`, else `Overflow`; division by zero is
/// `DivideByZero`; otherwise the quotient `q` is the one rounded toward
/// zero: `q * y + m == x` with a remainder `m` smaller than `y` in size and
/// never of the opposite sign to `x`.
pub proof fn law_arith_ints(x: i64, y: i64)
    ensures
        binop_cell(BinOp::Add, SpecScalar::Int(x), SpecScalar::Int(y)) == if i64::MIN <= x + y <= i64::MAX {
            Ok::<SpecScalar, ExecError>(SpecScalar::Int((x + y) as i64))
        } else {
            Err(ExecError::Overflow)
        },
        binop_cell(BinOp::Sub, SpecScalar::Int(x), SpecScalar::Int(y)) == if i64::MIN <= x - y <= i64::MAX {
            Ok::<SpecScalar, ExecError>(SpecScalar::Int((x - y) as i64))
        } else {
            Err(ExecError::Overflow)
        },
        binop_cell(BinOp::Mul, SpecScalar::Int(x), SpecScalar::Int(y)) == if i64::MIN <= x * y <= i64::MAX {
            Ok::<SpecScalar, ExecError>(SpecScalar::Int((x * y) as i64))
        } else {
            Err(ExecError::Overflow)
        },
        y == 0 ==> binop_cell(BinOp::Div, SpecScalar::Int(x), SpecScalar::Int(y)) == Err::<SpecScalar, ExecError>(
            ExecError::DivideByZero,
        ),
        y != 0 ==> match binop_cell(BinOp::Div, SpecScalar::Int(x), SpecScalar::Int(y)) {
            Ok(SpecScalar::Int(q)) => {
                let m = x - q * y;
                &&& (if m < 0 { -m } else { m }) < (if y < 0 { -y } else { y as int })
                &&& (m == 0 || (m > 0) == (x > 0))
            },
            Ok(_) => false,
            Err(e) => e == ExecError::Overflow && x == i64::MIN && y == -1,
        },
{
    if y != 0 {
        let ax: int = if x < 0 { -x } else { x as int };
        let ay: int = if y < 0 { -y } else { y as int };
        let aq = ax / ay;
        let am = ax % ay;
        assert(aq * ay + am == ax && 0 <= am < ay) by (nonlinear_arith)
            requires
                ay > 0,
                ax >= 0,
                aq == ax / ay,
                am == ax % ay,
        ;
        assert(aq <= ax) by (nonlinear_arith)
            requires
                ay >= 1,
                ax >= 0,
                aq * ay + am == ax,
                am >= 0,
        ;
        let q: int = if (x < 0) != (y < 0) { -aq } else { aq };
        assert(q == crate::eval::trunc_div(x as int, y as int));
        assert(q * y == (if (x < 0) != (y < 0) { -aq } else { aq }) * y);
        if x < 0 && y < 0 {
            assert(q * y == -(aq * ay)) by (nonlinear_arith)
                requires
                    q == aq,
                    y == -ay,
            ;
        } else if x < 0 {
            assert(q * y == -(aq * ay)) by (nonlinear_arith)
                requires
                    q == -aq,
                    y == ay,
            ;
        } else if y < 0 {
            assert(q * y == aq * ay) by (nonlinear_arith)
                requires
                    q == -aq,
                    y == -ay,
            ;
        } else {
            assert(q * y == aq * ay);
        }
        assert(x - q * y == (if x < 0 { -am } else { am }));
        if !(i64::MIN <= q <= i64::MAX) {
            assert(q == aq && aq == ax);
            assert(ay == 1) by (nonlinear_arith)
                requires
                    aq * ay + am == ax,
                    aq == ax,
                    ax > 0,
                    am >= 0,
                    ay >= 1,
            ;
        }
    }
}

/// AND and OR of two booleans are their conjunction and disjunction; with
/// a null on either side the result is null.  NOT negates a boolean, and
/// negating an integer other than `i64::MIN` gives its negative.
pub proof fn law_logic(a: bool, b: bool, x: i64)
    ensures
        binop_cell(BinOp::And, SpecScalar::Bool(a), SpecScalar::Bool(b)) == Ok::<SpecScalar, ExecError>(SpecScalar::Bool(a && b)),
        binop_cell(BinOp::Or, SpecScalar::Bool(a), SpecScalar::Bool(b)) == Ok::<SpecScalar, ExecError>(SpecScalar::Bool(a || b)),
        binop_cell(BinOp::And, SpecScalar::Null, SpecScalar::Bool(b)) == Ok::<SpecScalar, ExecError>(SpecScalar::Null),
        binop_cell(BinOp::Or, SpecScalar::Bool(a), SpecScalar::Null) == Ok::<SpecScalar, ExecError>(SpecScalar::Null),
        crate::eval::unary_cell(crate::ast::UnaryOp::Not, SpecScalar::Bool(a)) == Ok::<SpecScalar, ExecError>(SpecScalar::Bool(!a)),
        x != i64::MIN ==> crate::eval::unary_cell(crate::ast::UnaryOp::Neg, SpecScalar::Int(x)) == Ok::<SpecScalar, ExecError>(
            SpecScalar::Int((-x) as i64),
        ),
{
}

/// `a` comes before `b` in the order of code points: they agree up to a
/// position `i`, and there `a` ends while `b` goes on, or `a` has the
/// smaller character.
pub open spec fn str_before(a: Seq<char>, b: Seq<char>) -> bool {
    exists|i: int| #[trigger] before_at(a, b, i)
}

pub open spec fn before_at(a: Seq<char>, b: Seq<char>, i: int) -> bool {
    &&& 0 <= i <= a.len()
    &&& i <= b.len()
    &&& a.take(i) == b.take(i)
    &&& (i == a.len() && i < b.len()) || (i < a.len() && i < b.len() && (a[i] as int) < (b[i] as int))
}

proof fn lemma_order_str(a: Seq<char>, b: Seq<char>)
    ensures
        crate::eval::order_str(a, b) == 0 <==> a == b,
        crate::eval::order_str(a, b) < 0 <==> str_before(a, b),
        crate::eval::order_str(a, b) > 0 <==> str_before(b, a),
        -1 <= crate::eval::order_str(a, b) <= 1,
    decreases a.len(),
{
    if a.len() == 0 {
        if b.len() == 0 {
            assert(a =~= b);
            assert forall|i: int| !before_at(a, b, i) by {}
            assert forall|i: int| !before_at(b, a, i) by {}
        } else {
            assert(a.take(0) =~= b.take(0));
            assert(before_at(a, b, 0));
            assert forall|i: int| !before_at(b, a, i) by {}
        }
    } else if b.len() == 0 {
        assert(a.take(0) =~= b.take(0));
        assert(before_at(b, a, 0));
        assert forall|i: int| !before_at(a, b, i) by {}
    } else if a[0] != b[0] {
        assert(a.take(0) =~= b.take(0));
        if (a[0] as int) < (b[0] as int) {
            assert(before_at(a, b, 0));
            assert forall|i: int| !before_at(b, a, i) by {
                if i > 0 && before_at(b, a, i) {
                    assert(b.take(i)[0] == a.take(i)[0]);
                }
            }
        } else {
            assert(before_at(b, a, 0));
            assert forall|i: int| !before_at(a, b, i) by {
                if i > 0 && before_at(a, b, i) {
                    assert(b.take(i)[0] == a.take(i)[0]);
                }
            }
        }
        assert(a != b) by {
            assert(a[0] != b[0]);
        }
    } else {
        let a1 = a.skip(1);
        let b1 = b.skip(1);
        lemma_order_str(a1, b1);
        if a1 == b1 {
            assert(a =~= seq![a[0]] + a1);
            assert(b =~= seq![b[0]] + b1);
        } else {
            assert(a != b) by {
                if a == b {
                    assert(a1 =~= b1);
                }
            }
        }
        // before_at shifts by one position
        assert forall|i: int| before_at(a1, b1, i) <==> before_at(a, b, i + 1) by {
            if before_at(a1, b1, i) {
                assert(a.take(i + 1) =~= seq![a[0]] + a1.take(i));
                assert(b.take(i + 1) =~= seq![b[0]] + b1.take(i));
            }
            if before_at(a, b, i + 1) {
                assert(a1.take(i) =~= a.take(i + 1).skip(1));
                assert(b1.take(i) =~= b.take(i + 1).skip(1));
            }
        }
        assert forall|i: int| before_at(b1, a1, i) <==> before_at(b, a, i + 1) by {
            if before_at(b1, a1, i) {
                assert(a.take(i + 1) =~= seq![a[0]] + a1.take(i));
                assert(b.take(i + 1) =~= seq![b[0]] + b1.take(i));
            }
            if before_at(b, a, i + 1) {
                assert(a1.take(i) =~= a.take(i + 1).skip(1));
                assert(b1.take(i) =~= b.take(i + 1).skip(1));
            }
        }
        assert(!before_at(a, b, 0));
        assert(!before_at(b, a, 0));
        if str_before(a, b) {
            let i = choose|i: int| #[trigger] before_at(a, b, i);
            assert(before_at(a1, b1, i - 1));
        }
        if str_before(a1, b1) {
            let i = choose|i: int| #[trigger] before_at(a1, b1, i);
            assert(before_at(a, b, i + 1));
        }
        if str_before(b, a) {
            let i = choose|i: int| #[trigger] before_at(b, a, i);
            assert(before_at(b1, a1, i - 1));
        }
        if str_before(b1, a1) {
            let i = choose|i: int| #[trigger] before_at(b1, a1, i);
            assert(before_at(b, a, i + 1));
        }
    }
}

/// Whether `a op b` holds for strings in the order of code points.
pub open spec fn str_holds(op: BinOp, a: Seq<char>, b: Seq<char>) -> bool {
    match op {
        BinOp::Eq => a == b,
        BinOp::Ne => a != b,
        BinOp::Lt => str_before(a, b),
        BinOp::Le => str_before(a, b) || a == b,
        BinOp::Gt => str_before(b, a),
        _ => str_before(b, a) || a == b,
    }
}

/// A comparison of two strings is true exactly when they stand in that
/// relation in the order of code points.
pub proof fn law_compare_strings(op: BinOp, a: Seq<char>, b: Seq<char>)
    requires
        is_comparison(op),
    ensures
        binop_cell(op, SpecScalar::Str(a), SpecScalar::Str(b)) == Ok::<SpecScalar, ExecError>(SpecScalar::Bool(str_holds(op, a, b))),
{
    lemma_order_str(a, b);
}

/// The order a sort uses for a cell: integers by value, strings in the
/// order of code points, and nulls after every value.
pub proof fn law_cell_order(x: i64, y: i64, a: Seq<char>, b: Seq<char>, v: SpecScalar)
    ensures
        cell_order(SpecScalar::Int(x), SpecScalar::Int(y)) == (if x < y { -1int } else if x == y { 0int } else { 1int }),
        cell_order(SpecScalar::Str(a), SpecScalar::Str(b)) < 0 <==> str_before(a, b),
        cell_order(SpecScalar::Str(a), SpecScalar::Str(b)) == 0 <==> a == b,
        !(v is Null) ==> cell_order(v, SpecScalar::Null) < 0 && cell_order(SpecScalar::Null, v) > 0,
        cell_order(SpecScalar::Null, SpecScalar::Null) == 0,
{
    lemma_order_str(a, b);
}

// ── The type inferred for a column ───────────────────────────────────────────

/// The type inferred for column `c` from the first `n` sample rows is the
/// first of Boolean, Int64, Float64 that every non-empty value reads as;
/// Utf8 when none does, or when no row has a value there.
pub proof fn law_column_type(rows: Seq<Vec<String>>, n: int, c: int)
    ensures
        ({
            let some = exists|r: int| 0 <= r < n && #[trigger] has_value(rows, r, c);
            let all_bool = forall|r: int| 0 <= r < n && #[trigger] has_value(rows, r, c) ==> spec_is_bool_str(rows[r]@[c]@);
            let all_int = forall|r: int| 0 <= r < n && #[trigger] has_value(rows, r, c) ==> spec_is_i64_str(rows[r]@[c]@);
            let all_f64 = forall|r: int| 0 <= r < n && #[trigger] has_value(rows, r, c) ==> spec_is_f64_str(rows[r]@[c]@);
            &&& (some && all_bool) ==> spec_column_type(rows, n, c) == DataType::Boolean
            &&& (some && !all_bool && all_int) ==> spec_column_type(rows, n, c) == DataType::Int64
            &&& (some && !all_bool && !all_int && all_f64) ==> spec_column_type(rows, n, c) == DataType::Float64
            &&& (!some || (!all_bool && !all_int && !all_f64)) ==> spec_column_type(rows, n, c) == DataType::Utf8
        }),
{
}

// ── The order a sort leaves rows in ──────────────────────────────────────────

/// Key `k`'s comparison of rows `a` and `b`, in its direction.
pub open spec fn key_cmp(cols: Seq<SpecColumn>, k: (int, bool), a: int, b: int) -> int {
    let o = cell_order(cols[k.0].values[a], cols[k.0].values[b]);
    if k.1 {
        o
    } else {
        -o
    }
}

/// Rows `a` and `b` are in lexicographic order over all the keys: they tie
/// on the keys before some key `t`, and on key `t` (if there is one) `a`
/// comes first.
pub open spec fn lex_le(cols: Seq<SpecColumn>, keys: Seq<(int, bool)>, a: int, b: int) -> bool {
    exists|t: int| #[trigger] decided_at(cols, keys, a, b, t)
}

/// Rows `a` and `b` tie on the keys before key `t`, and `a` comes first on
/// key `t`, or `t` is past the last key.
pub open spec fn decided_at(cols: Seq<SpecColumn>, keys: Seq<(int, bool)>, a: int, b: int, t: int) -> bool {
    &&& 0 <= t <= keys.len()
    &&& forall|u: int| 0 <= u < t ==> #[trigger] key_cmp(cols, keys[u], a, b) == 0
    &&& t < keys.len() ==> key_cmp(cols, keys[t], a, b) < 0
}

proof fn lemma_row_order_lex(cols: Seq<SpecColumn>, keys: Seq<(int, bool)>, a: int, b: int)
    requires
        row_order(cols, keys, a, b) <= 0,
    ensures
        lex_le(cols, keys, a, b),
    decreases keys.len(),
{
    if keys.len() == 0 {
        assert(decided_at(cols, keys, a, b, 0));
    } else {
        let o2 = key_cmp(cols, keys[0], a, b);
        if o2 != 0 {
            assert(decided_at(cols, keys, a, b, 0));
        } else {
            let rest = keys.drop_first();
            lemma_row_order_lex(cols, rest, a, b);
            let t = choose|t: int| #[trigger] decided_at(cols, rest, a, b, t);
            assert forall|u: int| 0 <= u < t + 1 implies #[trigger] key_cmp(cols, keys[u], a, b) == 0 by {
                if u > 0 {
                    assert(keys[u] == rest[u - 1]);
                    assert(key_cmp(cols, rest[u - 1], a, b) == 0);
                }
            }
            if t < rest.len() {
                assert(keys[t + 1] == rest[t]);
            }
            assert(decided_at(cols, keys, a, b, t + 1));
        }
    }
}

/// A sort leaves every earlier row in lexicographic order before every
/// later one over all the ORDER BY keys, each compared in its direction
/// (ascending or descending, nulls after every value when ascending).
pub proof fn law_sort_lexicographic(cols: Seq<SpecColumn>, keys: Seq<(int, bool)>, p: Seq<usize>, n: nat, i: int, j: int)
    requires
        sorted_perm(cols, keys, p, n),
        0 <= i < j < p.len(),
    ensures
        lex_le(cols, keys, p[i] as int, p[j] as int),
{
    lemma_row_order_lex(cols, keys, p[i] as int, p[j] as int);
}


// ── The rows a join pairs ────────────────────────────────────────────────────

proof fn lemma_digit_char(d: nat, e: nat)
    requires
        d < 10,
        e < 10,
    ensures
        crate::fmt::digit_char(d) != '-',
        crate::fmt::digit_char(d) == crate::fmt::digit_char(e) ==> d == e,
{
}

proof fn lemma_nat_digits_shape(n: nat)
    ensures
        crate::fmt::nat_digits(n).len() >= 1,
        n >= 10 ==> crate::fmt::nat_digits(n).len() >= 2,
        crate::fmt::nat_digits(n)[0] != '-',
    decreases n,
{
    if n >= 10 {
        lemma_nat_digits_shape(n / 10);
        lemma_digit_char(n % 10, 0);
    } else {
        lemma_digit_char(n, 0);
    }
}

/// Different numbers have different decimal texts.
proof fn lemma_nat_digits_injective(n: nat, m: nat)
    requires
        crate::fmt::nat_digits(n) == crate::fmt::nat_digits(m),
    ensures
        n == m,
    decreases n + m,
{
    lemma_nat_digits_shape(n);
    lemma_nat_digits_shape(m);
    if n < 10 && m < 10 {
        lemma_digit_char(n, m);
    } else if n >= 10 && m >= 10 {
        let a = crate::fmt::nat_digits(n);
        let b = crate::fmt::nat_digits(m);
        assert(a.last() == crate::fmt::digit_char(n % 10));
        assert(b.last() == crate::fmt::digit_char(m % 10));
        lemma_digit_char(n % 10, m % 10);
        assert(a.drop_last() =~= crate::fmt::nat_digits(n / 10));
        assert(b.drop_last() =~= crate::fmt::nat_digits(m / 10));
        lemma_nat_digits_injective(n / 10, m / 10);
    }
}

/// Different integers have different texts.
pub proof fn lemma_int_text_injective(x: int, y: int)
    requires
        crate::fmt::int_text(x) == crate::fmt::int_text(y),
    ensures
        x == y,
{
    if x < 0 {
        lemma_nat_digits_shape((-x) as nat);
    }
    if y < 0 {
        lemma_nat_digits_shape((-y) as nat);
    }
    lemma_nat_digits_shape(x as nat);
    lemma_nat_digits_shape(y as nat);
    if x < 0 && y < 0 {
        assert(crate::fmt::int_text(x).drop_first() =~= crate::fmt::nat_digits((-x) as nat));
        assert(crate::fmt::int_text(y).drop_first() =~= crate::fmt::nat_digits((-y) as nat));
        lemma_nat_digits_injective((-x) as nat, (-y) as nat);
    } else if x >= 0 && y >= 0 {
        lemma_nat_digits_injective(x as nat, y as nat);
    } else if x < 0 {
        assert(crate::fmt::int_text(x)[0] == '-');
    } else {
        assert(crate::fmt::int_text(y)[0] == '-');
    }
}

/// The cells of a key column all hold one kind of value: all strings (or
/// nulls), or all integers (or nulls).
pub open spec fn one_kind(l: Seq<SpecScalar>, r: Seq<SpecScalar>) -> bool {
    ||| (forall|i: int| 0 <= i < l.len() ==> (#[trigger] l[i] is Str || l[i] is Null)) && (forall|j: int|
        0 <= j < r.len() ==> (#[trigger] r[j] is Str || r[j] is Null))
    ||| (forall|i: int| 0 <= i < l.len() ==> (#[trigger] l[i] is Int || l[i] is Null)) && (forall|j: int|
        0 <= j < r.len() ==> (#[trigger] r[j] is Int || r[j] is Null))
}

/// The keys of two cells of one kind are equal and not null exactly when
/// the cells are equal and not null.
proof fn lemma_key_equal(a: SpecScalar, b: SpecScalar, o1: Option<DataType>, o2: Option<DataType>)
    requires
        (a is Str || a is Null) && (b is Str || b is Null) || (a is Int || a is Null) && (b is Int || b is Null),
        crate::join::key_of(a, o1) is Ok,
        crate::join::key_of(b, o2) is Ok,
    ensures
        (crate::join::key_of(a, o1)->Ok_0 is Some && crate::join::key_of(a, o1)->Ok_0 == crate::join::key_of(b, o2)->Ok_0)
            <==> (!(a is Null) && a == b),
{
    if a is Int && b is Int {
        if crate::join::key_of(a, o1)->Ok_0 == crate::join::key_of(b, o2)->Ok_0 {
            lemma_int_text_injective(a->Int_0 as int, b->Int_0 as int);
        }
    }
}

proof fn lemma_matches_complete(key: Option<Seq<char>>, rk: Seq<Option<Seq<char>>>, m: int, j: int)
    requires
        0 <= j < m <= rk.len(),
        key is Some,
        rk[j] == key,
    ensures
        exists|q: int| 0 <= q < crate::join::matches_of(key, rk, m).len() && #[trigger] crate::join::matches_of(key, rk, m)[q] == j,
    decreases m,
{
    let prev = crate::join::matches_of(key, rk, m - 1);
    if j < m - 1 {
        lemma_matches_complete(key, rk, m - 1, j);
        let q = choose|q: int| 0 <= q < prev.len() && #[trigger] prev[q] == j;
        assert(crate::join::matches_of(key, rk, m)[q] == j);
    } else {
        assert(crate::join::matches_of(key, rk, m)[prev.len() as int] == j);
    }
}

proof fn lemma_pairs_complete(lk: Seq<Option<Seq<char>>>, rk: Seq<Option<Seq<char>>>, n: int, i: int, j: int)
    requires
        0 <= i < n <= lk.len(),
        0 <= j < rk.len(),
        lk[i] is Some,
        lk[i] == rk[j],
    ensures
        exists|p: int| 0 <= p < join_pairs(lk, rk, n).len() && #[trigger] join_pairs(lk, rk, n)[p] == (i, j),
    decreases n,
{
    let prev = join_pairs(lk, rk, n - 1);
    if i < n - 1 {
        lemma_pairs_complete(lk, rk, n - 1, i, j);
        let p = choose|p: int| 0 <= p < prev.len() && #[trigger] prev[p] == (i, j);
        assert(join_pairs(lk, rk, n)[p] == (i, j));
    } else {
        let ms = crate::join::matches_of(lk[n - 1], rk, rk.len() as int);
        lemma_matches_complete(lk[n - 1], rk, rk.len() as int, j);
        let q = choose|q: int| 0 <= q < ms.len() && #[trigger] ms[q] == j;
        assert(join_pairs(lk, rk, n)[prev.len() + q] == (i, j));
    }
}

/// A join pairs exactly the rows whose key cells are equal and not null:
/// every pair it makes has equal, non-null key cells, and every left row
/// is paired with every right row whose key cell equals its own (for key
/// columns that hold strings, or integers).
pub proof fn law_join_pairs_equal_cells(
    lv: Seq<SpecScalar>,
    rv: Seq<SpecScalar>,
    o1: Option<DataType>,
    o2: Option<DataType>,
    lk: Seq<Option<Seq<char>>>,
    rk: Seq<Option<Seq<char>>>,
)
    requires
        lv.len() == lk.len(),
        rv.len() == rk.len(),
        one_kind(lv, rv),
        forall|i: int| 0 <= i < lv.len() ==> crate::join::key_of(#[trigger] lv[i], o1) == Ok::<Option<Seq<char>>, ExecError>(lk[i]),
        forall|j: int| 0 <= j < rv.len() ==> crate::join::key_of(#[trigger] rv[j], o2) == Ok::<Option<Seq<char>>, ExecError>(rk[j]),
    ensures
        forall|p: int|
            0 <= p < join_pairs(lk, rk, lk.len() as int).len() ==> {
                let (i, j) = #[trigger] join_pairs(lk, rk, lk.len() as int)[p];
                &&& 0 <= i < lv.len()
                &&& 0 <= j < rv.len()
                &&& !(lv[i] is Null)
                &&& lv[i] == rv[j]
            },
        forall|i: int, j: int|
            0 <= i < lv.len() && 0 <= j < rv.len() && !(#[trigger] lv[i] is Null) && lv[i] == #[trigger] rv[j] ==> exists|p: int|
                0 <= p < join_pairs(lk, rk, lk.len() as int).len() && #[trigger] join_pairs(lk, rk, lk.len() as int)[p] == (
                    i,
                    j,
                ),
{
    let n = lk.len() as int;
    let ps = join_pairs(lk, rk, n);
    assert forall|p: int| 0 <= p < ps.len() implies {
        let (i, j) = #[trigger] ps[p];
        &&& 0 <= i < lv.len()
        &&& 0 <= j < rv.len()
        &&& !(lv[i] is Null)
        &&& lv[i] == rv[j]
    } by {
        crate::laws::law_join_keys_match(lk, rk, n, p);
        crate::join::lemma_pairs_in_range(lk, rk, n, p);
        let (i, j) = ps[p];
        assert(crate::join::key_of(lv[i], o1) == Ok::<Option<Seq<char>>, ExecError>(lk[i]));
        assert(crate::join::key_of(rv[j], o2) == Ok::<Option<Seq<char>>, ExecError>(rk[j]));
        lemma_key_equal(lv[i], rv[j], o1, o2);
    }
    assert forall|i: int, j: int|
        0 <= i < lv.len() && 0 <= j < rv.len() && !(#[trigger] lv[i] is Null) && lv[i] == #[trigger] rv[j] implies exists|p: int|
        0 <= p < ps.len() && #[trigger] ps[p] == (i, j) by {
        assert(crate::join::key_of(lv[i], o1) == Ok::<Option<Seq<char>>, ExecError>(lk[i]));
        assert(crate::join::key_of(rv[j], o2) == Ok::<Option<Seq<char>>, ExecError>(rk[j]));
        lemma_key_equal(lv[i], rv[j], o1, o2);
        lemma_pairs_complete(lk, rk, n, i, j);
    }
}


// ── The least and greatest values of a group ─────────────────────────────────

/// Row `q` belongs to group `g`: its GROUP BY cells are the group's key.
pub open spec fn in_group(kc: Seq<SpecColumn>, q: int, g: SpecGroup) -> bool {
    crate::agg::row_key(kc, q) == g.key
}

/// What the state of aggregate `k` of group `g` knows of the integer
/// argument cells `col` of rows `0..r`: it has seen a value exactly when
/// one of the group's rows holds one, its least and greatest are values of
/// the group's rows, and no value of the group's rows is below the least
/// or above the greatest.
pub open spec fn extremes_ok(g: SpecGroup, kc: Seq<SpecColumn>, col: Seq<SpecScalar>, k: int, r: int) -> bool {
    let a = g.accs[k];
    &&& a.count >= 0
    &&& a.count > 0 ==> a.min is Int && a.max is Int
    &&& a.count > 0 ==> exists|q: int| 0 <= q < r && #[trigger] in_group(kc, q, g) && col[q] == a.min
    &&& a.count > 0 ==> exists|q: int| 0 <= q < r && #[trigger] in_group(kc, q, g) && col[q] == a.max
    &&& forall|q: int|
        0 <= q < r && #[trigger] in_group(kc, q, g) && col[q] is Int ==> a.count > 0 && a.min is Int && a.max is Int
            && a.min->Int_0 <= col[q]->Int_0 <= a.max->Int_0
}

/// Row `q` belongs to one of the groups.
pub open spec fn has_group(gs: Seq<SpecGroup>, kc: Seq<SpecColumn>, q: int) -> bool {
    exists|i: int| 0 <= i < gs.len() && #[trigger] in_group(kc, q, gs[i])
}

/// Every row before `r` has a group, and every group's state is right
/// about its rows so far.
pub open spec fn fold_ok(gs: Seq<SpecGroup>, kc: Seq<SpecColumn>, col: Seq<SpecScalar>, k: int, r: int) -> bool {
    &&& crate::laws::keys_distinct(gs)
    &&& forall|i: int| 0 <= i < gs.len() ==> k < (#[trigger] gs[i]).accs.len()
    &&& forall|q: int| 0 <= q < r ==> #[trigger] has_group(gs, kc, q)
    &&& forall|i: int| 0 <= i < gs.len() ==> extremes_ok(#[trigger] gs[i], kc, col, k, r)
}

proof fn lemma_acc_extremes(a: crate::agg::SpecAcc, f: crate::ast::AggFunc, c: SpecScalar)
    requires
        f != crate::ast::AggFunc::Count,
        c is Int || c is Null,
        a.count >= 0,
        a.count > 0 ==> a.min is Int && a.max is Int,
    ensures
        ({
            let n = crate::agg::acc_after(a, f, c);
            &&& c is Null ==> n == a
            &&& c is Int ==> n.count == a.count + 1 && n.min is Int && n.max is Int
            &&& c is Int ==> (n.min == c || (a.count > 0 && n.min == a.min))
            &&& c is Int ==> (n.max == c || (a.count > 0 && n.max == a.max))
            &&& c is Int ==> n.min->Int_0 <= c->Int_0 <= n.max->Int_0
            &&& (c is Int && a.count > 0) ==> n.min->Int_0 <= a.min->Int_0 && a.max->Int_0 <= n.max->Int_0
        }),
{
}

proof fn lemma_step_row_ok(gs: Seq<SpecGroup>, kc: Seq<SpecColumn>, ac: Seq<SpecColumn>, funcs: Seq<crate::ast::AggFunc>, k: int, r: int)
    requires
        0 <= r,
        0 <= k < funcs.len(),
        funcs[k] != crate::ast::AggFunc::Count,
        ac[k].values[r] is Int || ac[k].values[r] is Null,
        fold_ok(gs, kc, ac[k].values, k, r),
        forall|i: int| 0 <= i < gs.len() ==> (#[trigger] gs[i]).accs.len() == funcs.len(),
    ensures
        crate::agg::step_row(gs, kc, ac, funcs, r) matches Ok(g) ==> fold_ok(g, kc, ac[k].values, k, r + 1) && forall|i: int|
            0 <= i < g.len() ==> (#[trigger] g[i]).accs.len() == funcs.len(),
{
    let col = ac[k].values;
    let key = crate::agg::row_key(kc, r);
    let c = col[r];
    crate::laws::lemma_find_from(gs, key, 0);
    match crate::agg::step_row(gs, kc, ac, funcs, r) {
        Ok(g) => {
            crate::laws::lemma_step_row_distinct(gs, kc, ac, funcs, r);
            match crate::agg::find_from(gs, key, 0) {
                Some(i) => {
                    let na = crate::agg::step_accs(gs[i].accs, funcs, ac, r)->Ok_0;
                    assert(g == gs.update(i, crate::agg::SpecGroup { key: gs[i].key, accs: na }));
                    assert(na[k] == crate::agg::acc_after(gs[i].accs[k], funcs[k], c));
                    assert(extremes_ok(gs[i], kc, col, k, r));
                    lemma_acc_extremes(gs[i].accs[k], funcs[k], c);
                    assert forall|j: int| 0 <= j < g.len() implies extremes_ok(#[trigger] g[j], kc, col, k, r + 1) by {
                        assert(extremes_ok(gs[j], kc, col, k, r));
                        if j == i {
                            assert(in_group(kc, r, g[j]));
                            let a = gs[i].accs[k];
                            let b = g[j].accs[k];
                            assert forall|q: int| 0 <= q < r + 1 && #[trigger] in_group(kc, q, g[j]) && col[q] is Int implies b.count
                                > 0 && b.min is Int && b.max is Int && b.min->Int_0 <= col[q]->Int_0 <= b.max->Int_0 by {
                                if q < r {
                                    assert(in_group(kc, q, gs[i]));
                                }
                            }
                            if b.count > 0 {
                                if c is Int {
                                    if b.min == c {
                                        assert(in_group(kc, r, g[j]) && col[r] == b.min);
                                    } else {
                                        let q = choose|q: int| 0 <= q < r && #[trigger] in_group(kc, q, gs[i]) && col[q] == a.min;
                                        assert(in_group(kc, q, g[j]));
                                    }
                                    if b.max == c {
                                        assert(in_group(kc, r, g[j]) && col[r] == b.max);
                                    } else {
                                        let q = choose|q: int| 0 <= q < r && #[trigger] in_group(kc, q, gs[i]) && col[q] == a.max;
                                        assert(in_group(kc, q, g[j]));
                                    }
                                } else {
                                    let q = choose|q: int| 0 <= q < r && #[trigger] in_group(kc, q, gs[i]) && col[q] == a.min;
                                    assert(in_group(kc, q, g[j]));
                                    let q2 = choose|q2: int| 0 <= q2 < r && #[trigger] in_group(kc, q2, gs[i]) && col[q2] == a.max;
                                    assert(in_group(kc, q2, g[j]));
                                }
                            }
                        } else {
                            assert(g[j] == gs[j]);
                            assert(gs[j].key != gs[i].key);
                            assert(!in_group(kc, r, g[j]));
                            assert forall|q: int| 0 <= q < r + 1 && #[trigger] in_group(kc, q, g[j]) && col[q] is Int implies g[j].accs[k].count
                                > 0 && g[j].accs[k].min is Int && g[j].accs[k].max is Int && g[j].accs[k].min->Int_0 <= col[q]->Int_0
                                <= g[j].accs[k].max->Int_0 by {
                                assert(q < r);
                            }
                        }
                    }
                    assert forall|q: int| 0 <= q < r + 1 implies has_group(g, kc, q) by {
                        if q == r {
                            assert(in_group(kc, r, g[i as int]));
                        } else {
                            assert(has_group(gs, kc, q));
                            let j = choose|j: int| 0 <= j < gs.len() && #[trigger] in_group(kc, q, gs[j]);
                            assert(g[j].key == gs[j].key);
                            assert(in_group(kc, q, g[j]));
                        }
                    }
                },
                None => {
                    let fr = crate::agg::fresh_accs(funcs.len());
                    let na = crate::agg::step_accs(fr, funcs, ac, r)->Ok_0;
                    let ng = crate::agg::SpecGroup { key, accs: na };
                    assert(g == gs.push(ng));
                    assert(na[k] == crate::agg::acc_after(fr[k], funcs[k], c));
                    lemma_acc_extremes(fr[k], funcs[k], c);
                    assert forall|j: int| 0 <= j < g.len() implies extremes_ok(#[trigger] g[j], kc, col, k, r + 1) by {
                        if j == gs.len() {
                            assert(in_group(kc, r, g[j]));
                            assert forall|q: int| 0 <= q < r + 1 && #[trigger] in_group(kc, q, g[j]) implies q == r by {
                                if q < r {
                                    assert(has_group(gs, kc, q));
                                    let i = choose|i: int| 0 <= i < gs.len() && #[trigger] in_group(kc, q, gs[i]);
                                    assert(gs[i].key == key);
                                }
                            }
                            if na[k].count > 0 {
                                assert(in_group(kc, r, g[j]) && col[r] == na[k].min);
                                assert(in_group(kc, r, g[j]) && col[r] == na[k].max);
                            }
                        } else {
                            assert(g[j] == gs[j]);
                            assert(extremes_ok(gs[j], kc, col, k, r));
                            assert(!in_group(kc, r, g[j]));
                            assert forall|q: int| 0 <= q < r + 1 && #[trigger] in_group(kc, q, g[j]) && col[q] is Int implies g[j].accs[k].count
                                > 0 && g[j].accs[k].min is Int && g[j].accs[k].max is Int && g[j].accs[k].min->Int_0 <= col[q]->Int_0
                                <= g[j].accs[k].max->Int_0 by {
                                assert(q < r);
                            }
                        }
                    }
                    assert forall|q: int| 0 <= q < r + 1 implies has_group(g, kc, q) by {
                        if q == r {
                            assert(in_group(kc, r, g[gs.len() as int]));
                        } else {
                            assert(has_group(gs, kc, q));
                            let j = choose|j: int| 0 <= j < gs.len() && #[trigger] in_group(kc, q, gs[j]);
                            assert(g[j] == gs[j]);
                        }
                    }
                },
            }
        },
        Err(_) => {},
    }
}

proof fn lemma_fold_ok(gs: Seq<SpecGroup>, kc: Seq<SpecColumn>, ac: Seq<SpecColumn>, funcs: Seq<crate::ast::AggFunc>, k: int, r: int, n: int)
    requires
        0 <= r <= n,
        0 <= k < funcs.len(),
        funcs[k] != crate::ast::AggFunc::Count,
        forall|q: int| 0 <= q < n ==> (#[trigger] ac[k].values[q] is Int || ac[k].values[q] is Null),
        fold_ok(gs, kc, ac[k].values, k, r),
        forall|i: int| 0 <= i < gs.len() ==> (#[trigger] gs[i]).accs.len() == funcs.len(),
    ensures
        crate::agg::fold_rows(gs, kc, ac, funcs, r, n) matches Ok(g) ==> fold_ok(g, kc, ac[k].values, k, n),
    decreases n - r,
{
    if r < n {
        assert(ac[k].values[r] is Int || ac[k].values[r] is Null);
        lemma_step_row_ok(gs, kc, ac, funcs, k, r);
        match crate::agg::step_row(gs, kc, ac, funcs, r) {
            Ok(g) => {
                lemma_fold_ok(g, kc, ac, funcs, k, r + 1, n);
            },
            Err(_) => {},
        }
    }
}

/// MIN and MAX of an integer argument: for every group that folding rows
/// `0..n` makes, MIN's output cell is null exactly when none of the group's
/// rows has a value; otherwise it is one of the group's values, and no value
/// of the group is below it.  Dually for MAX.
pub proof fn law_min_max_ints(
    kc: Seq<SpecColumn>,
    ac: Seq<SpecColumn>,
    funcs: Seq<crate::ast::AggFunc>,
    k: int,
    n: int,
    g: Seq<SpecGroup>,
)
    requires
        0 <= n,
        0 <= k < funcs.len(),
        funcs[k] == crate::ast::AggFunc::Min || funcs[k] == crate::ast::AggFunc::Max,
        forall|q: int| 0 <= q < n ==> (#[trigger] ac[k].values[q] is Int || ac[k].values[q] is Null),
        crate::agg::fold_rows(Seq::empty(), kc, ac, funcs, 0, n) == Ok::<Seq<SpecGroup>, ExecError>(g),
    ensures
        forall|q: int| 0 <= q < n ==> #[trigger] has_group(g, kc, q),
        forall|i: int|
            0 <= i < g.len() ==> {
                let lo = crate::agg::agg_cell(crate::ast::AggFunc::Min, #[trigger] g[i].accs[k]);
                let hi = crate::agg::agg_cell(crate::ast::AggFunc::Max, g[i].accs[k]);
                &&& lo is Null <==> (forall|q: int| 0 <= q < n && in_group(kc, q, g[i]) ==> ac[k].values[q] is Null)
                &&& hi is Null <==> (forall|q: int| 0 <= q < n && in_group(kc, q, g[i]) ==> ac[k].values[q] is Null)
                &&& !(lo is Null) ==> lo->Ratio_1 == 1 && exists|q: int|
                    0 <= q < n && in_group(kc, q, g[i]) && ac[k].values[q] is Int && lo->Ratio_0 == ac[k].values[q]->Int_0 as i128
                &&& !(hi is Null) ==> hi->Ratio_1 == 1 && exists|q: int|
                    0 <= q < n && in_group(kc, q, g[i]) && ac[k].values[q] is Int && hi->Ratio_0 == ac[k].values[q]->Int_0 as i128
                &&& forall|q: int|
                    0 <= q < n && in_group(kc, q, g[i]) && #[trigger] ac[k].values[q] is Int ==> lo->Ratio_0 <= ac[k].values[q]->Int_0
                        as i128 <= hi->Ratio_0
            },
{
    let col = ac[k].values;
    assert(fold_ok(Seq::empty(), kc, col, k, 0));
    lemma_fold_ok(Seq::empty(), kc, ac, funcs, k, 0, n);
    assert forall|i: int| 0 <= i < g.len() implies {
        let lo = crate::agg::agg_cell(crate::ast::AggFunc::Min, #[trigger] g[i].accs[k]);
        let hi = crate::agg::agg_cell(crate::ast::AggFunc::Max, g[i].accs[k]);
        &&& lo is Null <==> (forall|q: int| 0 <= q < n && in_group(kc, q, g[i]) ==> ac[k].values[q] is Null)
        &&& hi is Null <==> (forall|q: int| 0 <= q < n && in_group(kc, q, g[i]) ==> ac[k].values[q] is Null)
        &&& !(lo is Null) ==> lo->Ratio_1 == 1 && exists|q: int|
            0 <= q < n && in_group(kc, q, g[i]) && ac[k].values[q] is Int && lo->Ratio_0 == ac[k].values[q]->Int_0 as i128
        &&& !(hi is Null) ==> hi->Ratio_1 == 1 && exists|q: int|
            0 <= q < n && in_group(kc, q, g[i]) && ac[k].values[q] is Int && hi->Ratio_0 == ac[k].values[q]->Int_0 as i128
        &&& forall|q: int|
            0 <= q < n && in_group(kc, q, g[i]) && #[trigger] ac[k].values[q] is Int ==> lo->Ratio_0 <= ac[k].values[q]->Int_0
                as i128 <= hi->Ratio_0
    } by {
        assert(extremes_ok(g[i], kc, col, k, n));
        let a = g[i].accs[k];
        if a.count > 0 {
            let q = choose|q: int| 0 <= q < n && #[trigger] in_group(kc, q, g[i]) && col[q] == a.min;
            let q2 = choose|q2: int| 0 <= q2 < n && #[trigger] in_group(kc, q2, g[i]) && col[q2] == a.max;
            assert(!(ac[k].values[q] is Null));
        } else {
            assert forall|q: int| 0 <= q < n && in_group(kc, q, g[i]) implies ac[k].values[q] is Null by {
                assert(ac[k].values[q] is Int || ac[k].values[q] is Null);
            }
        }
    }
}


// ── COUNT, SUM and AVG of a group ────────────────────────────────────────────

/// How many of rows `0..r` belong to the group keyed `key` and hold a
/// non-null argument.
pub open spec fn group_count(kc: Seq<SpecColumn>, col: Seq<SpecScalar>, key: Seq<SpecScalar>, r: int) -> int
    decreases r,
{
    if r <= 0 {
        0
    } else {
        group_count(kc, col, key, r - 1) + if crate::agg::row_key(kc, r - 1) == key && !(col[r - 1] is Null) {
            1int
        } else {
            0int
        }
    }
}

/// The sum of the integer arguments of rows `0..r` of the group keyed `key`.
pub open spec fn group_sum(kc: Seq<SpecColumn>, col: Seq<SpecScalar>, key: Seq<SpecScalar>, r: int) -> int
    decreases r,
{
    if r <= 0 {
        0
    } else {
        group_sum(kc, col, key, r - 1) + if crate::agg::row_key(kc, r - 1) == key && col[r - 1] is Int {
            col[r - 1]->Int_0 as int
        } else {
            0int
        }
    }
}

proof fn lemma_group_none(kc: Seq<SpecColumn>, col: Seq<SpecScalar>, key: Seq<SpecScalar>, r: int)
    requires
        forall|q: int| 0 <= q < r ==> #[trigger] crate::agg::row_key(kc, q) != key,
    ensures
        group_count(kc, col, key, r) == 0,
        group_sum(kc, col, key, r) == 0,
    decreases r,
{
    if r > 0 {
        assert(crate::agg::row_key(kc, r - 1) != key);
        lemma_group_none(kc, col, key, r - 1);
    }
}

/// What the state of aggregate `k` of group `g` knows of rows `0..r`: how
/// many of its rows hold a value, and (unless `count_only`) their sum.
pub open spec fn sums_ok(g: SpecGroup, kc: Seq<SpecColumn>, col: Seq<SpecScalar>, k: int, r: int, count_only: bool) -> bool {
    let a = g.accs[k];
    &&& a.count == group_count(kc, col, g.key, r)
    &&& 0 <= a.count <= i64::MAX
    &&& !count_only ==> a.sum == group_sum(kc, col, g.key, r) && a.dsum is None && i128::MIN <= a.sum <= i128::MAX
}

pub open spec fn sums_fold_ok(gs: Seq<SpecGroup>, kc: Seq<SpecColumn>, col: Seq<SpecScalar>, k: int, r: int, count_only: bool) -> bool {
    &&& crate::laws::keys_distinct(gs)
    &&& forall|i: int| 0 <= i < gs.len() ==> k < (#[trigger] gs[i]).accs.len()
    &&& forall|q: int| 0 <= q < r ==> #[trigger] has_group(gs, kc, q)
    &&& forall|i: int| 0 <= i < gs.len() ==> sums_ok(#[trigger] gs[i], kc, col, k, r, count_only)
}

proof fn lemma_step_row_sums(gs: Seq<SpecGroup>, kc: Seq<SpecColumn>, ac: Seq<SpecColumn>, funcs: Seq<crate::ast::AggFunc>, k: int, r: int)
    requires
        0 <= r,
        0 <= k < funcs.len(),
        funcs[k] != crate::ast::AggFunc::Count ==> (ac[k].values[r] is Int || ac[k].values[r] is Null),
        sums_fold_ok(gs, kc, ac[k].values, k, r, funcs[k] == crate::ast::AggFunc::Count),
        forall|i: int| 0 <= i < gs.len() ==> (#[trigger] gs[i]).accs.len() == funcs.len(),
    ensures
        crate::agg::step_row(gs, kc, ac, funcs, r) matches Ok(g) ==> sums_fold_ok(
            g,
            kc,
            ac[k].values,
            k,
            r + 1,
            funcs[k] == crate::ast::AggFunc::Count,
        ) && forall|i: int| 0 <= i < g.len() ==> (#[trigger] g[i]).accs.len() == funcs.len(),
{
    let col = ac[k].values;
    let co = funcs[k] == crate::ast::AggFunc::Count;
    let key = crate::agg::row_key(kc, r);
    let c = col[r];
    crate::laws::lemma_find_from(gs, key, 0);
    match crate::agg::step_row(gs, kc, ac, funcs, r) {
        Ok(g) => {
            crate::laws::lemma_step_row_distinct(gs, kc, ac, funcs, r);
            match crate::agg::find_from(gs, key, 0) {
                Some(i) => {
                    let na = crate::agg::step_accs(gs[i].accs, funcs, ac, r)->Ok_0;
                    assert(g == gs.update(i, SpecGroup { key: gs[i].key, accs: na }));
                    assert(na[k] == crate::agg::acc_after(gs[i].accs[k], funcs[k], c));
                    assert(crate::agg::acc_fits(gs[i].accs[k], funcs[k], c));
                    assert forall|j: int| 0 <= j < g.len() implies sums_ok(#[trigger] g[j], kc, col, k, r + 1, co) by {
                        assert(sums_ok(gs[j], kc, col, k, r, co));
                        if j != i {
                            assert(g[j] == gs[j]);
                            assert(gs[j].key != gs[i].key);
                        }
                    }
                    assert forall|q: int| 0 <= q < r + 1 implies has_group(g, kc, q) by {
                        if q == r {
                            assert(in_group(kc, r, g[i as int]));
                        } else {
                            assert(has_group(gs, kc, q));
                            let j = choose|j: int| 0 <= j < gs.len() && #[trigger] in_group(kc, q, gs[j]);
                            assert(g[j].key == gs[j].key);
                            assert(in_group(kc, q, g[j]));
                        }
                    }
                },
                None => {
                    let fr = crate::agg::fresh_accs(funcs.len());
                    let na = crate::agg::step_accs(fr, funcs, ac, r)->Ok_0;
                    let ng = SpecGroup { key, accs: na };
                    assert(g == gs.push(ng));
                    assert(na[k] == crate::agg::acc_after(fr[k], funcs[k], c));
                    assert(crate::agg::acc_fits(fr[k], funcs[k], c));
                    assert forall|q: int| 0 <= q < r implies #[trigger] crate::agg::row_key(kc, q) != key by {
                        assert(has_group(gs, kc, q));
                        let j = choose|j: int| 0 <= j < gs.len() && #[trigger] in_group(kc, q, gs[j]);
                    }
                    lemma_group_none(kc, col, key, r);
                    assert forall|j: int| 0 <= j < g.len() implies sums_ok(#[trigger] g[j], kc, col, k, r + 1, co) by {
                        if j < gs.len() {
                            assert(g[j] == gs[j]);
                            assert(sums_ok(gs[j], kc, col, k, r, co));
                        }
                    }
                    assert forall|q: int| 0 <= q < r + 1 implies has_group(g, kc, q) by {
                        if q == r {
                            assert(in_group(kc, r, g[gs.len() as int]));
                        } else {
                            assert(has_group(gs, kc, q));
                            let j = choose|j: int| 0 <= j < gs.len() && #[trigger] in_group(kc, q, gs[j]);
                            assert(g[j] == gs[j]);
                        }
                    }
                },
            }
        },
        Err(_) => {},
    }
}

proof fn lemma_fold_sums(gs: Seq<SpecGroup>, kc: Seq<SpecColumn>, ac: Seq<SpecColumn>, funcs: Seq<crate::ast::AggFunc>, k: int, r: int, n: int)
    requires
        0 <= r <= n,
        0 <= k < funcs.len(),
        funcs[k] != crate::ast::AggFunc::Count ==> forall|q: int| 0 <= q < n ==> (#[trigger] ac[k].values[q] is Int || ac[k].values[q] is Null),
        sums_fold_ok(gs, kc, ac[k].values, k, r, funcs[k] == crate::ast::AggFunc::Count),
        forall|i: int| 0 <= i < gs.len() ==> (#[trigger] gs[i]).accs.len() == funcs.len(),
    ensures
        crate::agg::fold_rows(gs, kc, ac, funcs, r, n) matches Ok(g) ==> sums_fold_ok(
            g,
            kc,
            ac[k].values,
            k,
            n,
            funcs[k] == crate::ast::AggFunc::Count,
        ),
    decreases n - r,
{
    if r < n {
        if funcs[k] != crate::ast::AggFunc::Count {
            assert(ac[k].values[r] is Int || ac[k].values[r] is Null);
        }
        lemma_step_row_sums(gs, kc, ac, funcs, k, r);
        match crate::agg::step_row(gs, kc, ac, funcs, r) {
            Ok(g) => {
                lemma_fold_sums(g, kc, ac, funcs, k, r + 1, n);
            },
            Err(_) => {},
        }
    }
}

/// COUNT, SUM and AVG: for every group that folding rows `0..n` makes,
/// COUNT's output is the number of the group's rows whose argument is not
/// null (for COUNT(*), whose argument is never null, the number of its
/// rows); for an integer argument, SUM's output is the sum of the group's
/// values, and AVG's that sum over their number, or null when there is
/// none.
pub proof fn law_count_sum_avg(kc: Seq<SpecColumn>, ac: Seq<SpecColumn>, funcs: Seq<crate::ast::AggFunc>, k: int, n: int, g: Seq<SpecGroup>)
    requires
        0 <= n,
        0 <= k < funcs.len(),
        funcs[k] != crate::ast::AggFunc::Count ==> forall|q: int| 0 <= q < n ==> (#[trigger] ac[k].values[q] is Int || ac[k].values[q] is Null),
        crate::agg::fold_rows(Seq::empty(), kc, ac, funcs, 0, n) == Ok::<Seq<SpecGroup>, ExecError>(g),
    ensures
        forall|q: int| 0 <= q < n ==> #[trigger] has_group(g, kc, q),
        forall|i: int|
            0 <= i < g.len() ==> {
                let c = group_count(kc, ac[k].values, (#[trigger] g[i]).key, n);
                let t = group_sum(kc, ac[k].values, g[i].key, n);
                &&& funcs[k] == crate::ast::AggFunc::Count ==> crate::agg::agg_cell(funcs[k], g[i].accs[k]) == SpecScalar::Int(c as i64)
                    && 0 <= c <= i64::MAX
                &&& funcs[k] == crate::ast::AggFunc::Sum ==> crate::agg::agg_cell(funcs[k], g[i].accs[k]) == SpecScalar::Ratio(t as i128, 1)
                    && i128::MIN <= t <= i128::MAX
                &&& funcs[k] == crate::ast::AggFunc::Avg ==> crate::agg::agg_cell(funcs[k], g[i].accs[k]) == if c == 0 {
                    SpecScalar::Null
                } else {
                    SpecScalar::Ratio(t as i128, c as u64)
                }
            },
{
    let col = ac[k].values;
    let co = funcs[k] == crate::ast::AggFunc::Count;
    assert(sums_fold_ok(Seq::empty(), kc, col, k, 0, co));
    lemma_fold_sums(Seq::empty(), kc, ac, funcs, k, 0, n);
    assert forall|i: int| 0 <= i < g.len() implies {
        let c = group_count(kc, ac[k].values, (#[trigger] g[i]).key, n);
        let t = group_sum(kc, ac[k].values, g[i].key, n);
        &&& funcs[k] == crate::ast::AggFunc::Count ==> crate::agg::agg_cell(funcs[k], g[i].accs[k]) == SpecScalar::Int(c as i64)
            && 0 <= c <= i64::MAX
        &&& funcs[k] == crate::ast::AggFunc::Sum ==> crate::agg::agg_cell(funcs[k], g[i].accs[k]) == SpecScalar::Ratio(t as i128, 1)
            && i128::MIN <= t <= i128::MAX
        &&& funcs[k] == crate::ast::AggFunc::Avg ==> crate::agg::agg_cell(funcs[k], g[i].accs[k]) == if c == 0 {
            SpecScalar::Null
        } else {
            SpecScalar::Ratio(t as i128, c as u64)
        }
    } by {
        assert(sums_ok(g[i], kc, col, k, n, co));
    }
}


proof fn lemma_matches_increasing(key: Option<Seq<char>>, rk: Seq<Option<Seq<char>>>, m: int)
    requires
        0 <= m <= rk.len(),
    ensures
        forall|p: int, q: int|
            0 <= p < q < crate::join::matches_of(key, rk, m).len() ==> #[trigger] crate::join::matches_of(key, rk, m)[p]
                < #[trigger] crate::join::matches_of(key, rk, m)[q],
    decreases m,
{
    if m > 0 {
        lemma_matches_increasing(key, rk, m - 1);
        let prev = crate::join::matches_of(key, rk, m - 1);
        let ms = crate::join::matches_of(key, rk, m);
        assert forall|p: int, q: int| 0 <= p < q < ms.len() implies #[trigger] ms[p] < #[trigger] ms[q] by {
            crate::join::lemma_matches_in_range(key, rk, m - 1, p);
            if q < prev.len() {
                assert(ms[p] == prev[p] && ms[q] == prev[q]);
            } else {
                assert(ms[q] == m - 1);
                assert(ms[p] == prev[p]);
            }
        }
    }
}

/// A join's pairs come in the order of their left rows, and for one left
/// row in the order of its right rows.
pub proof fn law_join_pair_order(lk: Seq<Option<Seq<char>>>, rk: Seq<Option<Seq<char>>>, n: int)
    requires
        0 <= n <= lk.len(),
    ensures
        forall|p: int, q: int|
            0 <= p < q < join_pairs(lk, rk, n).len() ==> (#[trigger] join_pairs(lk, rk, n)[p]).0 < (#[trigger] join_pairs(
                lk,
                rk,
                n,
            )[q]).0 || (join_pairs(lk, rk, n)[p].0 == join_pairs(lk, rk, n)[q].0 && join_pairs(lk, rk, n)[p].1
                < join_pairs(lk, rk, n)[q].1),
    decreases n,
{
    if n > 0 {
        law_join_pair_order(lk, rk, n - 1);
        let prev = join_pairs(lk, rk, n - 1);
        let ms = crate::join::matches_of(lk[n - 1], rk, rk.len() as int);
        lemma_matches_increasing(lk[n - 1], rk, rk.len() as int);
        let ps = join_pairs(lk, rk, n);
        assert forall|p: int, q: int| 0 <= p < q < ps.len() implies (#[trigger] ps[p]).0 < (#[trigger] ps[q]).0 || (ps[p].0
            == ps[q].0 && ps[p].1 < ps[q].1) by {
            if q < prev.len() {
                assert(ps[p] == prev[p] && ps[q] == prev[q]);
            } else if p < prev.len() {
                crate::join::lemma_pairs_in_range(lk, rk, n - 1, p);
                assert(ps[p] == prev[p]);
                assert(ps[q].0 == n - 1);
            } else {
                assert(ps[p] == (n - 1, ms[p - prev.len()]));
                assert(ps[q] == (n - 1, ms[q - prev.len()]));
            }
        }
    }
}

// ── The rows a filter keeps ──────────────────────────────────────────────────

/// `idx` lists, in increasing order, exactly the positions whose mask cell
/// is `true`, and `res` holds the cells of `vs` at those positions.
pub open spec fn picks(idx: Seq<int>, vs: Seq<SpecScalar>, mask: Seq<SpecScalar>, res: Seq<SpecScalar>) -> bool {
    &&& idx.len() == res.len()
    &&& forall|t: int| 0 <= t < idx.len() ==> 0 <= #[trigger] idx[t] < vs.len() && mask[idx[t]] == SpecScalar::Bool(true)
        && res[t] == vs[idx[t]]
    &&& forall|t: int, u: int| 0 <= t < u < idx.len() ==> #[trigger] idx[t] < #[trigger] idx[u]
    &&& forall|i: int| 0 <= i < vs.len() && #[trigger] mask[i] == SpecScalar::Bool(true) ==> exists|t: int|
        0 <= t < idx.len() && #[trigger] idx[t] == i
}

/// A filter keeps, in order, exactly the cells whose mask cell is `true`
/// (a `false` or null mask drops the row).
pub proof fn law_filter_values(vs: Seq<SpecScalar>, mask: Seq<SpecScalar>) -> (idx: Seq<int>)
    requires
        vs.len() == mask.len(),
    ensures
        picks(idx, vs, mask, crate::batch::filter_values(vs, mask)),
    decreases vs.len(),
{
    if vs.len() == 0 {
        let idx = Seq::<int>::empty();
        assert(crate::batch::filter_values(vs, mask) =~= Seq::<SpecScalar>::empty());
        idx
    } else {
        let n = vs.len() - 1;
        let pv = vs.drop_last();
        let pm = mask.drop_last();
        let pidx = law_filter_values(pv, pm);
        let pres = crate::batch::filter_values(pv, pm);
        if mask.last() == SpecScalar::Bool(true) {
            let idx = pidx.push(n);
            let res = pres.push(vs.last());
            assert(crate::batch::filter_values(vs, mask) == res);
            assert forall|t: int| 0 <= t < idx.len() implies 0 <= #[trigger] idx[t] < vs.len() && mask[idx[t]] == SpecScalar::Bool(
                true,
            ) && res[t] == vs[idx[t]] by {
                if t < pidx.len() {
                    assert(idx[t] == pidx[t]);
                    assert(pv[pidx[t]] == vs[pidx[t]]);
                    assert(pm[pidx[t]] == mask[pidx[t]]);
                }
            }
            assert forall|t: int, u: int| 0 <= t < u < idx.len() implies #[trigger] idx[t] < #[trigger] idx[u] by {
                assert(idx[t] == pidx[t]);
                if u < pidx.len() {
                    assert(idx[u] == pidx[u]);
                }
            }
            assert forall|i: int| 0 <= i < vs.len() && #[trigger] mask[i] == SpecScalar::Bool(true) implies exists|t: int|
                0 <= t < idx.len() && #[trigger] idx[t] == i by {
                if i == n {
                    assert(idx[pidx.len() as int] == i);
                } else {
                    assert(pm[i] == mask[i]);
                    let t = choose|t: int| 0 <= t < pidx.len() && #[trigger] pidx[t] == i;
                    assert(idx[t] == i);
                }
            }
            idx
        } else {
            assert(crate::batch::filter_values(vs, mask) == pres);
            assert forall|t: int| 0 <= t < pidx.len() implies 0 <= #[trigger] pidx[t] < vs.len() && mask[pidx[t]] == SpecScalar::Bool(
                true,
            ) && pres[t] == vs[pidx[t]] by {
                assert(pv[pidx[t]] == vs[pidx[t]]);
                assert(pm[pidx[t]] == mask[pidx[t]]);
            }
            assert forall|i: int| 0 <= i < vs.len() && #[trigger] mask[i] == SpecScalar::Bool(true) implies exists|t: int|
                0 <= t < pidx.len() && #[trigger] pidx[t] == i by {
                assert(i != n);
                assert(pm[i] == mask[i]);
            }
            pidx
        }
    }
}


// ── Integers as text ─────────────────────────────────────────────────────────

proof fn lemma_digit_value(d: nat)
    requires
        d < 10,
    ensures
        (crate::fmt::digit_char(d) as int) - ('0' as int) == d,
        crate::lexer::is_digit(crate::fmt::digit_char(d)),
{
}

proof fn lemma_nat_digits_value(n: nat)
    ensures
        crate::catalog::all_digits(crate::fmt::nat_digits(n)),
        crate::catalog::dec_value(crate::fmt::nat_digits(n)) == n,
        !crate::catalog::is_sign(crate::fmt::nat_digits(n)[0]),
        crate::fmt::nat_digits(n).len() > 0,
    decreases n,
{
    lemma_nat_digits_shape(n);
    lemma_digit_value(n % 10);
    if n < 10 {
        let d = crate::fmt::nat_digits(n);
        assert(d.drop_last() =~= Seq::<char>::empty());
        assert(n % 10 == n);
        assert(crate::catalog::dec_value(d) == crate::catalog::dec_value(d.drop_last()) * 10 + (d.last() as int - '0' as int));
        assert(crate::catalog::dec_value(Seq::<char>::empty()) == 0);
    } else {
        lemma_nat_digits_value(n / 10);
        let d = crate::fmt::nat_digits(n);
        assert(d.drop_last() =~= crate::fmt::nat_digits(n / 10));
        assert(d.last() == crate::fmt::digit_char(n % 10));
        assert forall|k: int| 0 <= k < d.len() implies crate::lexer::is_digit(#[trigger] d[k]) by {
            if k < d.len() - 1 {
                assert(d[k] == crate::fmt::nat_digits(n / 10)[k]);
            }
        }
        assert(d[0] == crate::fmt::nat_digits(n / 10)[0]);
        assert(crate::catalog::dec_value(d) == crate::catalog::dec_value(d.drop_last()) * 10 + (d.last() as int - '0' as int));
        assert((n / 10) * 10 + n % 10 == n) by (nonlinear_arith);
    }
}

/// Reading back the text of an integer (as a CSV field is read) gives the
/// integer: the text a result shows is the value it holds.
pub proof fn law_int_text_reads_back(x: int)
    ensures
        crate::catalog::spec_int_of(crate::fmt::int_text(x)) == Some(x),
{
    if x < 0 {
        let d = crate::fmt::nat_digits((-x) as nat);
        lemma_nat_digits_value((-x) as nat);
        assert(crate::fmt::int_text(x).skip(1) =~= d);
    } else {
        lemma_nat_digits_value(x as nat);
    }
}


// ── Which groups there are, and their order ──────────────────────────────────

/// The groups are those of the rows before `r`, in the order in which
/// their first rows come: every group has a row, every row has a group,
/// and for two groups, some row of the earlier one comes before every row
/// of the later one.
pub open spec fn groups_in_order(gs: Seq<SpecGroup>, kc: Seq<SpecColumn>, r: int) -> bool {
    &&& crate::laws::keys_distinct(gs)
    &&& forall|q: int| 0 <= q < r ==> #[trigger] has_group(gs, kc, q)
    &&& forall|i: int| 0 <= i < gs.len() ==> #[trigger] row_before(gs[i], kc, r)
    &&& forall|i: int, j: int, q2: int|
        #![trigger row_before(gs[i], kc, q2), in_group(kc, q2, gs[j])]
        0 <= i < j < gs.len() && 0 <= q2 < r && in_group(kc, q2, gs[j]) ==> row_before(gs[i], kc, q2)
}

/// Some row of group `g` comes before row `q2`.
pub open spec fn row_before(g: SpecGroup, kc: Seq<SpecColumn>, q2: int) -> bool {
    exists|q: int| 0 <= q < q2 && #[trigger] in_group(kc, q, g)
}

proof fn lemma_step_row_order(gs: Seq<SpecGroup>, kc: Seq<SpecColumn>, ac: Seq<SpecColumn>, funcs: Seq<crate::ast::AggFunc>, r: int)
    requires
        0 <= r,
        groups_in_order(gs, kc, r),
    ensures
        crate::agg::step_row(gs, kc, ac, funcs, r) matches Ok(g) ==> groups_in_order(g, kc, r + 1),
{
    let key = crate::agg::row_key(kc, r);
    crate::laws::lemma_find_from(gs, key, 0);
    match crate::agg::step_row(gs, kc, ac, funcs, r) {
        Ok(g) => {
            crate::laws::lemma_step_row_distinct(gs, kc, ac, funcs, r);
            assert(g.len() >= gs.len());
            assert forall|j: int| 0 <= j < gs.len() implies #[trigger] g[j].key == gs[j].key by {}
            match crate::agg::find_from(gs, key, 0) {
                Some(i) => {
                    assert(g.len() == gs.len());
                },
                None => {
                    assert(g.len() == gs.len() + 1);
                    assert(g[gs.len() as int].key == key);
                    assert forall|q: int| 0 <= q < r implies !#[trigger] in_group(kc, q, g[gs.len() as int]) by {
                        assert(has_group(gs, kc, q));
                        let j = choose|j: int| 0 <= j < gs.len() && #[trigger] in_group(kc, q, gs[j]);
                    }
                },
            }
            assert forall|q: int| 0 <= q < r + 1 implies #[trigger] has_group(g, kc, q) by {
                if q == r {
                    match crate::agg::find_from(gs, key, 0) {
                        Some(i) => {
                            assert(in_group(kc, r, g[i]));
                        },
                        None => {
                            assert(in_group(kc, r, g[gs.len() as int]));
                        },
                    }
                } else {
                    assert(has_group(gs, kc, q));
                    let j = choose|j: int| 0 <= j < gs.len() && #[trigger] in_group(kc, q, gs[j]);
                    assert(in_group(kc, q, g[j]));
                }
            }
            assert forall|i: int| 0 <= i < g.len() implies #[trigger] row_before(g[i], kc, r + 1) by {
                if i < gs.len() {
                    assert(row_before(gs[i], kc, r));
                    let q = choose|q: int| 0 <= q < r && #[trigger] in_group(kc, q, gs[i]);
                    assert(in_group(kc, q, g[i]));
                } else {
                    assert(in_group(kc, r, g[i]));
                }
            }
            assert forall|i: int, j: int, q2: int|
                #![trigger row_before(g[i], kc, q2), in_group(kc, q2, g[j])]
                0 <= i < j < g.len() && 0 <= q2 < r + 1 && in_group(kc, q2, g[j]) implies row_before(g[i], kc, q2) by {
                assert(i < gs.len());
                assert(row_before(gs[i], kc, r));
                let q0 = choose|q: int| 0 <= q < r && #[trigger] in_group(kc, q, gs[i]);
                if j < gs.len() {
                    if q2 < r {
                        assert(in_group(kc, q2, gs[j]));
                        assert(row_before(gs[i], kc, q2));
                        let q = choose|q: int| 0 <= q < q2 && #[trigger] in_group(kc, q, gs[i]);
                        assert(in_group(kc, q, g[i]));
                    } else {
                        assert(in_group(kc, q0, g[i]));
                    }
                } else {
                    if q2 < r {
                        assert(!in_group(kc, q2, g[gs.len() as int]));
                    }
                    assert(in_group(kc, q0, g[i]));
                }
            }
        },
        Err(_) => {},
    }
}

proof fn lemma_fold_order(gs: Seq<SpecGroup>, kc: Seq<SpecColumn>, ac: Seq<SpecColumn>, funcs: Seq<crate::ast::AggFunc>, r: int, n: int)
    requires
        0 <= r <= n,
        groups_in_order(gs, kc, r),
    ensures
        crate::agg::fold_rows(gs, kc, ac, funcs, r, n) matches Ok(g) ==> groups_in_order(g, kc, n),
    decreases n - r,
{
    if r < n {
        lemma_step_row_order(gs, kc, ac, funcs, r);
        match crate::agg::step_row(gs, kc, ac, funcs, r) {
            Ok(g) => {
                lemma_fold_order(g, kc, ac, funcs, r + 1, n);
            },
            Err(_) => {},
        }
    }
}

/// GROUP BY makes one group per distinct key of the rows, and no other, in
/// the order of the keys' first rows.
pub proof fn law_groups_first_occurrence(kc: Seq<SpecColumn>, ac: Seq<SpecColumn>, funcs: Seq<crate::ast::AggFunc>, n: int, g: Seq<SpecGroup>)
    requires
        0 <= n,
        crate::agg::fold_rows(Seq::empty(), kc, ac, funcs, 0, n) == Ok::<Seq<SpecGroup>, ExecError>(g),
    ensures
        groups_in_order(g, kc, n),
{
    lemma_fold_order(Seq::empty(), kc, ac, funcs, 0, n);
}


// ── SUM and AVG of doubles ───────────────────────────────────────────────────

/// The steps that add the doubles of rows `0..r` of the group keyed `key`,
/// one after another, each followed by an addition.
pub open spec fn group_adds(kc: Seq<SpecColumn>, col: Seq<SpecScalar>, key: Seq<SpecScalar>, r: int) -> Seq<crate::batch::FloatStep>
    decreases r,
{
    if r <= 0 {
        Seq::empty()
    } else {
        group_adds(kc, col, key, r - 1) + if crate::agg::row_key(kc, r - 1) == key && col[r - 1] is Float {
            seq![crate::batch::FloatStep::Bits(col[r - 1]->Float_0), crate::batch::FloatStep::Add]
        } else {
            Seq::empty()
        }
    }
}

proof fn lemma_group_adds_none(kc: Seq<SpecColumn>, col: Seq<SpecScalar>, key: Seq<SpecScalar>, r: int)
    requires
        forall|q: int| 0 <= q < r ==> #[trigger] crate::agg::row_key(kc, q) != key,
    ensures
        group_adds(kc, col, key, r) == Seq::<crate::batch::FloatStep>::empty(),
        group_count(kc, col, key, r) == 0,
    decreases r,
{
    if r > 0 {
        assert(crate::agg::row_key(kc, r - 1) != key);
        lemma_group_adds_none(kc, col, key, r - 1);
    }
}

proof fn lemma_adds_empty(kc: Seq<SpecColumn>, col: Seq<SpecScalar>, key: Seq<SpecScalar>, r: int)
    ensures
        group_count(kc, col, key, r) >= 0,
        group_count(kc, col, key, r) == 0 ==> group_adds(kc, col, key, r) == Seq::<crate::batch::FloatStep>::empty(),
    decreases r,
{
    if r > 0 {
        lemma_adds_empty(kc, col, key, r - 1);
    }
}

/// What the state of aggregate `k` of group `g` knows of the double
/// arguments of rows `0..r`: how many there are, and, once there is one,
/// the steps that add them to zero in row order.
pub open spec fn dsums_ok(g: SpecGroup, kc: Seq<SpecColumn>, col: Seq<SpecScalar>, k: int, r: int) -> bool {
    let a = g.accs[k];
    &&& a.count == group_count(kc, col, g.key, r)
    &&& 0 <= a.count <= i64::MAX
    &&& a.sum == 0
    &&& a.dsum == if a.count == 0 {
        None::<Seq<crate::batch::FloatStep>>
    } else {
        Some(seq![crate::batch::FloatStep::Bits(0)] + group_adds(kc, col, g.key, r))
    }
}

pub open spec fn dsums_fold_ok(gs: Seq<SpecGroup>, kc: Seq<SpecColumn>, col: Seq<SpecScalar>, k: int, r: int) -> bool {
    &&& crate::laws::keys_distinct(gs)
    &&& forall|i: int| 0 <= i < gs.len() ==> k < (#[trigger] gs[i]).accs.len()
    &&& forall|q: int| 0 <= q < r ==> #[trigger] has_group(gs, kc, q)
    &&& forall|i: int| 0 <= i < gs.len() ==> dsums_ok(#[trigger] gs[i], kc, col, k, r)
}

proof fn lemma_step_row_dsums(gs: Seq<SpecGroup>, kc: Seq<SpecColumn>, ac: Seq<SpecColumn>, funcs: Seq<crate::ast::AggFunc>, k: int, r: int)
    requires
        0 <= r,
        0 <= k < funcs.len(),
        funcs[k] == crate::ast::AggFunc::Sum || funcs[k] == crate::ast::AggFunc::Avg,
        ac[k].values[r] is Float || ac[k].values[r] is Null,
        dsums_fold_ok(gs, kc, ac[k].values, k, r),
        forall|i: int| 0 <= i < gs.len() ==> (#[trigger] gs[i]).accs.len() == funcs.len(),
    ensures
        crate::agg::step_row(gs, kc, ac, funcs, r) matches Ok(g) ==> dsums_fold_ok(g, kc, ac[k].values, k, r + 1) && forall|i: int|
            0 <= i < g.len() ==> (#[trigger] g[i]).accs.len() == funcs.len(),
{
    let col = ac[k].values;
    let key = crate::agg::row_key(kc, r);
    let c = col[r];
    crate::laws::lemma_find_from(gs, key, 0);
    match crate::agg::step_row(gs, kc, ac, funcs, r) {
        Ok(g) => {
            crate::laws::lemma_step_row_distinct(gs, kc, ac, funcs, r);
            match crate::agg::find_from(gs, key, 0) {
                Some(i) => {
                    let na = crate::agg::step_accs(gs[i].accs, funcs, ac, r)->Ok_0;
                    assert(g == gs.update(i, SpecGroup { key: gs[i].key, accs: na }));
                    assert(na[k] == crate::agg::acc_after(gs[i].accs[k], funcs[k], c));
                    assert(crate::agg::acc_fits(gs[i].accs[k], funcs[k], c));
                    assert forall|j: int| 0 <= j < g.len() implies dsums_ok(#[trigger] g[j], kc, col, k, r + 1) by {
                        assert(dsums_ok(gs[j], kc, col, k, r));
                        if j != i {
                            assert(g[j] == gs[j]);
                            assert(gs[j].key != gs[i].key);
                        } else if c is Float {
                            let a = gs[i].accs[k];
                            lemma_adds_empty(kc, col, g[j].key, r);
                            if a.count == 0 {
                                assert(seq![crate::batch::FloatStep::Bits(0)] + group_adds(kc, col, g[j].key, r + 1) =~= seq![crate::batch::FloatStep::Bits(0)]
                                    + seq![crate::batch::FloatStep::Bits(c->Float_0)] + seq![crate::batch::FloatStep::Add]);
                            } else {
                                assert(seq![crate::batch::FloatStep::Bits(0)] + group_adds(kc, col, g[j].key, r + 1) =~= seq![crate::batch::FloatStep::Bits(0)]
                                    + group_adds(kc, col, g[j].key, r) + seq![crate::batch::FloatStep::Bits(c->Float_0)] + seq![crate::batch::FloatStep::Add]);
                            }
                        } else {
                            assert(group_adds(kc, col, g[j].key, r + 1) =~= group_adds(kc, col, g[j].key, r));
                        }
                    }
                    assert forall|q: int| 0 <= q < r + 1 implies has_group(g, kc, q) by {
                        if q == r {
                            assert(in_group(kc, r, g[i as int]));
                        } else {
                            assert(has_group(gs, kc, q));
                            let j = choose|j: int| 0 <= j < gs.len() && #[trigger] in_group(kc, q, gs[j]);
                            assert(g[j].key == gs[j].key);
                            assert(in_group(kc, q, g[j]));
                        }
                    }
                },
                None => {
                    let fr = crate::agg::fresh_accs(funcs.len());
                    let na = crate::agg::step_accs(fr, funcs, ac, r)->Ok_0;
                    let ng = SpecGroup { key, accs: na };
                    assert(g == gs.push(ng));
                    assert(na[k] == crate::agg::acc_after(fr[k], funcs[k], c));
                    assert(crate::agg::acc_fits(fr[k], funcs[k], c));
                    assert forall|q: int| 0 <= q < r implies #[trigger] crate::agg::row_key(kc, q) != key by {
                        assert(has_group(gs, kc, q));
                        let j = choose|j: int| 0 <= j < gs.len() && #[trigger] in_group(kc, q, gs[j]);
                    }
                    lemma_group_adds_none(kc, col, key, r);
                    assert forall|j: int| 0 <= j < g.len() implies dsums_ok(#[trigger] g[j], kc, col, k, r + 1) by {
                        if j < gs.len() {
                            assert(g[j] == gs[j]);
                            assert(dsums_ok(gs[j], kc, col, k, r));
                        } else if c is Float {
                            assert(seq![crate::batch::FloatStep::Bits(0)] + group_adds(kc, col, key, r + 1) =~= seq![crate::batch::FloatStep::Bits(0)]
                                + seq![crate::batch::FloatStep::Bits(c->Float_0)] + seq![crate::batch::FloatStep::Add]);
                        }
                    }
                    assert forall|q: int| 0 <= q < r + 1 implies has_group(g, kc, q) by {
                        if q == r {
                            assert(in_group(kc, r, g[gs.len() as int]));
                        } else {
                            assert(has_group(gs, kc, q));
                            let j = choose|j: int| 0 <= j < gs.len() && #[trigger] in_group(kc, q, gs[j]);
                            assert(g[j] == gs[j]);
                        }
                    }
                },
            }
        },
        Err(_) => {},
    }
}

proof fn lemma_fold_dsums(gs: Seq<SpecGroup>, kc: Seq<SpecColumn>, ac: Seq<SpecColumn>, funcs: Seq<crate::ast::AggFunc>, k: int, r: int, n: int)
    requires
        0 <= r <= n,
        0 <= k < funcs.len(),
        funcs[k] == crate::ast::AggFunc::Sum || funcs[k] == crate::ast::AggFunc::Avg,
        forall|q: int| 0 <= q < n ==> (#[trigger] ac[k].values[q] is Float || ac[k].values[q] is Null),
        dsums_fold_ok(gs, kc, ac[k].values, k, r),
        forall|i: int| 0 <= i < gs.len() ==> (#[trigger] gs[i]).accs.len() == funcs.len(),
    ensures
        crate::agg::fold_rows(gs, kc, ac, funcs, r, n) matches Ok(g) ==> dsums_fold_ok(g, kc, ac[k].values, k, n),
    decreases n - r,
{
    if r < n {
        assert(ac[k].values[r] is Float || ac[k].values[r] is Null);
        lemma_step_row_dsums(gs, kc, ac, funcs, k, r);
        match crate::agg::step_row(gs, kc, ac, funcs, r) {
            Ok(g) => {
                lemma_fold_dsums(g, kc, ac, funcs, k, r + 1, n);
            },
            Err(_) => {},
        }
    }
}

/// SUM and AVG of a double argument: for every group that folding rows
/// `0..n` makes, SUM's output is the computation that adds the group's
/// doubles to zero one after another in row order (zero when there is
/// none), and AVG's is that sum divided by their number (null when there is
/// none).
pub proof fn law_sum_avg_doubles(kc: Seq<SpecColumn>, ac: Seq<SpecColumn>, funcs: Seq<crate::ast::AggFunc>, k: int, n: int, g: Seq<SpecGroup>)
    requires
        0 <= n,
        0 <= k < funcs.len(),
        funcs[k] == crate::ast::AggFunc::Sum || funcs[k] == crate::ast::AggFunc::Avg,
        forall|q: int| 0 <= q < n ==> (#[trigger] ac[k].values[q] is Float || ac[k].values[q] is Null),
        crate::agg::fold_rows(Seq::empty(), kc, ac, funcs, 0, n) == Ok::<Seq<SpecGroup>, ExecError>(g),
    ensures
        forall|i: int|
            0 <= i < g.len() ==> {
                let c = group_count(kc, ac[k].values, (#[trigger] g[i]).key, n);
                let sum = seq![crate::batch::FloatStep::Bits(0)] + group_adds(kc, ac[k].values, g[i].key, n);
                &&& funcs[k] == crate::ast::AggFunc::Sum ==> crate::agg::agg_cell(funcs[k], g[i].accs[k]) == if c == 0 {
                    SpecScalar::Ratio(0, 1)
                } else {
                    SpecScalar::Calc(sum)
                }
                &&& funcs[k] == crate::ast::AggFunc::Avg ==> crate::agg::agg_cell(funcs[k], g[i].accs[k]) == if c == 0 {
                    SpecScalar::Null
                } else {
                    SpecScalar::Calc(sum + seq![crate::batch::FloatStep::Ratio(c as i128, 1), crate::batch::FloatStep::Div])
                }
            },
{
    let col = ac[k].values;
    assert(dsums_fold_ok(Seq::empty(), kc, col, k, 0));
    lemma_fold_dsums(Seq::empty(), kc, ac, funcs, k, 0, n);
    assert forall|i: int| 0 <= i < g.len() implies {
        let c = group_count(kc, ac[k].values, (#[trigger] g[i]).key, n);
        let sum = seq![crate::batch::FloatStep::Bits(0)] + group_adds(kc, ac[k].values, g[i].key, n);
        &&& funcs[k] == crate::ast::AggFunc::Sum ==> crate::agg::agg_cell(funcs[k], g[i].accs[k]) == if c == 0 {
            SpecScalar::Ratio(0, 1)
        } else {
            SpecScalar::Calc(sum)
        }
        &&& funcs[k] == crate::ast::AggFunc::Avg ==> crate::agg::agg_cell(funcs[k], g[i].accs[k]) == if c == 0 {
            SpecScalar::Null
        } else {
            SpecScalar::Calc(sum + seq![crate::batch::FloatStep::Ratio(c as i128, 1), crate::batch::FloatStep::Div])
        }
    } by {
        assert(dsums_ok(g[i], kc, col, k, n));
    }
}

/// What a result shows of an integer, a boolean or a string is what a
/// scan reads back as the same cell: an integer's text reads as that
/// integer in an integer column, `true` / `false` as that boolean in a
/// boolean column, and a non-empty string as itself in a text column.
pub proof fn law_shown_cells_read_back(x: i64, b: bool, t: Seq<char>)
    ensures
        crate::exec::text_cell(crate::display::spec_format_value(SpecScalar::Int(x))->Some_0, DataType::Int64) == Ok::<
            SpecScalar,
            ExecError,
        >(SpecScalar::Int(x)),
        crate::exec::text_cell(crate::display::spec_format_value(SpecScalar::Bool(b))->Some_0, DataType::Boolean) == Ok::<
            SpecScalar,
            ExecError,
        >(SpecScalar::Bool(b)),
        t.len() > 0 ==> crate::exec::text_cell(crate::display::spec_format_value(SpecScalar::Str(t))->Some_0, DataType::Utf8)
            == Ok::<SpecScalar, ExecError>(SpecScalar::Str(t)),
{
    law_int_text_reads_back(x as int);
    lemma_nat_digits_shape(if x < 0 { (-x) as nat } else { x as nat });
    reveal_strlit("true");
    reveal_strlit("false");
    reveal_strlit("TRUE");
    reveal_strlit("FALSE");
    reveal_strlit("YES");
    reveal_strlit("NO");
    let tt = "true"@;
    let ff = "false"@;
    assert(crate::lexer::ci_match(tt, "TRUE"@));
    assert(crate::lexer::ci_match(ff, "FALSE"@));
    assert(tt != seq!['1']);
    assert(!crate::lexer::ci_match(tt, "YES"@));
}

} // verus!
