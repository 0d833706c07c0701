//! Evaluation of expressions over a batch, column at a time.
use vstd::prelude::*;

use crate::ast::{BinOp, Expr, SpecExpr, SpecValue, UnaryOp, Value};
use crate::batch::{
    calc2, calc2_exec, is_double, steps_of, FloatStep,
    column_fits_field, column_wf, fits, scalars_view, Batch, Column, ExecError, Field, SpecBatch,
    SpecColumn, SpecField, SpecScalar, Scalar,
};
use crate::catalog::DataType;

verus! {

// ── Specification ────────────────────────────────────────────────────────────

/// The position of the first field named `name`, searching from `k`.
pub open spec fn index_from(schema: Seq<SpecField>, name: Seq<char>, k: int) -> Option<int>
    decreases schema.len() - k,
{
    if k < 0 || k >= schema.len() {
        None
    } else if schema[k].name == name {
        Some(k)
    } else {
        index_from(schema, name, k + 1)
    }
}

/// The position of the first field named `name`.
pub open spec fn index_of(schema: Seq<SpecField>, name: Seq<char>) -> Option<int> {
    index_from(schema, name, 0)
}

pub open spec fn in_i64(v: int) -> bool {
    i64::MIN <= v <= i64::MAX
}

/// Integer division rounding toward zero.
pub open spec fn trunc_div(x: int, y: int) -> int {
    let q = (if x < 0 { -x } else { x }) / (if y < 0 { -y } else { y });
    if (x < 0) != (y < 0) {
        -q
    } else {
        q
    }
}

/// The step that applies an arithmetic operator to two doubles.
pub open spec fn op_step(op: BinOp) -> FloatStep {
    match op {
        BinOp::Add => FloatStep::Add,
        BinOp::Sub => FloatStep::Sub,
        BinOp::Mul => FloatStep::Mul,
        _ => FloatStep::Div,
    }
}

/// One cell of an arithmetic result: null when either side is null;
/// on integers the checked `i64` result; on doubles the computation that
/// applies the operator to them (IEEE-754 arithmetic, done by the caller).
pub open spec fn arith_cell(op: BinOp, a: SpecScalar, b: SpecScalar) -> Result<SpecScalar, ExecError> {
    if is_double(a) && is_double(b) {
        Ok(calc2(a, b, op_step(op)))
    } else {
    match (a, b) {
        (SpecScalar::Int(x), SpecScalar::Int(y)) => {
            let v = match op {
                BinOp::Add => x + y,
                BinOp::Sub => x - y,
                BinOp::Mul => x * y,
                _ => trunc_div(x as int, y as int),
            };
            if !(op == BinOp::Add || op == BinOp::Sub || op == BinOp::Mul) && y == 0 {
                Err(ExecError::DivideByZero)
            } else if in_i64(v) {
                Ok(SpecScalar::Int(v as i64))
            } else {
                Err(ExecError::Overflow)
            }
        },
        _ => Ok(SpecScalar::Null),
    }
    }
}

/// Three-way comparison of integers: -1, 0 or 1.
pub open spec fn order_int(x: int, y: int) -> int {
    if x < y {
        -1
    } else if x == y {
        0
    } else {
        1
    }
}

/// Lexicographic comparison of strings by code point (the order of their
/// UTF-8 bytes).
pub open spec fn order_str(a: Seq<char>, b: Seq<char>) -> int
    decreases a.len(),
{
    if a.len() == 0 {
        if b.len() == 0 {
            0
        } else {
            -1
        }
    } else if b.len() == 0 {
        1
    } else if a[0] != b[0] {
        order_int(a[0] as int, b[0] as int)
    } else {
        order_str(a.skip(1), b.skip(1))
    }
}

pub open spec fn sign_bit() -> int {
    0x8000_0000_0000_0000
}

/// The key of IEEE-754 `totalOrder` on double bit patterns: -NaN, -inf,
/// ..., -0, +0, ..., +inf, +NaN in increasing order.
pub open spec fn total_key(bits: u64) -> int {
    if bits >= sign_bit() {
        u64::MAX - bits
    } else {
        bits + sign_bit()
    }
}

pub open spec fn holds(op: BinOp, c: int) -> bool {
    match op {
        BinOp::Eq => c == 0,
        BinOp::Ne => c != 0,
        BinOp::Lt => c < 0,
        BinOp::Le => c <= 0,
        BinOp::Gt => c > 0,
        _ => c >= 0,
    }
}

/// One cell of a comparison: null when either side is null.  Doubles
/// compare by IEEE `totalOrder`, booleans with `false < true`.  A ratio or
/// a double computation cannot be compared without floating-point
/// arithmetic: `Unsupported`.
pub open spec fn compare_cell(op: BinOp, a: SpecScalar, b: SpecScalar) -> Result<SpecScalar, ExecError> {
    match (a, b) {
        (SpecScalar::Null, _) => Ok(SpecScalar::Null),
        (_, SpecScalar::Null) => Ok(SpecScalar::Null),
        (SpecScalar::Int(x), SpecScalar::Int(y)) => Ok(SpecScalar::Bool(holds(op, order_int(x as int, y as int)))),
        (SpecScalar::Str(x), SpecScalar::Str(y)) => Ok(SpecScalar::Bool(holds(op, order_str(x, y)))),
        (SpecScalar::Bool(x), SpecScalar::Bool(y)) => Ok(
            SpecScalar::Bool(holds(op, order_int(if x { 1 } else { 0 }, if y { 1 } else { 0 }))),
        ),
        (SpecScalar::Float(x), SpecScalar::Float(y)) => Ok(
            SpecScalar::Bool(holds(op, order_int(total_key(x), total_key(y)))),
        ),
        _ => Err(ExecError::Unsupported),
    }
}

/// One cell of AND / OR: null when either side is null.
pub open spec fn logic_cell(op: BinOp, a: SpecScalar, b: SpecScalar) -> Result<SpecScalar, ExecError> {
    match (a, b) {
        (SpecScalar::Bool(x), SpecScalar::Bool(y)) => Ok(
            SpecScalar::Bool(if op == BinOp::And { x && y } else { x || y }),
        ),
        _ => Ok(SpecScalar::Null),
    }
}

pub open spec fn binop_cell(op: BinOp, a: SpecScalar, b: SpecScalar) -> Result<SpecScalar, ExecError> {
    if is_arith(op) {
        arith_cell(op, a, b)
    } else if op == BinOp::And || op == BinOp::Or {
        logic_cell(op, a, b)
    } else {
        compare_cell(op, a, b)
    }
}

pub open spec fn is_arith(op: BinOp) -> bool {
    op == BinOp::Add || op == BinOp::Sub || op == BinOp::Mul || op == BinOp::Div
}

/// Cell by cell, the results of `op`; the first failing cell's error.
pub open spec fn zip_cells(op: BinOp, xs: Seq<SpecScalar>, ys: Seq<SpecScalar>) -> Result<Seq<SpecScalar>, ExecError>
    decreases xs.len(),
{
    if xs.len() == 0 {
        Ok(Seq::empty())
    } else {
        match zip_cells(op, xs.drop_last(), ys.take(xs.len() - 1)) {
            Err(e) => Err(e),
            Ok(prefix) => match binop_cell(op, xs.last(), ys[xs.len() - 1]) {
                Ok(v) => Ok(prefix.push(v)),
                Err(e) => Err(e),
            },
        }
    }
}

/// The type of a binary operator's result, or why the operands do not suit it.
pub open spec fn binop_type(op: BinOp, l: DataType, r: DataType) -> Result<DataType, ExecError> {
    if is_arith(op) {
        if l == DataType::Int64 && r == DataType::Int64 {
            Ok(DataType::Int64)
        } else if l == DataType::Float64 && r == DataType::Float64 {
            Ok(DataType::Float64)
        } else {
            Err(ExecError::TypeMismatch)
        }
    } else if op == BinOp::And || op == BinOp::Or {
        if l == DataType::Boolean && r == DataType::Boolean {
            Ok(DataType::Boolean)
        } else {
            Err(ExecError::TypeMismatch)
        }
    } else if l == r {
        Ok(DataType::Boolean)
    } else {
        Err(ExecError::TypeMismatch)
    }
}

pub open spec fn spec_binop(op: BinOp, x: SpecColumn, y: SpecColumn) -> Result<SpecColumn, ExecError> {
    match binop_type(op, x.data_type, y.data_type) {
        Err(e) => Err(e),
        Ok(t) => match zip_cells(op, x.values, y.values) {
            Ok(vs) => Ok(SpecColumn { data_type: t, values: vs }),
            Err(e) => Err(e),
        },
    }
}

/// One cell of a unary operator.
pub open spec fn unary_cell(op: UnaryOp, a: SpecScalar) -> Result<SpecScalar, ExecError> {
    match a {
        SpecScalar::Null => Ok(SpecScalar::Null),
        SpecScalar::Bool(b) => Ok(SpecScalar::Bool(!b)),
        SpecScalar::Int(i) => if i == i64::MIN {
            Err(ExecError::Overflow)
        } else {
            Ok(SpecScalar::Int((-i) as i64))
        },
        SpecScalar::Float(bits) => Ok(
            SpecScalar::Float(
                if bits >= sign_bit() {
                    (bits - sign_bit()) as u64
                } else {
                    (bits + sign_bit()) as u64
                },
            ),
        ),
        SpecScalar::Ratio(_, _) => Ok(SpecScalar::Calc(steps_of(a).push(FloatStep::Neg))),
        SpecScalar::Calc(s) => Ok(SpecScalar::Calc(s.push(FloatStep::Neg))),
        _ => Err(ExecError::Unsupported),
    }
}

pub open spec fn map_cells(op: UnaryOp, xs: Seq<SpecScalar>) -> Result<Seq<SpecScalar>, ExecError>
    decreases xs.len(),
{
    if xs.len() == 0 {
        Ok(Seq::empty())
    } else {
        match map_cells(op, xs.drop_last()) {
            Err(e) => Err(e),
            Ok(prefix) => match unary_cell(op, xs.last()) {
                Ok(v) => Ok(prefix.push(v)),
                Err(e) => Err(e),
            },
        }
    }
}

pub open spec fn spec_unary(op: UnaryOp, x: SpecColumn) -> Result<SpecColumn, ExecError> {
    let ok = match op {
        UnaryOp::Not => x.data_type == DataType::Boolean,
        UnaryOp::Neg => x.data_type == DataType::Int64 || x.data_type == DataType::Float64,
    };
    if !ok {
        Err(ExecError::TypeMismatch)
    } else {
        match map_cells(op, x.values) {
            Ok(vs) => Ok(SpecColumn { data_type: x.data_type, values: vs }),
            Err(e) => Err(e),
        }
    }
}

/// A column of `n` copies of a literal.
pub open spec fn spec_literal(v: SpecValue, n: nat) -> Result<SpecColumn, ExecError> {
    match v {
        SpecValue::Int(i) => Ok(SpecColumn { data_type: DataType::Int64, values: Seq::new(n, |k: int| SpecScalar::Int(i)) }),
        SpecValue::Float(_) => Err(ExecError::Unsupported),
        SpecValue::Double(_, b) => Ok(
            SpecColumn { data_type: DataType::Float64, values: Seq::new(n, |k: int| SpecScalar::Float(b)) },
        ),
        SpecValue::Str(s) => Ok(SpecColumn { data_type: DataType::Utf8, values: Seq::new(n, |k: int| SpecScalar::Str(s)) }),
        SpecValue::Bool(b) => Ok(SpecColumn { data_type: DataType::Boolean, values: Seq::new(n, |k: int| SpecScalar::Bool(b)) }),
        SpecValue::Null => Ok(SpecColumn { data_type: DataType::Int64, values: Seq::new(n, |k: int| SpecScalar::Null) }),
    }
}

/// The column an expression computes over a batch, or why it has none.
/// Operands are evaluated left to right; the first error wins.
pub open spec fn spec_eval(b: SpecBatch, e: SpecExpr) -> Result<SpecColumn, ExecError>
    decreases e,
{
    match e {
        SpecExpr::Column(n) => match index_of(b.schema, n) {
            Some(i) => Ok(b.columns[i]),
            None => Err(ExecError::ColumnNotFound),
        },
        SpecExpr::Literal(v) => spec_literal(v, b.num_rows),
        SpecExpr::BinOp { op, left, right } => match spec_eval(b, *left) {
            Err(e) => Err(e),
            Ok(x) => match spec_eval(b, *right) {
                Err(e) => Err(e),
                Ok(y) => spec_binop(op, x, y),
            },
        },
        SpecExpr::Unary { op, expr } => match spec_eval(b, *expr) {
            Err(e) => Err(e),
            Ok(x) => spec_unary(op, x),
        },
        SpecExpr::Wildcard => Ok(
            SpecColumn { data_type: DataType::Boolean, values: Seq::new(b.num_rows, |k: int| SpecScalar::Bool(true)) },
        ),
        SpecExpr::Agg { .. } => Err(ExecError::AggregateInExpression),
    }
}

/// A predicate's boolean column, or why it has none.
pub open spec fn spec_eval_bool(b: SpecBatch, e: SpecExpr) -> Result<SpecColumn, ExecError> {
    match spec_eval(b, e) {
        Err(e) => Err(e),
        Ok(c) => if c.data_type == DataType::Boolean {
            Ok(c)
        } else {
            Err(ExecError::NotBoolean)
        },
    }
}

pub open spec fn agree_col(r: Result<Column, ExecError>, s: Result<SpecColumn, ExecError>) -> bool {
    match (r, s) {
        (Ok(c), Ok(d)) => c@ == d,
        (Err(e), Err(f)) => e == f,
        _ => false,
    }
}

pub open spec fn agree_cell(r: Result<Scalar, ExecError>, s: Result<SpecScalar, ExecError>) -> bool {
    match (r, s) {
        (Ok(c), Ok(d)) => c@ == d,
        (Err(e), Err(f)) => e == f,
        _ => false,
    }
}

// ── Executable evaluation ────────────────────────────────────────────────────

/// The position of the first field named `name`.
pub fn find_field(schema: &Vec<Field>, name: &String) -> (r: Option<usize>)
    ensures
        match (r, index_of(schema@.map_values(|f: Field| f@), name@)) {
            (Some(i), Some(j)) => i == j && i < schema@.len(),
            (None, None) => true,
            _ => false,
        },
{
    let ghost sv = schema@.map_values(|f: Field| f@);
    let mut k: usize = 0;
    while k < schema.len()
        invariant
            sv == schema@.map_values(|f: Field| f@),
            k <= schema@.len(),
            index_of(sv, name@) == index_from(sv, name@, k as int),
        decreases schema@.len() - k,
    {
        if schema[k].name == *name {
            return Some(k);
        }
        k = k + 1;
    }
    None
}

fn trunc_div_exec(x: i64, y: i64) -> (r: i128)
    requires
        y != 0,
    ensures
        r == trunc_div(x as int, y as int),
{
    let ax: i128 = if x < 0 { -(x as i128) } else { x as i128 };
    let ay: i128 = if y < 0 { -(y as i128) } else { y as i128 };
    let q = ax / ay;
    if (x < 0) != (y < 0) {
        -q
    } else {
        q
    }
}

fn is_double_exec(c: &Scalar) -> (r: bool)
    ensures
        r == is_double(c@),
{
    match c {
        Scalar::Float(_) | Scalar::Ratio(_, _) | Scalar::Calc(_) => true,
        _ => false,
    }
}

fn op_step_exec(op: BinOp) -> (r: FloatStep)
    ensures
        r == op_step(op),
{
    match op {
        BinOp::Add => FloatStep::Add,
        BinOp::Sub => FloatStep::Sub,
        BinOp::Mul => FloatStep::Mul,
        _ => FloatStep::Div,
    }
}

fn arith_cell_exec(op: BinOp, a: &Scalar, b: &Scalar) -> (r: Result<Scalar, ExecError>)
    ensures
        agree_cell(r, arith_cell(op, a@, b@)),
{
    if is_double_exec(a) && is_double_exec(b) {
        return Ok(calc2_exec(a, b, op_step_exec(op)));
    }
    match (a, b) {
        (Scalar::Int(x), Scalar::Int(y)) => {
            if !(op == BinOp::Add || op == BinOp::Sub || op == BinOp::Mul) && *y == 0 {
                return Err(ExecError::DivideByZero);
            }
            let xi = *x as i128;
            let yi = *y as i128;
            let v: i128 = match op {
                BinOp::Add => xi + yi,
                BinOp::Sub => xi - yi,
                BinOp::Mul => {
                    assert(-0x4000_0000_0000_0000_0000_0000_0000_0000 <= xi * yi <= 0x4000_0000_0000_0000_0000_0000_0000_0000)
                        by (nonlinear_arith)
                        requires
                            -0x8000_0000_0000_0000 <= xi <= 0x8000_0000_0000_0000,
                            -0x8000_0000_0000_0000 <= yi <= 0x8000_0000_0000_0000,
                    ;
                    xi * yi
                },
                _ => trunc_div_exec(*x, *y),
            };
            if -9223372036854775808i128 <= v && v <= 9223372036854775807i128 {
                Ok(Scalar::Int(v as i64))
            } else {
                Err(ExecError::Overflow)
            }
        },
        _ => Ok(Scalar::Null),
    }
}

fn order_i128(x: i128, y: i128) -> (c: i8)
    ensures
        c == order_int(x as int, y as int),
{
    if x < y {
        -1
    } else if x == y {
        0
    } else {
        1
    }
}

/// Compares two strings by code point.
pub fn order_strings(a: &String, b: &String) -> (c: i8)
    ensures
        c == order_str(a@, b@),
{
    let x = crate::lexer::str_chars(a.as_str());
    let y = crate::lexer::str_chars(b.as_str());
    let mut k: usize = 0;
    assert(a@.skip(0) =~= a@);
    assert(b@.skip(0) =~= b@);
    while k < x.len() && k < y.len() && x[k] == y[k]
        invariant
            x@ == a@,
            y@ == b@,
            k <= x@.len(),
            k <= y@.len(),
            order_str(a@, b@) == order_str(a@.skip(k as int), b@.skip(k as int)),
        decreases x@.len() - k,
    {
        proof {
            assert(a@.skip(k as int).skip(1) =~= a@.skip(k + 1));
            assert(b@.skip(k as int).skip(1) =~= b@.skip(k + 1));
        }
        k = k + 1;
    }
    assert(a@.skip(k as int).len() == x@.len() - k);
    assert(b@.skip(k as int).len() == y@.len() - k);
    if k == x.len() {
        assert(a@.skip(k as int) =~= Seq::<char>::empty());
        if k == y.len() {
            0
        } else {
            -1
        }
    } else if k == y.len() {
        assert(b@.skip(k as int) =~= Seq::<char>::empty());
        1
    } else {
        assert(x@[k as int] != y@[k as int]);
        assert(order_str(a@.skip(k as int), b@.skip(k as int)) == order_int(x@[k as int] as int, y@[k as int] as int));
        assert(a@.skip(k as int)[0] == x@[k as int]);
        assert(b@.skip(k as int)[0] == y@[k as int]);
        if x[k] < y[k] {
            -1
        } else {
            1
        }
    }
}

fn total_key_exec(bits: u64) -> (k: u64)
    ensures
        k == total_key(bits),
{
    if bits >= 0x8000_0000_0000_0000u64 {
        u64::MAX - bits
    } else {
        bits + 0x8000_0000_0000_0000u64
    }
}

fn holds_exec(op: BinOp, c: i8) -> (b: bool)
    ensures
        b == holds(op, c as int),
{
    match op {
        BinOp::Eq => c == 0,
        BinOp::Ne => c != 0,
        BinOp::Lt => c < 0,
        BinOp::Le => c <= 0,
        BinOp::Gt => c > 0,
        _ => c >= 0,
    }
}

fn compare_cell_exec(op: BinOp, a: &Scalar, b: &Scalar) -> (r: Result<Scalar, ExecError>)
    ensures
        agree_cell(r, compare_cell(op, a@, b@)),
{
    match (a, b) {
        (Scalar::Null, _) => Ok(Scalar::Null),
        (_, Scalar::Null) => Ok(Scalar::Null),
        (Scalar::Int(x), Scalar::Int(y)) => Ok(Scalar::Bool(holds_exec(op, order_i128(*x as i128, *y as i128)))),
        (Scalar::Str(x), Scalar::Str(y)) => Ok(Scalar::Bool(holds_exec(op, order_strings(x, y)))),
        (Scalar::Bool(x), Scalar::Bool(y)) => {
            let xi: i128 = if *x { 1 } else { 0 };
            let yi: i128 = if *y { 1 } else { 0 };
            Ok(Scalar::Bool(holds_exec(op, order_i128(xi, yi))))
        },
        (Scalar::Float(x), Scalar::Float(y)) => Ok(
            Scalar::Bool(holds_exec(op, order_i128(total_key_exec(*x) as i128, total_key_exec(*y) as i128))),
        ),
        _ => Err(ExecError::Unsupported),
    }
}

fn logic_cell_exec(op: BinOp, a: &Scalar, b: &Scalar) -> (r: Result<Scalar, ExecError>)
    ensures
        agree_cell(r, logic_cell(op, a@, b@)),
{
    match (a, b) {
        (Scalar::Bool(x), Scalar::Bool(y)) => Ok(Scalar::Bool(if op == BinOp::And { *x && *y } else { *x || *y })),
        _ => Ok(Scalar::Null),
    }
}

fn binop_cell_exec(op: BinOp, a: &Scalar, b: &Scalar) -> (r: Result<Scalar, ExecError>)
    ensures
        agree_cell(r, binop_cell(op, a@, b@)),
{
    if op == BinOp::Add || op == BinOp::Sub || op == BinOp::Mul || op == BinOp::Div {
        arith_cell_exec(op, a, b)
    } else if op == BinOp::And || op == BinOp::Or {
        logic_cell_exec(op, a, b)
    } else {
        compare_cell_exec(op, a, b)
    }
}

/// The type of a binary operator's result (see `binop_type`).
pub fn binop_type_exec(op: BinOp, l: DataType, r: DataType) -> (t: Result<DataType, ExecError>)
    ensures
        t == binop_type(op, l, r),
{
    if op == BinOp::Add || op == BinOp::Sub || op == BinOp::Mul || op == BinOp::Div {
        if l == DataType::Int64 && r == DataType::Int64 {
            Ok(DataType::Int64)
        } else if l == DataType::Float64 && r == DataType::Float64 {
            Ok(DataType::Float64)
        } else {
            Err(ExecError::TypeMismatch)
        }
    } else if op == BinOp::And || op == BinOp::Or {
        if l == DataType::Boolean && r == DataType::Boolean {
            Ok(DataType::Boolean)
        } else {
            Err(ExecError::TypeMismatch)
        }
    } else if l == r {
        Ok(DataType::Boolean)
    } else {
        Err(ExecError::TypeMismatch)
    }
}

fn binop_exec(op: BinOp, x: &Column, y: &Column) -> (r: Result<Column, ExecError>)
    requires
        x.values@.len() == y.values@.len(),
        column_wf(x@),
        column_wf(y@),
    ensures
        agree_col(r, spec_binop(op, x@, y@)),
        r matches Ok(c) ==> column_wf(c@) && c@.values.len() == x@.values.len(),
{
    let t = if op == BinOp::Add || op == BinOp::Sub || op == BinOp::Mul || op == BinOp::Div {
        if x.data_type == DataType::Int64 && y.data_type == DataType::Int64 {
            DataType::Int64
        } else if x.data_type == DataType::Float64 && y.data_type == DataType::Float64 {
            DataType::Float64
        } else {
            return Err(ExecError::TypeMismatch);
        }
    } else if op == BinOp::And || op == BinOp::Or {
        if x.data_type == DataType::Boolean && y.data_type == DataType::Boolean {
            DataType::Boolean
        } else {
            return Err(ExecError::TypeMismatch);
        }
    } else if x.data_type == y.data_type {
        DataType::Boolean
    } else {
        return Err(ExecError::TypeMismatch);
    };
    assert(binop_type(op, x@.data_type, y@.data_type) == Ok::<DataType, ExecError>(t));
    let ghost xs = x@.values;
    let ghost ys = y@.values;
    let mut out: Vec<Scalar> = Vec::new();
    let mut k: usize = 0;
    assert(scalars_view(out@) =~= Seq::<SpecScalar>::empty());
    assert(xs.take(0) =~= Seq::<SpecScalar>::empty());
    while k < x.values.len()
        invariant
            xs == x@.values,
            ys == y@.values,
            xs.len() == ys.len(),
            x.values@.len() == xs.len(),
            k <= xs.len(),
            zip_cells(op, xs.take(k as int), ys.take(k as int)) == Ok::<Seq<SpecScalar>, ExecError>(scalars_view(out@)),
            forall|q: int| 0 <= q < out@.len() ==> fits(#[trigger] scalars_view(out@)[q], t),
            column_wf(x@),
            column_wf(y@),
            out@.len() == k,
            binop_type(op, x@.data_type, y@.data_type) == Ok::<DataType, ExecError>(t),
        decreases xs.len() - k,
    {
        let ghost before = scalars_view(out@);
        proof {
            assert(xs.take(k + 1).drop_last() =~= xs.take(k as int));
            assert(ys.take(k + 1).take(k as int) =~= ys.take(k as int));
            assert(xs.take(k + 1).last() == xs[k as int]);
            assert(ys.take(k + 1)[k as int] == ys[k as int]);
        }
        proof {
            assert(xs[k as int] == x.values@[k as int]@);
            assert(ys[k as int] == y.values@[k as int]@);
        }
        match binop_cell_exec(op, &x.values[k], &y.values[k]) {
            Err(e) => {
                proof {
                    lemma_zip_err(op, xs, ys, k as int);
                }
                return Err(e);
            },
            Ok(v) => {
                proof {
                    assert(xs[k as int] == x.values@[k as int]@);
                    assert(ys[k as int] == y.values@[k as int]@);
                    reveal_cell_kinds(op, xs[k as int], ys[k as int], x@.data_type, y@.data_type, t);
                }
                out.push(v);
                assert(scalars_view(out@) =~= before.push(v@));
            },
        }
        k = k + 1;
    }
    assert(xs.take(xs.len() as int) =~= xs);
    assert(ys.take(ys.len() as int) =~= ys);
    Ok(Column { data_type: t, values: out })
}

proof fn reveal_cell_kinds(op: BinOp, a: SpecScalar, b: SpecScalar, ta: DataType, tb: DataType, t: DataType)
    requires
        binop_type(op, ta, tb) == Ok::<DataType, ExecError>(t),
        fits(a, ta),
        fits(b, tb),
    ensures
        binop_cell(op, a, b) matches Ok(v) ==> fits(v, t),
{
}

/// An error at cell `k` is the error of the whole.
proof fn lemma_zip_err(op: BinOp, xs: Seq<SpecScalar>, ys: Seq<SpecScalar>, k: int)
    requires
        0 <= k < xs.len(),
        xs.len() == ys.len(),
        zip_cells(op, xs.take(k), ys.take(k)) is Ok,
        binop_cell(op, xs[k], ys[k]) is Err,
    ensures
        zip_cells(op, xs, ys) == Err::<Seq<SpecScalar>, ExecError>(binop_cell(op, xs[k], ys[k])->Err_0),
    decreases xs.len() - k,
{
    lemma_zip_err_at(op, xs, ys, k, xs.len() as int);
    assert(xs.take(xs.len() as int) =~= xs);
    assert(ys.take(xs.len() as int) =~= ys);
}

proof fn lemma_zip_err_at(op: BinOp, xs: Seq<SpecScalar>, ys: Seq<SpecScalar>, k: int, m: int)
    requires
        0 <= k < m <= xs.len(),
        xs.len() == ys.len(),
        zip_cells(op, xs.take(k), ys.take(k)) is Ok,
        binop_cell(op, xs[k], ys[k]) is Err,
    ensures
        zip_cells(op, xs.take(m), ys.take(m)) == Err::<Seq<SpecScalar>, ExecError>(binop_cell(op, xs[k], ys[k])->Err_0),
    decreases m - k,
{
    if m == k + 1 {
        assert(xs.take(m).drop_last() =~= xs.take(k));
        assert(ys.take(m).take(k) =~= ys.take(k));
        assert(xs.take(m).last() == xs[k]);
        assert(ys.take(m)[k] == ys[k]);
    } else {
        lemma_zip_err_at(op, xs, ys, k, m - 1);
        assert(xs.take(m).drop_last() =~= xs.take(m - 1));
        assert(ys.take(m).take(m - 1) =~= ys.take(m - 1));
    }
}


fn unary_cell_exec(op: UnaryOp, a: &Scalar) -> (r: Result<Scalar, ExecError>)
    ensures
        agree_cell(r, unary_cell(op, a@)),
{
    match a {
        Scalar::Null => Ok(Scalar::Null),
        Scalar::Bool(b) => Ok(Scalar::Bool(!*b)),
        Scalar::Int(i) => if *i == i64::MIN {
            Err(ExecError::Overflow)
        } else {
            Ok(Scalar::Int(-*i))
        },
        Scalar::Float(bits) => Ok(
            Scalar::Float(
                if *bits >= 0x8000_0000_0000_0000u64 {
                    *bits - 0x8000_0000_0000_0000u64
                } else {
                    *bits + 0x8000_0000_0000_0000u64
                },
            ),
        ),
        Scalar::Ratio(n, d) => {
            let mut w: Vec<FloatStep> = Vec::new();
            w.push(FloatStep::Ratio(*n, *d));
            w.push(FloatStep::Neg);
            assert(w@ =~= steps_of(a@).push(FloatStep::Neg));
            Ok(Scalar::Calc(w))
        },
        Scalar::Calc(v) => {
            let mut w = crate::batch::copy_steps(v);
            w.push(FloatStep::Neg);
            assert(w@ =~= v@.push(FloatStep::Neg));
            Ok(Scalar::Calc(w))
        },
        _ => Err(ExecError::Unsupported),
    }
}

proof fn lemma_map_err_at(op: UnaryOp, xs: Seq<SpecScalar>, k: int, m: int)
    requires
        0 <= k < m <= xs.len(),
        map_cells(op, xs.take(k)) is Ok,
        unary_cell(op, xs[k]) is Err,
    ensures
        map_cells(op, xs.take(m)) == Err::<Seq<SpecScalar>, ExecError>(unary_cell(op, xs[k])->Err_0),
    decreases m - k,
{
    if m == k + 1 {
        assert(xs.take(m).drop_last() =~= xs.take(k));
        assert(xs.take(m).last() == xs[k]);
    } else {
        lemma_map_err_at(op, xs, k, m - 1);
        assert(xs.take(m).drop_last() =~= xs.take(m - 1));
    }
}

fn unary_exec(op: UnaryOp, x: &Column) -> (r: Result<Column, ExecError>)
    requires
        column_wf(x@),
    ensures
        agree_col(r, spec_unary(op, x@)),
        r matches Ok(c) ==> column_wf(c@) && c@.values.len() == x@.values.len(),
{
    let ok = match op {
        UnaryOp::Not => x.data_type == DataType::Boolean,
        UnaryOp::Neg => x.data_type == DataType::Int64 || x.data_type == DataType::Float64,
    };
    if !ok {
        return Err(ExecError::TypeMismatch);
    }
    let ghost xs = x@.values;
    let mut out: Vec<Scalar> = Vec::new();
    let mut k: usize = 0;
    assert(scalars_view(out@) =~= Seq::<SpecScalar>::empty());
    assert(xs.take(0) =~= Seq::<SpecScalar>::empty());
    while k < x.values.len()
        invariant
            xs == x@.values,
            column_wf(x@),
            x.values@.len() == xs.len(),
            k <= xs.len(),
            out@.len() == k,
            ok,
            ok == match op {
                UnaryOp::Not => x@.data_type == DataType::Boolean,
                UnaryOp::Neg => x@.data_type == DataType::Int64 || x@.data_type == DataType::Float64,
            },
            map_cells(op, xs.take(k as int)) == Ok::<Seq<SpecScalar>, ExecError>(scalars_view(out@)),
            forall|q: int| 0 <= q < out@.len() ==> fits(#[trigger] scalars_view(out@)[q], x@.data_type),
        decreases xs.len() - k,
    {
        let ghost before = scalars_view(out@);
        proof {
            assert(xs.take(k + 1).drop_last() =~= xs.take(k as int));
            assert(xs.take(k + 1).last() == xs[k as int]);
            assert(xs[k as int] == x.values@[k as int]@);
            assert(fits(xs[k as int], x@.data_type));
        }
        match unary_cell_exec(op, &x.values[k]) {
            Err(e) => {
                proof {
                    lemma_map_err_at(op, xs, k as int, xs.len() as int);
                    assert(xs.take(xs.len() as int) =~= xs);
                }
                return Err(e);
            },
            Ok(v) => {
                out.push(v);
                assert(scalars_view(out@) =~= before.push(v@));
            },
        }
        k = k + 1;
    }
    assert(xs.take(xs.len() as int) =~= xs);
    Ok(Column { data_type: x.data_type, values: out })
}

/// A column of `n` copies of a scalar that fits type `t`.
fn repeat_scalar(v: &Scalar, n: usize, t: DataType) -> (c: Column)
    requires
        fits(v@, t),
    ensures
        c@ == (SpecColumn { data_type: t, values: Seq::new(n as nat, |k: int| v@) }),
        column_wf(c@),
{
    let mut out: Vec<Scalar> = Vec::new();
    let mut k: usize = 0;
    while k < n
        invariant
            k <= n,
            scalars_view(out@) == Seq::new(k as nat, |q: int| v@),
        decreases n - k,
    {
        let ghost before = scalars_view(out@);
        let x = v.copy();
        out.push(x);
        assert(scalars_view(out@) =~= before.push(x@));
        k = k + 1;
        assert(scalars_view(out@) =~= Seq::new(k as nat, |q: int| v@));
    }
    Column { data_type: t, values: out }
}

fn literal_exec(v: &Value, n: usize) -> (r: Result<Column, ExecError>)
    ensures
        agree_col(r, spec_literal(v@, n as nat)),
        r matches Ok(c) ==> column_wf(c@) && c@.values.len() == n,
{
    match v {
        Value::Int(i) => Ok(repeat_scalar(&Scalar::Int(*i), n, DataType::Int64)),
        Value::Float(_) => Err(ExecError::Unsupported),
        Value::Double(_, b) => Ok(repeat_scalar(&Scalar::Float(*b), n, DataType::Float64)),
        Value::Str(s) => Ok(repeat_scalar(&Scalar::Str(s.clone()), n, DataType::Utf8)),
        Value::Bool(b) => Ok(repeat_scalar(&Scalar::Bool(*b), n, DataType::Boolean)),
        Value::Null => Ok(repeat_scalar(&Scalar::Null, n, DataType::Int64)),
    }
}

/// Evaluates an expression over a batch, returning a column with one cell
/// per row: the column that `spec_eval` gives, or its error.
pub fn evaluate(batch: &Batch, expr: &Expr) -> (r: Result<Column, ExecError>)
    ensures
        agree_col(r, spec_eval(batch@, expr@)),
        r matches Ok(c) ==> column_wf(c@) && c@.values.len() == batch@.num_rows,
    decreases expr,
{
    let n = batch.num_rows();
    match expr {
        Expr::Column(name) => {
            let schema = batch.schema();
            match find_field(schema, name) {
                Some(i) => {
                    let cols = batch.columns();
                    proof {
                        assert(schema@.map_values(|f: Field| f@) =~= batch@.schema);
                        assert(column_fits_field(batch@.columns[i as int], batch@.schema[i as int], batch@.num_rows));
                        assert(cols@[i as int]@ == batch@.columns[i as int]);
                    }
                    Ok(crate::batch::copy_column(&cols[i]))
                },
                None => {
                    proof {
                        assert(schema@.map_values(|f: Field| f@) =~= batch@.schema);
                    }
                    Err(ExecError::ColumnNotFound)
                },
            }
        },
        Expr::Literal(v) => literal_exec(v, n),
        Expr::BinOp { op, left, right } => {
            let l = match evaluate(batch, left) {
                Ok(c) => c,
                Err(e) => {
                    return Err(e);
                },
            };
            let r = match evaluate(batch, right) {
                Ok(c) => c,
                Err(e) => {
                    return Err(e);
                },
            };
            binop_exec(*op, &l, &r)
        },
        Expr::Unary { op, expr } => {
            let x = match evaluate(batch, expr) {
                Ok(c) => c,
                Err(e) => {
                    return Err(e);
                },
            };
            unary_exec(*op, &x)
        },
        Expr::Wildcard => Ok(repeat_scalar(&Scalar::Bool(true), n, DataType::Boolean)),
        Expr::Agg { .. } => Err(ExecError::AggregateInExpression),
    }
}

/// Evaluates a predicate, which must give a boolean column.
pub fn evaluate_bool(batch: &Batch, expr: &Expr) -> (r: Result<Column, ExecError>)
    ensures
        agree_col(r, spec_eval_bool(batch@, expr@)),
        r matches Ok(c) ==> column_wf(c@) && c@.values.len() == batch@.num_rows && c@.data_type
            == DataType::Boolean,
{
    let c = match evaluate(batch, expr) {
        Ok(c) => c,
        Err(e) => {
            return Err(e);
        },
    };
    if c.data_type == DataType::Boolean {
        Ok(c)
    } else {
        Err(ExecError::NotBoolean)
    }
}

} // verus!
