//! Grouping and aggregation: the state that a GROUP BY query keeps per group,
//! how each row updates it, and the batch that it finally yields.
//!
//! Sums and averages of integers are kept exactly: a SUM is the integer sum,
//! an AVG the ratio of that sum to the number of values (a `Scalar::Ratio`),
//! and MIN / MAX of integers the integer as a ratio over 1.  Over doubles,
//! SUM, AVG, and MIN / MAX of computed doubles are the double computations
//! (`Scalar::Calc`) that fold the values in row order.  The caller turns a
//! ratio or a computation into a floating-point number.
use vstd::prelude::*;

use crate::ast::{AggFunc, Expr, SpecExpr};
use crate::batch::{
    built, calc2, calc2_exec, can_build, copy_fields, copy_steps, is_double, push_steps, steps_exec, steps_of, FloatStep, fields_view, scalars_view, Batch, Column, ExecError, Field,
    Scalar, SpecBatch, SpecColumn, SpecField, SpecScalar,
};
use crate::catalog::DataType;
use crate::eval::{evaluate, find_field, index_of, sign_bit, total_key};
use crate::exec::eval_all;

verus! {

/// One aggregate of a query: the function, its argument, and the name of
/// its output column.
pub type AggCall = (AggFunc, Expr, String);

pub open spec fn call_view(c: AggCall) -> (AggFunc, SpecExpr, Seq<char>) {
    (c.0, c.1@, c.2@)
}

pub open spec fn calls_view(v: Seq<AggCall>) -> Seq<(AggFunc, SpecExpr, Seq<char>)> {
    v.map_values(|c: AggCall| call_view(c))
}

pub open spec fn call_funcs(calls: Seq<(AggFunc, SpecExpr, Seq<char>)>) -> Seq<AggFunc> {
    calls.map_values(|c: (AggFunc, SpecExpr, Seq<char>)| c.0)
}

pub open spec fn call_args(calls: Seq<(AggFunc, SpecExpr, Seq<char>)>) -> Seq<SpecExpr> {
    calls.map_values(|c: (AggFunc, SpecExpr, Seq<char>)| c.1)
}

// ── Per-group state ──────────────────────────────────────────────────────────

/// The running state of one aggregate in one group: how many values (for
/// COUNT: rows) it has seen, their integer sum, once a double was seen the
/// computation `0.0 + x1 + ... + xn` of the doubles' sum, and the least and
/// greatest.
pub struct SpecAcc {
    pub count: int,
    pub sum: int,
    pub dsum: Option<Seq<FloatStep>>,
    pub min: SpecScalar,
    pub max: SpecScalar,
}

pub open spec fn fresh_acc() -> SpecAcc {
    SpecAcc { count: 0, sum: 0, dsum: None, min: SpecScalar::Null, max: SpecScalar::Null }
}

/// The double sum after one more double `v`.
pub open spec fn dsum_after(d: Option<Seq<FloatStep>>, v: SpecScalar) -> Option<Seq<FloatStep>> {
    let base = match d {
        Some(s) => s,
        None => seq![FloatStep::Bits(0)],
    };
    Some(base + steps_of(v) + seq![FloatStep::Add])
}

/// The least (`pick == FloatStep::Min`) or greatest (`FloatStep::Max`)
/// after one more number `v`, where `less` says `v` replaces `m`.
pub open spec fn extreme_after(m: SpecScalar, v: SpecScalar, first: bool, less: bool, pick: FloatStep) -> SpecScalar {
    if first {
        v
    } else if m is Calc || v is Calc {
        calc2(m, v, pick)
    } else if less {
        v
    } else {
        m
    }
}

pub open spec fn fresh_accs(n: nat) -> Seq<SpecAcc> {
    Seq::new(n, |k: int| fresh_acc())
}

/// The number a cell gives SUM, AVG, MIN and MAX: an integer as it is, a
/// boolean as 1 or 0, a double as it is; a null or a string gives none.
pub open spec fn num_of(c: SpecScalar) -> Option<SpecScalar> {
    match c {
        SpecScalar::Int(i) => Some(SpecScalar::Int(i)),
        SpecScalar::Bool(b) => Some(SpecScalar::Int(if b { 1 } else { 0 })),
        SpecScalar::Float(f) => Some(SpecScalar::Float(f)),
        SpecScalar::Calc(s) => Some(SpecScalar::Calc(s)),
        _ => None,
    }
}

pub open spec fn int_part(v: SpecScalar) -> int {
    match v {
        SpecScalar::Int(i) => i as int,
        _ => 0,
    }
}

/// The bits of a double are a NaN.
pub open spec fn is_nan_bits(b: u64) -> bool {
    b as int % sign_bit() > 0x7ff0_0000_0000_0000
}

/// The bits of a double are a zero of either sign.
pub open spec fn is_zero_bits(b: u64) -> bool {
    b as int % sign_bit() == 0
}

/// IEEE-754 `<` on doubles given by their bits: false when either is a
/// NaN, and -0 is not below +0.
pub open spec fn float_lt(x: u64, y: u64) -> bool {
    !is_nan_bits(x) && !is_nan_bits(y) && !(is_zero_bits(x) && is_zero_bits(y)) && total_key(x)
        < total_key(y)
}

/// `<` on the numbers of `num_of` (numbers of one column share a kind).
pub open spec fn num_less(a: SpecScalar, b: SpecScalar) -> bool {
    match (a, b) {
        (SpecScalar::Int(x), SpecScalar::Int(y)) => x < y,
        (SpecScalar::Float(x), SpecScalar::Float(y)) => float_lt(x, y),
        _ => false,
    }
}

/// The state after one more row: COUNT counts every row whose argument is
/// not null (the argument of COUNT(*) is never null); the others take
/// the row's number, if it has one, adding a double to the double sum.
/// The first number sets MIN and MAX; a later one replaces them when it is
/// below (above) them, and when either is a computation, the result is the
/// computation that picks between them.
pub open spec fn acc_after(a: SpecAcc, f: AggFunc, c: SpecScalar) -> SpecAcc {
    if f == AggFunc::Count {
        if c is Null {
            a
        } else {
            SpecAcc { count: a.count + 1, sum: a.sum, dsum: a.dsum, min: a.min, max: a.max }
        }
    } else {
        match num_of(c) {
            None => a,
            Some(v) => SpecAcc {
                count: a.count + 1,
                sum: a.sum + int_part(v),
                dsum: if is_double(v) {
                    dsum_after(a.dsum, v)
                } else {
                    a.dsum
                },
                min: extreme_after(a.min, v, a.count == 0, num_less(v, a.min), FloatStep::Min),
                max: extreme_after(a.max, v, a.count == 0, num_less(a.max, v), FloatStep::Max),
            },
        }
    }
}

/// The count stays within `i64` and the sum within `i128`.
pub open spec fn acc_fits(a: SpecAcc, f: AggFunc, c: SpecScalar) -> bool {
    let n = acc_after(a, f, c);
    n.count <= i64::MAX && i128::MIN <= n.sum <= i128::MAX
}

/// A group: its key (one cell per GROUP BY column) and one state per aggregate.
pub struct SpecGroup {
    pub key: Seq<SpecScalar>,
    pub accs: Seq<SpecAcc>,
}

/// The key of row `r`.
pub open spec fn row_key(kc: Seq<SpecColumn>, r: int) -> Seq<SpecScalar> {
    Seq::new(kc.len(), |k: int| kc[k].values[r])
}

/// The states after row `r`, or `Overflow`.
pub open spec fn step_accs(accs: Seq<SpecAcc>, funcs: Seq<AggFunc>, ac: Seq<SpecColumn>, r: int) -> Result<
    Seq<SpecAcc>,
    ExecError,
> {
    if forall|k: int| 0 <= k < funcs.len() ==> #[trigger] acc_fits(accs[k], funcs[k], ac[k].values[r]) {
        Ok(Seq::new(funcs.len(), |k: int| acc_after(accs[k], funcs[k], ac[k].values[r])))
    } else {
        Err(ExecError::Overflow)
    }
}

/// The first group from `i` on with the given key.
pub open spec fn find_from(gs: Seq<SpecGroup>, key: Seq<SpecScalar>, i: int) -> Option<int>
    decreases gs.len() - i,
{
    if i < 0 || i >= gs.len() {
        None
    } else if gs[i].key == key {
        Some(i)
    } else {
        find_from(gs, key, i + 1)
    }
}

/// Row `r` updates the group of its key, or opens a new group at the end.
pub open spec fn step_row(gs: Seq<SpecGroup>, kc: Seq<SpecColumn>, ac: Seq<SpecColumn>, funcs: Seq<AggFunc>, r: int) -> Result<
    Seq<SpecGroup>,
    ExecError,
> {
    let key = row_key(kc, r);
    match find_from(gs, key, 0) {
        Some(i) => match step_accs(gs[i].accs, funcs, ac, r) {
            Ok(a) => Ok(gs.update(i, SpecGroup { key: gs[i].key, accs: a })),
            Err(e) => Err(e),
        },
        None => match step_accs(fresh_accs(funcs.len()), funcs, ac, r) {
            Ok(a) => Ok(gs.push(SpecGroup { key, accs: a })),
            Err(e) => Err(e),
        },
    }
}

/// Rows `r..n` folded into the groups in order.
pub open spec fn fold_rows(gs: Seq<SpecGroup>, kc: Seq<SpecColumn>, ac: Seq<SpecColumn>, funcs: Seq<AggFunc>, r: int, n: int) -> Result<
    Seq<SpecGroup>,
    ExecError,
>
    decreases n - r,
{
    if r >= n {
        Ok(gs)
    } else {
        match step_row(gs, kc, ac, funcs, r) {
            Ok(g) => fold_rows(g, kc, ac, funcs, r + 1, n),
            Err(e) => Err(e),
        }
    }
}

/// The GROUP BY columns of a batch, or `ColumnNotFound`.
pub open spec fn group_columns(b: SpecBatch, names: Seq<Seq<char>>) -> Result<Seq<SpecColumn>, ExecError> {
    if forall|k: int| 0 <= k < names.len() ==> (#[trigger] index_of(b.schema, names[k])) is Some {
        Ok(Seq::new(names.len(), |k: int| b.columns[index_of(b.schema, names[k])->Some_0]))
    } else {
        Err(ExecError::ColumnNotFound)
    }
}

/// One batch folded into the groups: its GROUP BY columns are looked up,
/// then the aggregates' arguments evaluated, then its rows folded in order.
pub open spec fn agg_batch(gs: Seq<SpecGroup>, b: SpecBatch, names: Seq<Seq<char>>, calls: Seq<(AggFunc, SpecExpr, Seq<char>)>) -> Result<
    Seq<SpecGroup>,
    ExecError,
> {
    match group_columns(b, names) {
        Err(e) => Err(e),
        Ok(kc) => match eval_all(b, call_args(calls)) {
            Err(e) => Err(e),
            Ok(ac) => fold_rows(gs, kc, ac, call_funcs(calls), 0, b.num_rows as int),
        },
    }
}

/// The batches folded into the groups in order.
pub open spec fn agg_batches(gs: Seq<SpecGroup>, bs: Seq<SpecBatch>, names: Seq<Seq<char>>, calls: Seq<(AggFunc, SpecExpr, Seq<char>)>) -> Result<
    Seq<SpecGroup>,
    ExecError,
>
    decreases bs.len(),
{
    if bs.len() == 0 {
        Ok(gs)
    } else {
        match agg_batch(gs, bs[0], names, calls) {
            Ok(g) => agg_batches(g, bs.drop_first(), names, calls),
            Err(e) => Err(e),
        }
    }
}

// ── The output ───────────────────────────────────────────────────────────────

pub open spec fn agg_out_type(f: AggFunc) -> DataType {
    if f == AggFunc::Count {
        DataType::Int64
    } else {
        DataType::Float64
    }
}

/// A MIN or MAX value as a double cell: an integer as a ratio over 1.
pub open spec fn as_double(v: SpecScalar) -> SpecScalar {
    match v {
        SpecScalar::Int(i) => SpecScalar::Ratio(i as i128, 1),
        SpecScalar::Float(b) => SpecScalar::Float(b),
        SpecScalar::Calc(s) => SpecScalar::Calc(s),
        _ => SpecScalar::Null,
    }
}

/// The output cell of an aggregate: COUNT as an integer; SUM as a ratio
/// over 1, or over doubles the double sum; AVG as sum over count, or over
/// doubles the double sum divided by the count; MIN and MAX as doubles;
/// AVG, MIN and MAX are null when no value was seen.
pub open spec fn agg_cell(f: AggFunc, a: SpecAcc) -> SpecScalar {
    match f {
        AggFunc::Count => SpecScalar::Int(a.count as i64),
        AggFunc::Sum => match a.dsum {
            Some(s) => SpecScalar::Calc(s),
            None => SpecScalar::Ratio(a.sum as i128, 1),
        },
        AggFunc::Avg => if a.count > 0 {
            match a.dsum {
                Some(s) => SpecScalar::Calc(s + seq![FloatStep::Ratio(a.count as i128, 1), FloatStep::Div]),
                None => SpecScalar::Ratio(a.sum as i128, a.count as u64),
            }
        } else {
            SpecScalar::Null
        },
        AggFunc::Min => if a.count > 0 {
            as_double(a.min)
        } else {
            SpecScalar::Null
        },
        AggFunc::Max => if a.count > 0 {
            as_double(a.max)
        } else {
            SpecScalar::Null
        },
    }
}

/// The groups that are output: with no GROUP BY and no row, one group of
/// fresh states.
pub open spec fn out_groups(gs: Seq<SpecGroup>, ngb: nat, ncalls: nat) -> Seq<SpecGroup> {
    if gs.len() == 0 && ngb == 0 {
        seq![SpecGroup { key: Seq::empty(), accs: fresh_accs(ncalls) }]
    } else {
        gs
    }
}

/// Output column `k`: a GROUP BY column holds the groups' keys, an
/// aggregate column the groups' `agg_cell`s.
pub open spec fn out_column(gs: Seq<SpecGroup>, ngb: nat, calls: Seq<(AggFunc, SpecExpr, Seq<char>)>, out: Seq<SpecField>, k: int) -> SpecColumn {
    SpecColumn {
        data_type: out[k].data_type,
        values: if k < ngb {
            Seq::new(gs.len(), |g: int| gs[g].key[k])
        } else {
            Seq::new(gs.len(), |g: int| agg_cell(calls[k - ngb].0, gs[g].accs[k - ngb]))
        },
    }
}

/// The batch of one row per group, in the order the groups first appeared.
pub open spec fn finish(gs: Seq<SpecGroup>, ngb: nat, calls: Seq<(AggFunc, SpecExpr, Seq<char>)>, out: Seq<SpecField>) -> Result<
    SpecBatch,
    ExecError,
> {
    let g2 = out_groups(gs, ngb, calls.len());
    let cols = Seq::new(out.len(), |k: int| out_column(g2, ngb, calls, out, k));
    if can_build(out, cols) {
        Ok(built(out, cols))
    } else {
        Err(ExecError::SchemaMismatch)
    }
}

/// The whole aggregation of a stream: its batches folded, then its error,
/// if it has one, else the output batch.
pub open spec fn agg_run(gs: Seq<SpecGroup>, bs: Seq<SpecBatch>, err: Option<ExecError>, names: Seq<Seq<char>>, calls: Seq<(AggFunc, SpecExpr, Seq<char>)>, out: Seq<SpecField>) -> Result<
    SpecBatch,
    ExecError,
> {
    match agg_batches(gs, bs, names, calls) {
        Err(e) => Err(e),
        Ok(g) => match err {
            Some(e) => Err(e),
            None => finish(g, names.len(), calls, out),
        },
    }
}

/// The output schema: the GROUP BY fields of the input, then one nullable
/// field per aggregate (`Int64` for COUNT, else `Float64`).
pub open spec fn agg_fields(schema: Seq<SpecField>, names: Seq<Seq<char>>, calls: Seq<(AggFunc, SpecExpr, Seq<char>)>) -> Result<
    Seq<SpecField>,
    ExecError,
> {
    if forall|k: int| 0 <= k < names.len() ==> (#[trigger] index_of(schema, names[k])) is Some {
        Ok(
            Seq::new(names.len(), |k: int| schema[index_of(schema, names[k])->Some_0]) + calls.map_values(
                |c: (AggFunc, SpecExpr, Seq<char>)|
                    SpecField { name: c.2, data_type: agg_out_type(c.0), nullable: true },
            ),
        )
    } else {
        Err(ExecError::ColumnNotFound)
    }
}


// ── Executable state ─────────────────────────────────────────────────────────

/// The running state of one aggregate in one group.
#[derive(Debug)]
pub struct Acc {
    pub count: i64,
    pub sum: i128,
    pub dsum: Option<Vec<FloatStep>>,
    pub min: Scalar,
    pub max: Scalar,
}

pub open spec fn opt_steps_view(d: Option<Vec<FloatStep>>) -> Option<Seq<FloatStep>> {
    match d {
        Some(v) => Some(v@),
        None => None,
    }
}

impl View for Acc {
    type V = SpecAcc;

    open spec fn view(&self) -> SpecAcc {
        SpecAcc {
            count: self.count as int,
            sum: self.sum as int,
            dsum: opt_steps_view(self.dsum),
            min: self.min@,
            max: self.max@,
        }
    }
}

fn copy_dsum(d: &Option<Vec<FloatStep>>) -> (r: Option<Vec<FloatStep>>)
    ensures
        opt_steps_view(r) == opt_steps_view(*d),
{
    match d {
        Some(v) => Some(copy_steps(v)),
        None => None,
    }
}

fn dsum_after_exec(d: &Option<Vec<FloatStep>>, v: &Scalar) -> (r: Option<Vec<FloatStep>>)
    ensures
        opt_steps_view(r) == dsum_after(opt_steps_view(*d), v@),
{
    let mut base = match d {
        Some(s) => copy_steps(s),
        None => {
            let mut b: Vec<FloatStep> = Vec::new();
            b.push(FloatStep::Bits(0));
            assert(b@ =~= seq![FloatStep::Bits(0)]);
            b
        },
    };
    let ghost b0 = base@;
    let w = steps_exec(v);
    push_steps(&mut base, &w);
    base.push(FloatStep::Add);
    assert(base@ =~= b0 + steps_of(v@) + seq![FloatStep::Add]);
    Some(base)
}

fn extreme_after_exec(m: &Scalar, v: &Scalar, first: bool, less: bool, pick: FloatStep) -> (r: Scalar)
    ensures
        r@ == extreme_after(m@, v@, first, less, pick),
{
    if first {
        v.copy()
    } else if matches!(m, Scalar::Calc(_)) || matches!(v, Scalar::Calc(_)) {
        calc2_exec(m, v, pick)
    } else if less {
        v.copy()
    } else {
        m.copy()
    }
}

/// A group: its key and one state per aggregate.
#[derive(Debug)]
pub struct Group {
    pub key: Vec<Scalar>,
    pub accs: Vec<Acc>,
}

pub open spec fn accs_view(v: Seq<Acc>) -> Seq<SpecAcc> {
    v.map_values(|a: Acc| a@)
}

impl View for Group {
    type V = SpecGroup;

    open spec fn view(&self) -> SpecGroup {
        SpecGroup { key: scalars_view(self.key@), accs: accs_view(self.accs@) }
    }
}

pub open spec fn groups_view(v: Seq<Group>) -> Seq<SpecGroup> {
    v.map_values(|g: Group| g@)
}

/// Every group has a key of `nk` cells and one state per aggregate.
pub open spec fn groups_wf(gs: Seq<SpecGroup>, nk: nat, n: nat) -> bool {
    forall|i: int| 0 <= i < gs.len() ==> (#[trigger] gs[i]).accs.len() == n && gs[i].key.len() == nk
}

fn scalar_eq(a: &Scalar, b: &Scalar) -> (r: bool)
    ensures
        r == (a@ == b@),
{
    match (a, b) {
        (Scalar::Null, Scalar::Null) => true,
        (Scalar::Int(x), Scalar::Int(y)) => *x == *y,
        (Scalar::Float(x), Scalar::Float(y)) => *x == *y,
        (Scalar::Ratio(x, d), Scalar::Ratio(y, e)) => *x == *y && *d == *e,
        (Scalar::Calc(x), Scalar::Calc(y)) => steps_eq(x, y),
        (Scalar::Str(x), Scalar::Str(y)) => *x == *y,
        (Scalar::Bool(x), Scalar::Bool(y)) => *x == *y,
        _ => false,
    }
}

fn steps_eq(a: &Vec<FloatStep>, b: &Vec<FloatStep>) -> (r: bool)
    ensures
        r == (a@ == b@),
{
    if a.len() != b.len() {
        return false;
    }
    let mut k: usize = 0;
    while k < a.len()
        invariant
            a@.len() == b@.len(),
            k <= a@.len(),
            forall|q: int| 0 <= q < k ==> a@[q] == b@[q],
        decreases a@.len() - k,
    {
        if a[k] != b[k] {
            return false;
        }
        k = k + 1;
    }
    assert(a@ =~= b@);
    true
}

fn keys_eq(a: &Vec<Scalar>, b: &Vec<Scalar>) -> (r: bool)
    ensures
        r == (scalars_view(a@) == scalars_view(b@)),
{
    if a.len() != b.len() {
        assert(scalars_view(a@).len() != scalars_view(b@).len());
        return false;
    }
    let mut k: usize = 0;
    while k < a.len()
        invariant
            a@.len() == b@.len(),
            k <= a@.len(),
            forall|q: int| 0 <= q < k ==> a@[q]@ == b@[q]@,
        decreases a@.len() - k,
    {
        if !scalar_eq(&a[k], &b[k]) {
            assert(scalars_view(a@)[k as int] != scalars_view(b@)[k as int]);
            return false;
        }
        k = k + 1;
    }
    assert(scalars_view(a@) =~= scalars_view(b@));
    true
}

fn find_group(gs: &Vec<Group>, key: &Vec<Scalar>) -> (r: Option<usize>)
    ensures
        match (r, find_from(groups_view(gs@), scalars_view(key@), 0)) {
            (Some(i), Some(j)) => i == j && i < gs@.len(),
            (None, None) => true,
            _ => false,
        },
{
    let ghost gv = groups_view(gs@);
    let mut i: usize = 0;
    while i < gs.len()
        invariant
            gv == groups_view(gs@),
            i <= gs@.len(),
            find_from(gv, scalars_view(key@), 0) == find_from(gv, scalars_view(key@), i as int),
        decreases gs@.len() - i,
    {
        assert(gv[i as int] == gs@[i as int]@);
        if keys_eq(&gs[i].key, key) {
            return Some(i);
        }
        i = i + 1;
    }
    None
}

fn copy_scalar_vec(v: &Vec<Scalar>) -> (r: Vec<Scalar>)
    ensures
        scalars_view(r@) == scalars_view(v@),
{
    let mut r: Vec<Scalar> = Vec::new();
    let mut k: usize = 0;
    while k < v.len()
        invariant
            k <= v@.len(),
            scalars_view(r@) == scalars_view(v@).take(k as int),
        decreases v@.len() - k,
    {
        let ghost before = scalars_view(r@);
        let x = v[k].copy();
        r.push(x);
        assert(scalars_view(r@) =~= before.push(x@));
        k = k + 1;
        assert(scalars_view(r@) =~= scalars_view(v@).take(k as int));
    }
    assert(scalars_view(v@).take(k as int) =~= scalars_view(v@));
    r
}

fn float_lt_exec(x: u64, y: u64) -> (r: bool)
    ensures
        r == float_lt(x, y),
{
    let mx = x % 0x8000_0000_0000_0000u64;
    let my = y % 0x8000_0000_0000_0000u64;
    let kx: u64 = if x >= 0x8000_0000_0000_0000u64 { u64::MAX - x } else { x + 0x8000_0000_0000_0000u64 };
    let ky: u64 = if y >= 0x8000_0000_0000_0000u64 { u64::MAX - y } else { y + 0x8000_0000_0000_0000u64 };
    mx <= 0x7ff0_0000_0000_0000u64 && my <= 0x7ff0_0000_0000_0000u64 && !(mx == 0 && my == 0) && kx < ky
}

fn num_of_exec(c: &Scalar) -> (r: Option<Scalar>)
    ensures
        match (r, num_of(c@)) {
            (Some(x), Some(y)) => x@ == y,
            (None, None) => true,
            _ => false,
        },
{
    match c {
        Scalar::Int(i) => Some(Scalar::Int(*i)),
        Scalar::Bool(b) => Some(Scalar::Int(if *b { 1 } else { 0 })),
        Scalar::Float(f) => Some(Scalar::Float(*f)),
        Scalar::Calc(s) => Some(Scalar::Calc(copy_steps(s))),
        _ => None,
    }
}

fn num_less_exec(a: &Scalar, b: &Scalar) -> (r: bool)
    ensures
        r == num_less(a@, b@),
{
    match (a, b) {
        (Scalar::Int(x), Scalar::Int(y)) => *x < *y,
        (Scalar::Float(x), Scalar::Float(y)) => float_lt_exec(*x, *y),
        _ => false,
    }
}

fn fresh_acc_exec() -> (a: Acc)
    ensures
        a@ == fresh_acc(),
{
    Acc { count: 0, sum: 0, dsum: None, min: Scalar::Null, max: Scalar::Null }
}

/// One row's cell folded into a state, or `Overflow`.
fn step_acc(a: &Acc, f: AggFunc, c: &Scalar) -> (r: Result<Acc, ExecError>)
    ensures
        acc_fits(a@, f, c@) ==> (r matches Ok(n) && n@ == acc_after(a@, f, c@)),
        !acc_fits(a@, f, c@) ==> r == Err::<Acc, ExecError>(ExecError::Overflow),
{
    if f == AggFunc::Count {
        if c.is_null() {
            return Ok(Acc { count: a.count, sum: a.sum, dsum: copy_dsum(&a.dsum), min: a.min.copy(), max: a.max.copy() });
        }
        if a.count == i64::MAX {
            return Err(ExecError::Overflow);
        }
        return Ok(Acc { count: a.count + 1, sum: a.sum, dsum: copy_dsum(&a.dsum), min: a.min.copy(), max: a.max.copy() });
    }
    match num_of_exec(c) {
        None => Ok(Acc { count: a.count, sum: a.sum, dsum: copy_dsum(&a.dsum), min: a.min.copy(), max: a.max.copy() }),
        Some(v) => {
            if a.count == i64::MAX {
                return Err(ExecError::Overflow);
            }
            let ip: i128 = match &v {
                Scalar::Int(i) => *i as i128,
                _ => 0,
            };
            if (ip >= 0 && a.sum > i128::MAX - ip) || (ip < 0 && a.sum < i128::MIN - ip) {
                return Err(ExecError::Overflow);
            }
            let first = a.count == 0;
            let min = extreme_after_exec(&a.min, &v, first, num_less_exec(&v, &a.min), FloatStep::Min);
            let max = extreme_after_exec(&a.max, &v, first, num_less_exec(&a.max, &v), FloatStep::Max);
            let dsum = if matches!(v, Scalar::Float(_) | Scalar::Ratio(_, _) | Scalar::Calc(_)) {
                dsum_after_exec(&a.dsum, &v)
            } else {
                copy_dsum(&a.dsum)
            };
            Ok(Acc { count: a.count + 1, sum: a.sum + ip, dsum, min, max })
        },
    }
}

/// The states of a group after row `r`.
fn step_accs_exec(accs: &Vec<Acc>, calls: &Vec<AggCall>, ac: &Vec<Column>, r: usize) -> (res: Result<Vec<Acc>, ExecError>)
    requires
        accs@.len() == calls@.len(),
        ac@.len() == calls@.len(),
        forall|k: int| 0 <= k < ac@.len() ==> r < (#[trigger] ac@[k]).values@.len(),
    ensures
        match step_accs(accs_view(accs@), call_funcs(calls_view(calls@)), ac@.map_values(|c: Column| c@), r as int) {
            Ok(a) => res matches Ok(v) && accs_view(v@) == a,
            Err(e) => res == Err::<Vec<Acc>, ExecError>(e),
        },
{
    let ghost av = accs_view(accs@);
    let ghost fs = call_funcs(calls_view(calls@));
    let ghost cv = ac@.map_values(|c: Column| c@);
    let mut out: Vec<Acc> = Vec::new();
    let mut k: usize = 0;
    while k < calls.len()
        invariant
            av == accs_view(accs@),
            fs == call_funcs(calls_view(calls@)),
            cv == ac@.map_values(|c: Column| c@),
            accs@.len() == calls@.len(),
            ac@.len() == calls@.len(),
            forall|q: int| 0 <= q < ac@.len() ==> r < (#[trigger] ac@[q]).values@.len(),
            k <= calls@.len(),
            out@.len() == k,
            forall|q: int| 0 <= q < k ==> #[trigger] acc_fits(av[q], fs[q], cv[q].values[r as int]),
            forall|q: int| 0 <= q < k ==> (#[trigger] out@[q])@ == acc_after(av[q], fs[q], cv[q].values[r as int]),
        decreases calls@.len() - k,
    {
        assert(av[k as int] == accs@[k as int]@);
        assert(fs[k as int] == calls@[k as int].0);
        assert(cv[k as int] == ac@[k as int]@);
        assert(cv[k as int].values[r as int] == ac@[k as int].values@[r as int]@);
        match step_acc(&accs[k], calls[k].0, &ac[k].values[r]) {
            Err(e) => {
                assert(!acc_fits(av[k as int], fs[k as int], cv[k as int].values[r as int]));
                return Err(e);
            },
            Ok(n) => {
                out.push(n);
            },
        }
        k = k + 1;
    }
    assert(accs_view(out@) =~= Seq::new(fs.len(), |q: int| acc_after(av[q], fs[q], cv[q].values[r as int])));
    Ok(out)
}

fn fresh_accs_exec(n: usize) -> (v: Vec<Acc>)
    ensures
        accs_view(v@) == fresh_accs(n as nat),
        v@.len() == n,
{
    let mut v: Vec<Acc> = Vec::new();
    let mut k: usize = 0;
    assert(accs_view(v@) =~= fresh_accs(0));
    while k < n
        invariant
            k <= n,
            v@.len() == k,
            accs_view(v@) == fresh_accs(k as nat),
        decreases n - k,
    {
        let ghost before = accs_view(v@);
        let a = fresh_acc_exec();
        v.push(a);
        assert(accs_view(v@) =~= before.push(a@));
        k = k + 1;
        assert(accs_view(v@) =~= fresh_accs(k as nat));
    }
    v
}

/// The rows of a batch folded into the groups.
fn fold_rows_exec(gs: &mut Vec<Group>, kc: &Vec<usize>, b: &Batch, ac: &Vec<Column>, calls: &Vec<AggCall>) -> (r: Result<(), ExecError>)
    requires
        groups_wf(groups_view(old(gs)@), kc@.len() as nat, calls@.len() as nat),
        ac@.len() == calls@.len(),
        forall|k: int| 0 <= k < ac@.len() ==> (#[trigger] ac@[k]).values@.len() == b@.num_rows,
        forall|k: int| 0 <= k < kc@.len() ==> (#[trigger] kc@[k]) < b@.columns.len(),
    ensures
        groups_wf(groups_view(final(gs)@), kc@.len() as nat, calls@.len() as nat),
        match fold_rows(
            groups_view(old(gs)@),
            Seq::new(kc@.len() as nat, |k: int| b@.columns[kc@[k] as int]),
            ac@.map_values(|c: Column| c@),
            call_funcs(calls_view(calls@)),
            0,
            b@.num_rows as int,
        ) {
            Ok(g) => r is Ok && groups_view(final(gs)@) == g,
            Err(e) => r == Err::<(), ExecError>(e),
        },
{
    let ghost kcv = Seq::new(kc@.len() as nat, |k: int| b@.columns[kc@[k] as int]);
    let ghost acv = ac@.map_values(|c: Column| c@);
    let ghost fs = call_funcs(calls_view(calls@));
    let ghost goal = fold_rows(groups_view(gs@), kcv, acv, fs, 0, b@.num_rows as int);
    let n = b.num_rows();
    let cols = b.columns();
    proof {
        assert forall|k: int| 0 <= k < kc@.len() implies (#[trigger] cols@[kc@[k] as int]).values@.len() == n by {
            assert(crate::batch::column_fits_field(b@.columns[kc@[k] as int], b@.schema[kc@[k] as int], b@.num_rows));
            assert(b@.columns[kc@[k] as int] == cols@[kc@[k] as int]@);
        }
    }
    let mut r: usize = 0;
    while r < n
        invariant
            n == b@.num_rows,
            cols@.map_values(|c: Column| c@) == b@.columns,
            forall|k: int| 0 <= k < kc@.len() ==> (#[trigger] kc@[k]) < b@.columns.len(),
            forall|k: int| 0 <= k < kc@.len() ==> (#[trigger] cols@[kc@[k] as int]).values@.len() == n,
            kcv == Seq::new(kc@.len() as nat, |k: int| b@.columns[kc@[k] as int]),
            acv == ac@.map_values(|c: Column| c@),
            fs == call_funcs(calls_view(calls@)),
            ac@.len() == calls@.len(),
            forall|k: int| 0 <= k < ac@.len() ==> (#[trigger] ac@[k]).values@.len() == n,
            r <= n,
            groups_wf(groups_view(gs@), kc@.len() as nat, calls@.len() as nat),
            goal == fold_rows(groups_view(gs@), kcv, acv, fs, r as int, n as int),
            goal == fold_rows(groups_view(old(gs)@), kcv, acv, fs, 0, b@.num_rows as int),
        decreases n - r,
    {
        let mut key: Vec<Scalar> = Vec::new();
        let mut k: usize = 0;
        while k < kc.len()
            invariant
                r < n,
                cols@.map_values(|c: Column| c@) == b@.columns,
                forall|q: int| 0 <= q < kc@.len() ==> (#[trigger] kc@[q]) < b@.columns.len(),
                forall|q: int| 0 <= q < kc@.len() ==> (#[trigger] cols@[kc@[q] as int]).values@.len() == n,
                kcv == Seq::new(kc@.len() as nat, |q: int| b@.columns[kc@[q] as int]),
                k <= kc@.len(),
                scalars_view(key@) == row_key(kcv, r as int).take(k as int),
            decreases kc@.len() - k,
        {
            let ghost before = scalars_view(key@);
            let c = &cols[kc[k]];
            assert(c@ == b@.columns[kc@[k as int] as int]);
            let x = c.values[r].copy();
            key.push(x);
            assert(scalars_view(key@) =~= before.push(x@));
            k = k + 1;
            assert(scalars_view(key@) =~= row_key(kcv, r as int).take(k as int));
        }
        assert(row_key(kcv, r as int).take(k as int) =~= row_key(kcv, r as int));
        let ghost gv = groups_view(gs@);
        assert(scalars_view(key@) == row_key(kcv, r as int));
        assert(goal == match step_row(gv, kcv, acv, fs, r as int) {
            Ok(g) => fold_rows(g, kcv, acv, fs, r + 1, n as int),
            Err(e) => Err(e),
        });
        proof {
            assert forall|q: int| 0 <= q < ac@.len() implies r < (#[trigger] ac@[q]).values@.len() by {}
        }
        match find_group(gs, &key) {
            Some(i) => {
                assert(gv[i as int] == gs@[i as int]@);
                match step_accs_exec(&gs[i].accs, calls, ac, r) {
                    Err(e) => {
                        return Err(e);
                    },
                    Ok(a) => {
                        let g = Group { key: copy_scalar_vec(&gs[i].key), accs: a };
                        gs.set(i, g);
                        proof {
                            assert(groups_view(gs@) =~= gv.update(i as int, SpecGroup { key: gv[i as int].key, accs: g@.accs }));
                        }
                    },
                }
            },
            None => {
                let fresh = fresh_accs_exec(calls.len());
                assert(fs.len() == calls@.len());
                match step_accs_exec(&fresh, calls, ac, r) {
                    Err(e) => {
                        return Err(e);
                    },
                    Ok(a) => {
                        let g = Group { key, accs: a };
                        gs.push(g);
                        proof {
                            assert(groups_view(gs@) =~= gv.push(g@));
                        }
                    },
                }
            },
        }
        r = r + 1;
    }
    Ok(())
}


/// The batch folded into the groups (see `agg_batch`).
pub fn fold_batch(gs: &mut Vec<Group>, b: &Batch, names: &Vec<String>, calls: &Vec<AggCall>) -> (r: Result<(), ExecError>)
    requires
        groups_wf(groups_view(old(gs)@), names@.len() as nat, calls@.len() as nat),
    ensures
        groups_wf(groups_view(final(gs)@), names@.len() as nat, calls@.len() as nat),
        match agg_batch(groups_view(old(gs)@), b@, crate::ast::strings_view(names@), calls_view(calls@)) {
            Ok(g) => r is Ok && groups_view(final(gs)@) == g,
            Err(e) => r == Err::<(), ExecError>(e),
        },
{
    let ghost nv = crate::ast::strings_view(names@);
    let ghost cv = calls_view(calls@);
    let schema = b.schema();
    let _ = b.num_columns();
    // the GROUP BY columns
    let mut kc: Vec<usize> = Vec::new();
    let mut k: usize = 0;
    while k < names.len()
        invariant
            nv == crate::ast::strings_view(names@),
            crate::batch::fields_view(schema@) == b@.schema,
            b@.schema.len() == b@.columns.len(),
            k <= names@.len(),
            gs@ == old(gs)@,
            groups_wf(groups_view(old(gs)@), names@.len() as nat, calls@.len() as nat),
            kc@.len() == k,
            forall|q: int| 0 <= q < k ==> (#[trigger] index_of(b@.schema, nv[q])) == Some(kc@[q] as int),
            forall|q: int| 0 <= q < k ==> (#[trigger] kc@[q]) < b@.columns.len(),
        decreases names@.len() - k,
    {
        match find_field(schema, &names[k]) {
            None => {
                assert(index_of(b@.schema, nv[k as int]) is None);
                return Err(ExecError::ColumnNotFound);
            },
            Some(i) => {
                kc.push(i);
            },
        }
        k = k + 1;
    }
    let ghost kcv = Seq::new(kc@.len() as nat, |q: int| b@.columns[kc@[q] as int]);
    assert(group_columns(b@, nv) == Ok::<Seq<SpecColumn>, ExecError>(kcv)) by {
        assert(kcv =~= Seq::new(nv.len(), |q: int| b@.columns[index_of(b@.schema, nv[q])->Some_0]));
    }
    // the aggregates' arguments
    let ghost es = call_args(cv);
    let mut ac: Vec<Column> = Vec::new();
    let mut j: usize = 0;
    assert(es.take(0) =~= Seq::<SpecExpr>::empty());
    assert(ac@.map_values(|c: Column| c@) =~= Seq::<SpecColumn>::empty());
    while j < calls.len()
        invariant
            es == call_args(calls_view(calls@)),
            nv == crate::ast::strings_view(names@),
            cv == calls_view(calls@),
            group_columns(b@, nv) == Ok::<Seq<SpecColumn>, ExecError>(kcv),
            gs@ == old(gs)@,
            groups_wf(groups_view(old(gs)@), names@.len() as nat, calls@.len() as nat),
            j <= calls@.len(),
            ac@.len() == j,
            eval_all(b@, es.take(j as int)) == Ok::<Seq<SpecColumn>, ExecError>(ac@.map_values(|c: Column| c@)),
            forall|q: int| 0 <= q < j ==> (#[trigger] ac@[q]).values@.len() == b@.num_rows,
        decreases calls@.len() - j,
    {
        assert(es.take(j + 1).drop_last() =~= es.take(j as int));
        assert(es.take(j + 1).last() == calls@[j as int].1@);
        match evaluate(b, &calls[j].1) {
            Err(e) => {
                proof {
                    crate::exec::lemma_eval_all_err(b@, es, j as int, e);
                }
                return Err(e);
            },
            Ok(c) => {
                let ghost before = ac@.map_values(|c: Column| c@);
                ac.push(c);
                assert(ac@.map_values(|c: Column| c@) =~= before.push(c@));
            },
        }
        j = j + 1;
    }
    assert(es.take(calls@.len() as int) =~= es);
    let ghost acv = ac@.map_values(|c: Column| c@);
    let ghost fs = call_funcs(cv);
    fold_rows_exec(gs, &kc, b, &ac, calls)
}

/// The output batch of the groups (see `finish`).
pub fn finish_exec(gs: Vec<Group>, ngb: usize, calls: &Vec<AggCall>, out: &Vec<Field>) -> (r: Result<Batch, ExecError>)
    requires
        groups_wf(groups_view(gs@), ngb as nat, calls@.len() as nat),
        out@.len() == ngb + calls@.len(),
    ensures
        match finish(groups_view(gs@), ngb as nat, calls_view(calls@), fields_view(out@)) {
            Ok(c) => r matches Ok(b) && b@ == c,
            Err(e) => r == Err::<Batch, ExecError>(e),
        },
{
    let ghost ov = fields_view(out@);
    let ghost cv = calls_view(calls@);
    let mut groups = gs;
    if groups.len() == 0 && ngb == 0 {
        let key: Vec<Scalar> = Vec::new();
        assert(scalars_view(key@) =~= Seq::<SpecScalar>::empty());
        let g = Group { key, accs: fresh_accs_exec(calls.len()) };
        groups.push(g);
        assert(groups_view(groups@) =~= out_groups(Seq::empty(), 0, calls@.len() as nat));
    }
    let ghost g2 = groups_view(groups@);
    let mut cols: Vec<Column> = Vec::new();
    let mut c: usize = 0;
    while c < out.len()
        invariant
            ov == fields_view(out@),
            cv == calls_view(calls@),
            g2 == groups_view(groups@),
            groups_wf(g2, ngb as nat, calls@.len() as nat),
            out@.len() == ngb + calls@.len(),
            c <= out@.len(),
            cols@.len() == c,
            forall|p: int| 0 <= p < c ==> (#[trigger] cols@[p])@ == out_column(g2, ngb as nat, cv, ov, p),
        decreases out@.len() - c,
    {
        let t = out[c].data_type;
        assert(t == ov[c as int].data_type);
        let mut vals: Vec<Scalar> = Vec::new();
        let mut g: usize = 0;
        while g < groups.len()
            invariant
                ov == fields_view(out@),
                cv == calls_view(calls@),
                g2 == groups_view(groups@),
                groups_wf(g2, ngb as nat, calls@.len() as nat),
                out@.len() == ngb + calls@.len(),
                c < out@.len(),
                g <= groups@.len(),
                scalars_view(vals@) == out_column(g2, ngb as nat, cv, ov, c as int).values.take(g as int),
            decreases groups@.len() - g,
        {
            let ghost before = scalars_view(vals@);
            assert(g2[g as int] == groups@[g as int]@);
            let v = if c < ngb {
                groups[g].key[c].copy()
            } else {
                agg_cell_exec(calls[c - ngb].0, &groups[g].accs[c - ngb])
            };
            vals.push(v);
            assert(scalars_view(vals@) =~= before.push(v@));
            g = g + 1;
            assert(scalars_view(vals@) =~= out_column(g2, ngb as nat, cv, ov, c as int).values.take(g as int));
        }
        let col = Column { data_type: t, values: vals };
        assert(col@ == out_column(g2, ngb as nat, cv, ov, c as int)) by {
            assert(out_column(g2, ngb as nat, cv, ov, c as int).values.take(g as int) =~= out_column(g2, ngb as nat, cv, ov, c as int).values);
        }
        cols.push(col);
        c = c + 1;
    }
    assert(cols@.map_values(|x: Column| x@) =~= Seq::new(ov.len(), |p: int| out_column(g2, ngb as nat, cv, ov, p)));
    Batch::try_new(copy_fields(out), cols)
}

fn agg_cell_exec(f: AggFunc, a: &Acc) -> (c: Scalar)
    ensures
        c@ == agg_cell(f, a@),
{
    match f {
        AggFunc::Count => Scalar::Int(a.count),
        AggFunc::Sum => match &a.dsum {
            Some(s) => Scalar::Calc(copy_steps(s)),
            None => Scalar::Ratio(a.sum, 1),
        },
        AggFunc::Avg => if a.count > 0 {
            match &a.dsum {
                Some(s) => {
                    let mut v = copy_steps(s);
                    v.push(FloatStep::Ratio(a.count as i128, 1));
                    v.push(FloatStep::Div);
                    assert(v@ =~= s@ + seq![FloatStep::Ratio(a.count as i128, 1), FloatStep::Div]);
                    Scalar::Calc(v)
                },
                None => Scalar::Ratio(a.sum, a.count as u64),
            }
        } else {
            Scalar::Null
        },
        AggFunc::Min => if a.count > 0 {
            as_double_exec(&a.min)
        } else {
            Scalar::Null
        },
        AggFunc::Max => if a.count > 0 {
            as_double_exec(&a.max)
        } else {
            Scalar::Null
        },
    }
}

fn as_double_exec(v: &Scalar) -> (c: Scalar)
    ensures
        c@ == as_double(v@),
{
    match v {
        Scalar::Int(i) => Scalar::Ratio(*i as i128, 1),
        Scalar::Float(b) => Scalar::Float(*b),
        Scalar::Calc(s) => Scalar::Calc(copy_steps(s)),
        _ => Scalar::Null,
    }
}

/// The output schema (see `agg_fields`).
pub fn agg_fields_exec(schema: &Vec<Field>, names: &Vec<String>, calls: &Vec<AggCall>) -> (r: Result<Vec<Field>, ExecError>)
    ensures
        match agg_fields(fields_view(schema@), crate::ast::strings_view(names@), calls_view(calls@)) {
            Ok(f) => r matches Ok(v) && fields_view(v@) == f,
            Err(e) => r == Err::<Vec<Field>, ExecError>(e),
        },
{
    let ghost sv = fields_view(schema@);
    let ghost nv = crate::ast::strings_view(names@);
    let ghost cv = calls_view(calls@);
    let mut out: Vec<Field> = Vec::new();
    let mut k: usize = 0;
    while k < names.len()
        invariant
            sv == fields_view(schema@),
            nv == crate::ast::strings_view(names@),
            k <= names@.len(),
            forall|q: int| 0 <= q < k ==> (#[trigger] index_of(sv, nv[q])) is Some,
            fields_view(out@) == Seq::new(k as nat, |q: int| sv[index_of(sv, nv[q])->Some_0]),
        decreases names@.len() - k,
    {
        match find_field(schema, &names[k]) {
            None => {
                assert(index_of(sv, nv[k as int]) is None);
                return Err(ExecError::ColumnNotFound);
            },
            Some(i) => {
                let ghost before = fields_view(out@);
                let f = schema[i].copy();
                assert(f@ == sv[i as int]);
                out.push(f);
                assert(fields_view(out@) =~= before.push(f@));
            },
        }
        k = k + 1;
        assert(fields_view(out@) =~= Seq::new(k as nat, |q: int| sv[index_of(sv, nv[q])->Some_0]));
    }
    let ghost head = fields_view(out@);
    let mut j: usize = 0;
    while j < calls.len()
        invariant
            cv == calls_view(calls@),
            j <= calls@.len(),
            fields_view(out@) == head + cv.take(j as int).map_values(
                |c: (AggFunc, SpecExpr, Seq<char>)| SpecField { name: c.2, data_type: agg_out_type(c.0), nullable: true },
            ),
        decreases calls@.len() - j,
    {
        let ghost before = fields_view(out@);
        let t = if calls[j].0 == AggFunc::Count { DataType::Int64 } else { DataType::Float64 };
        let f = Field::new(calls[j].2.clone(), t, true);
        assert(cv[j as int] == call_view(calls@[j as int]));
        out.push(f);
        assert(fields_view(out@) =~= before.push(f@));
        assert(cv.take(j + 1).map_values(
            |c: (AggFunc, SpecExpr, Seq<char>)| SpecField { name: c.2, data_type: agg_out_type(c.0), nullable: true },
        ) =~= cv.take(j as int).map_values(
            |c: (AggFunc, SpecExpr, Seq<char>)| SpecField { name: c.2, data_type: agg_out_type(c.0), nullable: true },
        ).push(f@));
        j = j + 1;
    }
    assert(cv.take(j as int) =~= cv);
    Ok(out)
}

} // verus!
