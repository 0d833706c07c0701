//! Columnar batches of rows, their model, and the kernels that move rows.
use vstd::prelude::*;

use crate::catalog::DataType;

verus! {

/// One cell of a column.
///
/// A `Float64` cell is either the IEEE-754 bit pattern of a double
/// (`Float`), or the exact rational `num / den` (`Ratio`, `den > 0`) that an
/// aggregate computed, or a double computation (`Calc`) whose arithmetic is
/// left to the caller, as is turning a ratio into a double.
#[derive(Debug)]
pub enum Scalar {
    Null,
    Int(i64),
    Float(u64),
    Ratio(i128, u64),
    Calc(Vec<FloatStep>),
    Str(String),
    Bool(bool),
}

/// One step of a double computation, in postfix order: a step pushes a
/// double on a stack, or pops its operands and pushes its result.
///
/// - `Bits(b)` pushes the double with bit pattern `b`;
/// - `Ratio(n, d)` pushes `n as f64 / d as f64`;
/// - `Add`, `Sub`, `Mul`, `Div` pop `y`, then `x`, and push `x op y`;
/// - `Neg` pops `x` and pushes `-x`;
/// - `Min` (`Max`) pops `y`, then `x`, and pushes `y` if `y < x` (`y > x`),
///   else `x`.
#[derive(Debug, Clone, Copy, PartialEq, Eq, Structural)]
pub enum FloatStep {
    Bits(u64),
    Ratio(i128, u64),
    Add,
    Sub,
    Mul,
    Div,
    Neg,
    Min,
    Max,
}

pub enum SpecScalar {
    Null,
    Int(i64),
    Float(u64),
    Ratio(i128, u64),
    Calc(Seq<FloatStep>),
    Str(Seq<char>),
    Bool(bool),
}

/// The steps that push a double-valued cell.
pub open spec fn steps_of(c: SpecScalar) -> Seq<FloatStep> {
    match c {
        SpecScalar::Float(b) => seq![FloatStep::Bits(b)],
        SpecScalar::Ratio(n, d) => seq![FloatStep::Ratio(n, d)],
        SpecScalar::Calc(s) => s,
        _ => Seq::empty(),
    }
}

/// The cell is a double: bits, a ratio or a computation.
pub open spec fn is_double(c: SpecScalar) -> bool {
    c is Float || c is Ratio || c is Calc
}

/// The computation that applies `last` to the doubles of `a` and `b`.
pub open spec fn calc2(a: SpecScalar, b: SpecScalar, last: FloatStep) -> SpecScalar {
    SpecScalar::Calc(steps_of(a) + steps_of(b) + seq![last])
}

pub fn steps_exec(c: &Scalar) -> (v: Vec<FloatStep>)
    ensures
        v@ == steps_of(c@),
{
    match c {
        Scalar::Float(b) => vec![FloatStep::Bits(*b)],
        Scalar::Ratio(n, d) => vec![FloatStep::Ratio(*n, *d)],
        Scalar::Calc(s) => copy_steps(s),
        _ => Vec::new(),
    }
}

/// `v` followed by the steps of `w`.
pub fn push_steps(v: &mut Vec<FloatStep>, w: &Vec<FloatStep>)
    ensures
        final(v)@ == old(v)@ + w@,
{
    let ghost v0 = v@;
    let mut k: usize = 0;
    while k < w.len()
        invariant
            k <= w@.len(),
            v@ == v0 + w@.take(k as int),
        decreases w@.len() - k,
    {
        v.push(w[k]);
        k = k + 1;
        assert(v@ =~= v0 + w@.take(k as int));
    }
    assert(w@.take(k as int) =~= w@);
}

pub fn copy_steps(w: &Vec<FloatStep>) -> (v: Vec<FloatStep>)
    ensures
        v@ == w@,
{
    let mut v: Vec<FloatStep> = Vec::new();
    push_steps(&mut v, w);
    assert(v@ =~= w@);
    v
}

pub fn calc2_exec(a: &Scalar, b: &Scalar, last: FloatStep) -> (r: Scalar)
    ensures
        r@ == calc2(a@, b@, last),
{
    let mut v = steps_exec(a);
    let w = steps_exec(b);
    push_steps(&mut v, &w);
    v.push(last);
    assert(v@ =~= steps_of(a@) + steps_of(b@) + seq![last]);
    Scalar::Calc(v)
}

impl View for Scalar {
    type V = SpecScalar;

    open spec fn view(&self) -> SpecScalar {
        match self {
            Scalar::Null => SpecScalar::Null,
            Scalar::Int(i) => SpecScalar::Int(*i),
            Scalar::Float(b) => SpecScalar::Float(*b),
            Scalar::Ratio(n, d) => SpecScalar::Ratio(*n, *d),
            Scalar::Calc(v) => SpecScalar::Calc(v@),
            Scalar::Str(s) => SpecScalar::Str(s@),
            Scalar::Bool(b) => SpecScalar::Bool(*b),
        }
    }
}

impl Scalar {
    pub fn copy(&self) -> (r: Scalar)
        ensures
            r@ == self@,
    {
        match self {
            Scalar::Null => Scalar::Null,
            Scalar::Int(i) => Scalar::Int(*i),
            Scalar::Float(b) => Scalar::Float(*b),
            Scalar::Ratio(n, d) => Scalar::Ratio(*n, *d),
            Scalar::Calc(v) => Scalar::Calc(v.clone()),
            Scalar::Str(s) => Scalar::Str(s.clone()),
            Scalar::Bool(b) => Scalar::Bool(*b),
        }
    }

    pub fn is_null(&self) -> (b: bool)
        ensures
            b == (self@ is Null),
    {
        match self {
            Scalar::Null => true,
            _ => false,
        }
    }
}

/// A cell fits a column type: it is null or of the type's kind.
pub open spec fn fits(v: SpecScalar, t: DataType) -> bool {
    match v {
        SpecScalar::Null => true,
        SpecScalar::Int(_) => t == DataType::Int64,
        SpecScalar::Float(_) => t == DataType::Float64,
        SpecScalar::Ratio(_, d) => t == DataType::Float64 && d > 0,
        SpecScalar::Calc(_) => t == DataType::Float64,
        SpecScalar::Str(_) => t == DataType::Utf8,
        SpecScalar::Bool(_) => t == DataType::Boolean,
    }
}

/// A column of cells of one type.
#[derive(Debug)]
pub struct Column {
    pub data_type: DataType,
    pub values: Vec<Scalar>,
}

pub struct SpecColumn {
    pub data_type: DataType,
    pub values: Seq<SpecScalar>,
}

pub open spec fn scalars_view(v: Seq<Scalar>) -> Seq<SpecScalar> {
    v.map_values(|s: Scalar| s@)
}

impl View for Column {
    type V = SpecColumn;

    open spec fn view(&self) -> SpecColumn {
        SpecColumn { data_type: self.data_type, values: scalars_view(self.values@) }
    }
}

pub open spec fn column_wf(c: SpecColumn) -> bool {
    forall|k: int| 0 <= k < c.values.len() ==> fits(#[trigger] c.values[k], c.data_type)
}

/// A field of a schema.
#[derive(Debug)]
pub struct Field {
    pub name: String,
    pub data_type: DataType,
    pub nullable: bool,
}

pub struct SpecField {
    pub name: Seq<char>,
    pub data_type: DataType,
    pub nullable: bool,
}

impl View for Field {
    type V = SpecField;

    open spec fn view(&self) -> SpecField {
        SpecField { name: self.name@, data_type: self.data_type, nullable: self.nullable }
    }
}

impl Field {
    pub fn new(name: String, data_type: DataType, nullable: bool) -> (f: Field)
        ensures
            f@ == (SpecField { name: name@, data_type, nullable }),
    {
        Field { name, data_type, nullable }
    }

    pub fn copy(&self) -> (r: Field)
        ensures
            r@ == self@,
    {
        Field { name: self.name.clone(), data_type: self.data_type, nullable: self.nullable }
    }
}

pub open spec fn fields_view(v: Seq<Field>) -> Seq<SpecField> {
    v.map_values(|f: Field| f@)
}

pub fn copy_fields(v: &Vec<Field>) -> (r: Vec<Field>)
    ensures
        fields_view(r@) == fields_view(v@),
{
    let mut r: Vec<Field> = Vec::new();
    let mut i: usize = 0;
    while i < v.len()
        invariant
            i <= v@.len(),
            r@.len() == i,
            forall|k: int| 0 <= k < i ==> r@[k]@ == v@[k]@,
        decreases v@.len() - i,
    {
        r.push(v[i].copy());
        i = i + 1;
    }
    assert(fields_view(r@) =~= fields_view(v@));
    r
}

/// A batch of rows, stored column by column.
#[derive(Debug)]
pub struct Batch {
    schema: Vec<Field>,
    columns: Vec<Column>,
    num_rows: usize,
}

pub struct SpecBatch {
    pub schema: Seq<SpecField>,
    pub columns: Seq<SpecColumn>,
    pub num_rows: nat,
}

impl View for Batch {
    type V = SpecBatch;

    closed spec fn view(&self) -> SpecBatch {
        SpecBatch {
            schema: fields_view(self.schema@),
            columns: self.columns@.map_values(|c: Column| c@),
            num_rows: self.num_rows as nat,
        }
    }
}

/// Column `k` of a batch has the batch's length and its field's type, and
/// holds no null where the field is not nullable.
pub open spec fn column_fits_field(c: SpecColumn, f: SpecField, n: nat) -> bool {
    &&& c.values.len() == n
    &&& c.data_type == f.data_type
    &&& column_wf(c)
    &&& !f.nullable ==> forall|k: int| 0 <= k < n ==> !(#[trigger] c.values[k] is Null)
}

/// The conditions that `try_new` checks.
pub open spec fn batch_wf(b: SpecBatch) -> bool {
    &&& b.columns.len() == b.schema.len()
    &&& b.columns.len() > 0
    &&& forall|k: int|
        0 <= k < b.columns.len() ==> column_fits_field(#[trigger] b.columns[k], b.schema[k], b.num_rows)
}

/// What `try_new` checks: as many columns as fields, at least one, all of
/// the first column's length, each fitting its field.
pub open spec fn can_build(schema: Seq<SpecField>, columns: Seq<SpecColumn>) -> bool {
    &&& columns.len() == schema.len()
    &&& columns.len() > 0
    &&& forall|k: int|
        0 <= k < columns.len() ==> column_fits_field(#[trigger] columns[k], schema[k], columns[0].values.len())
}

/// The batch that `try_new` builds from fields and columns.
pub open spec fn built(schema: Seq<SpecField>, columns: Seq<SpecColumn>) -> SpecBatch {
    SpecBatch { schema, columns, num_rows: columns[0].values.len() }
}

/// Why a batch could not be built or a query step failed.
#[derive(Debug, Clone, Copy, PartialEq, Eq, Structural)]
pub enum ExecError {
    /// A named column is not in the schema.
    ColumnNotFound,
    /// An operator was applied to columns of types it does not take.
    TypeMismatch,
    /// Integer arithmetic left the range of `i64`.
    Overflow,
    /// Integer division by zero.
    DivideByZero,
    /// The step needs floating-point arithmetic, which the library leaves to its caller.
    Unsupported,
    /// An aggregate call outside the aggregation step.
    AggregateInExpression,
    /// A predicate did not give a boolean column.
    NotBoolean,
    /// Columns and schema disagree (count, length, type or nulls).
    SchemaMismatch,
    /// A CSV value could not be read as the column's type.
    BadValue,
    /// The ON condition of a join is not `column = column`.
    BadJoinCondition,
    /// A table named in the plan has no data.
    TableNotFound,
}

impl Batch {
    #[verifier::type_invariant]
    spec fn inv(self) -> bool {
        batch_wf(self@)
    }

    /// Builds a batch, checking what `can_build` states.
    pub fn try_new(schema: Vec<Field>, columns: Vec<Column>) -> (r: Result<Batch, ExecError>)
        ensures
            match r {
                Ok(b) => can_build(fields_view(schema@), columns@.map_values(|c: Column| c@))
                    && b@ == built(fields_view(schema@), columns@.map_values(|c: Column| c@)),
                Err(e) => e == ExecError::SchemaMismatch && !can_build(
                    fields_view(schema@),
                    columns@.map_values(|c: Column| c@),
                ),
            },
    {
        let ghost sv = fields_view(schema@);
        let ghost cv = columns@.map_values(|c: Column| c@);
        if columns.len() != schema.len() || columns.len() == 0 {
            return Err(ExecError::SchemaMismatch);
        }
        let n = columns[0].values.len();
        let mut k: usize = 0;
        while k < columns.len()
            invariant
                sv == fields_view(schema@),
                cv == columns@.map_values(|c: Column| c@),
                columns@.len() == schema@.len(),
                columns@.len() > 0,
                n == cv[0].values.len(),
                k <= columns@.len(),
                forall|q: int| 0 <= q < k ==> column_fits_field(#[trigger] cv[q], sv[q], n as nat),
            decreases columns@.len() - k,
        {
            let c = &columns[k];
            let f = &schema[k];
            assert(c@ == cv[k as int]);
            assert(f@ == sv[k as int]);
            if c.values.len() != n || c.data_type != f.data_type {
                assert(!column_fits_field(cv[k as int], sv[k as int], n as nat));
                assert(!can_build(sv, cv)) by {
                    if can_build(sv, cv) {
                        assert(column_fits_field(cv[k as int], sv[k as int], cv[0].values.len()));
                    }
                }
                return Err(ExecError::SchemaMismatch);
            }
            let mut q: usize = 0;
            while q < n
                invariant
                    k < columns@.len(),
                    cv.len() == columns@.len(),
                    sv.len() == columns@.len(),
                    sv == fields_view(schema@),
                    cv == columns@.map_values(|c: Column| c@),
                    c@ == cv[k as int],
                    f@ == sv[k as int],
                    c.values@.len() == n,
                    c.data_type == f.data_type,
                    q <= n,
                    forall|p: int| 0 <= p < q ==> fits(#[trigger] cv[k as int].values[p], c.data_type),
                    !f.nullable ==> forall|p: int| 0 <= p < q ==> !(#[trigger] cv[k as int].values[p] is Null),
                decreases n - q,
            {
                let ok = fits_exec(&c.values[q], c.data_type) && (f.nullable || !c.values[q].is_null());
                assert(cv[k as int].values[q as int] == c.values@[q as int]@);
                if !ok {
                    assert(!column_fits_field(cv[k as int], sv[k as int], n as nat));
                    assert(!can_build(sv, cv)) by {
                        if can_build(sv, cv) {
                            assert(column_fits_field(cv[k as int], sv[k as int], cv[0].values.len()));
                        }
                    }
                    return Err(ExecError::SchemaMismatch);
                }
                q = q + 1;
            }
            k = k + 1;
        }
        let b = Batch { schema, columns, num_rows: n };
        assert(b@.columns =~= cv);
        Ok(b)
    }

    pub fn schema(&self) -> (s: &Vec<Field>)
        ensures
            fields_view(s@) == self@.schema,
    {
        &self.schema
    }

    pub fn columns(&self) -> (c: &Vec<Column>)
        ensures
            c@.map_values(|c: Column| c@) == self@.columns,
            batch_wf(self@),
    {
        proof {
            use_type_invariant(self);
        }
        &self.columns
    }

    pub fn num_rows(&self) -> (n: usize)
        ensures
            n == self@.num_rows,
            batch_wf(self@),
    {
        proof {
            use_type_invariant(self);
        }
        self.num_rows
    }

    pub fn num_columns(&self) -> (n: usize)
        ensures
            n == self@.columns.len(),
            n == self@.schema.len(),
    {
        proof {
            use_type_invariant(self);
        }
        self.columns.len()
    }
}

pub fn fits_exec(v: &Scalar, t: DataType) -> (b: bool)
    ensures
        b == fits(v@, t),
{
    match v {
        Scalar::Null => true,
        Scalar::Int(_) => t == DataType::Int64,
        Scalar::Float(_) => t == DataType::Float64,
        Scalar::Ratio(_, d) => t == DataType::Float64 && *d > 0,
        Scalar::Calc(_) => t == DataType::Float64,
        Scalar::Str(_) => t == DataType::Utf8,
        Scalar::Bool(_) => t == DataType::Boolean,
    }
}

// ── Kernels ──────────────────────────────────────────────────────────────────

/// The cells of `vs` whose mask cell is `true` (a null mask cell drops its row).
pub open spec fn filter_values(vs: Seq<SpecScalar>, mask: Seq<SpecScalar>) -> Seq<SpecScalar>
    decreases vs.len(),
{
    if vs.len() == 0 {
        Seq::empty()
    } else {
        let rest = filter_values(vs.drop_last(), mask.drop_last());
        if mask.last() == SpecScalar::Bool(true) {
            rest.push(vs.last())
        } else {
            rest
        }
    }
}

pub proof fn lemma_filter_fits(vs: Seq<SpecScalar>, mask: Seq<SpecScalar>, t: DataType)
    requires
        forall|k: int| 0 <= k < vs.len() ==> fits(#[trigger] vs[k], t),
    ensures
        forall|k: int| 0 <= k < filter_values(vs, mask).len() ==> fits(#[trigger] filter_values(vs, mask)[k], t),
        filter_values(vs, mask).len() <= vs.len(),
    decreases vs.len(),
{
    if vs.len() > 0 {
        lemma_filter_fits(vs.drop_last(), mask.drop_last(), t);
    }
}

/// The rows of a column kept by a boolean mask of the same length.
pub fn filter_column(c: &Column, mask: &Vec<Scalar>) -> (r: Column)
    requires
        mask@.len() == c.values@.len(),
    ensures
        r@.data_type == c@.data_type,
        r@.values == filter_values(c@.values, scalars_view(mask@)),
{
    let mut out: Vec<Scalar> = Vec::new();
    let mut k: usize = 0;
    let ghost vs = c@.values;
    let ghost ms = scalars_view(mask@);
    while k < c.values.len()
        invariant
            vs == c@.values,
            ms == scalars_view(mask@),
            mask@.len() == c.values@.len(),
            k <= c.values@.len(),
            scalars_view(out@) == filter_values(vs.take(k as int), ms.take(k as int)),
        decreases c.values@.len() - k,
    {
        let keep = match &mask[k] {
            Scalar::Bool(b) => *b,
            _ => false,
        };
        proof {
            assert(vs.take(k + 1).drop_last() =~= vs.take(k as int));
            assert(ms.take(k + 1).drop_last() =~= ms.take(k as int));
        }
        if keep {
            let ghost before = scalars_view(out@);
            out.push(c.values[k].copy());
            assert(scalars_view(out@) =~= before.push(vs[k as int]));
        }
        k = k + 1;
        assert(scalars_view(out@) == filter_values(vs.take(k as int), ms.take(k as int)));
    }
    assert(vs.take(vs.len() as int) =~= vs);
    assert(ms.take(ms.len() as int) =~= ms);
    Column { data_type: c.data_type, values: out }
}

/// The cells of `vs` at the given row numbers, in that order.
pub open spec fn take_values(vs: Seq<SpecScalar>, idx: Seq<usize>) -> Seq<SpecScalar> {
    Seq::new(idx.len(), |k: int| vs[idx[k] as int])
}

/// The rows of a column at the given row numbers.
pub fn take_column(c: &Column, idx: &Vec<usize>) -> (r: Column)
    requires
        forall|k: int| 0 <= k < idx@.len() ==> #[trigger] idx@[k] < c.values@.len(),
    ensures
        r@.data_type == c@.data_type,
        r@.values == take_values(c@.values, idx@),
{
    let mut out: Vec<Scalar> = Vec::new();
    let mut k: usize = 0;
    while k < idx.len()
        invariant
            k <= idx@.len(),
            forall|q: int| 0 <= q < idx@.len() ==> #[trigger] idx@[q] < c.values@.len(),
            scalars_view(out@) == take_values(c@.values, idx@.take(k as int)),
        decreases idx@.len() - k,
    {
        let ghost before = scalars_view(out@);
        let x = c.values[idx[k]].copy();
        out.push(x);
        assert(scalars_view(out@) =~= before.push(x@));
        k = k + 1;
        assert(scalars_view(out@) =~= take_values(c@.values, idx@.take(k as int)));
    }
    assert(idx@.take(idx@.len() as int) =~= idx@);
    Column { data_type: c.data_type, values: out }
}

/// A copy of a column.
pub fn copy_column(c: &Column) -> (r: Column)
    ensures
        r@ == c@,
{
    let mut out: Vec<Scalar> = Vec::new();
    let mut k: usize = 0;
    while k < c.values.len()
        invariant
            k <= c.values@.len(),
            scalars_view(out@) == c@.values.take(k as int),
        decreases c.values@.len() - k,
    {
        let ghost before = scalars_view(out@);
        let x = c.values[k].copy();
        out.push(x);
        assert(scalars_view(out@) =~= before.push(x@));
        k = k + 1;
        assert(scalars_view(out@) =~= c@.values.take(k as int));
    }
    assert(c@.values.take(c@.values.len() as int) =~= c@.values);
    Column { data_type: c.data_type, values: out }
}

/// Appends the cells of `c` to `out`.
pub fn append_values(out: &mut Vec<Scalar>, c: &Column)
    ensures
        scalars_view(final(out)@) == scalars_view(old(out)@) + c@.values,
{
    let ghost start = scalars_view(out@);
    let mut k: usize = 0;
    while k < c.values.len()
        invariant
            k <= c.values@.len(),
            scalars_view(out@) == start + c@.values.take(k as int),
        decreases c.values@.len() - k,
    {
        let ghost before = scalars_view(out@);
        let x = c.values[k].copy();
        out.push(x);
        assert(scalars_view(out@) =~= before.push(x@));
        k = k + 1;
        assert(scalars_view(out@) =~= start + c@.values.take(k as int));
    }
    assert(c@.values.take(c@.values.len() as int) =~= c@.values);
}

/// The first `n` rows of a batch (all of them when it has fewer).
pub open spec fn spec_slice(b: SpecBatch, n: nat) -> SpecBatch {
    let m = if n < b.num_rows { n } else { b.num_rows };
    SpecBatch {
        schema: b.schema,
        columns: b.columns.map_values(
            |c: SpecColumn| SpecColumn { data_type: c.data_type, values: c.values.take(m as int) },
        ),
        num_rows: m,
    }
}

impl Batch {
    /// The first `n` rows of the batch (all of them when it has fewer).
    pub fn head(&self, n: usize) -> (r: Batch)
        ensures
            r@ == spec_slice(self@, n as nat),
    {
        proof {
            use_type_invariant(self);
        }
        let m = if n < self.num_rows { n } else { self.num_rows };
        let mut idx: Vec<usize> = Vec::new();
        let mut k: usize = 0;
        while k < m
            invariant
                k <= m,
                idx@ == Seq::new(k as nat, |q: int| q as usize),
            decreases m - k,
        {
            idx.push(k);
            k = k + 1;
            assert(idx@ =~= Seq::new(k as nat, |q: int| q as usize));
        }
        let ghost target = spec_slice(self@, n as nat);
        let mut cols: Vec<Column> = Vec::new();
        let mut c: usize = 0;
        while c < self.columns.len()
            invariant
                batch_wf(self@),
                self@.columns.len() == self.columns@.len(),
                m <= self.num_rows,
                m == target.num_rows,
                target == spec_slice(self@, n as nat),
                idx@ == Seq::new(m as nat, |q: int| q as usize),
                c <= self.columns@.len(),
                cols@.len() == c,
                forall|q: int| 0 <= q < c ==> (#[trigger] cols@[q])@ == target.columns[q],
            decreases self.columns@.len() - c,
        {
            assert(self@.columns[c as int] == self.columns@[c as int]@);
            assert(column_fits_field(self@.columns[c as int], self@.schema[c as int], self@.num_rows));
            let col = take_column(&self.columns[c], &idx);
            assert(col@.values =~= self@.columns[c as int].values.take(m as int));
            cols.push(col);
            c = c + 1;
        }
        let r = Batch { schema: copy_fields(&self.schema), columns: cols, num_rows: m };
        proof {
            assert(r@.columns =~= target.columns);
            assert forall|k: int| 0 <= k < r@.columns.len() implies column_fits_field(
                #[trigger] r@.columns[k],
                r@.schema[k],
                r@.num_rows,
            ) by {
                assert(column_fits_field(self@.columns[k], self@.schema[k], self@.num_rows));
                assert(r@.columns[k].values =~= self@.columns[k].values.take(m as int));
            }
        }
        r
    }
}


impl Batch {
    /// A copy of the batch.
    pub fn copy(&self) -> (r: Batch)
        ensures
            r@ == self@,
    {
        proof {
            use_type_invariant(self);
        }
        let mut cols: Vec<Column> = Vec::new();
        let mut c: usize = 0;
        while c < self.columns.len()
            invariant
                c <= self.columns@.len(),
                cols@.len() == c,
                forall|q: int| 0 <= q < c ==> (#[trigger] cols@[q])@ == self.columns@[q]@,
            decreases self.columns@.len() - c,
        {
            cols.push(copy_column(&self.columns[c]));
            c = c + 1;
        }
        proof {
            use_type_invariant(self);
        }
        assert(cols@.map_values(|c: Column| c@) =~= self@.columns);
        let r = Batch { schema: copy_fields(&self.schema), columns: cols, num_rows: self.num_rows };
        r
    }

    /// Keeps the rows whose mask cell is `true`.
    pub fn filter(&self, mask: &Column) -> (r: Batch)
        requires
            mask@.values.len() == self@.num_rows,
        ensures
            r@ == spec_filter(self@, mask@.values),
    {
        proof {
            use_type_invariant(self);
        }
        let ghost m = mask@.values;
        let mut cols: Vec<Column> = Vec::new();
        let mut c: usize = 0;
        while c < self.columns.len()
            invariant
                batch_wf(self@),
                self@.columns.len() == self.columns@.len(),
                m == mask@.values,
                m.len() == self@.num_rows,
                c <= self.columns@.len(),
                cols@.len() == c,
                forall|q: int| 0 <= q < c ==> (#[trigger] cols@[q])@ == filter_col(self@.columns[q], m),
            decreases self.columns@.len() - c,
        {
            assert(self@.columns[c as int] == self.columns@[c as int]@);
            assert(column_fits_field(self@.columns[c as int], self@.schema[c as int], self@.num_rows));
            let col = filter_column(&self.columns[c], &mask.values);
            cols.push(col);
            c = c + 1;
        }
        let ghost target = spec_filter(self@, m);
        proof {
            lemma_filter_wf(self@, m);
            assert(cols@.map_values(|c: Column| c@) =~= target.columns);
        }
        let n = if cols.len() > 0 { cols[0].values.len() } else { 0 };
        let r = Batch { schema: copy_fields(&self.schema), columns: cols, num_rows: n };
        assert(r@.columns =~= target.columns);
        r
    }
}

pub open spec fn filter_col(c: SpecColumn, mask: Seq<SpecScalar>) -> SpecColumn {
    SpecColumn { data_type: c.data_type, values: filter_values(c.values, mask) }
}

/// The rows of a batch whose mask cell is `true`.
pub open spec fn spec_filter(b: SpecBatch, mask: Seq<SpecScalar>) -> SpecBatch {
    SpecBatch {
        schema: b.schema,
        columns: b.columns.map_values(|c: SpecColumn| filter_col(c, mask)),
        num_rows: filter_values(b.columns[0].values, mask).len(),
    }
}

pub proof fn lemma_filter_len(vs: Seq<SpecScalar>, ws: Seq<SpecScalar>, mask: Seq<SpecScalar>)
    requires
        vs.len() == ws.len(),
    ensures
        filter_values(vs, mask).len() == filter_values(ws, mask).len(),
    decreases vs.len(),
{
    if vs.len() > 0 {
        lemma_filter_len(vs.drop_last(), ws.drop_last(), mask.drop_last());
    }
}

pub proof fn lemma_filter_no_null(vs: Seq<SpecScalar>, mask: Seq<SpecScalar>)
    requires
        forall|k: int| 0 <= k < vs.len() ==> !(#[trigger] vs[k] is Null),
    ensures
        forall|k: int| 0 <= k < filter_values(vs, mask).len() ==> !(#[trigger] filter_values(vs, mask)[k] is Null),
    decreases vs.len(),
{
    if vs.len() > 0 {
        lemma_filter_no_null(vs.drop_last(), mask.drop_last());
    }
}

/// Filtering keeps a batch well formed.
pub proof fn lemma_filter_wf(b: SpecBatch, mask: Seq<SpecScalar>)
    requires
        batch_wf(b),
    ensures
        batch_wf(spec_filter(b, mask)),
{
    let f = spec_filter(b, mask);
    assert forall|k: int| 0 <= k < f.columns.len() implies column_fits_field(
        #[trigger] f.columns[k],
        f.schema[k],
        f.num_rows,
    ) by {
        assert(column_fits_field(b.columns[k], b.schema[k], b.num_rows));
        assert(column_fits_field(b.columns[0], b.schema[0], b.num_rows));
        lemma_filter_fits(b.columns[k].values, mask, b.columns[k].data_type);
        lemma_filter_len(b.columns[k].values, b.columns[0].values, mask);
        if !b.schema[k].nullable {
            lemma_filter_no_null(b.columns[k].values, mask);
        }
    }
}


/// The rows of a batch at the given row numbers, in that order.
pub open spec fn spec_take(b: SpecBatch, idx: Seq<usize>) -> SpecBatch {
    SpecBatch {
        schema: b.schema,
        columns: b.columns.map_values(|c: SpecColumn| SpecColumn { data_type: c.data_type, values: take_values(c.values, idx) }),
        num_rows: idx.len(),
    }
}

impl Batch {
    /// The rows at the given row numbers, in that order.
    pub fn take_rows(&self, idx: &Vec<usize>) -> (r: Batch)
        requires
            forall|k: int| 0 <= k < idx@.len() ==> #[trigger] idx@[k] < self@.num_rows,
        ensures
            r@ == spec_take(self@, idx@),
    {
        proof {
            use_type_invariant(self);
        }
        let ghost target = spec_take(self@, idx@);
        let mut cols: Vec<Column> = Vec::new();
        let mut c: usize = 0;
        while c < self.columns.len()
            invariant
                batch_wf(self@),
                self@.columns.len() == self.columns@.len(),
                target == spec_take(self@, idx@),
                forall|k: int| 0 <= k < idx@.len() ==> #[trigger] idx@[k] < self@.num_rows,
                c <= self.columns@.len(),
                cols@.len() == c,
                forall|q: int| 0 <= q < c ==> (#[trigger] cols@[q])@ == target.columns[q],
            decreases self.columns@.len() - c,
        {
            assert(self@.columns[c as int] == self.columns@[c as int]@);
            assert(column_fits_field(self@.columns[c as int], self@.schema[c as int], self@.num_rows));
            let col = take_column(&self.columns[c], idx);
            cols.push(col);
            c = c + 1;
        }
        let r = Batch { schema: copy_fields(&self.schema), columns: cols, num_rows: idx.len() };
        proof {
            assert(r@.columns =~= target.columns);
            assert forall|k: int| 0 <= k < r@.columns.len() implies column_fits_field(
                #[trigger] r@.columns[k],
                r@.schema[k],
                r@.num_rows,
            ) by {
                let col = self@.columns[k];
                assert(column_fits_field(col, self@.schema[k], self@.num_rows));
                let tv = take_values(col.values, idx@);
                assert(r@.columns[k].values == tv);
                assert forall|p: int| 0 <= p < tv.len() implies fits(#[trigger] tv[p], col.data_type) by {
                    assert(idx@[p] < self@.num_rows);
                    assert(fits(col.values[idx@[p] as int], col.data_type));
                }
                if !self@.schema[k].nullable {
                    assert forall|p: int| 0 <= p < tv.len() implies !(#[trigger] tv[p] is Null) by {
                        assert(idx@[p] < self@.num_rows);
                        assert(!(col.values[idx@[p] as int] is Null));
                    }
                }
            }
        }
        r
    }
}

} // verus!
