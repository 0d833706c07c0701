//! The operator tree that executes a plan, one batch at a time.
//!
//! Each node's contract is stated over its *stream*: the sequence of
//! batches it will still produce, and the error (if any) that ends it.
//! A call of `next` yields the first batch of the stream and leaves a node
//! whose stream is the rest; at the end of the stream it yields the error,
//! or `None`.
use vstd::prelude::*;

use crate::ast::{items_view, AggFunc, Expr, SelectItem, SpecExpr, SpecSelectItem, SpecValue, UnaryOp, Value};
use crate::batch::{
    built, can_build, copy_fields, fields_view, scalars_view, spec_filter, spec_slice, Batch,
    Column, ExecError, Field, Scalar, SpecBatch, SpecColumn, SpecField, SpecScalar,
};
use crate::catalog::{parse_i64, spec_int_of, spec_is_i64_str, DataType, TableSchema};
use crate::eval::{
    agree_cell, evaluate, evaluate_bool, find_field, index_of, spec_eval, spec_eval_bool,
};
use crate::agg::{
    agg_fields, agg_fields_exec, agg_run, calls_view, finish_exec, fold_batch, groups_view,
    groups_wf, AggCall, Group, SpecGroup,
};
use crate::ast::{strings_view, OrderByItem};
use crate::join::{
    extract_eq_columns, join_batch_exec, join_left, join_result, lemma_right_lens, merge_schemas,
    merge_schemas_exec, right_columns, right_keys_exec,
};
use crate::sort::{concat_columns, order_by_view, sort_batches, sort_keys, sorted_batch, spec_merge};
use crate::lexer::{ci_match, ci_match_exec, str_chars};

verus! {

/// What a node will still produce.
pub struct Stream {
    pub batches: Seq<SpecBatch>,
    pub error: Option<ExecError>,
}

pub open spec fn empty_stream() -> Stream {
    Stream { batches: Seq::empty(), error: None }
}

pub open spec fn failed(e: ExecError) -> Stream {
    Stream { batches: Seq::empty(), error: Some(e) }
}

pub open spec fn cons(b: SpecBatch, s: Stream) -> Stream {
    Stream { batches: seq![b] + s.batches, error: s.error }
}

pub open spec fn rest(s: Stream) -> Stream {
    Stream { batches: s.batches.drop_first(), error: s.error }
}

/// Taking the first batch off a stream built by `cons` gives back the rest.
pub proof fn lemma_rest_cons(b: SpecBatch, s: Stream)
    ensures
        rest(cons(b, s)) == s,
        cons(b, s).batches.len() == s.batches.len() + 1,
        cons(b, s).batches[0] == b,
{
    assert((seq![b] + s.batches).drop_first() =~= s.batches);
}

/// `r` is what `next` owes on a node whose stream is `s`: its first batch,
/// or its error, or `None` at its end.
pub open spec fn next_result(r: Result<Option<Batch>, ExecError>, s: Stream) -> bool {
    match r {
        Ok(Some(b)) => s.batches.len() > 0 && b@ == s.batches[0],
        Ok(None) => s.batches.len() == 0 && s.error is None,
        Err(e) => s.batches.len() == 0 && s.error == Some(e),
    }
}

/// The stream after a call of `next` that returned `r`: the rest of the
/// stream after a batch; nothing after its end or its error.
pub open spec fn after(r: Result<Option<Batch>, ExecError>, s: Stream, t: Stream) -> bool {
    match r {
        Ok(Some(_)) => t == rest(s),
        Ok(None) | Err(_) => t == empty_stream(),
    }
}

// ── Filter ───────────────────────────────────────────────────────────────────

/// The rows of a batch that a predicate keeps, or why the predicate failed.
pub open spec fn spec_filter_batch(b: SpecBatch, pred: SpecExpr) -> Result<SpecBatch, ExecError> {
    match spec_eval_bool(b, pred) {
        Err(e) => Err(e),
        Ok(mask) => Ok(spec_filter(b, mask.values)),
    }
}

/// The filtered stream: empty input batches are skipped, and so are batches
/// from which the predicate keeps no row.
pub open spec fn filter_seq(pred: SpecExpr, bs: Seq<SpecBatch>, err: Option<ExecError>) -> Stream
    decreases bs.len(),
{
    if bs.len() == 0 {
        Stream { batches: Seq::empty(), error: err }
    } else if bs[0].num_rows == 0 {
        filter_seq(pred, bs.drop_first(), err)
    } else {
        match spec_filter_batch(bs[0], pred) {
            Err(e) => failed(e),
            Ok(f) => if f.num_rows > 0 {
                cons(f, filter_seq(pred, bs.drop_first(), err))
            } else {
                filter_seq(pred, bs.drop_first(), err)
            },
        }
    }
}

// ── Limit ────────────────────────────────────────────────────────────────────

/// At most `rem` rows of the input stream: whole batches while they fit,
/// then the head of the batch that does not.
pub open spec fn limit_seq(rem: nat, bs: Seq<SpecBatch>, err: Option<ExecError>) -> Stream
    decreases bs.len(),
{
    if rem == 0 {
        empty_stream()
    } else if bs.len() == 0 {
        Stream { batches: Seq::empty(), error: err }
    } else if bs[0].num_rows <= rem {
        cons(bs[0], limit_seq((rem - bs[0].num_rows) as nat, bs.drop_first(), err))
    } else {
        Stream { batches: seq![spec_slice(bs[0], rem)], error: None }
    }
}

/// The number of rows in a sequence of batches.
pub open spec fn total_rows(bs: Seq<SpecBatch>) -> nat
    decreases bs.len(),
{
    if bs.len() == 0 {
        0
    } else {
        bs[0].num_rows + total_rows(bs.drop_first())
    }
}

// ── Project ──────────────────────────────────────────────────────────────────

pub open spec fn agg_lower_name(f: AggFunc) -> Seq<char> {
    match f {
        AggFunc::Count => "count"@,
        AggFunc::Sum => "sum"@,
        AggFunc::Avg => "avg"@,
        AggFunc::Min => "min"@,
        AggFunc::Max => "max"@,
    }
}

/// How `{:?}` shows a literal value: a bound decimal literal shows the text
/// that `{:?}` gives its double, an unbound one the text it was written with.
pub open spec fn value_debug(v: SpecValue) -> Seq<char> {
    match v {
        SpecValue::Int(i) => "Int("@ + crate::fmt::int_text(i as int) + ")"@,
        SpecValue::Float(t) => "Float("@ + t + ")"@,
        SpecValue::Double(t, _) => "Float("@ + t + ")"@,
        SpecValue::Str(s) => "Str("@ + crate::fmt::quoted(s) + ")"@,
        SpecValue::Bool(b) => if b {
            "Bool(true)"@
        } else {
            "Bool(false)"@
        },
        SpecValue::Null => "Null"@,
    }
}

/// The output name of an unaliased SELECT expression.
pub open spec fn expr_name(e: SpecExpr) -> Seq<char> {
    match e {
        SpecExpr::Column(n) => n,
        SpecExpr::Literal(v) => value_debug(v),
        SpecExpr::Agg { func, .. } => agg_lower_name(func),
        _ => "expr"@,
    }
}

/// The type recorded for an output column: the type of the column the
/// expression evaluates to (see `spec_eval`); `Utf8` where the expression
/// does not evaluate (an unknown column, operands that do not suit their
/// operator, an aggregate).
pub open spec fn infer_expr_type(e: SpecExpr, schema: Seq<SpecField>) -> DataType
    decreases e,
{
    match e {
        SpecExpr::Column(n) => match index_of(schema, n) {
            Some(i) => schema[i].data_type,
            None => DataType::Utf8,
        },
        SpecExpr::Literal(SpecValue::Int(_)) => DataType::Int64,
        SpecExpr::Literal(SpecValue::Float(_)) => DataType::Float64,
        SpecExpr::Literal(SpecValue::Double(_, _)) => DataType::Float64,
        SpecExpr::Literal(SpecValue::Bool(_)) => DataType::Boolean,
        SpecExpr::Literal(SpecValue::Str(_)) => DataType::Utf8,
        SpecExpr::Literal(SpecValue::Null) => DataType::Int64,
        SpecExpr::BinOp { op, left, right } => match crate::eval::binop_type(
            op,
            infer_expr_type(*left, schema),
            infer_expr_type(*right, schema),
        ) {
            Ok(t) => t,
            Err(_) => DataType::Utf8,
        },
        SpecExpr::Unary { op, expr } => match op {
            UnaryOp::Not => DataType::Boolean,
            UnaryOp::Neg => infer_expr_type(*expr, schema),
        },
        SpecExpr::Wildcard => DataType::Boolean,
        SpecExpr::Agg { .. } => DataType::Utf8,
    }
}

/// The (name, expression) pairs of a SELECT list: `*` gives every input
/// column; an expression gives its alias, or `expr_name`.
pub open spec fn spec_projections(schema: Seq<SpecField>, items: Seq<SpecSelectItem>) -> Seq<(Seq<char>, SpecExpr)>
    decreases items.len(),
{
    if items.len() == 0 {
        Seq::empty()
    } else {
        let prev = spec_projections(schema, items.drop_last());
        match items.last() {
            SpecSelectItem::Wildcard => prev + schema.map_values(
                |f: SpecField| (f.name, SpecExpr::Column(f.name)),
            ),
            SpecSelectItem::Expr(e, alias) => prev.push(
                (
                    match alias {
                        Some(a) => a,
                        None => expr_name(e),
                    },
                    e,
                ),
            ),
        }
    }
}

pub open spec fn projection_fields(schema: Seq<SpecField>, ps: Seq<(Seq<char>, SpecExpr)>) -> Seq<SpecField> {
    ps.map_values(
        |p: (Seq<char>, SpecExpr)|
            SpecField { name: p.0, data_type: infer_expr_type(p.1, schema), nullable: true },
    )
}

/// The columns of the projected expressions (the first error wins).
pub open spec fn eval_all(b: SpecBatch, es: Seq<SpecExpr>) -> Result<Seq<SpecColumn>, ExecError>
    decreases es.len(),
{
    if es.len() == 0 {
        Ok(Seq::empty())
    } else {
        match eval_all(b, es.drop_last()) {
            Err(e) => Err(e),
            Ok(cs) => match spec_eval(b, es.last()) {
                Err(e) => Err(e),
                Ok(c) => Ok(cs.push(c)),
            },
        }
    }
}

/// A batch of projected columns under the output schema, or why it cannot
/// be built.
pub open spec fn spec_project_batch(b: SpecBatch, ps: Seq<(Seq<char>, SpecExpr)>, out: Seq<SpecField>) -> Result<
    SpecBatch,
    ExecError,
> {
    match eval_all(b, ps.map_values(|p: (Seq<char>, SpecExpr)| p.1)) {
        Err(e) => Err(e),
        Ok(cs) => if crate::batch::can_build(out, cs) {
            Ok(crate::batch::built(out, cs))
        } else {
            Err(ExecError::SchemaMismatch)
        },
    }
}

pub open spec fn project_seq(ps: Seq<(Seq<char>, SpecExpr)>, out: Seq<SpecField>, bs: Seq<SpecBatch>, err: Option<ExecError>) -> Stream
    decreases bs.len(),
{
    if bs.len() == 0 {
        Stream { batches: Seq::empty(), error: err }
    } else {
        match spec_project_batch(bs[0], ps, out) {
            Err(e) => failed(e),
            Ok(p) => cons(p, project_seq(ps, out, bs.drop_first(), err)),
        }
    }
}


// ── Results of a node ────────────────────────────────────────────────────────

pub open spec fn agree_batch(r: Result<Batch, ExecError>, s: Result<SpecBatch, ExecError>) -> bool {
    match (r, s) {
        (Ok(b), Ok(c)) => b@ == c,
        (Err(e), Err(f)) => e == f,
        _ => false,
    }
}

pub open spec fn batches_view(v: Seq<Batch>) -> Seq<SpecBatch> {
    v.map_values(|b: Batch| b@)
}

// ── Reading CSV cells ────────────────────────────────────────────────────────

/// A cell of a CSV record as the caller read it: its text, or, in a
/// `Float64` column, the IEEE-754 bits of the number that the text denotes.
#[derive(Debug)]
pub enum RawCell {
    Text(String),
    Float(u64),
}

pub enum SpecRawCell {
    Text(Seq<char>),
    Float(u64),
}

impl View for RawCell {
    type V = SpecRawCell;

    open spec fn view(&self) -> SpecRawCell {
        match self {
            RawCell::Text(s) => SpecRawCell::Text(s@),
            RawCell::Float(b) => SpecRawCell::Float(*b),
        }
    }
}

pub open spec fn rows_view(rows: Seq<Vec<RawCell>>) -> Seq<Seq<SpecRawCell>> {
    rows.map_values(|r: Vec<RawCell>| r@.map_values(|c: RawCell| c@))
}

/// The words a boolean column reads, in any ASCII case.
pub open spec fn bool_word(s: Seq<char>) -> Option<bool> {
    if ci_match(s, "TRUE"@) || s == seq!['1'] || ci_match(s, "YES"@) {
        Some(true)
    } else if ci_match(s, "FALSE"@) || s == seq!['0'] || ci_match(s, "NO"@) {
        Some(false)
    } else {
        None
    }
}

/// The cell that a text reads as in a column of type `t`: an empty text is
/// null; an integer column takes what std's `i64` parser accepts; a boolean
/// column reads `bool_word` and takes anything else as null.
pub open spec fn text_cell(s: Seq<char>, t: DataType) -> Result<SpecScalar, ExecError> {
    if s.len() == 0 {
        Ok(SpecScalar::Null)
    } else {
        match t {
            DataType::Int64 => if spec_is_i64_str(s) {
                Ok(SpecScalar::Int(spec_int_of(s).unwrap() as i64))
            } else {
                Err(ExecError::BadValue)
            },
            DataType::Float64 => Err(ExecError::BadValue),
            DataType::Boolean => match bool_word(s) {
                Some(b) => Ok(SpecScalar::Bool(b)),
                None => Ok(SpecScalar::Null),
            },
            DataType::Utf8 => Ok(SpecScalar::Str(s)),
        }
    }
}

/// The cell at column `k` of a record (a missing field reads as empty text).
pub open spec fn read_cell(row: Seq<SpecRawCell>, k: int, t: DataType) -> Result<SpecScalar, ExecError> {
    if k < row.len() {
        match row[k] {
            SpecRawCell::Text(s) => text_cell(s, t),
            SpecRawCell::Float(b) => if t == DataType::Float64 {
                Ok(SpecScalar::Float(b))
            } else {
                Err(ExecError::BadValue)
            },
        }
    } else {
        Ok(SpecScalar::Null)
    }
}

pub open spec fn cell_value(row: Seq<SpecRawCell>, k: int, t: DataType) -> SpecScalar {
    match read_cell(row, k, t) {
        Ok(v) => v,
        Err(_) => SpecScalar::Null,
    }
}

pub open spec fn chunk_readable(fields: Seq<SpecField>, rows: Seq<Seq<SpecRawCell>>) -> bool {
    forall|r: int, k: int|
        0 <= r < rows.len() && 0 <= k < fields.len() ==> (#[trigger] read_cell(rows[r], k, fields[k].data_type)) is Ok
}

pub open spec fn chunk_column(fields: Seq<SpecField>, rows: Seq<Seq<SpecRawCell>>, k: int) -> SpecColumn {
    SpecColumn {
        data_type: fields[k].data_type,
        values: Seq::new(rows.len(), |r: int| cell_value(rows[r], k, fields[k].data_type)),
    }
}

pub open spec fn chunk_columns(fields: Seq<SpecField>, rows: Seq<Seq<SpecRawCell>>) -> Seq<SpecColumn> {
    Seq::new(fields.len(), |k: int| chunk_column(fields, rows, k))
}

/// The batch that a run of records reads as.
pub open spec fn read_chunk(fields: Seq<SpecField>, rows: Seq<Seq<SpecRawCell>>) -> Result<SpecBatch, ExecError> {
    if !chunk_readable(fields, rows) {
        Err(ExecError::BadValue)
    } else if can_build(fields, chunk_columns(fields, rows)) {
        Ok(built(fields, chunk_columns(fields, rows)))
    } else {
        Err(ExecError::SchemaMismatch)
    }
}

/// The number of records in a full batch of a scan.
pub const BATCH_SIZE: usize = 1024;

/// The batches that a scan still produces: runs of `BATCH_SIZE` records;
/// a short run ends the scan.
pub open spec fn scan_stream(fields: Seq<SpecField>, rows: Seq<Seq<SpecRawCell>>, pos: int, done: bool) -> Stream
    decreases rows.len() - pos,
{
    if done || pos < 0 || pos >= rows.len() {
        empty_stream()
    } else {
        let end = if rows.len() - pos > BATCH_SIZE { pos + BATCH_SIZE } else { rows.len() as int };
        match read_chunk(fields, rows.subrange(pos, end)) {
            Err(e) => failed(e),
            Ok(b) => cons(b, scan_stream(fields, rows, end, end - pos < BATCH_SIZE)),
        }
    }
}

fn bool_word_exec(s: &String) -> (r: Option<bool>)
    ensures
        r == bool_word(s@),
{
    let cs = str_chars(s.as_str());
    let n = cs.len();
    assert(cs@.subrange(0, n as int) =~= s@);
    if ci_match_exec(&cs, 0, n, "TRUE") || (n == 1 && cs[0] == '1') || ci_match_exec(&cs, 0, n, "YES") {
        assert(n == 1 && cs[0] == '1' ==> s@ =~= seq!['1']);
        Some(true)
    } else if ci_match_exec(&cs, 0, n, "FALSE") || (n == 1 && cs[0] == '0') || ci_match_exec(&cs, 0, n, "NO") {
        assert(s@ != seq!['1']);
        assert(n == 1 && cs[0] == '0' ==> s@ =~= seq!['0']);
        Some(false)
    } else {
        assert(s@ != seq!['1']);
        assert(s@ != seq!['0']);
        None
    }
}

fn text_cell_exec(s: &String, t: DataType) -> (r: Result<Scalar, ExecError>)
    ensures
        agree_cell(r, text_cell(s@, t)),
{
    if s.unicode_len() == 0 {
        return Ok(Scalar::Null);
    }
    match t {
        DataType::Int64 => match parse_i64(s.as_str()) {
            Some(v) => Ok(Scalar::Int(v)),
            None => Err(ExecError::BadValue),
        },
        DataType::Float64 => Err(ExecError::BadValue),
        DataType::Boolean => match bool_word_exec(s) {
            Some(b) => Ok(Scalar::Bool(b)),
            None => Ok(Scalar::Null),
        },
        DataType::Utf8 => Ok(Scalar::Str(s.clone())),
    }
}

fn read_cell_exec(row: &Vec<RawCell>, k: usize, t: DataType) -> (r: Result<Scalar, ExecError>)
    ensures
        agree_cell(r, read_cell(row@.map_values(|c: RawCell| c@), k as int, t)),
{
    if k < row.len() {
        match &row[k] {
            RawCell::Text(s) => text_cell_exec(s, t),
            RawCell::Float(b) => if t == DataType::Float64 {
                Ok(Scalar::Float(*b))
            } else {
                Err(ExecError::BadValue)
            },
        }
    } else {
        Ok(Scalar::Null)
    }
}

/// Reads records `start..end` as one batch.
fn read_chunk_exec(fields: &Vec<Field>, rows: &Vec<Vec<RawCell>>, start: usize, end: usize) -> (r: Result<Batch, ExecError>)
    requires
        start <= end <= rows@.len(),
    ensures
        agree_batch(r, read_chunk(fields_view(fields@), rows_view(rows@).subrange(start as int, end as int))),
{
    let ghost fv = fields_view(fields@);
    let ghost rv = rows_view(rows@).subrange(start as int, end as int);
    let mut cols: Vec<Column> = Vec::new();
    let mut k: usize = 0;
    while k < fields.len()
        invariant
            start <= end <= rows@.len(),
            fv == fields_view(fields@),
            rv == rows_view(rows@).subrange(start as int, end as int),
            k <= fields@.len(),
            cols@.len() == k,
            forall|q: int| 0 <= q < k ==> (#[trigger] cols@[q])@ == chunk_column(fv, rv, q),
            forall|r: int, q: int|
                0 <= r < rv.len() && 0 <= q < k ==> (#[trigger] read_cell(rv[r], q, fv[q].data_type)) is Ok,
        decreases fields@.len() - k,
    {
        let t = fields[k].data_type;
        assert(t == fv[k as int].data_type);
        let mut vals: Vec<Scalar> = Vec::new();
        let mut i: usize = start;
        while i < end
            invariant
                start <= i <= end <= rows@.len(),
                k < fields@.len(),
                t == fv[k as int].data_type,
                fv == fields_view(fields@),
                rv == rows_view(rows@).subrange(start as int, end as int),
                scalars_view(vals@) == Seq::new((i - start) as nat, |r: int| cell_value(rv[r], k as int, t)),
                forall|r: int| 0 <= r < i - start ==> (#[trigger] read_cell(rv[r], k as int, t)) is Ok,
            decreases end - i,
        {
            let c = read_cell_exec(&rows[i], k, t);
            assert(rows@[i as int]@.map_values(|c: RawCell| c@) == rv[i - start]);
            match c {
                Err(e) => {
                    assert(!chunk_readable(fv, rv)) by {
                        assert(!(read_cell(rv[i - start], k as int, fv[k as int].data_type) is Ok));
                    }
                    return Err(e);
                },
                Ok(v) => {
                    let ghost before = scalars_view(vals@);
                    vals.push(v);
                    assert(scalars_view(vals@) =~= before.push(v@));
                },
            }
            i = i + 1;
            assert(scalars_view(vals@) =~= Seq::new((i - start) as nat, |r: int| cell_value(rv[r], k as int, t)));
        }
        let col = Column { data_type: t, values: vals };
        assert(col@.values =~= chunk_column(fv, rv, k as int).values);
        cols.push(col);
        k = k + 1;
    }
    assert(chunk_readable(fv, rv));
    assert(cols@.map_values(|c: Column| c@) =~= chunk_columns(fv, rv));
    let r = Batch::try_new(copy_fields(fields), cols);
    r
}

// ── Nodes ────────────────────────────────────────────────────────────────────

/// A node that yields batches held in memory, in order.
#[derive(Debug)]
pub struct MemoryExec {
    schema: Vec<Field>,
    batches: Vec<Batch>,
    cursor: usize,
}

/// The scan of a CSV table's records, `BATCH_SIZE` at a time.
#[derive(Debug)]
pub struct CsvScanExec {
    schema: Vec<Field>,
    rows: Vec<Vec<RawCell>>,
    pos: usize,
    done: bool,
}

/// Keeps the rows for which a predicate is true.
#[derive(Debug)]
pub struct FilterExec {
    input: Box<ExecNode>,
    predicate: Expr,
    failed: bool,
}

/// Passes on at most a given number of rows.
#[derive(Debug)]
pub struct LimitExec {
    input: Box<ExecNode>,
    remaining: u64,
    done: bool,
}

/// An output column of a projection: its name and expression.
#[derive(Debug)]
pub struct Projection {
    pub name: String,
    pub expr: Expr,
}

impl View for Projection {
    type V = (Seq<char>, SpecExpr);

    open spec fn view(&self) -> (Seq<char>, SpecExpr) {
        (self.name@, self.expr@)
    }
}

pub open spec fn projections_view(v: Seq<Projection>) -> Seq<(Seq<char>, SpecExpr)> {
    v.map_values(|p: Projection| p@)
}

/// Computes the output columns of a SELECT list.
#[derive(Debug)]
pub struct ProjectExec {
    input: Box<ExecNode>,
    projections: Vec<Projection>,
    out_schema: Vec<Field>,
    failed: bool,
}

/// Groups the rows of its input and computes aggregates per group; yields
/// one batch once the input is exhausted.
#[derive(Debug)]
pub struct HashAggExec {
    input: Box<ExecNode>,
    group_by: Vec<String>,
    aggs: Vec<AggCall>,
    out_schema: Vec<Field>,
    emitted: bool,
}

/// Sorts all rows of its input, which it reads when it is built, and
/// yields them as one batch.
#[derive(Debug)]
pub struct SortExec {
    out: MemoryExec,
}

/// Joins two inputs, which it reads when it is built, and yields one batch
/// per left batch that has a match.
#[derive(Debug)]
pub struct HashJoinExec {
    out: MemoryExec,
}

/// A node of an operator tree.
#[derive(Debug)]
pub enum ExecNode {
    Memory(MemoryExec),
    Scan(CsvScanExec),
    Filter(FilterExec),
    Limit(LimitExec),
    Project(ProjectExec),
    Agg(HashAggExec),
    Sort(SortExec),
    Join(HashJoinExec),
}

/// What a node of batches in memory will still produce.
pub closed spec fn memory_stream(m: MemoryExec) -> Stream {
    Stream {
        batches: if m.cursor <= m.batches@.len() {
            batches_view(m.batches@.subrange(m.cursor as int, m.batches@.len() as int))
        } else {
            Seq::empty()
        },
        error: None,
    }
}

impl ExecNode {
    /// What the node will still produce.
    pub closed spec fn stream(&self) -> Stream
        decreases self,
    {
        match self {
            ExecNode::Memory(m) => memory_stream(*m),
            ExecNode::Sort(s) => memory_stream(s.out),
            ExecNode::Join(j) => memory_stream(j.out),
            ExecNode::Scan(s) => scan_stream(fields_view(s.schema@), rows_view(s.rows@), s.pos as int, s.done),
            ExecNode::Filter(f) => if f.failed {
                empty_stream()
            } else {
                let inp = (*f.input).stream();
                filter_seq(f.predicate@, inp.batches, inp.error)
            },
            ExecNode::Limit(l) => if l.done {
                empty_stream()
            } else {
                let inp = (*l.input).stream();
                limit_seq(l.remaining as nat, inp.batches, inp.error)
            },
            ExecNode::Project(p) => if p.failed {
                empty_stream()
            } else {
                let inp = (*p.input).stream();
                project_seq(projections_view(p.projections@), fields_view(p.out_schema@), inp.batches, inp.error)
            },
            ExecNode::Agg(a) => if a.emitted {
                empty_stream()
            } else {
                let inp = (*a.input).stream();
                match agg_run(
                    Seq::empty(),
                    inp.batches,
                    inp.error,
                    strings_view(a.group_by@),
                    calls_view(a.aggs@),
                    fields_view(a.out_schema@),
                ) {
                    Ok(b) => cons(b, empty_stream()),
                    Err(e) => failed(e),
                }
            },
        }
    }

    /// The node and those below it are as their constructors built them.
    pub closed spec fn wf(&self) -> bool
        decreases self,
    {
        match self {
            ExecNode::Memory(_) => true,
            ExecNode::Scan(_) => true,
            ExecNode::Sort(_) => true,
            ExecNode::Join(_) => true,
            ExecNode::Filter(f) => (*f.input).wf(),
            ExecNode::Limit(l) => (*l.input).wf(),
            ExecNode::Project(p) => (*p.input).wf(),
            ExecNode::Agg(a) => (*a.input).wf() && a.out_schema@.len() == a.group_by@.len() + a.aggs@.len(),
        }
    }

    /// The schema of the node's output.
    pub closed spec fn schema_view(&self) -> Seq<SpecField>
        decreases self,
    {
        match self {
            ExecNode::Memory(m) => fields_view(m.schema@),
            ExecNode::Sort(s) => fields_view(s.out.schema@),
            ExecNode::Join(j) => fields_view(j.out.schema@),
            ExecNode::Scan(s) => fields_view(s.schema@),
            ExecNode::Filter(f) => (*f.input).schema_view(),
            ExecNode::Limit(l) => (*l.input).schema_view(),
            ExecNode::Project(p) => fields_view(p.out_schema@),
            ExecNode::Agg(a) => fields_view(a.out_schema@),
        }
    }

    /// The depth of the tree below the node.
    pub closed spec fn height(&self) -> nat
        decreases self,
    {
        match self {
            ExecNode::Memory(_) => 1,
            ExecNode::Sort(_) => 1,
            ExecNode::Join(_) => 1,
            ExecNode::Scan(_) => 1,
            ExecNode::Filter(f) => 1 + (*f.input).height(),
            ExecNode::Limit(l) => 1 + (*l.input).height(),
            ExecNode::Project(p) => 1 + (*p.input).height(),
            ExecNode::Agg(a) => 1 + (*a.input).height(),
        }
    }

    /// The output schema.
    pub fn schema(&self) -> (s: Vec<Field>)
        ensures
            fields_view(s@) == self.schema_view(),
        decreases self,
    {
        match self {
            ExecNode::Memory(m) => copy_fields(&m.schema),
            ExecNode::Sort(s) => copy_fields(&s.out.schema),
            ExecNode::Join(j) => copy_fields(&j.out.schema),
            ExecNode::Scan(s) => copy_fields(&s.schema),
            ExecNode::Filter(f) => f.input.schema(),
            ExecNode::Limit(l) => l.input.schema(),
            ExecNode::Project(p) => copy_fields(&p.out_schema),
            ExecNode::Agg(a) => copy_fields(&a.out_schema),
        }
    }

    /// Produces the next batch: the first batch of the node's stream, or the
    /// error that ends it, or `None` at its end.  After an error or the end,
    /// the node's stream is empty: every later call gives `None`.
    pub fn next(&mut self) -> (r: Result<Option<Batch>, ExecError>)
        requires
            old(self).wf(),
        ensures
            final(self).wf(),
            next_result(r, old(self).stream()),
            after(r, old(self).stream(), final(self).stream()),
            final(self).height() == old(self).height(),
            final(self).schema_view() == old(self).schema_view(),
        decreases old(self).height(), 1nat,
    {
        match self {
            ExecNode::Memory(m) => memory_next(m),
            ExecNode::Sort(s) => memory_next(&mut s.out),
            ExecNode::Join(j) => memory_next(&mut j.out),
            ExecNode::Scan(s) => scan_next(s),
            ExecNode::Filter(f) => filter_next(f),
            ExecNode::Limit(l) => limit_next(l),
            ExecNode::Project(p) => project_next(p),
            ExecNode::Agg(a) => agg_next(a),
        }
    }
}

fn memory_next(m: &mut MemoryExec) -> (r: Result<Option<Batch>, ExecError>)
    ensures
        next_result(r, ExecNode::Memory(*old(m)).stream()),
        after(r, ExecNode::Memory(*old(m)).stream(), ExecNode::Memory(*final(m)).stream()),
        final(m).schema@ == old(m).schema@,
{
    if m.cursor >= m.batches.len() {
        if m.cursor == m.batches.len() {
            assert(batches_view(m.batches@.subrange(m.cursor as int, m.batches@.len() as int)) =~= Seq::empty());
        }
        return Ok(None);
    }
    let b = m.batches[m.cursor].copy();
    let ghost rest_before = m.batches@.subrange(m.cursor as int, m.batches@.len() as int);
    m.cursor = m.cursor + 1;
    proof {
        assert(batches_view(rest_before)[0] == b@);
        assert(batches_view(m.batches@.subrange(m.cursor as int, m.batches@.len() as int)) =~= batches_view(
            rest_before,
        ).drop_first());
    }
    Ok(Some(b))
}

fn scan_next(s: &mut CsvScanExec) -> (r: Result<Option<Batch>, ExecError>)
    ensures
        next_result(r, ExecNode::Scan(*old(s)).stream()),
        after(r, ExecNode::Scan(*old(s)).stream(), ExecNode::Scan(*final(s)).stream()),
        final(s).schema@ == old(s).schema@,
{
    if s.done || s.pos >= s.rows.len() {
        s.done = true;
        return Ok(None);
    }
    let end = if s.rows.len() - s.pos > BATCH_SIZE { s.pos + BATCH_SIZE } else { s.rows.len() };
    let r = read_chunk_exec(&s.schema, &s.rows, s.pos, end);
    let short = end - s.pos < BATCH_SIZE;
    let ghost fv = fields_view(s.schema@);
    let ghost rv = rows_view(s.rows@);
    let ghost pos = s.pos as int;
    assert(ExecNode::Scan(*old(s)).stream() == match read_chunk(fv, rv.subrange(pos, end as int)) {
        Err(e) => failed(e),
        Ok(b) => cons(b, scan_stream(fv, rv, end as int, short)),
    });
    s.pos = end;
    match r {
        Err(e) => {
            s.done = true;
            Err(e)
        },
        Ok(b) => {
            if short {
                s.done = true;
            }
            assert(ExecNode::Scan(*s).stream() == scan_stream(fv, rv, end as int, short));
            proof {
                lemma_rest_cons(b@, scan_stream(fv, rv, end as int, short));
            }
            Ok(Some(b))
        },
    }
}

fn filter_next(f: &mut FilterExec) -> (r: Result<Option<Batch>, ExecError>)
    requires
        old(f).input.wf(),
    ensures
        final(f).input.wf(),
        next_result(r, ExecNode::Filter(*old(f)).stream()),
        after(r, ExecNode::Filter(*old(f)).stream(), ExecNode::Filter(*final(f)).stream()),
        final(f).input.height() == old(f).input.height(),
        final(f).input.schema_view() == old(f).input.schema_view(),
        final(f).predicate == old(f).predicate,
    decreases ExecNode::Filter(*old(f)).height(), 0nat,
{
    if f.failed {
        return Ok(None);
    }
    let ghost goal = ExecNode::Filter(*f).stream();
    let ghost h = f.input.height();
    let ghost sch = f.input.schema_view();
    loop
        invariant
            goal == filter_seq(f.predicate@, f.input.stream().batches, f.input.stream().error),
            goal == ExecNode::Filter(*old(f)).stream(),
            h == old(f).input.height(),
            sch == old(f).input.schema_view(),
            f.input.height() == h,
            f.input.wf(),
            f.input.schema_view() == sch,
            h < ExecNode::Filter(*old(f)).height(),
            f.predicate == old(f).predicate,
            !f.failed,
        decreases f.input.stream().batches.len(),
    {
        let ghost s = f.input.stream();
        let r = f.input.next();
        match r {
            Err(e) => {
                assert(ExecNode::Filter(*f).stream() == filter_seq(f.predicate@, Seq::empty(), None));
                return Err(e);
            },
            Ok(None) => {
                return Ok(None);
            },
            Ok(Some(batch)) => {
                assert(s.batches.len() > 0);
                assert(f.input.stream() == rest(s));
                if batch.num_rows() == 0 {
                    continue;
                }
                let mask = evaluate_bool(&batch, &f.predicate);
                match mask {
                    Err(e) => {
                        f.failed = true;
                        return Err(e);
                    },
                    Ok(mask) => {
                        let filtered = batch.filter(&mask);
                        if filtered.num_rows() > 0 {
                            proof {
                                lemma_rest_cons(filtered@, filter_seq(f.predicate@, s.batches.drop_first(), s.error));
                            }
                            return Ok(Some(filtered));
                        }
                    },
                }
            },
        }
    }
}

fn limit_next(l: &mut LimitExec) -> (r: Result<Option<Batch>, ExecError>)
    requires
        old(l).input.wf(),
    ensures
        final(l).input.wf(),
        next_result(r, ExecNode::Limit(*old(l)).stream()),
        after(r, ExecNode::Limit(*old(l)).stream(), ExecNode::Limit(*final(l)).stream()),
        final(l).input.height() == old(l).input.height(),
        final(l).input.schema_view() == old(l).input.schema_view(),
        // once its rows are out or its input has ended, the input is left alone
        old(l).done || old(l).remaining == 0 ==> *final(l) == *old(l),
    decreases ExecNode::Limit(*old(l)).height(), 0nat,
{
    if l.done || l.remaining == 0 {
        return Ok(None);
    }
    let ghost s = l.input.stream();
    let ghost rem = l.remaining as nat;
    assert(ExecNode::Limit(*old(l)).stream() == limit_seq(rem, s.batches, s.error));
    match l.input.next() {
        Err(e) => Err(e),
        Ok(None) => {
            l.done = true;
            Ok(None)
        },
        Ok(Some(batch)) => {
            assert(l.input.stream() == rest(s));
            let rows = batch.num_rows() as u64;
            if rows <= l.remaining {
                l.remaining = l.remaining - rows;
                if l.remaining == 0 {
                    l.done = true;
                }
                proof {
                    lemma_rest_cons(batch@, limit_seq(l.remaining as nat, s.batches.drop_first(), s.error));
                }
                Ok(Some(batch))
            } else {
                let take = l.remaining as usize;
                let sliced = batch.head(take);
                l.remaining = 0;
                l.done = true;
                assert(seq![sliced@].drop_first() =~= Seq::<SpecBatch>::empty());
                Ok(Some(sliced))
            }
        },
    }
}

fn project_next(p: &mut ProjectExec) -> (r: Result<Option<Batch>, ExecError>)
    requires
        old(p).input.wf(),
    ensures
        final(p).input.wf(),
        next_result(r, ExecNode::Project(*old(p)).stream()),
        after(r, ExecNode::Project(*old(p)).stream(), ExecNode::Project(*final(p)).stream()),
        final(p).input.height() == old(p).input.height(),
        final(p).out_schema@ == old(p).out_schema@,
    decreases ExecNode::Project(*old(p)).height(), 0nat,
{
    if p.failed {
        return Ok(None);
    }
    let ghost s = p.input.stream();
    let ghost ps = projections_view(p.projections@);
    let ghost out = fields_view(p.out_schema@);
    assert(ExecNode::Project(*old(p)).stream() == project_seq(ps, out, s.batches, s.error));
    match p.input.next() {
        Err(e) => {
            assert(ExecNode::Project(*p).stream() == project_seq(ps, out, Seq::empty(), None));
            Err(e)
        },
        Ok(None) => {
            assert(ExecNode::Project(*p).stream() == project_seq(ps, out, Seq::empty(), None));
            Ok(None)
        },
        Ok(Some(batch)) => {
            assert(p.input.stream() == rest(s));
            assert(ExecNode::Project(*p).stream() == project_seq(ps, out, s.batches.drop_first(), s.error));
            let r = project_batch(&batch, &p.projections, &p.out_schema);
            match r {
                Err(e) => {
                    p.failed = true;
                    Err(e)
                },
                Ok(b) => {
                    proof {
                        lemma_rest_cons(b@, project_seq(ps, out, s.batches.drop_first(), s.error));
                    }
                    Ok(Some(b))
                },
            }
        },
    }
}

fn agg_next(a: &mut HashAggExec) -> (r: Result<Option<Batch>, ExecError>)
    requires
        old(a).input.wf(),
        old(a).out_schema@.len() == old(a).group_by@.len() + old(a).aggs@.len(),
    ensures
        final(a).input.wf(),
        next_result(r, ExecNode::Agg(*old(a)).stream()),
        after(r, ExecNode::Agg(*old(a)).stream(), ExecNode::Agg(*final(a)).stream()),
        final(a).input.height() == old(a).input.height(),
        final(a).out_schema@ == old(a).out_schema@,
        final(a).group_by@ == old(a).group_by@,
        final(a).aggs@ == old(a).aggs@,
    decreases ExecNode::Agg(*old(a)).height(), 0nat,
{
    if a.emitted {
        return Ok(None);
    }
    let ghost names = strings_view(a.group_by@);
    let ghost calls = calls_view(a.aggs@);
    let ghost out = fields_view(a.out_schema@);
    let ghost goal = agg_run(Seq::empty(), a.input.stream().batches, a.input.stream().error, names, calls, out);
    let ghost h = a.input.height();
    let ghost os = ExecNode::Agg(*a).stream();
    assert(os == match goal {
        Ok(b) => cons(b, empty_stream()),
        Err(e) => failed(e),
    });
    a.emitted = true;
    let mut gs: Vec<Group> = Vec::new();
    assert(groups_view(gs@) =~= Seq::<SpecGroup>::empty());
    loop
        invariant
            goal == agg_run(groups_view(gs@), a.input.stream().batches, a.input.stream().error, names, calls, out),
            os == ExecNode::Agg(*old(a)).stream(),
            os == match goal {
                Ok(b) => cons(b, empty_stream()),
                Err(e) => failed(e),
            },
            names == strings_view(a.group_by@),
            calls == calls_view(a.aggs@),
            out == fields_view(a.out_schema@),
            a.out_schema@ == old(a).out_schema@,
            a.group_by@ == old(a).group_by@,
            a.aggs@ == old(a).aggs@,
            a.out_schema@.len() == a.group_by@.len() + a.aggs@.len(),
            a.emitted,
            a.input.wf(),
            a.input.height() == h,
            h == old(a).input.height(),
            h < ExecNode::Agg(*old(a)).height(),
            groups_wf(groups_view(gs@), a.group_by@.len() as nat, a.aggs@.len() as nat),
        ensures
            a.input.stream() == empty_stream(),
        decreases a.input.stream().batches.len(),
    {
        let ghost s = a.input.stream();
        match a.input.next() {
            Err(e) => {
                return Err(e);
            },
            Ok(None) => {
                break;
            },
            Ok(Some(batch)) => {
                assert(a.input.stream() == rest(s));
                assert(goal == match crate::agg::agg_batch(groups_view(gs@), batch@, names, calls) {
                    Ok(g) => agg_run(g, s.batches.drop_first(), s.error, names, calls, out),
                    Err(e) => Err(e),
                });
                match fold_batch(&mut gs, &batch, &a.group_by, &a.aggs) {
                    Err(e) => {
                        return Err(e);
                    },
                    Ok(()) => {},
                }
            },
        }
    }
    match finish_exec(gs, a.group_by.len(), &a.aggs, &a.out_schema) {
        Err(e) => Err(e),
        Ok(b) => {
            proof {
                lemma_rest_cons(b@, empty_stream());
            }
            Ok(Some(b))
        },
    }
}

/// Reads a node's whole stream: its batches, or the error that ends it.
pub fn collect_all(node: &mut ExecNode) -> (r: Result<Vec<Batch>, ExecError>)
    requires
        old(node).wf(),
    ensures
        final(node).wf(),
        final(node).schema_view() == old(node).schema_view(),
        match old(node).stream().error {
            Some(e) => r == Err::<Vec<Batch>, ExecError>(e),
            None => r matches Ok(v) && batches_view(v@) == old(node).stream().batches,
        },
{
    let ghost orig = node.stream();
    let mut acc: Vec<Batch> = Vec::new();
    assert(batches_view(acc@) + node.stream().batches =~= orig.batches);
    loop
        invariant
            node.wf(),
            node.schema_view() == old(node).schema_view(),
            orig == old(node).stream(),
            batches_view(acc@) + node.stream().batches == orig.batches,
            node.stream().error == orig.error,
        decreases node.stream().batches.len(),
    {
        let ghost s = node.stream();
        match node.next() {
            Err(e) => {
                return Err(e);
            },
            Ok(None) => {
                assert(batches_view(acc@) =~= orig.batches);
                return Ok(acc);
            },
            Ok(Some(b)) => {
                let ghost before = batches_view(acc@);
                acc.push(b);
                assert(batches_view(acc@) =~= before.push(b@));
                assert(s.batches =~= seq![b@] + s.batches.drop_first());
                assert(batches_view(acc@) + node.stream().batches =~= orig.batches);
            },
        }
    }
}

/// Every batch of the vector is well formed.
fn all_wf(v: &Vec<Batch>)
    ensures
        forall|i: int| 0 <= i < v@.len() ==> crate::batch::batch_wf(#[trigger] batches_view(v@)[i]),
{
    let mut i: usize = 0;
    while i < v.len()
        invariant
            i <= v@.len(),
            forall|q: int| 0 <= q < i ==> crate::batch::batch_wf(#[trigger] batches_view(v@)[q]),
        decreases v@.len() - i,
    {
        let _ = v[i].num_rows();
        i = i + 1;
    }
}

impl SortExec {
    /// Reads all of `input` and sorts its rows by the ORDER BY list (see
    /// `sort_batches`); an input error, a column that is not there,
    /// batches that do not fit together, or a key column holding a double
    /// computation fail.
    pub fn new(input: ExecNode, order_by: Vec<OrderByItem>) -> (r: Result<SortExec, ExecError>)
        requires
            input.wf(),
        ensures
            match input.stream().error {
                Some(e) => r == Err::<SortExec, ExecError>(e),
                None => if input.stream().batches.len() == 0 {
                    r matches Ok(x) && ExecNode::Sort(x).stream() == empty_stream()
                        && ExecNode::Sort(x).schema_view() == input.schema_view() && ExecNode::Sort(x).wf()
                } else {
                    match spec_merge(input.schema_view(), input.stream().batches) {
                        Err(e) => r == Err::<SortExec, ExecError>(e),
                        Ok(m) => match sort_keys(input.schema_view(), order_by_view(order_by@)) {
                            Err(e) => r == Err::<SortExec, ExecError>(e),
                            Ok(keys) => if crate::sort::keys_have_calc(m, keys) {
                                r == Err::<SortExec, ExecError>(ExecError::Unsupported)
                            } else {
                                r matches Ok(x) && ExecNode::Sort(x).schema_view() == input.schema_view() && ExecNode::Sort(x).wf()
                                    && ExecNode::Sort(x).stream() == cons(sorted_batch(m, keys), empty_stream())
                            },
                        },
                    }
                },
            },
    {
        let mut input = input;
        let schema = input.schema();
        let batches = match collect_all(&mut input) {
            Err(e) => {
                return Err(e);
            },
            Ok(v) => v,
        };
        match sort_batches(&schema, &batches, &order_by) {
            Err(e) => Err(e),
            Ok(None) => {
                let v: Vec<Batch> = Vec::new();
                assert(batches_view(v@) =~= Seq::<SpecBatch>::empty());
                let out = MemoryExec::new(schema, v);
                Ok(SortExec { out })
            },
            Ok(Some(b)) => {
                let ghost bv = b@;
                let mut v: Vec<Batch> = Vec::new();
                v.push(b);
                let out = MemoryExec::new(schema, v);
                assert(batches_view(v@) =~= seq![bv]);
                proof {
                    lemma_rest_cons(bv, empty_stream());
                    assert(cons(bv, empty_stream()).batches =~= seq![bv]);
                }
                Ok(SortExec { out })
            },
        }
    }
}

impl HashJoinExec {
    /// Joins `left` and `right` on `on` (see `join_result`).
    pub fn new(left: ExecNode, right: ExecNode, on: &Expr) -> (r: Result<HashJoinExec, ExecError>)
        requires
            left.wf(),
            right.wf(),
        ensures
            match join_result(left.stream(), right.stream(), on@, left.schema_view(), right.schema_view()) {
                Ok(bs) => r matches Ok(j) && ExecNode::Join(j).stream() == (Stream { batches: bs, error: None }) && ExecNode::Join(j).wf()
                    && ExecNode::Join(j).schema_view() == merge_schemas(left.schema_view(), right.schema_view()),
                Err(e) => r == Err::<HashJoinExec, ExecError>(e),
            },
    {
        let ghost ls = left.stream();
        let ghost rs = right.stream();
        let ghost lsv = left.schema_view();
        let ghost rsv = right.schema_view();
        let ghost goal = join_result(ls, rs, on@, lsv, rsv);
        let mut left = left;
        let mut right = right;
        let (lc, rc) = match extract_eq_columns(on) {
            None => {
                return Err(ExecError::BadJoinCondition);
            },
            Some(p) => p,
        };
        let lschema = left.schema();
        let rschema = right.schema();
        let ltype = crate::join::key_type_exec(&lschema, &lc);
        let rtype = crate::join::key_type_exec(&rschema, &rc);
        let rbs = match collect_all(&mut right) {
            Err(e) => {
                return Err(e);
            },
            Ok(v) => v,
        };
        all_wf(&rbs);
        let rk = match right_keys_exec(&rbs, &rc, ltype) {
            Err(e) => {
                return Err(e);
            },
            Ok(k) => k,
        };
        let ghost rbv = batches_view(rbs@);
        let rcols: Vec<Column> = if rbs.len() > 0 {
            match concat_columns(&rbs) {
                Err(e) => {
                    return Err(e);
                },
                Ok(c) => c,
            }
        } else {
            Vec::new()
        };
        proof {
            assert(crate::sort::columns_view(rcols@) == right_columns(rbv)) by {
                if rbv.len() == 0 {
                    assert(crate::sort::columns_view(rcols@) =~= Seq::<SpecColumn>::empty());
                }
            }
            assert forall|k: int| 0 <= k < rcols@.len() implies (#[trigger] rcols@[k]).values@.len() == rk@.len() by {
                assert(crate::sort::columns_view(rcols@).len() == rcols@.len());
                assert(rbv.len() > 0);
                assert(right_columns(rbv).len() == rbv[0].columns.len());
                assert(crate::join::keys_of(rk@).len() == rk@.len());
                lemma_right_lens(rbv, rc@, ltype, k);
                assert(rcols@[k]@ == right_columns(rbv)[k]);
            }
        }
        let schema = merge_schemas_exec(&lschema, &rschema);
        let out = match join_probe(&mut left, &lc, rtype, &rk, &rcols, &schema) {
            Err(e) => {
                return Err(e);
            },
            Ok(v) => v,
        };
        let j = MemoryExec::new(schema, out);
        Ok(HashJoinExec { out: j })
    }
}

/// The left batches joined in turn (see `join_left`).
fn join_probe(left: &mut ExecNode, lc: &String, other: Option<DataType>, rk: &Vec<Option<String>>, rcols: &Vec<Column>, schema: &Vec<Field>) -> (r: Result<Vec<Batch>, ExecError>)
    requires
        old(left).wf(),
        forall|k: int| 0 <= k < rcols@.len() ==> (#[trigger] rcols@[k]).values@.len() == rk@.len(),
    ensures
        match join_left(
            Seq::empty(),
            old(left).stream().batches,
            old(left).stream().error,
            lc@,
            other,
            crate::join::keys_of(rk@),
            crate::sort::columns_view(rcols@),
            fields_view(schema@),
        ) {
            Ok(bs) => r matches Ok(v) && batches_view(v@) == bs,
            Err(e) => r == Err::<Vec<Batch>, ExecError>(e),
        },
{
    let ghost rkv = crate::join::keys_of(rk@);
    let ghost rcv = crate::sort::columns_view(rcols@);
    let ghost sv = fields_view(schema@);
    let ghost goal = join_left(Seq::empty(), left.stream().batches, left.stream().error, lc@, other, rkv, rcv, sv);
    let mut out: Vec<Batch> = Vec::new();
    assert(batches_view(out@) =~= Seq::<SpecBatch>::empty());
    loop
        invariant
            left.wf(),
            forall|k: int| 0 <= k < rcols@.len() ==> (#[trigger] rcols@[k]).values@.len() == rk@.len(),
            rkv == crate::join::keys_of(rk@),
            rcv == crate::sort::columns_view(rcols@),
            sv == fields_view(schema@),
            goal == join_left(Seq::empty(), old(left).stream().batches, old(left).stream().error, lc@, other, rkv, rcv, sv),
            goal == join_left(batches_view(out@), left.stream().batches, left.stream().error, lc@, other, rkv, rcv, sv),
        ensures
            left.stream() == empty_stream(),
            goal == join_left(batches_view(out@), left.stream().batches, left.stream().error, lc@, other, rkv, rcv, sv),
        decreases left.stream().batches.len(),
    {
        let ghost s = left.stream();
        match left.next() {
            Err(e) => {
                return Err(e);
            },
            Ok(None) => {
                break;
            },
            Ok(Some(lb)) => {
                assert(left.stream() == rest(s));
                match join_batch_exec(&lb, lc, other, rk, rcols, schema) {
                    Err(e) => {
                        return Err(e);
                    },
                    Ok(None) => {},
                    Ok(Some(b)) => {
                        let ghost before = batches_view(out@);
                        out.push(b);
                        assert(batches_view(out@) =~= before.push(b@));
                    },
                }
            },
        }
    }
    Ok(out)
}

impl HashAggExec {
    /// Groups the rows of `input` by the `group_by` columns and computes
    /// `aggs` per group; fails when a GROUP BY column is not in the input.
    pub fn new(input: ExecNode, group_by: Vec<String>, aggs: Vec<AggCall>) -> (r: Result<HashAggExec, ExecError>)
        ensures
            match agg_fields(input.schema_view(), strings_view(group_by@), calls_view(aggs@)) {
                Ok(out) => r matches Ok(a) && {
                    &&& ExecNode::Agg(a).schema_view() == out
                    &&& ExecNode::Agg(a).wf() == input.wf()
                    &&& ExecNode::Agg(a).stream() == match agg_run(
                        Seq::empty(),
                        input.stream().batches,
                        input.stream().error,
                        strings_view(group_by@),
                        calls_view(aggs@),
                        out,
                    ) {
                        Ok(b) => cons(b, empty_stream()),
                        Err(e) => failed(e),
                    }
                },
                Err(e) => r == Err::<HashAggExec, ExecError>(e),
            },
    {
        let in_schema = input.schema();
        match agg_fields_exec(&in_schema, &group_by, &aggs) {
            Err(e) => Err(e),
            Ok(out) => {
                proof {
                    let f = agg_fields(input.schema_view(), strings_view(group_by@), calls_view(aggs@));
                    assert(f is Ok);
                    assert(fields_view(out@).len() == group_by@.len() + aggs@.len());
                }
                Ok(HashAggExec { input: Box::new(input), group_by, aggs, out_schema: out, emitted: false })
            },
        }
    }
}

/// Evaluates the projections over a batch and builds the output batch.
fn project_batch(batch: &Batch, ps: &Vec<Projection>, out: &Vec<Field>) -> (r: Result<Batch, ExecError>)
    ensures
        agree_batch(r, spec_project_batch(batch@, projections_view(ps@), fields_view(out@))),
{
    let ghost es = projections_view(ps@).map_values(|p: (Seq<char>, SpecExpr)| p.1);
    let mut cols: Vec<Column> = Vec::new();
    let mut k: usize = 0;
    assert(es.take(0) =~= Seq::<SpecExpr>::empty());
    assert(cols@.map_values(|c: Column| c@) =~= Seq::<SpecColumn>::empty());
    while k < ps.len()
        invariant
            es == projections_view(ps@).map_values(|p: (Seq<char>, SpecExpr)| p.1),
            k <= ps@.len(),
            eval_all(batch@, es.take(k as int)) == Ok::<Seq<SpecColumn>, ExecError>(cols@.map_values(|c: Column| c@)),
        decreases ps@.len() - k,
    {
        assert(es.take(k + 1).drop_last() =~= es.take(k as int));
        assert(es.take(k + 1).last() == ps@[k as int].expr@);
        match evaluate(batch, &ps[k].expr) {
            Err(e) => {
                proof {
                    lemma_eval_all_err(batch@, es, k as int, e);
                }
                return Err(e);
            },
            Ok(c) => {
                let ghost before = cols@.map_values(|c: Column| c@);
                cols.push(c);
                assert(cols@.map_values(|c: Column| c@) =~= before.push(c@));
            },
        }
        k = k + 1;
    }
    assert(es.take(ps@.len() as int) =~= es);
    Batch::try_new(copy_fields(out), cols)
}

/// An error in evaluating expression `k` (after the first `k` succeeded) is
/// the error of the whole list.
pub proof fn lemma_eval_all_err(b: SpecBatch, es: Seq<SpecExpr>, k: int, e: ExecError)
    requires
        0 <= k < es.len(),
        eval_all(b, es.take(k)) is Ok,
        spec_eval(b, es[k]) == Err::<SpecColumn, ExecError>(e),
    ensures
        eval_all(b, es) == Err::<Seq<SpecColumn>, ExecError>(e),
    decreases es.len() - k,
{
    assert(es.take(k + 1).drop_last() =~= es.take(k));
    if k + 1 == es.len() {
        assert(es.take(k + 1) =~= es);
    } else {
        lemma_eval_all_err_extend(b, es, k + 1, e);
    }
}

/// Once a prefix fails, every longer prefix fails with the same error.
pub proof fn lemma_eval_all_err_extend(b: SpecBatch, es: Seq<SpecExpr>, k: int, e: ExecError)
    requires
        0 < k <= es.len(),
        eval_all(b, es.take(k)) == Err::<Seq<SpecColumn>, ExecError>(e),
    ensures
        eval_all(b, es) == Err::<Seq<SpecColumn>, ExecError>(e),
    decreases es.len() - k,
{
    if k < es.len() {
        assert(es.take(k + 1).drop_last() =~= es.take(k));
        lemma_eval_all_err_extend(b, es, k + 1, e);
    } else {
        assert(es.take(k) =~= es);
    }
}


// ── Building nodes ───────────────────────────────────────────────────────────

/// The fields of a scanned table: its columns, all nullable.
pub open spec fn table_fields(t: Seq<crate::catalog::SpecColumnDef>) -> Seq<SpecField> {
    t.map_values(|c: crate::catalog::SpecColumnDef| SpecField { name: c.name, data_type: c.data_type, nullable: true })
}

impl MemoryExec {
    /// A node that yields `batches` in order.
    pub fn new(schema: Vec<Field>, batches: Vec<Batch>) -> (r: MemoryExec)
        ensures
            ExecNode::Memory(r).stream() == (Stream { batches: batches_view(batches@), error: None }),
            ExecNode::Memory(r).schema_view() == fields_view(schema@),
            ExecNode::Memory(r).wf(),
    {
        let r = MemoryExec { schema, batches, cursor: 0 };
        assert(r.batches@.subrange(0, r.batches@.len() as int) =~= r.batches@);
        r
    }
}

impl CsvScanExec {
    /// The scan of a table's records (read by the caller), under the
    /// table's inferred schema.
    pub fn new(table_schema: &TableSchema, rows: Vec<Vec<RawCell>>) -> (r: CsvScanExec)
        ensures
            ExecNode::Scan(r).schema_view() == table_fields(table_schema@),
            ExecNode::Scan(r).wf(),
            ExecNode::Scan(r).stream() == scan_stream(table_fields(table_schema@), rows_view(rows@), 0, false),
    {
        let mut fields: Vec<Field> = Vec::new();
        let mut k: usize = 0;
        while k < table_schema.columns.len()
            invariant
                k <= table_schema.columns@.len(),
                fields_view(fields@) == table_fields(table_schema@).take(k as int),
            decreases table_schema.columns@.len() - k,
        {
            let c = &table_schema.columns[k];
            let ghost before = fields_view(fields@);
            let f = Field::new(c.name.clone(), c.data_type, true);
            assert(table_schema@[k as int] == c@);
            assert(f@ == table_fields(table_schema@)[k as int]);
            fields.push(f);
            assert(fields_view(fields@) =~= before.push(f@));
            assert(table_fields(table_schema@).take(k + 1) =~= table_fields(table_schema@).take(k as int).push(f@));
            k = k + 1;
            assert(fields_view(fields@) =~= table_fields(table_schema@).take(k as int));
        }
        assert(table_fields(table_schema@).take(k as int) =~= table_fields(table_schema@));
        CsvScanExec { schema: fields, rows, pos: 0, done: false }
    }
}

impl FilterExec {
    /// Keeps the rows of `input` for which `predicate` is true.
    pub fn new(input: ExecNode, predicate: Expr) -> (r: FilterExec)
        ensures
            ExecNode::Filter(r).stream() == filter_seq(predicate@, input.stream().batches, input.stream().error),
            ExecNode::Filter(r).schema_view() == input.schema_view(),
            ExecNode::Filter(r).wf() == input.wf(),
    {
        FilterExec { input: Box::new(input), predicate, failed: false }
    }
}

impl LimitExec {
    /// Passes on the first `n` rows of `input`.
    pub fn new(input: ExecNode, n: u64) -> (r: LimitExec)
        ensures
            ExecNode::Limit(r).stream() == limit_seq(n as nat, input.stream().batches, input.stream().error),
            ExecNode::Limit(r).schema_view() == input.schema_view(),
            ExecNode::Limit(r).wf() == input.wf(),
    {
        LimitExec { input: Box::new(input), remaining: n, done: false }
    }
}

fn agg_lower_name_exec(f: AggFunc) -> (s: &'static str)
    ensures
        s@ == agg_lower_name(f),
{
    match f {
        AggFunc::Count => "count",
        AggFunc::Sum => "sum",
        AggFunc::Avg => "avg",
        AggFunc::Min => "min",
        AggFunc::Max => "max",
    }
}

pub fn value_debug_exec(v: &Value) -> (s: String)
    ensures
        s@ == value_debug(v@),
{
    let mut s = String::new();
    match v {
        Value::Int(i) => {
            crate::fmt::push_str(&mut s, "Int(");
            let d = crate::fmt::int_to_string(*i as i128);
            crate::fmt::push_str(&mut s, d.as_str());
            crate::fmt::push_str(&mut s, ")");
        },
        Value::Float(t) => {
            crate::fmt::push_str(&mut s, "Float(");
            crate::fmt::push_str(&mut s, t.as_str());
            crate::fmt::push_str(&mut s, ")");
        },
        Value::Double(t, _) => {
            crate::fmt::push_str(&mut s, "Float(");
            crate::fmt::push_str(&mut s, t.as_str());
            crate::fmt::push_str(&mut s, ")");
        },
        Value::Str(t) => {
            crate::fmt::push_str(&mut s, "Str(");
            crate::fmt::push_quoted(&mut s, t);
            crate::fmt::push_str(&mut s, ")");
        },
        Value::Bool(b) => {
            if *b {
                crate::fmt::push_str(&mut s, "Bool(true)");
            } else {
                crate::fmt::push_str(&mut s, "Bool(false)");
            }
        },
        Value::Null => {
            crate::fmt::push_str(&mut s, "Null");
        },
    }
    proof {
        reveal_strlit("Int(");
        reveal_strlit(")");
        reveal_strlit("Float(");
        reveal_strlit("Str(");
        reveal_strlit("Bool(true)");
        reveal_strlit("Bool(false)");
        reveal_strlit("Null");
    }
    assert(s@ =~= value_debug(v@));
    s
}

fn expr_name_exec(e: &Expr) -> (s: String)
    ensures
        s@ == expr_name(e@),
{
    match e {
        Expr::Column(n) => n.clone(),
        Expr::Literal(v) => value_debug_exec(v),
        Expr::Agg { func, .. } => {
            let mut s = String::new();
            crate::fmt::push_str(&mut s, agg_lower_name_exec(*func));
            assert(s@ =~= agg_lower_name(*func));
            s
        },
        _ => {
            let mut s = String::new();
            crate::fmt::push_str(&mut s, "expr");
            s
        },
    }
}

fn infer_expr_type_exec(e: &Expr, schema: &Vec<Field>) -> (t: DataType)
    ensures
        t == infer_expr_type(e@, fields_view(schema@)),
    decreases e,
{
    match e {
        Expr::Column(n) => match find_field(schema, n) {
            Some(i) => {
                assert(fields_view(schema@)[i as int] == schema@[i as int]@);
                schema[i].data_type
            },
            None => DataType::Utf8,
        },
        Expr::Literal(Value::Int(_)) => DataType::Int64,
        Expr::Literal(Value::Float(_)) => DataType::Float64,
        Expr::Literal(Value::Double(_, _)) => DataType::Float64,
        Expr::Literal(Value::Bool(_)) => DataType::Boolean,
        Expr::Literal(Value::Str(_)) => DataType::Utf8,
        Expr::Literal(Value::Null) => DataType::Int64,
        Expr::BinOp { op, left, right } => {
            let l = infer_expr_type_exec(left, schema);
            let r = infer_expr_type_exec(right, schema);
            match crate::eval::binop_type_exec(*op, l, r) {
                Ok(t) => t,
                Err(_) => DataType::Utf8,
            }
        },
        Expr::Unary { op, expr } => match op {
            UnaryOp::Not => DataType::Boolean,
            UnaryOp::Neg => infer_expr_type_exec(expr, schema),
        },
        Expr::Wildcard => DataType::Boolean,
        Expr::Agg { .. } => DataType::Utf8,
    }
}

impl ProjectExec {
    /// The projection of `input` onto a SELECT list: `*` stands for every
    /// input column; an expression is named by its alias or `expr_name`.
    pub fn new(input: ExecNode, exprs: Vec<SelectItem>) -> (r: Result<ProjectExec, ExecError>)
        ensures
            r matches Ok(p) && {
                let ps = spec_projections(input.schema_view(), items_view(exprs@));
                let out = projection_fields(input.schema_view(), ps);
                &&& ExecNode::Project(p).schema_view() == out
                &&& ExecNode::Project(p).wf() == input.wf()
                &&& ExecNode::Project(p).stream() == project_seq(ps, out, input.stream().batches, input.stream().error)
            },
    {
        let in_schema = input.schema();
        let ghost sv = fields_view(in_schema@);
        let ghost iv = items_view(exprs@);
        let mut projections: Vec<Projection> = Vec::new();
        let mut k: usize = 0;
        assert(iv.take(0) =~= Seq::<SpecSelectItem>::empty());
        assert(projections_view(projections@) =~= Seq::<(Seq<char>, SpecExpr)>::empty());
        while k < exprs.len()
            invariant
                sv == fields_view(in_schema@),
                iv == items_view(exprs@),
                k <= exprs@.len(),
                projections_view(projections@) == spec_projections(sv, iv.take(k as int)),
            decreases exprs@.len() - k,
        {
            let ghost prev = projections_view(projections@);
            assert(iv.take(k + 1).drop_last() =~= iv.take(k as int));
            assert(iv.take(k + 1).last() == exprs@[k as int]@);
            match &exprs[k] {
                SelectItem::Wildcard => {
                    let mut j: usize = 0;
                    while j < in_schema.len()
                        invariant
                            sv == fields_view(in_schema@),
                            j <= in_schema@.len(),
                            projections_view(projections@) == prev + sv.take(j as int).map_values(
                                |f: SpecField| (f.name, SpecExpr::Column(f.name)),
                            ),
                        decreases in_schema@.len() - j,
                    {
                        let ghost before = projections_view(projections@);
                        let name = in_schema[j].name.clone();
                        let col = in_schema[j].name.clone();
                        let pr = Projection { name, expr: Expr::Column(col) };
                        assert(sv[j as int] == in_schema@[j as int]@);
                        assert(pr@ == (sv[j as int].name, SpecExpr::Column(sv[j as int].name)));
                        projections.push(pr);
                        assert(projections_view(projections@) =~= before.push(pr@));
                        assert(sv.take(j + 1).map_values(|f: SpecField| (f.name, SpecExpr::Column(f.name))) =~= sv.take(
                            j as int,
                        ).map_values(|f: SpecField| (f.name, SpecExpr::Column(f.name))).push(pr@));
                        j = j + 1;
                        assert(projections_view(projections@) =~= prev + sv.take(j as int).map_values(
                            |f: SpecField| (f.name, SpecExpr::Column(f.name)),
                        ));
                    }
                    assert(sv.take(j as int) =~= sv);
                },
                SelectItem::Expr(e, alias) => {
                    let name = match alias {
                        Some(a) => a.clone(),
                        None => expr_name_exec(e),
                    };
                    projections.push(Projection { name, expr: e.copy() });
                    assert(projections_view(projections@) =~= prev.push(
                        (
                            match crate::ast::opt_str_view(*alias) {
                                Some(a) => a,
                                None => expr_name(e@),
                            },
                            e@,
                        ),
                    ));
                },
            }
            k = k + 1;
        }
        assert(iv.take(k as int) =~= iv);
        let ghost ps = projections_view(projections@);
        let mut out: Vec<Field> = Vec::new();
        let mut q: usize = 0;
        while q < projections.len()
            invariant
                sv == fields_view(in_schema@),
                ps == projections_view(projections@),
                q <= projections@.len(),
                fields_view(out@) == projection_fields(sv, ps).take(q as int),
            decreases projections@.len() - q,
        {
            let t = infer_expr_type_exec(&projections[q].expr, &in_schema);
            let ghost before = fields_view(out@);
            let f = Field::new(projections[q].name.clone(), t, true);
            assert(ps[q as int] == projections@[q as int]@);
            assert(f@ == projection_fields(sv, ps)[q as int]);
            out.push(f);
            assert(fields_view(out@) =~= before.push(f@));
            assert(projection_fields(sv, ps).take(q + 1) =~= projection_fields(sv, ps).take(q as int).push(f@));
            q = q + 1;
            assert(fields_view(out@) =~= projection_fields(sv, ps).take(q as int));
        }
        assert(projection_fields(sv, ps).take(q as int) =~= projection_fields(sv, ps));
        Ok(ProjectExec { input: Box::new(input), projections, out_schema: out, failed: false })
    }
}

} // verus!
