//! The logical plan of a SELECT statement, its text form, and the operator
//! tree that executes it.
use vstd::prelude::*;

use crate::agg::{agg_fields, agg_run, call_view, calls_view, AggCall};
use crate::ast::{
    copy_items, copy_opt_string, copy_strings, items_view, opt_str_view, strings_view, AggFunc, BinOp,
    Expr, OrderByItem, SelectItem, SelectStmt, SpecExpr, SpecJoinClause, SpecOrderByItem,
    SpecSelectItem, SpecSelectStmt, UnaryOp,
};
use crate::batch::{ExecError, SpecField};
use crate::catalog::{DataType, SpecColumnDef, TableSchema};
use crate::exec::{
    cons, empty_stream, failed, filter_seq, limit_seq, project_seq, projection_fields, rows_view,
    scan_stream, spec_projections, table_fields, value_debug, CsvScanExec, ExecNode, FilterExec,
    HashAggExec, HashJoinExec, LimitExec, ProjectExec, RawCell, SortExec, SpecRawCell, Stream,
};
use crate::fmt::{int_text, int_to_string, push_quoted, push_str, quoted};
use crate::join::{join_result, merge_schemas};
use crate::sort::{order_by_view, sort_keys, sorted_batch, spec_merge};

verus! {

/// Logical plan node.
#[derive(Debug)]
pub enum LogicalPlan {
    /// Table scan: the CSV table at `path`, read with the given schema.
    Scan { path: String, schema: TableSchema },
    /// Filter rows by a predicate expression.
    Filter { input: Box<LogicalPlan>, predicate: Expr },
    /// Project (compute output columns).
    Project { input: Box<LogicalPlan>, exprs: Vec<SelectItem> },
    /// Limit the number of output rows.
    Limit { input: Box<LogicalPlan>, n: u64 },
    /// Hash aggregation with optional GROUP BY.
    Aggregate { input: Box<LogicalPlan>, group_by: Vec<String>, aggs: Vec<AggCall> },
    /// Hash inner join.
    Join {
        left: Box<LogicalPlan>,
        right_path: String,
        right_schema: TableSchema,
        right_alias: Option<String>,
        on: Expr,
    },
    /// Sort output rows by one or more columns.
    Sort { input: Box<LogicalPlan>, order_by: Vec<OrderByItem> },
}

/// The physical plan: for now the logical plan itself, executed node for node.
pub type PhysicalPlan = LogicalPlan;

pub enum SpecPlan {
    Scan { path: Seq<char>, schema: Seq<SpecColumnDef> },
    Filter { input: Box<SpecPlan>, predicate: SpecExpr },
    Project { input: Box<SpecPlan>, exprs: Seq<SpecSelectItem> },
    Limit { input: Box<SpecPlan>, n: u64 },
    Aggregate { input: Box<SpecPlan>, group_by: Seq<Seq<char>>, aggs: Seq<(AggFunc, SpecExpr, Seq<char>)> },
    Join {
        left: Box<SpecPlan>,
        right_path: Seq<char>,
        right_schema: Seq<SpecColumnDef>,
        right_alias: Option<Seq<char>>,
        on: SpecExpr,
    },
    Sort { input: Box<SpecPlan>, order_by: Seq<SpecOrderByItem> },
}

impl LogicalPlan {
    pub open spec fn model(self) -> SpecPlan
        decreases self,
    {
        match self {
            LogicalPlan::Scan { path, schema } => SpecPlan::Scan { path: path@, schema: schema@ },
            LogicalPlan::Filter { input, predicate } => SpecPlan::Filter {
                input: Box::new((*input).model()),
                predicate: predicate@,
            },
            LogicalPlan::Project { input, exprs } => SpecPlan::Project {
                input: Box::new((*input).model()),
                exprs: items_view(exprs@),
            },
            LogicalPlan::Limit { input, n } => SpecPlan::Limit { input: Box::new((*input).model()), n },
            LogicalPlan::Aggregate { input, group_by, aggs } => SpecPlan::Aggregate {
                input: Box::new((*input).model()),
                group_by: strings_view(group_by@),
                aggs: calls_view(aggs@),
            },
            LogicalPlan::Join { left, right_path, right_schema, right_alias, on } => SpecPlan::Join {
                left: Box::new((*left).model()),
                right_path: right_path@,
                right_schema: right_schema@,
                right_alias: opt_str_view(right_alias),
                on: on@,
            },
            LogicalPlan::Sort { input, order_by } => SpecPlan::Sort {
                input: Box::new((*input).model()),
                order_by: order_by_view(order_by@),
            },
        }
    }
}

impl View for LogicalPlan {
    type V = SpecPlan;

    open spec fn view(&self) -> SpecPlan {
        self.model()
    }
}

// ── Building the plan ────────────────────────────────────────────────────────

/// A table that a JOIN can name: its name, the path of its CSV file, and
/// its schema.
#[derive(Debug)]
pub struct CatalogEntry {
    pub name: String,
    pub path: String,
    pub schema: TableSchema,
}

pub struct SpecCatalogEntry {
    pub name: Seq<char>,
    pub path: Seq<char>,
    pub schema: Seq<SpecColumnDef>,
}

impl View for CatalogEntry {
    type V = SpecCatalogEntry;

    open spec fn view(&self) -> SpecCatalogEntry {
        SpecCatalogEntry { name: self.name@, path: self.path@, schema: self.schema@ }
    }
}

pub open spec fn catalog_view(v: Seq<CatalogEntry>) -> Seq<SpecCatalogEntry> {
    v.map_values(|c: CatalogEntry| c@)
}

/// The first catalog entry from `i` on with the given name.
pub open spec fn find_entry(cat: Seq<SpecCatalogEntry>, name: Seq<char>, i: int) -> Option<int>
    decreases cat.len() - i,
{
    if i < 0 || i >= cat.len() {
        None
    } else if cat[i].name == name {
        Some(i)
    } else {
        find_entry(cat, name, i + 1)
    }
}

/// The output name of aggregate `i` of the SELECT list: its alias, or `agg_i`.
pub open spec fn agg_output_name(alias: Option<Seq<char>>, i: int) -> Seq<char> {
    match alias {
        Some(a) => a,
        None => "agg_"@ + int_text(i),
    }
}

/// The aggregate calls of a SELECT list, in order: each item that is an
/// aggregate call gives (function, argument, output name).
pub open spec fn spec_collect_aggs(select: Seq<SpecSelectItem>) -> Seq<(AggFunc, SpecExpr, Seq<char>)>
    decreases select.len(),
{
    if select.len() == 0 {
        Seq::empty()
    } else {
        let prev = spec_collect_aggs(select.drop_last());
        match select.last() {
            SpecSelectItem::Expr(SpecExpr::Agg { func, expr }, alias) => prev.push(
                (func, *expr, agg_output_name(alias, select.len() - 1)),
            ),
            _ => prev,
        }
    }
}

/// The joins laid over the plan in order, each with the catalog entry of
/// its table.
pub open spec fn spec_join_plans(p: SpecPlan, joins: Seq<SpecJoinClause>, cat: Seq<SpecCatalogEntry>) -> Result<SpecPlan, ExecError>
    decreases joins.len(),
{
    if joins.len() == 0 {
        Ok(p)
    } else {
        let j = joins[0];
        match find_entry(cat, j.table, 0) {
            None => Err(ExecError::TableNotFound),
            Some(i) => spec_join_plans(
                SpecPlan::Join {
                    left: Box::new(p),
                    right_path: cat[i].path,
                    right_schema: cat[i].schema,
                    right_alias: j.alias,
                    on: j.on,
                },
                joins.drop_first(),
                cat,
            ),
        }
    }
}

/// The plan of a statement: scan, joins, filter, then aggregation (when
/// the SELECT list has an aggregate or there is a GROUP BY) or projection,
/// then sort, then limit.
pub open spec fn spec_build(stmt: SpecSelectStmt, path: Seq<char>, schema: Seq<SpecColumnDef>, cat: Seq<SpecCatalogEntry>) -> Result<
    SpecPlan,
    ExecError,
> {
    match spec_join_plans(SpecPlan::Scan { path, schema }, stmt.joins, cat) {
        Err(e) => Err(e),
        Ok(p1) => {
            let p2 = match stmt.where_ {
                Some(w) => SpecPlan::Filter { input: Box::new(p1), predicate: w },
                None => p1,
            };
            let aggs = spec_collect_aggs(stmt.select);
            let p3 = if aggs.len() > 0 || stmt.group_by.len() > 0 {
                SpecPlan::Aggregate { input: Box::new(p2), group_by: stmt.group_by, aggs }
            } else {
                SpecPlan::Project { input: Box::new(p2), exprs: stmt.select }
            };
            let p4 = if stmt.order_by.len() > 0 {
                SpecPlan::Sort { input: Box::new(p3), order_by: stmt.order_by }
            } else {
                p3
            };
            Ok(
                match stmt.limit {
                    Some(n) => SpecPlan::Limit { input: Box::new(p4), n },
                    None => p4,
                },
            )
        },
    }
}

fn agg_output_name_exec(alias: &Option<String>, i: usize) -> (s: String)
    ensures
        s@ == agg_output_name(opt_str_view(*alias), i as int),
{
    match alias {
        Some(a) => a.clone(),
        None => {
            let mut s = String::new();
            push_str(&mut s, "agg_");
            let d = int_to_string(i as i128);
            push_str(&mut s, d.as_str());
            proof {
                reveal_strlit("agg_");
            }
            assert(s@ =~= agg_output_name(opt_str_view(*alias), i as int));
            s
        },
    }
}

/// The aggregate calls of a SELECT list (see `spec_collect_aggs`).
pub fn collect_aggs(select: &Vec<SelectItem>) -> (r: Vec<AggCall>)
    ensures
        calls_view(r@) == spec_collect_aggs(items_view(select@)),
{
    let ghost sv = items_view(select@);
    let mut out: Vec<AggCall> = Vec::new();
    let mut i: usize = 0;
    assert(sv.take(0) =~= Seq::<SpecSelectItem>::empty());
    assert(calls_view(out@) =~= Seq::<(AggFunc, SpecExpr, Seq<char>)>::empty());
    while i < select.len()
        invariant
            sv == items_view(select@),
            i <= select@.len(),
            calls_view(out@) == spec_collect_aggs(sv.take(i as int)),
        decreases select@.len() - i,
    {
        assert(sv.take(i + 1).drop_last() =~= sv.take(i as int));
        assert(sv.take(i + 1).last() == select@[i as int]@);
        let ghost before = calls_view(out@);
        match &select[i] {
            SelectItem::Expr(Expr::Agg { func, expr }, alias) => {
                let c: AggCall = (*func, (**expr).copy(), agg_output_name_exec(alias, i));
                out.push(c);
                assert(calls_view(out@) =~= before.push(call_view(c)));
            },
            _ => {
                proof {
                    match select@[i as int] {
                        SelectItem::Expr(e, _) => {
                            assert(!(e@ is Agg)) by {
                                match e {
                                    Expr::Agg { .. } => {},
                                    _ => {},
                                }
                            }
                        },
                        _ => {},
                    }
                }
            },
        }
        i = i + 1;
    }
    assert(sv.take(i as int) =~= sv);
    out
}

/// The plan of a statement (see `spec_build`); a JOIN table that the
/// catalog does not hold gives `TableNotFound`.
pub fn build(stmt: &SelectStmt, path: &str, schema: TableSchema, catalog: &Vec<CatalogEntry>) -> (r: Result<LogicalPlan, ExecError>)
    ensures
        match spec_build(stmt@, path@, schema@, catalog_view(catalog@)) {
            Ok(p) => r matches Ok(q) && q@ == p,
            Err(e) => r == Err::<LogicalPlan, ExecError>(e),
        },
{
    let ghost cv = catalog_view(catalog@);
    let mut p = LogicalPlan::Scan { path: path.to_string(), schema };
    let mut k: usize = 0;
    let ghost jv = stmt@.joins;
    assert(jv.skip(0) =~= jv);
    while k < stmt.joins.len()
        invariant
            cv == catalog_view(catalog@),
            jv == stmt@.joins,
            k <= stmt.joins@.len(),
            spec_join_plans(SpecPlan::Scan { path: path@, schema: schema@ }, jv, cv) == spec_join_plans(
                p@,
                jv.skip(k as int),
                cv,
            ),
        decreases stmt.joins@.len() - k,
    {
        let j = &stmt.joins[k];
        assert(jv[k as int] == j@);
        assert(jv.skip(k as int)[0] == j@);
        assert(jv.skip(k as int).drop_first() =~= jv.skip(k + 1));
        let mut e: usize = 0;
        while e < catalog.len()
            invariant
                cv == catalog_view(catalog@),
                e <= catalog@.len(),
                find_entry(cv, j@.table, 0) == find_entry(cv, j@.table, e as int),
            ensures
                e <= catalog@.len(),
                find_entry(cv, j@.table, 0) == find_entry(cv, j@.table, e as int),
                e < catalog@.len() ==> cv[e as int].name == j@.table,
            decreases catalog@.len() - e,
        {
            assert(cv[e as int] == catalog@[e as int]@);
            if catalog[e].name == j.table {
                break;
            }
            e = e + 1;
        }
        if e == catalog.len() {
            return Err(ExecError::TableNotFound);
        }
        assert(cv[e as int] == catalog@[e as int]@);
        assert(find_entry(cv, j@.table, 0) == Some(e as int));
        let entry = &catalog[e];
        let ghost old_p = p@;
        p = LogicalPlan::Join {
            left: Box::new(p),
            right_path: entry.path.clone(),
            right_schema: entry.schema.copy(),
            right_alias: copy_opt_string(&j.alias),
            on: j.on.copy(),
        };
        assert(p@ == SpecPlan::Join {
            left: Box::new(old_p),
            right_path: cv[e as int].path,
            right_schema: cv[e as int].schema,
            right_alias: j@.alias,
            on: j@.on,
        });
        k = k + 1;
    }
    assert(jv.skip(k as int) =~= Seq::<SpecJoinClause>::empty());
    let ghost p1 = p@;
    assert(spec_join_plans(SpecPlan::Scan { path: path@, schema: schema@ }, jv, cv) == Ok::<SpecPlan, ExecError>(p1));
    if let Some(w) = &stmt.where_ {
        p = LogicalPlan::Filter { input: Box::new(p), predicate: w.copy() };
        assert(p@ == SpecPlan::Filter { input: Box::new(p1), predicate: w@ });
    }
    let ghost p2 = p@;
    assert(p2 == match stmt@.where_ {
        Some(w) => SpecPlan::Filter { input: Box::new(p1), predicate: w },
        None => p1,
    });
    let aggs = collect_aggs(&stmt.select);
    if aggs.len() > 0 || stmt.group_by.len() > 0 {
        let gb = copy_strings(&stmt.group_by);
        let ghost av = calls_view(aggs@);
        p = LogicalPlan::Aggregate { input: Box::new(p), group_by: gb, aggs };
        assert(p@ == SpecPlan::Aggregate { input: Box::new(p2), group_by: stmt@.group_by, aggs: av });
    } else {
        let items = copy_items(&stmt.select);
        p = LogicalPlan::Project { input: Box::new(p), exprs: items };
        assert(p@ == SpecPlan::Project { input: Box::new(p2), exprs: stmt@.select });
    }
    let ghost p3 = p@;
    if stmt.order_by.len() > 0 {
        let mut ob: Vec<OrderByItem> = Vec::new();
        let mut q: usize = 0;
        while q < stmt.order_by.len()
            invariant
                q <= stmt.order_by@.len(),
                order_by_view(ob@) == stmt@.order_by.take(q as int),
            decreases stmt.order_by@.len() - q,
        {
            let o = &stmt.order_by[q];
            let c = OrderByItem { column: o.column.clone(), asc: o.asc };
            let ghost before = order_by_view(ob@);
            ob.push(c);
            assert(order_by_view(ob@) =~= before.push(c@));
            q = q + 1;
            assert(stmt@.order_by.take(q as int) =~= stmt@.order_by.take(q - 1).push(o@));
        }
        assert(stmt@.order_by.take(q as int) =~= stmt@.order_by);
        p = LogicalPlan::Sort { input: Box::new(p), order_by: ob };
        assert(p@ == SpecPlan::Sort { input: Box::new(p3), order_by: stmt@.order_by });
    }
    let ghost p4 = p@;
    if let Some(n) = stmt.limit {
        p = LogicalPlan::Limit { input: Box::new(p), n };
        assert(p@ == SpecPlan::Limit { input: Box::new(p4), n });
    }
    Ok(p)
}


// ── The text of a plan ───────────────────────────────────────────────────────

pub open spec fn binop_name(op: BinOp) -> Seq<char> {
    match op {
        BinOp::Add => "Add"@,
        BinOp::Sub => "Sub"@,
        BinOp::Mul => "Mul"@,
        BinOp::Div => "Div"@,
        BinOp::Eq => "Eq"@,
        BinOp::Ne => "Ne"@,
        BinOp::Lt => "Lt"@,
        BinOp::Le => "Le"@,
        BinOp::Gt => "Gt"@,
        BinOp::Ge => "Ge"@,
        BinOp::And => "And"@,
        BinOp::Or => "Or"@,
    }
}

pub open spec fn unary_name(op: UnaryOp) -> Seq<char> {
    match op {
        UnaryOp::Not => "Not"@,
        UnaryOp::Neg => "Neg"@,
    }
}

pub open spec fn agg_func_name(f: AggFunc) -> Seq<char> {
    match f {
        AggFunc::Count => "Count"@,
        AggFunc::Sum => "Sum"@,
        AggFunc::Avg => "Avg"@,
        AggFunc::Min => "Min"@,
        AggFunc::Max => "Max"@,
    }
}

pub open spec fn data_type_name(t: DataType) -> Seq<char> {
    match t {
        DataType::Int64 => "Int64"@,
        DataType::Float64 => "Float64"@,
        DataType::Utf8 => "Utf8"@,
        DataType::Boolean => "Boolean"@,
    }
}

/// How `{:?}` shows an expression.
pub open spec fn expr_debug(e: SpecExpr) -> Seq<char>
    decreases e,
{
    match e {
        SpecExpr::Column(n) => "Column("@ + quoted(n) + ")"@,
        SpecExpr::Literal(v) => "Literal("@ + value_debug(v) + ")"@,
        SpecExpr::BinOp { op, left, right } => "BinOp { op: "@ + binop_name(op) + ", left: "@ + expr_debug(*left)
            + ", right: "@ + expr_debug(*right) + " }"@,
        SpecExpr::Unary { op, expr } => "Unary { op: "@ + unary_name(op) + ", expr: "@ + expr_debug(*expr) + " }"@,
        SpecExpr::Agg { func, expr } => "Agg { func: "@ + agg_func_name(func) + ", expr: "@ + expr_debug(*expr) + " }"@,
        SpecExpr::Wildcard => "Wildcard"@,
    }
}

/// Texts joined by `", "`.
pub open spec fn join_texts(v: Seq<Seq<char>>) -> Seq<char>
    decreases v.len(),
{
    if v.len() == 0 {
        Seq::empty()
    } else if v.len() == 1 {
        v[0]
    } else {
        join_texts(v.drop_last()) + ", "@ + v.last()
    }
}

pub open spec fn indent(d: nat) -> Seq<char> {
    Seq::new(2 * d, |i: int| ' ')
}

pub open spec fn column_def_text(c: SpecColumnDef) -> Seq<char> {
    c.name + ":"@ + data_type_name(c.data_type)
}

pub open spec fn agg_call_text(a: (AggFunc, SpecExpr, Seq<char>)) -> Seq<char> {
    agg_func_name(a.0) + "("@ + expr_debug(a.1) + ") AS "@ + a.2
}

pub open spec fn order_item_text(o: SpecOrderByItem) -> Seq<char> {
    o.column + if o.asc {
        " ASC"@
    } else {
        " DESC"@
    }
}

/// The text of a plan: one line per node, each indented two spaces more
/// than its parent's.
pub open spec fn explain_text(p: SpecPlan, d: nat) -> Seq<char>
    decreases p,
{
    match p {
        SpecPlan::Scan { path, schema } => indent(d) + "Scan ["@ + path + "] columns=["@ + join_texts(
            schema.map_values(|c: SpecColumnDef| column_def_text(c)),
        ) + "]"@,
        SpecPlan::Filter { input, predicate } => indent(d) + "Filter ["@ + expr_debug(predicate) + "]\n"@
            + explain_text(*input, d + 1),
        SpecPlan::Project { input, exprs } => indent(d) + "Project ["@ + int_text(exprs.len() as int) + " exprs]\n"@
            + explain_text(*input, d + 1),
        SpecPlan::Limit { input, n } => indent(d) + "Limit ["@ + int_text(n as int) + "]\n"@ + explain_text(*input, d + 1),
        SpecPlan::Aggregate { input, group_by, aggs } => indent(d) + "Aggregate [group_by=["@ + join_texts(
            group_by.map_values(|g: Seq<char>| quoted(g)),
        ) + "], aggs="@ + join_texts(aggs.map_values(|a: (AggFunc, SpecExpr, Seq<char>)| agg_call_text(a))) + "]\n"@
            + explain_text(*input, d + 1),
        SpecPlan::Join { left, right_path, on, .. } => indent(d) + "Join [right="@ + right_path + ", on="@ + expr_debug(on)
            + "]\n"@ + explain_text(*left, d + 1),
        SpecPlan::Sort { input, order_by } => indent(d) + "Sort ["@ + quoted(
            join_texts(order_by.map_values(|o: SpecOrderByItem| order_item_text(o))),
        ) + "]\n"@ + explain_text(*input, d + 1),
    }
}

/// The number of nodes on the longest path down the plan.
pub open spec fn plan_depth(p: SpecPlan) -> nat
    decreases p,
{
    match p {
        SpecPlan::Scan { .. } => 1,
        SpecPlan::Filter { input, .. } => 1 + plan_depth(*input),
        SpecPlan::Project { input, .. } => 1 + plan_depth(*input),
        SpecPlan::Limit { input, .. } => 1 + plan_depth(*input),
        SpecPlan::Aggregate { input, .. } => 1 + plan_depth(*input),
        SpecPlan::Join { left, .. } => 1 + plan_depth(*left),
        SpecPlan::Sort { input, .. } => 1 + plan_depth(*input),
    }
}

fn binop_name_exec(op: BinOp) -> (s: &'static str)
    ensures
        s@ == binop_name(op),
{
    match op {
        BinOp::Add => "Add",
        BinOp::Sub => "Sub",
        BinOp::Mul => "Mul",
        BinOp::Div => "Div",
        BinOp::Eq => "Eq",
        BinOp::Ne => "Ne",
        BinOp::Lt => "Lt",
        BinOp::Le => "Le",
        BinOp::Gt => "Gt",
        BinOp::Ge => "Ge",
        BinOp::And => "And",
        BinOp::Or => "Or",
    }
}

fn unary_name_exec(op: UnaryOp) -> (s: &'static str)
    ensures
        s@ == unary_name(op),
{
    match op {
        UnaryOp::Not => "Not",
        UnaryOp::Neg => "Neg",
    }
}

fn agg_func_name_exec(f: AggFunc) -> (s: &'static str)
    ensures
        s@ == agg_func_name(f),
{
    match f {
        AggFunc::Count => "Count",
        AggFunc::Sum => "Sum",
        AggFunc::Avg => "Avg",
        AggFunc::Min => "Min",
        AggFunc::Max => "Max",
    }
}

fn data_type_name_exec(t: DataType) -> (s: &'static str)
    ensures
        s@ == data_type_name(t),
{
    match t {
        DataType::Int64 => "Int64",
        DataType::Float64 => "Float64",
        DataType::Utf8 => "Utf8",
        DataType::Boolean => "Boolean",
    }
}

/// Appends how `{:?}` shows an expression.
pub fn push_expr_debug(out: &mut String, e: &Expr)
    ensures
        final(out)@ == old(out)@ + expr_debug(e@),
    decreases e,
{
    let ghost start = out@;
    match e {
        Expr::Column(n) => {
            push_str(out, "Column(");
            push_quoted(out, n);
            push_str(out, ")");
        },
        Expr::Literal(v) => {
            push_str(out, "Literal(");
            let t = crate::exec::value_debug_exec(v);
            push_str(out, t.as_str());
            push_str(out, ")");
        },
        Expr::BinOp { op, left, right } => {
            push_str(out, "BinOp { op: ");
            push_str(out, binop_name_exec(*op));
            push_str(out, ", left: ");
            push_expr_debug(out, left);
            push_str(out, ", right: ");
            push_expr_debug(out, right);
            push_str(out, " }");
        },
        Expr::Unary { op, expr } => {
            push_str(out, "Unary { op: ");
            push_str(out, unary_name_exec(*op));
            push_str(out, ", expr: ");
            push_expr_debug(out, expr);
            push_str(out, " }");
        },
        Expr::Agg { func, expr } => {
            push_str(out, "Agg { func: ");
            push_str(out, agg_func_name_exec(*func));
            push_str(out, ", expr: ");
            push_expr_debug(out, expr);
            push_str(out, " }");
        },
        Expr::Wildcard => {
            push_str(out, "Wildcard");
        },
    }
    assert(out@ =~= start + expr_debug(e@));
}

/// Appends texts joined by `", "`, one per item, as `f` writes each.
fn push_joined_defs(out: &mut String, cols: &Vec<crate::catalog::ColumnDef>)
    ensures
        final(out)@ == old(out)@ + join_texts(cols@.map_values(|c: crate::catalog::ColumnDef| column_def_text(c@))),
{
    let ghost items = cols@.map_values(|c: crate::catalog::ColumnDef| column_def_text(c@));
    let ghost start = out@;
    let mut k: usize = 0;
    while k < cols.len()
        invariant
            items == cols@.map_values(|c: crate::catalog::ColumnDef| column_def_text(c@)),
            k <= cols@.len(),
            out@ == start + join_texts(items.take(k as int)),
        decreases cols@.len() - k,
    {
        let ghost before = out@;
        if k > 0 {
            push_str(out, ", ");
        }
        push_str(out, cols[k].name.as_str());
        push_str(out, ":");
        push_str(out, data_type_name_exec(cols[k].data_type));
        proof {
            assert(items.take(k + 1).drop_last() =~= items.take(k as int));
            assert(items.take(k + 1).last() == column_def_text(cols@[k as int]@));
            if k == 0 {
                assert(items.take(1).len() == 1);
            }
        }
        k = k + 1;
        assert(out@ =~= start + join_texts(items.take(k as int)));
    }
    assert(items.take(k as int) =~= items);
}

fn push_joined_names(out: &mut String, v: &Vec<String>)
    ensures
        final(out)@ == old(out)@ + join_texts(strings_view(v@).map_values(|g: Seq<char>| quoted(g))),
{
    let ghost items = strings_view(v@).map_values(|g: Seq<char>| quoted(g));
    let ghost start = out@;
    let mut k: usize = 0;
    while k < v.len()
        invariant
            items == strings_view(v@).map_values(|g: Seq<char>| quoted(g)),
            k <= v@.len(),
            out@ == start + join_texts(items.take(k as int)),
        decreases v@.len() - k,
    {
        if k > 0 {
            push_str(out, ", ");
        }
        push_quoted(out, &v[k]);
        proof {
            assert(items.take(k + 1).drop_last() =~= items.take(k as int));
            assert(items.take(k + 1).last() == quoted(v@[k as int]@));
        }
        k = k + 1;
        assert(out@ =~= start + join_texts(items.take(k as int)));
    }
    assert(items.take(k as int) =~= items);
}

fn push_joined_aggs(out: &mut String, v: &Vec<AggCall>)
    ensures
        final(out)@ == old(out)@ + join_texts(calls_view(v@).map_values(|a: (AggFunc, SpecExpr, Seq<char>)| agg_call_text(a))),
{
    let ghost items = calls_view(v@).map_values(|a: (AggFunc, SpecExpr, Seq<char>)| agg_call_text(a));
    let ghost start = out@;
    let mut k: usize = 0;
    while k < v.len()
        invariant
            items == calls_view(v@).map_values(|a: (AggFunc, SpecExpr, Seq<char>)| agg_call_text(a)),
            k <= v@.len(),
            out@ == start + join_texts(items.take(k as int)),
        decreases v@.len() - k,
    {
        if k > 0 {
            push_str(out, ", ");
        }
        push_str(out, agg_func_name_exec(v[k].0));
        push_str(out, "(");
        push_expr_debug(out, &v[k].1);
        push_str(out, ") AS ");
        push_str(out, v[k].2.as_str());
        proof {
            assert(items.take(k + 1).drop_last() =~= items.take(k as int));
            assert(items.take(k + 1).last() == agg_call_text(call_view(v@[k as int])));
        }
        k = k + 1;
        assert(out@ =~= start + join_texts(items.take(k as int)));
    }
    assert(items.take(k as int) =~= items);
}

fn order_text_exec(v: &Vec<OrderByItem>) -> (s: String)
    ensures
        s@ == join_texts(order_by_view(v@).map_values(|o: SpecOrderByItem| order_item_text(o))),
{
    let ghost items = order_by_view(v@).map_values(|o: SpecOrderByItem| order_item_text(o));
    let mut out = String::new();
    let mut k: usize = 0;
    assert(items.take(0) =~= Seq::<Seq<char>>::empty());
    while k < v.len()
        invariant
            items == order_by_view(v@).map_values(|o: SpecOrderByItem| order_item_text(o)),
            k <= v@.len(),
            out@ == join_texts(items.take(k as int)),
        decreases v@.len() - k,
    {
        if k > 0 {
            push_str(&mut out, ", ");
        }
        push_str(&mut out, v[k].column.as_str());
        if v[k].asc {
            push_str(&mut out, " ASC");
        } else {
            push_str(&mut out, " DESC");
        }
        proof {
            assert(items.take(k + 1).drop_last() =~= items.take(k as int));
            assert(items.take(k + 1).last() == order_item_text(v@[k as int]@));
        }
        k = k + 1;
        assert(out@ =~= join_texts(items.take(k as int)));
    }
    assert(items.take(k as int) =~= items);
    out
}


/// The depth of a plan (see `plan_depth`), or `usize::MAX` when it is at
/// least that.
pub fn plan_depth_exec(p: &LogicalPlan) -> (d: usize)
    ensures
        d == (if plan_depth(p@) < usize::MAX {
            plan_depth(p@)
        } else {
            usize::MAX as nat
        }),
    decreases p,
{
    let below = match p {
        LogicalPlan::Scan { .. } => {
            return 1;
        },
        LogicalPlan::Filter { input, .. } => plan_depth_exec(input),
        LogicalPlan::Project { input, .. } => plan_depth_exec(input),
        LogicalPlan::Limit { input, .. } => plan_depth_exec(input),
        LogicalPlan::Aggregate { input, .. } => plan_depth_exec(input),
        LogicalPlan::Join { left, .. } => plan_depth_exec(left),
        LogicalPlan::Sort { input, .. } => plan_depth_exec(input),
    };
    if below == usize::MAX {
        usize::MAX
    } else {
        below + 1
    }
}

impl LogicalPlan {
    /// The plan as text (see `explain_text`), its first line indented by
    /// `depth` levels.
    pub fn explain(&self, depth: usize) -> (s: String)
        requires
            depth + plan_depth(self@) <= usize::MAX,
        ensures
            s@ == explain_text(self@, depth as nat),
        decreases self,
    {
        let mut out = String::new();
        let mut k: usize = 0;
        while k < depth
            invariant
                k <= depth,
                out@ == indent(k as nat),
            decreases depth - k,
        {
            push_str(&mut out, "  ");
            proof {
                reveal_strlit("  ");
            }
            k = k + 1;
            assert(out@ =~= indent(k as nat));
        }
        let ghost ind = out@;
        match self {
            LogicalPlan::Scan { path, schema } => {
                push_str(&mut out, "Scan [");
                push_str(&mut out, path.as_str());
                push_str(&mut out, "] columns=[");
                push_joined_defs(&mut out, &schema.columns);
                push_str(&mut out, "]");
                assert(schema@.map_values(|c: SpecColumnDef| column_def_text(c)) =~= schema.columns@.map_values(
                    |c: crate::catalog::ColumnDef| column_def_text(c@),
                ));
            },
            LogicalPlan::Filter { input, predicate } => {
                push_str(&mut out, "Filter [");
                push_expr_debug(&mut out, predicate);
                push_str(&mut out, "]\n");
                let t = input.explain(depth + 1);
                push_str(&mut out, t.as_str());
            },
            LogicalPlan::Project { input, exprs } => {
                push_str(&mut out, "Project [");
                let n = int_to_string(exprs.len() as i128);
                push_str(&mut out, n.as_str());
                push_str(&mut out, " exprs]\n");
                let t = input.explain(depth + 1);
                push_str(&mut out, t.as_str());
            },
            LogicalPlan::Limit { input, n } => {
                push_str(&mut out, "Limit [");
                let t = int_to_string(*n as i128);
                push_str(&mut out, t.as_str());
                push_str(&mut out, "]\n");
                let t = input.explain(depth + 1);
                push_str(&mut out, t.as_str());
            },
            LogicalPlan::Aggregate { input, group_by, aggs } => {
                push_str(&mut out, "Aggregate [group_by=[");
                push_joined_names(&mut out, group_by);
                push_str(&mut out, "], aggs=");
                push_joined_aggs(&mut out, aggs);
                push_str(&mut out, "]\n");
                let t = input.explain(depth + 1);
                push_str(&mut out, t.as_str());
            },
            LogicalPlan::Join { left, right_path, on, .. } => {
                push_str(&mut out, "Join [right=");
                push_str(&mut out, right_path.as_str());
                push_str(&mut out, ", on=");
                push_expr_debug(&mut out, on);
                push_str(&mut out, "]\n");
                let t = left.explain(depth + 1);
                push_str(&mut out, t.as_str());
            },
            LogicalPlan::Sort { input, order_by } => {
                push_str(&mut out, "Sort [");
                let t = order_text_exec(order_by);
                push_quoted(&mut out, &t);
                push_str(&mut out, "]\n");
                let t = input.explain(depth + 1);
                push_str(&mut out, t.as_str());
            },
        }
        assert(out@ =~= explain_text(self@, depth as nat));
        out
    }
}


// ── The operator tree of a plan ──────────────────────────────────────────────

/// The records of a CSV table (read by the caller), under the path the plan
/// names it by.
#[derive(Debug)]
pub struct TableData {
    pub path: String,
    pub rows: Vec<Vec<RawCell>>,
}

pub struct SpecTableData {
    pub path: Seq<char>,
    pub rows: Seq<Seq<SpecRawCell>>,
}

impl View for TableData {
    type V = SpecTableData;

    open spec fn view(&self) -> SpecTableData {
        SpecTableData { path: self.path@, rows: rows_view(self.rows@) }
    }
}

pub open spec fn tables_view(v: Seq<TableData>) -> Seq<SpecTableData> {
    v.map_values(|t: TableData| t@)
}

/// The first table from `i` on with the given path.
pub open spec fn find_table(ts: Seq<SpecTableData>, path: Seq<char>, i: int) -> Option<int>
    decreases ts.len() - i,
{
    if i < 0 || i >= ts.len() {
        None
    } else if ts[i].path == path {
        Some(i)
    } else {
        find_table(ts, path, i + 1)
    }
}

/// The stream and schema of the scan of the table at `path`.
pub open spec fn scan_run(ts: Seq<SpecTableData>, path: Seq<char>, schema: Seq<SpecColumnDef>) -> Result<
    (Stream, Seq<SpecField>),
    ExecError,
> {
    match find_table(ts, path, 0) {
        None => Err(ExecError::TableNotFound),
        Some(i) => Ok((scan_stream(table_fields(schema), ts[i].rows, 0, false), table_fields(schema))),
    }
}

/// What the operator tree of a plan produces, and its schema; or the error
/// that building it meets (a sort or a join reads its inputs when built).
pub open spec fn plan_run(p: SpecPlan, ts: Seq<SpecTableData>) -> Result<(Stream, Seq<SpecField>), ExecError>
    decreases p,
{
    match p {
        SpecPlan::Scan { path, schema } => scan_run(ts, path, schema),
        SpecPlan::Filter { input, predicate } => match plan_run(*input, ts) {
            Err(e) => Err(e),
            Ok((s, f)) => Ok((filter_seq(predicate, s.batches, s.error), f)),
        },
        SpecPlan::Project { input, exprs } => match plan_run(*input, ts) {
            Err(e) => Err(e),
            Ok((s, f)) => {
                let ps = spec_projections(f, exprs);
                let out = projection_fields(f, ps);
                Ok((project_seq(ps, out, s.batches, s.error), out))
            },
        },
        SpecPlan::Limit { input, n } => match plan_run(*input, ts) {
            Err(e) => Err(e),
            Ok((s, f)) => Ok((limit_seq(n as nat, s.batches, s.error), f)),
        },
        SpecPlan::Aggregate { input, group_by, aggs } => match plan_run(*input, ts) {
            Err(e) => Err(e),
            Ok((s, f)) => match agg_fields(f, group_by, aggs) {
                Err(e) => Err(e),
                Ok(out) => Ok(
                    (
                        match agg_run(Seq::empty(), s.batches, s.error, group_by, aggs, out) {
                            Ok(b) => cons(b, empty_stream()),
                            Err(e) => failed(e),
                        },
                        out,
                    ),
                ),
            },
        },
        SpecPlan::Sort { input, order_by } => match plan_run(*input, ts) {
            Err(e) => Err(e),
            Ok((s, f)) => match s.error {
                Some(e) => Err(e),
                None => if s.batches.len() == 0 {
                    Ok((empty_stream(), f))
                } else {
                    match spec_merge(f, s.batches) {
                        Err(e) => Err(e),
                        Ok(m) => match sort_keys(f, order_by) {
                            Err(e) => Err(e),
                            Ok(keys) => if crate::sort::keys_have_calc(m, keys) {
                                Err(ExecError::Unsupported)
                            } else {
                                Ok((cons(sorted_batch(m, keys), empty_stream()), f))
                            },
                        },
                    }
                },
            },
        },
        SpecPlan::Join { left, right_path, right_schema, on, .. } => match plan_run(*left, ts) {
            Err(e) => Err(e),
            Ok((ls, lf)) => match scan_run(ts, right_path, right_schema) {
                Err(e) => Err(e),
                Ok((rs, rf)) => match join_result(ls, rs, on, lf, rf) {
                    Err(e) => Err(e),
                    Ok(bs) => Ok((Stream { batches: bs, error: None }, merge_schemas(lf, rf))),
                },
            },
        },
    }
}

fn copy_rows(rows: &Vec<Vec<RawCell>>) -> (r: Vec<Vec<RawCell>>)
    ensures
        rows_view(r@) == rows_view(rows@),
{
    let mut out: Vec<Vec<RawCell>> = Vec::new();
    let mut i: usize = 0;
    while i < rows.len()
        invariant
            i <= rows@.len(),
            rows_view(out@) == rows_view(rows@).take(i as int),
        decreases rows@.len() - i,
    {
        let row = &rows[i];
        let mut nr: Vec<RawCell> = Vec::new();
        let mut k: usize = 0;
        while k < row.len()
            invariant
                k <= row@.len(),
                nr@.map_values(|c: RawCell| c@) == row@.map_values(|c: RawCell| c@).take(k as int),
            decreases row@.len() - k,
        {
            let c = match &row[k] {
                RawCell::Text(s) => RawCell::Text(s.clone()),
                RawCell::Float(b) => RawCell::Float(*b),
            };
            let ghost before = nr@.map_values(|c: RawCell| c@);
            nr.push(c);
            assert(nr@.map_values(|c: RawCell| c@) =~= before.push(c@));
            k = k + 1;
            assert(nr@.map_values(|c: RawCell| c@) =~= row@.map_values(|c: RawCell| c@).take(k as int));
        }
        assert(row@.map_values(|c: RawCell| c@).take(k as int) =~= row@.map_values(|c: RawCell| c@));
        let ghost before = rows_view(out@);
        out.push(nr);
        assert(rows_view(out@) =~= before.push(rows_view(rows@)[i as int]));
        i = i + 1;
        assert(rows_view(out@) =~= rows_view(rows@).take(i as int));
    }
    assert(rows_view(rows@).take(i as int) =~= rows_view(rows@));
    out
}

/// The scan node of the table at `path` (see `scan_run`).
fn scan_node(tables: &Vec<TableData>, path: &String, schema: &TableSchema) -> (r: Result<ExecNode, ExecError>)
    ensures
        match scan_run(tables_view(tables@), path@, schema@) {
            Ok((s, f)) => r matches Ok(n) && n.wf() && n.stream() == s && n.schema_view() == f,
            Err(e) => r == Err::<ExecNode, ExecError>(e),
        },
{
    let ghost tv = tables_view(tables@);
    let mut i: usize = 0;
    while i < tables.len()
        invariant
            tv == tables_view(tables@),
            i <= tables@.len(),
            find_table(tv, path@, 0) == find_table(tv, path@, i as int),
        ensures
            i <= tables@.len(),
            find_table(tv, path@, 0) == find_table(tv, path@, i as int),
            i < tables@.len() ==> tv[i as int].path == path@,
        decreases tables@.len() - i,
    {
        assert(tv[i as int] == tables@[i as int]@);
        if tables[i].path == *path {
            break;
        }
        i = i + 1;
    }
    if i == tables.len() {
        return Err(ExecError::TableNotFound);
    }
    assert(tv[i as int] == tables@[i as int]@);
    let rows = copy_rows(&tables[i].rows);
    let n = ExecNode::Scan(CsvScanExec::new(schema, rows));
    Ok(n)
}

/// The operator tree of a plan (see `plan_run`), its scans reading the
/// tables of `tables`.
#[verifier::rlimit(40)]
pub fn build_executor(plan: LogicalPlan, tables: &Vec<TableData>) -> (r: Result<ExecNode, ExecError>)
    ensures
        match plan_run(plan@, tables_view(tables@)) {
            Ok((s, f)) => r matches Ok(n) && n.wf() && n.stream() == s && n.schema_view() == f,
            Err(e) => r == Err::<ExecNode, ExecError>(e),
        },
    decreases plan,
{
    match plan {
        LogicalPlan::Scan { path, schema } => scan_node(tables, &path, &schema),
        LogicalPlan::Filter { input, predicate } => {
            let child = match build_executor(*input, tables) {
                Err(e) => {
                    return Err(e);
                },
                Ok(c) => c,
            };
            let n = ExecNode::Filter(FilterExec::new(child, predicate));
            Ok(n)
        },
        LogicalPlan::Project { input, exprs } => {
            let child = match build_executor(*input, tables) {
                Err(e) => {
                    return Err(e);
                },
                Ok(c) => c,
            };
            match ProjectExec::new(child, exprs) {
                Err(e) => Err(e),
                Ok(p) => {
                    let n = ExecNode::Project(p);
                    Ok(n)
                },
            }
        },
        LogicalPlan::Limit { input, n } => {
            let child = match build_executor(*input, tables) {
                Err(e) => {
                    return Err(e);
                },
                Ok(c) => c,
            };
            let node = ExecNode::Limit(LimitExec::new(child, n));
            Ok(node)
        },
        LogicalPlan::Aggregate { input, group_by, aggs } => {
            let child = match build_executor(*input, tables) {
                Err(e) => {
                    return Err(e);
                },
                Ok(c) => c,
            };
            match HashAggExec::new(child, group_by, aggs) {
                Err(e) => Err(e),
                Ok(a) => Ok(ExecNode::Agg(a)),
            }
        },
        LogicalPlan::Sort { input, order_by } => {
            let child = match build_executor(*input, tables) {
                Err(e) => {
                    return Err(e);
                },
                Ok(c) => c,
            };
            match SortExec::new(child, order_by) {
                Err(e) => Err(e),
                Ok(s) => {
                    let n = ExecNode::Sort(s);
                    Ok(n)
                },
            }
        },
        LogicalPlan::Join { left, right_path, right_schema, on, .. } => {
            let l = match build_executor(*left, tables) {
                Err(e) => {
                    return Err(e);
                },
                Ok(c) => c,
            };
            let r = match scan_node(tables, &right_path, &right_schema) {
                Err(e) => {
                    return Err(e);
                },
                Ok(c) => c,
            };
            match HashJoinExec::new(l, r, &on) {
                Err(e) => Err(e),
                Ok(j) => {
                    let n = ExecNode::Join(j);
                    Ok(n)
                },
            }
        },
    }
}

} // verus!
