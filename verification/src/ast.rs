//! The abstract syntax of the SQL subset, with its mathematical model.
use vstd::prelude::*;

verus! {

/// A scalar value that can appear in a literal expression.
///
/// A floating-point literal is kept as the text it was written with: the
/// library does no floating-point arithmetic.  Once the caller has turned
/// the text into a double (see `bind_float_literals`), the literal is a
/// `Double`: the text that `{:?}` gives that double, with its IEEE-754 bits.
#[derive(Debug, Clone, PartialEq)]
pub enum Value {
    Int(i64),
    Float(String),
    Double(String, u64),
    Str(String),
    Bool(bool),
    Null,
}

/// Binary operators (arithmetic + comparison + logical).
#[derive(Debug, Clone, Copy, PartialEq, Eq, Structural)]
pub enum BinOp {
    Add,
    Sub,
    Mul,
    Div,
    Eq,
    Ne,
    Lt,
    Le,
    Gt,
    Ge,
    And,
    Or,
}

/// Unary operators.
#[derive(Debug, Clone, Copy, PartialEq, Eq, Structural)]
pub enum UnaryOp {
    Not,
    Neg,
}

/// Aggregate functions.
#[derive(Debug, Clone, Copy, PartialEq, Eq, Structural)]
pub enum AggFunc {
    Count,
    Sum,
    Avg,
    Min,
    Max,
}

/// An expression node in the AST.
#[derive(Debug)]
pub enum Expr {
    Column(String),
    Literal(Value),
    BinOp { op: BinOp, left: Box<Expr>, right: Box<Expr> },
    Unary { op: UnaryOp, expr: Box<Expr> },
    /// Aggregate function call.  COUNT(*) uses `Expr::Wildcard` as the argument.
    Agg { func: AggFunc, expr: Box<Expr> },
    /// Bare `*`: the argument of COUNT(*).
    Wildcard,
}

/// An item in the SELECT list.
#[derive(Debug)]
pub enum SelectItem {
    /// `SELECT *`
    Wildcard,
    /// `SELECT <expr> [AS alias]`
    Expr(Expr, Option<String>),
}

/// A JOIN clause: `JOIN table [alias] ON expr`.
#[derive(Debug)]
pub struct JoinClause {
    pub table: String,
    pub alias: Option<String>,
    pub on: Expr,
}

/// One ORDER BY key.
#[derive(Debug, Clone)]
pub struct OrderByItem {
    pub column: String,
    pub asc: bool,
}

/// A parsed SELECT statement.
#[derive(Debug)]
pub struct SelectStmt {
    pub select: Vec<SelectItem>,
    pub from: String,
    pub where_: Option<Expr>,
    pub group_by: Vec<String>,
    pub limit: Option<u64>,
    pub joins: Vec<JoinClause>,
    pub order_by: Vec<OrderByItem>,
}

// ── Mathematical model ───────────────────────────────────────────────────────

pub enum SpecValue {
    Int(i64),
    Float(Seq<char>),
    Double(Seq<char>, u64),
    Str(Seq<char>),
    Bool(bool),
    Null,
}

pub enum SpecExpr {
    Column(Seq<char>),
    Literal(SpecValue),
    BinOp { op: BinOp, left: Box<SpecExpr>, right: Box<SpecExpr> },
    Unary { op: UnaryOp, expr: Box<SpecExpr> },
    Agg { func: AggFunc, expr: Box<SpecExpr> },
    Wildcard,
}

pub enum SpecSelectItem {
    Wildcard,
    Expr(SpecExpr, Option<Seq<char>>),
}

pub struct SpecJoinClause {
    pub table: Seq<char>,
    pub alias: Option<Seq<char>>,
    pub on: SpecExpr,
}

pub struct SpecOrderByItem {
    pub column: Seq<char>,
    pub asc: bool,
}

pub struct SpecSelectStmt {
    pub select: Seq<SpecSelectItem>,
    pub from: Seq<char>,
    pub where_: Option<SpecExpr>,
    pub group_by: Seq<Seq<char>>,
    pub limit: Option<u64>,
    pub joins: Seq<SpecJoinClause>,
    pub order_by: Seq<SpecOrderByItem>,
}

pub open spec fn opt_str_view(o: Option<String>) -> Option<Seq<char>> {
    match o {
        Some(s) => Some(s@),
        None => None,
    }
}

pub open spec fn strings_view(v: Seq<String>) -> Seq<Seq<char>> {
    v.map_values(|s: String| s@)
}

impl View for Value {
    type V = SpecValue;

    open spec fn view(&self) -> SpecValue {
        match self {
            Value::Int(i) => SpecValue::Int(*i),
            Value::Float(t) => SpecValue::Float(t@),
            Value::Double(t, b) => SpecValue::Double(t@, *b),
            Value::Str(s) => SpecValue::Str(s@),
            Value::Bool(b) => SpecValue::Bool(*b),
            Value::Null => SpecValue::Null,
        }
    }
}

impl Expr {
    pub open spec fn model(self) -> SpecExpr
        decreases self,
    {
        match self {
            Expr::Column(n) => SpecExpr::Column(n@),
            Expr::Literal(v) => SpecExpr::Literal(v@),
            Expr::BinOp { op, left, right } => SpecExpr::BinOp {
                op,
                left: Box::new((*left).model()),
                right: Box::new((*right).model()),
            },
            Expr::Unary { op, expr } => SpecExpr::Unary { op, expr: Box::new((*expr).model()) },
            Expr::Agg { func, expr } => SpecExpr::Agg { func, expr: Box::new((*expr).model()) },
            Expr::Wildcard => SpecExpr::Wildcard,
        }
    }
}

impl View for Expr {
    type V = SpecExpr;

    open spec fn view(&self) -> SpecExpr {
        self.model()
    }
}

impl View for SelectItem {
    type V = SpecSelectItem;

    open spec fn view(&self) -> SpecSelectItem {
        match self {
            SelectItem::Wildcard => SpecSelectItem::Wildcard,
            SelectItem::Expr(e, a) => SpecSelectItem::Expr(e@, opt_str_view(*a)),
        }
    }
}

impl View for JoinClause {
    type V = SpecJoinClause;

    open spec fn view(&self) -> SpecJoinClause {
        SpecJoinClause { table: self.table@, alias: opt_str_view(self.alias), on: self.on@ }
    }
}

impl View for OrderByItem {
    type V = SpecOrderByItem;

    open spec fn view(&self) -> SpecOrderByItem {
        SpecOrderByItem { column: self.column@, asc: self.asc }
    }
}

pub open spec fn opt_expr_view(o: Option<Expr>) -> Option<SpecExpr> {
    match o {
        Some(e) => Some(e@),
        None => None,
    }
}

pub open spec fn items_view(v: Seq<SelectItem>) -> Seq<SpecSelectItem> {
    v.map_values(|i: SelectItem| i@)
}

impl View for SelectStmt {
    type V = SpecSelectStmt;

    open spec fn view(&self) -> SpecSelectStmt {
        SpecSelectStmt {
            select: items_view(self.select@),
            from: self.from@,
            where_: opt_expr_view(self.where_),
            group_by: strings_view(self.group_by@),
            limit: self.limit,
            joins: self.joins@.map_values(|j: JoinClause| j@),
            order_by: self.order_by@.map_values(|o: OrderByItem| o@),
        }
    }
}

// ── Copies with a known model ────────────────────────────────────────────────

pub fn copy_opt_string(o: &Option<String>) -> (r: Option<String>)
    ensures
        opt_str_view(r) == opt_str_view(*o),
{
    match o {
        Some(s) => Some(s.clone()),
        None => None,
    }
}

pub fn copy_strings(v: &Vec<String>) -> (r: Vec<String>)
    ensures
        strings_view(r@) == strings_view(v@),
        r@.len() == v@.len(),
{
    let mut r: Vec<String> = Vec::new();
    let mut i: usize = 0;
    while i < v.len()
        invariant
            i <= v@.len(),
            r@.len() == i,
            forall|k: int| 0 <= k < i ==> r@[k]@ == v@[k]@,
        decreases v@.len() - i,
    {
        r.push(v[i].clone());
        i = i + 1;
    }
    assert(strings_view(r@) =~= strings_view(v@));
    r
}

impl Value {
    pub fn copy(&self) -> (r: Value)
        ensures
            r@ == self@,
    {
        match self {
            Value::Int(i) => Value::Int(*i),
            Value::Float(t) => Value::Float(t.clone()),
            Value::Double(t, b) => Value::Double(t.clone(), *b),
            Value::Str(s) => Value::Str(s.clone()),
            Value::Bool(b) => Value::Bool(*b),
            Value::Null => Value::Null,
        }
    }
}

impl Expr {
    pub fn copy(&self) -> (r: Expr)
        ensures
            r@ == self@,
        decreases self,
    {
        match self {
            Expr::Column(n) => Expr::Column(n.clone()),
            Expr::Literal(v) => Expr::Literal(v.copy()),
            Expr::BinOp { op, left, right } => {
                let l = left.copy();
                let r = right.copy();
                Expr::BinOp { op: *op, left: Box::new(l), right: Box::new(r) }
            },
            Expr::Unary { op, expr } => {
                let e = expr.copy();
                Expr::Unary { op: *op, expr: Box::new(e) }
            },
            Expr::Agg { func, expr } => {
                let e = expr.copy();
                Expr::Agg { func: *func, expr: Box::new(e) }
            },
            Expr::Wildcard => Expr::Wildcard,
        }
    }
}

impl SelectItem {
    pub fn copy(&self) -> (r: SelectItem)
        ensures
            r@ == self@,
    {
        match self {
            SelectItem::Wildcard => SelectItem::Wildcard,
            SelectItem::Expr(e, a) => SelectItem::Expr(e.copy(), copy_opt_string(a)),
        }
    }
}

pub fn copy_items(v: &Vec<SelectItem>) -> (r: Vec<SelectItem>)
    ensures
        items_view(r@) == items_view(v@),
{
    let mut r: Vec<SelectItem> = Vec::new();
    let mut i: usize = 0;
    while i < v.len()
        invariant
            i <= v@.len(),
            r@.len() == i,
            forall|k: int| 0 <= k < i ==> r@[k]@ == v@[k]@,
        decreases v@.len() - i,
    {
        r.push(v[i].copy());
        i = i + 1;
    }
    assert(items_view(r@) =~= items_view(v@));
    r
}


// ── Decimal literals and their doubles ───────────────────────────────────────

/// The double that a table of (text, bits, `{:?}` text) entries gives a
/// literal's text: its first entry's bits and `{:?}` text.
pub open spec fn lookup_bits(table: Seq<(Seq<char>, u64, Seq<char>)>, t: Seq<char>) -> Option<(u64, Seq<char>)>
    decreases table.len(),
{
    if table.len() == 0 {
        None
    } else if table[0].0 == t {
        Some((table[0].1, table[0].2))
    } else {
        lookup_bits(table.drop_first(), t)
    }
}

pub open spec fn bind_value(v: SpecValue, table: Seq<(Seq<char>, u64, Seq<char>)>) -> SpecValue {
    match v {
        SpecValue::Float(t) => match lookup_bits(table, t) {
            Some((b, d)) => SpecValue::Double(d, b),
            None => v,
        },
        _ => v,
    }
}

/// The expression with each decimal literal whose text the table holds
/// given its double.
pub open spec fn bind_expr(e: SpecExpr, table: Seq<(Seq<char>, u64, Seq<char>)>) -> SpecExpr
    decreases e,
{
    match e {
        SpecExpr::Literal(v) => SpecExpr::Literal(bind_value(v, table)),
        SpecExpr::BinOp { op, left, right } => SpecExpr::BinOp {
            op,
            left: Box::new(bind_expr(*left, table)),
            right: Box::new(bind_expr(*right, table)),
        },
        SpecExpr::Unary { op, expr } => SpecExpr::Unary { op, expr: Box::new(bind_expr(*expr, table)) },
        SpecExpr::Agg { func, expr } => SpecExpr::Agg { func, expr: Box::new(bind_expr(*expr, table)) },
        _ => e,
    }
}

/// The texts of the decimal literals of an expression, left to right.
pub open spec fn expr_float_texts(e: SpecExpr) -> Seq<Seq<char>>
    decreases e,
{
    match e {
        SpecExpr::Literal(SpecValue::Float(t)) => seq![t],
        SpecExpr::BinOp { left, right, .. } => expr_float_texts(*left) + expr_float_texts(*right),
        SpecExpr::Unary { expr, .. } => expr_float_texts(*expr),
        SpecExpr::Agg { expr, .. } => expr_float_texts(*expr),
        _ => Seq::empty(),
    }
}

pub open spec fn bind_item(i: SpecSelectItem, table: Seq<(Seq<char>, u64, Seq<char>)>) -> SpecSelectItem {
    match i {
        SpecSelectItem::Expr(e, a) => SpecSelectItem::Expr(bind_expr(e, table), a),
        SpecSelectItem::Wildcard => SpecSelectItem::Wildcard,
    }
}

pub open spec fn item_float_texts(i: SpecSelectItem) -> Seq<Seq<char>> {
    match i {
        SpecSelectItem::Expr(e, _) => expr_float_texts(e),
        SpecSelectItem::Wildcard => Seq::empty(),
    }
}

/// The texts of the decimal literals of a statement: in the SELECT list,
/// then in WHERE, then in the JOIN conditions.
pub open spec fn stmt_float_texts(s: SpecSelectStmt) -> Seq<Seq<char>> {
    s.select.map_values(|i: SpecSelectItem| item_float_texts(i)).flatten() + match s.where_ {
        Some(w) => expr_float_texts(w),
        None => Seq::empty(),
    } + s.joins.map_values(|j: SpecJoinClause| expr_float_texts(j.on)).flatten()
}

/// The statement with each decimal literal whose text the table holds
/// given its double (see `bind_expr`); all else is unchanged.
pub open spec fn bind_stmt(s: SpecSelectStmt, table: Seq<(Seq<char>, u64, Seq<char>)>) -> SpecSelectStmt {
    SpecSelectStmt {
        select: s.select.map_values(|i: SpecSelectItem| bind_item(i, table)),
        from: s.from,
        where_: match s.where_ {
            Some(w) => Some(bind_expr(w, table)),
            None => None,
        },
        group_by: s.group_by,
        limit: s.limit,
        joins: s.joins.map_values(
            |j: SpecJoinClause| SpecJoinClause { table: j.table, alias: j.alias, on: bind_expr(j.on, table) },
        ),
        order_by: s.order_by,
    }
}

pub open spec fn table_view(v: Seq<(String, u64, String)>) -> Seq<(Seq<char>, u64, Seq<char>)> {
    v.map_values(|p: (String, u64, String)| (p.0@, p.1, p.2@))
}

fn lookup_bits_exec(table: &Vec<(String, u64, String)>, t: &String) -> (r: Option<(u64, String)>)
    ensures
        match (r, lookup_bits(table_view(table@), t@)) {
            (Some((b, d)), Some((c, e))) => b == c && d@ == e,
            (None, None) => true,
            _ => false,
        },
{
    let ghost tv = table_view(table@);
    let mut k: usize = 0;
    assert(tv.skip(0) =~= tv);
    while k < table.len()
        invariant
            tv == table_view(table@),
            k <= table@.len(),
            lookup_bits(tv, t@) == lookup_bits(tv.skip(k as int), t@),
        decreases table@.len() - k,
    {
        assert(tv.skip(k as int)[0] == tv[k as int]);
        assert(tv.skip(k as int).drop_first() =~= tv.skip(k + 1));
        if table[k].0 == *t {
            return Some((table[k].1, table[k].2.clone()));
        }
        k = k + 1;
    }
    None
}

/// The expression with its decimal literals given their doubles (see `bind_expr`).
pub fn bind_expr_exec(e: Expr, table: &Vec<(String, u64, String)>) -> (r: Expr)
    ensures
        r@ == bind_expr(e@, table_view(table@)),
    decreases e,
{
    match e {
        Expr::Literal(Value::Float(t)) => match lookup_bits_exec(table, &t) {
            Some((b, d)) => Expr::Literal(Value::Double(d, b)),
            None => Expr::Literal(Value::Float(t)),
        },
        Expr::BinOp { op, left, right } => {
            let l = bind_expr_exec(*left, table);
            let r = bind_expr_exec(*right, table);
            Expr::BinOp { op, left: Box::new(l), right: Box::new(r) }
        },
        Expr::Unary { op, expr } => {
            let x = bind_expr_exec(*expr, table);
            Expr::Unary { op, expr: Box::new(x) }
        },
        Expr::Agg { func, expr } => {
            let x = bind_expr_exec(*expr, table);
            Expr::Agg { func, expr: Box::new(x) }
        },
        other => other,
    }
}

/// Appends the texts of the decimal literals of an expression, left to right.
fn push_float_texts(out: &mut Vec<String>, e: &Expr)
    ensures
        strings_view(final(out)@) == strings_view(old(out)@) + expr_float_texts(e@),
    decreases e,
{
    match e {
        Expr::Literal(Value::Float(t)) => {
            let ghost before = strings_view(out@);
            out.push(t.clone());
            assert(strings_view(out@) =~= before + seq![t@]);
        },
        Expr::BinOp { left, right, .. } => {
            let ghost before = strings_view(out@);
            push_float_texts(out, left);
            push_float_texts(out, right);
            assert(strings_view(out@) =~= before + expr_float_texts(e@));
        },
        Expr::Unary { expr, .. } => {
            push_float_texts(out, expr);
        },
        Expr::Agg { expr, .. } => {
            push_float_texts(out, expr);
        },
        Expr::Literal(v) => {
            assert(expr_float_texts(e@) =~= Seq::<Seq<char>>::empty());
            assert(strings_view(out@) =~= strings_view(old(out)@) + expr_float_texts(e@));
        },
        _ => {
            assert(strings_view(out@) =~= strings_view(old(out)@) + expr_float_texts(e@));
        },
    }
}

/// The texts of the decimal literals of a statement (see `stmt_float_texts`),
/// which the caller turns into doubles for `bind_float_literals`.
pub fn float_literal_texts(stmt: &SelectStmt) -> (r: Vec<String>)
    ensures
        strings_view(r@) == stmt_float_texts(stmt@),
{
    let ghost sv = stmt@;
    let mut out: Vec<String> = Vec::new();
    let mut k: usize = 0;
    let ghost items = sv.select.map_values(|i: SpecSelectItem| item_float_texts(i));
    assert(items.take(0).flatten() =~= Seq::<Seq<char>>::empty()) by {
        assert(items.take(0) =~= Seq::<Seq<Seq<char>>>::empty());
    }
    assert(strings_view(out@) =~= Seq::<Seq<char>>::empty());
    while k < stmt.select.len()
        invariant
            sv == stmt@,
            items == sv.select.map_values(|i: SpecSelectItem| item_float_texts(i)),
            k <= stmt.select@.len(),
            strings_view(out@) == items.take(k as int).flatten(),
        decreases stmt.select@.len() - k,
    {
        assert(sv.select[k as int] == stmt.select@[k as int]@);
        match &stmt.select[k] {
            SelectItem::Expr(e, _) => {
                push_float_texts(&mut out, e);
            },
            SelectItem::Wildcard => {},
        }
        proof {
            assert(items.take(k + 1) =~= items.take(k as int).push(items[k as int]));
            items.take(k as int).lemma_flatten_push(items[k as int]);
        }
        k = k + 1;
        assert(strings_view(out@) =~= items.take(k as int).flatten());
    }
    assert(items.take(k as int) =~= items);
    let ghost head = strings_view(out@);
    match &stmt.where_ {
        Some(w) => push_float_texts(&mut out, w),
        None => {
            assert(strings_view(out@) =~= head + Seq::<Seq<char>>::empty());
        },
    }
    let ghost mid = strings_view(out@);
    let ghost js = sv.joins.map_values(|j: SpecJoinClause| expr_float_texts(j.on));
    let mut q: usize = 0;
    assert(js.take(0) =~= Seq::<Seq<Seq<char>>>::empty());
    assert(strings_view(out@) =~= mid + js.take(0).flatten());
    while q < stmt.joins.len()
        invariant
            sv == stmt@,
            js == sv.joins.map_values(|j: SpecJoinClause| expr_float_texts(j.on)),
            q <= stmt.joins@.len(),
            strings_view(out@) == mid + js.take(q as int).flatten(),
        decreases stmt.joins@.len() - q,
    {
        assert(sv.joins[q as int] == stmt.joins@[q as int]@);
        push_float_texts(&mut out, &stmt.joins[q].on);
        proof {
            assert(js.take(q + 1) =~= js.take(q as int).push(js[q as int]));
            js.take(q as int).lemma_flatten_push(js[q as int]);
        }
        q = q + 1;
        assert(strings_view(out@) =~= mid + js.take(q as int).flatten());
    }
    assert(js.take(q as int) =~= js);
    assert(strings_view(out@) =~= stmt_float_texts(sv));
    out
}

/// The statement with each decimal literal whose text `table` holds given
/// that double (see `bind_stmt`).
pub fn bind_float_literals(stmt: SelectStmt, table: &Vec<(String, u64, String)>) -> (r: SelectStmt)
    ensures
        r@ == bind_stmt(stmt@, table_view(table@)),
{
    let ghost sv = stmt@;
    let ghost tv = table_view(table@);
    let mut items: Vec<SelectItem> = Vec::new();
    let mut k: usize = 0;
    while k < stmt.select.len()
        invariant
            sv == stmt@,
            tv == table_view(table@),
            k <= stmt.select@.len(),
            items_view(items@) == sv.select.take(k as int).map_values(|i: SpecSelectItem| bind_item(i, tv)),
        decreases stmt.select@.len() - k,
    {
        assert(sv.select[k as int] == stmt.select@[k as int]@);
        let it = match &stmt.select[k] {
            SelectItem::Expr(e, a) => SelectItem::Expr(bind_expr_exec(e.copy(), table), copy_opt_string(a)),
            SelectItem::Wildcard => SelectItem::Wildcard,
        };
        let ghost before = items_view(items@);
        items.push(it);
        assert(items_view(items@) =~= before.push(it@));
        k = k + 1;
        assert(sv.select.take(k as int) =~= sv.select.take(k - 1).push(sv.select[k - 1]));
        assert(items_view(items@) =~= sv.select.take(k as int).map_values(|i: SpecSelectItem| bind_item(i, tv)));
    }
    assert(sv.select.take(k as int) =~= sv.select);
    let where_ = match &stmt.where_ {
        Some(w) => Some(bind_expr_exec(w.copy(), table)),
        None => None,
    };
    let mut joins: Vec<JoinClause> = Vec::new();
    let mut q: usize = 0;
    while q < stmt.joins.len()
        invariant
            sv == stmt@,
            tv == table_view(table@),
            q <= stmt.joins@.len(),
            joins@.map_values(|j: JoinClause| j@) == sv.joins.take(q as int).map_values(
                |j: SpecJoinClause| SpecJoinClause { table: j.table, alias: j.alias, on: bind_expr(j.on, tv) },
            ),
        decreases stmt.joins@.len() - q,
    {
        let j = &stmt.joins[q];
        assert(sv.joins[q as int] == j@);
        let nj = JoinClause { table: j.table.clone(), alias: copy_opt_string(&j.alias), on: bind_expr_exec(j.on.copy(), table) };
        let ghost before = joins@.map_values(|j: JoinClause| j@);
        joins.push(nj);
        assert(joins@.map_values(|j: JoinClause| j@) =~= before.push(nj@));
        q = q + 1;
        assert(sv.joins.take(q as int) =~= sv.joins.take(q - 1).push(sv.joins[q - 1]));
        assert(joins@.map_values(|j: JoinClause| j@) =~= sv.joins.take(q as int).map_values(
            |j: SpecJoinClause| SpecJoinClause { table: j.table, alias: j.alias, on: bind_expr(j.on, tv) },
        ));
    }
    assert(sv.joins.take(q as int) =~= sv.joins);
    let mut order_by: Vec<OrderByItem> = Vec::new();
    let mut p: usize = 0;
    while p < stmt.order_by.len()
        invariant
            sv == stmt@,
            p <= stmt.order_by@.len(),
            order_by@.map_values(|o: OrderByItem| o@) == sv.order_by.take(p as int),
        decreases stmt.order_by@.len() - p,
    {
        let o = &stmt.order_by[p];
        assert(sv.order_by[p as int] == o@);
        let no = OrderByItem { column: o.column.clone(), asc: o.asc };
        let ghost before = order_by@.map_values(|o: OrderByItem| o@);
        order_by.push(no);
        assert(order_by@.map_values(|o: OrderByItem| o@) =~= before.push(no@));
        p = p + 1;
        assert(sv.order_by.take(p as int) =~= sv.order_by.take(p - 1).push(sv.order_by[p - 1]));
    }
    assert(sv.order_by.take(p as int) =~= sv.order_by);
    let r = SelectStmt {
        select: items,
        from: stmt.from.clone(),
        where_,
        group_by: copy_strings(&stmt.group_by),
        limit: stmt.limit,
        joins,
        order_by,
    };
    assert(r@.joins =~= bind_stmt(sv, tv).joins);
    assert(r@.order_by =~= sv.order_by);
    r
}

} // verus!
