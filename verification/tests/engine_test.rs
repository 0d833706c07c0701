use ember_query::agg::AggCall;
use ember_query::ast::{bind_float_literals, float_literal_texts, AggFunc, BinOp, Expr, OrderByItem, SelectItem, Value};
use ember_query::batch::{Batch, Column, ExecError, Field, FloatStep, Scalar};
use ember_query::catalog::{infer_schema, is_strict_bool_str, ColumnDef, DataType, TableSchema};
use ember_query::display::{format_value, render_table};
use ember_query::exec::{
    CsvScanExec, ExecNode, FilterExec, HashAggExec, HashJoinExec, LimitExec, MemoryExec, ProjectExec,
    RawCell, SortExec,
};
use ember_query::parser::parse;
use ember_query::plan::{build, build_executor, CatalogEntry, TableData};
use ember_query::sort::strip_table_prefix;

fn sample() -> (Vec<String>, Vec<Vec<String>>) {
    let headers = vec!["name".to_string(), "price".to_string(), "in_stock".to_string()];
    let rows = vec![
        vec!["Apple", "1200", "true"],
        vec!["Banana", "1500", "true"],
        vec!["Cherry", "800", "false"],
        vec!["Date", "2000", "true"],
        vec!["Elderberry", "3000", "false"],
    ]
    .into_iter()
    .map(|r| r.into_iter().map(|s| s.to_string()).collect())
    .collect();
    (headers, rows)
}

fn raw(rows: &[Vec<String>]) -> Vec<Vec<RawCell>> {
    rows.iter().map(|r| r.iter().map(|s| RawCell::Text(s.clone())).collect()).collect()
}

fn run(sql: &str) -> Result<Vec<Batch>, String> {
    let (headers, rows) = sample();
    let schema = infer_schema(&headers, &rows);
    let stmt = parse(sql).map_err(|e| format!("{:?}", e))?;
    let plan = build(&stmt, "data.csv", schema, &Vec::new()).map_err(|e| format!("{:?}", e))?;
    let tables = vec![TableData { path: "data.csv".to_string(), rows: raw(&rows) }];
    let mut exec = build_executor(plan, &tables).map_err(|e| format!("{:?}", e))?;
    let mut out = Vec::new();
    while let Some(b) = exec.next().map_err(|e| format!("{:?}", e))? {
        out.push(b);
    }
    Ok(out)
}

fn total(bs: &[Batch]) -> usize {
    bs.iter().map(|b| b.num_rows()).sum()
}

fn cell_text(c: &Scalar) -> String {
    match c {
        Scalar::Null => "NULL".to_string(),
        Scalar::Int(i) => i.to_string(),
        Scalar::Float(b) => format!("float:{}", b),
        Scalar::Ratio(n, d) => format!("{}/{}", n, d),
        Scalar::Calc(steps) => format!("calc:{:?}", steps),
        Scalar::Str(s) => s.clone(),
        Scalar::Bool(b) => b.to_string(),
    }
}

fn column_texts(b: &Batch, k: usize) -> Vec<String> {
    b.columns()[k].values.iter().map(cell_text).collect()
}

fn int_schema(names: &[&str]) -> Vec<Field> {
    names.iter().map(|n| Field::new(n.to_string(), DataType::Int64, true)).collect()
}

fn int_batch(names: &[&str], cols: Vec<Vec<Option<i64>>>) -> Batch {
    let columns = cols
        .into_iter()
        .map(|v| Column {
            data_type: DataType::Int64,
            values: v.into_iter().map(|x| x.map_or(Scalar::Null, Scalar::Int)).collect(),
        })
        .collect();
    Batch::try_new(int_schema(names), columns).unwrap()
}

fn memory(names: &[&str], batches: Vec<Batch>) -> ExecNode {
    ExecNode::Memory(MemoryExec::new(int_schema(names), batches))
}

fn drain(node: &mut ExecNode) -> Result<Vec<Batch>, ExecError> {
    let mut out = Vec::new();
    while let Some(b) = node.next()? {
        out.push(b);
    }
    Ok(out)
}

#[test]
fn limit_passes_min_of_n_and_rows() {
    assert_eq!(total(&run("SELECT * FROM data LIMIT 2").unwrap()), 2);
    assert_eq!(total(&run("SELECT * FROM data LIMIT 10").unwrap()), 5);
    assert_eq!(total(&run("SELECT * FROM data LIMIT 0").unwrap()), 0);
}

#[test]
fn limit_slices_within_a_batch() {
    let b1 = int_batch(&["x"], vec![vec![Some(1), Some(2)]]);
    let b2 = int_batch(&["x"], vec![vec![Some(3), Some(4), Some(5)]]);
    let mut node = ExecNode::Limit(LimitExec::new(memory(&["x"], vec![b1, b2]), 3));
    let out = drain(&mut node).unwrap();
    assert_eq!(out.len(), 2);
    assert_eq!(column_texts(&out[0], 0), vec!["1", "2"]);
    assert_eq!(column_texts(&out[1], 0), vec!["3"]);
}

#[test]
fn filter_keeps_rows_that_hold() {
    let out = run("SELECT name FROM data WHERE price >= 1500 AND NOT in_stock = false").unwrap();
    let names: Vec<String> = out.iter().flat_map(|b| column_texts(b, 0)).collect();
    assert_eq!(names, vec!["Banana", "Date"]);
    assert_eq!(total(&run("SELECT * FROM data WHERE price > 100000").unwrap()), 0);
}

#[test]
fn filter_drops_null_rows_and_empty_batches() {
    let b1 = int_batch(&["x"], vec![vec![Some(1), None, Some(7)]]);
    let b2 = int_batch(&["x"], vec![vec![Some(0)]]);
    let pred = Expr::BinOp {
        op: BinOp::Gt,
        left: Box::new(Expr::Column("x".to_string())),
        right: Box::new(Expr::Literal(Value::Int(0))),
    };
    let mut node = ExecNode::Filter(FilterExec::new(memory(&["x"], vec![b1, b2]), pred));
    let out = drain(&mut node).unwrap();
    assert_eq!(out.len(), 1);
    assert_eq!(column_texts(&out[0], 0), vec!["1", "7"]);
}

#[test]
fn filter_needs_a_boolean_predicate() {
    let err = run("SELECT * FROM data WHERE price").unwrap_err();
    assert_eq!(err, "NotBoolean");
}

#[test]
fn count_star_counts_rows() {
    let out = run("SELECT COUNT(*) AS n FROM data WHERE price > 1000").unwrap();
    assert_eq!(out.len(), 1);
    assert_eq!(out[0].schema()[0].name, "n");
    assert_eq!(column_texts(&out[0], 0), vec!["4"]);
    // no row at all still gives one row
    let out = run("SELECT COUNT(*) FROM data WHERE price < 0").unwrap();
    assert_eq!(column_texts(&out[0], 0), vec!["0"]);
    assert_eq!(out[0].schema()[0].name, "agg_0");
}

#[test]
fn group_by_in_first_appearance_order() {
    let out = run("SELECT in_stock, COUNT(*), SUM(price), AVG(price), MIN(price), MAX(price) FROM data GROUP BY in_stock").unwrap();
    assert_eq!(out.len(), 1);
    let b = &out[0];
    assert_eq!(column_texts(b, 0), vec!["true", "false"]);
    assert_eq!(column_texts(b, 1), vec!["3", "2"]);
    assert_eq!(column_texts(b, 2), vec!["4700/1", "3800/1"]);
    assert_eq!(column_texts(b, 3), vec!["4700/3", "3800/2"]);
    assert_eq!(column_texts(b, 4), vec!["1200/1", "800/1"]);
    assert_eq!(column_texts(b, 5), vec!["2000/1", "3000/1"]);
    let names: Vec<String> = b.schema().iter().map(|f| f.name.clone()).collect();
    assert_eq!(names, vec!["in_stock", "agg_1", "agg_2", "agg_3", "agg_4", "agg_5"]);
}

#[test]
fn aggregates_of_no_value() {
    let out = run("SELECT SUM(price), AVG(price), MIN(price) FROM data WHERE price < 0").unwrap();
    let b = &out[0];
    assert_eq!(column_texts(b, 0), vec!["0/1"]);
    assert_eq!(column_texts(b, 1), vec!["NULL"]);
    assert_eq!(column_texts(b, 2), vec!["NULL"]);
}

#[test]
fn group_by_unknown_column_fails() {
    assert_eq!(run("SELECT COUNT(*) FROM data GROUP BY colour").unwrap_err(), "ColumnNotFound");
}

fn double_batch(vals: Vec<Option<u64>>) -> Batch {
    let col = Column {
        data_type: DataType::Float64,
        values: vals.into_iter().map(|x| x.map_or(Scalar::Null, Scalar::Float)).collect(),
    };
    Batch::try_new(vec![Field::new("f".to_string(), DataType::Float64, true)], vec![col]).unwrap()
}

fn double_schema() -> Vec<Field> {
    vec![Field::new("f".to_string(), DataType::Float64, true)]
}

fn steps_of(c: &Scalar) -> Vec<FloatStep> {
    match c {
        Scalar::Calc(s) => s.clone(),
        _ => panic!("not a computation"),
    }
}

const ONE: u64 = 0x3ff0_0000_0000_0000;
const TWO_AND_HALF: u64 = 0x4004_0000_0000_0000;

#[test]
fn sum_and_avg_of_doubles_fold_in_row_order() {
    let input = ExecNode::Memory(MemoryExec::new(double_schema(), vec![double_batch(vec![Some(ONE), None, Some(TWO_AND_HALF)])]));
    let calls: Vec<AggCall> = vec![
        (AggFunc::Sum, Expr::Column("f".to_string()), "s".to_string()),
        (AggFunc::Avg, Expr::Column("f".to_string()), "a".to_string()),
    ];
    let mut node = ExecNode::Agg(HashAggExec::new(input, Vec::new(), calls).unwrap());
    let out = drain(&mut node).unwrap();
    let sum = vec![FloatStep::Bits(0), FloatStep::Bits(ONE), FloatStep::Add, FloatStep::Bits(TWO_AND_HALF), FloatStep::Add];
    assert_eq!(steps_of(&out[0].columns()[0].values[0]), sum);
    let mut avg = sum.clone();
    avg.push(FloatStep::Ratio(2, 1));
    avg.push(FloatStep::Div);
    assert_eq!(steps_of(&out[0].columns()[1].values[0]), avg);
}

#[test]
fn sum_of_doubles_does_not_depend_on_batches() {
    let calls = || -> Vec<AggCall> { vec![(AggFunc::Sum, Expr::Column("f".to_string()), "s".to_string())] };
    let split = vec![double_batch(vec![]), double_batch(vec![Some(ONE)]), double_batch(vec![Some(TWO_AND_HALF)])];
    let whole = vec![double_batch(vec![Some(ONE), Some(TWO_AND_HALF)])];
    let mut a = ExecNode::Agg(HashAggExec::new(ExecNode::Memory(MemoryExec::new(double_schema(), split)), Vec::new(), calls()).unwrap());
    let mut b = ExecNode::Agg(HashAggExec::new(ExecNode::Memory(MemoryExec::new(double_schema(), whole)), Vec::new(), calls()).unwrap());
    let x = drain(&mut a).unwrap();
    let y = drain(&mut b).unwrap();
    assert_eq!(steps_of(&x[0].columns()[0].values[0]), steps_of(&y[0].columns()[0].values[0]));
    // no batch at all: the sum of no value
    let mut c = ExecNode::Agg(HashAggExec::new(ExecNode::Memory(MemoryExec::new(double_schema(), vec![double_batch(vec![])])), Vec::new(), calls()).unwrap());
    let z = drain(&mut c).unwrap();
    assert_eq!(cell_text(&z[0].columns()[0].values[0]), "0/1");
}

#[test]
fn double_arithmetic_is_a_computation() {
    let items = vec![SelectItem::Expr(
        Expr::BinOp {
            op: BinOp::Mul,
            left: Box::new(Expr::Column("f".to_string())),
            right: Box::new(Expr::Unary { op: ember_query::ast::UnaryOp::Neg, expr: Box::new(Expr::Column("f".to_string())) }),
        },
        None,
    )];
    let input = ExecNode::Memory(MemoryExec::new(double_schema(), vec![double_batch(vec![Some(TWO_AND_HALF), None])]));
    let mut node = ExecNode::Project(ProjectExec::new(input, items).unwrap());
    assert_eq!(node.schema()[0].data_type, DataType::Float64);
    let out = drain(&mut node).unwrap();
    let neg = TWO_AND_HALF ^ 0x8000_0000_0000_0000;
    assert_eq!(steps_of(&out[0].columns()[0].values[0]), vec![FloatStep::Bits(TWO_AND_HALF), FloatStep::Bits(neg), FloatStep::Mul]);
    assert!(matches!(out[0].columns()[0].values[1], Scalar::Null));
    // a computed double cannot be compared
    let pred = Expr::BinOp {
        op: BinOp::Gt,
        left: Box::new(Expr::BinOp {
            op: BinOp::Add,
            left: Box::new(Expr::Column("f".to_string())),
            right: Box::new(Expr::Column("f".to_string())),
        }),
        right: Box::new(Expr::Column("f".to_string())),
    };
    let input = ExecNode::Memory(MemoryExec::new(double_schema(), vec![double_batch(vec![Some(ONE)])]));
    let mut node = ExecNode::Filter(FilterExec::new(input, pred));
    assert!(matches!(node.next(), Err(ExecError::Unsupported)));
}

#[test]
fn min_of_negated_doubles_is_exact() {
    let calls: Vec<AggCall> = vec![(
        AggFunc::Min,
        Expr::Unary { op: ember_query::ast::UnaryOp::Neg, expr: Box::new(Expr::Column("f".to_string())) },
        "m".to_string(),
    )];
    let input = ExecNode::Memory(MemoryExec::new(double_schema(), vec![double_batch(vec![Some(ONE), Some(TWO_AND_HALF)])]));
    let mut node = ExecNode::Agg(HashAggExec::new(input, Vec::new(), calls).unwrap());
    let out = drain(&mut node).unwrap();
    // negating a double flips its sign bit: no arithmetic is needed
    assert!(matches!(out[0].columns()[0].values[0], Scalar::Float(b) if b == TWO_AND_HALF ^ 0x8000_0000_0000_0000));
}

#[test]
fn min_of_computed_doubles_is_a_computation() {
    let twice = Expr::BinOp {
        op: BinOp::Add,
        left: Box::new(Expr::Column("f".to_string())),
        right: Box::new(Expr::Column("f".to_string())),
    };
    let calls: Vec<AggCall> = vec![(AggFunc::Min, twice, "m".to_string())];
    let input = ExecNode::Memory(MemoryExec::new(double_schema(), vec![double_batch(vec![Some(ONE), Some(TWO_AND_HALF)])]));
    let mut node = ExecNode::Agg(HashAggExec::new(input, Vec::new(), calls).unwrap());
    let out = drain(&mut node).unwrap();
    let b = |x| FloatStep::Bits(x);
    assert_eq!(
        steps_of(&out[0].columns()[0].values[0]),
        vec![b(ONE), b(ONE), FloatStep::Add, b(TWO_AND_HALF), b(TWO_AND_HALF), FloatStep::Add, FloatStep::Min]
    );
}

#[test]
fn join_on_double_keys() {
    let left = ExecNode::Memory(MemoryExec::new(double_schema(), vec![double_batch(vec![Some(ONE), Some(TWO_AND_HALF), None])]));
    let rschema = vec![Field::new("g".to_string(), DataType::Float64, true)];
    let rcol = Column { data_type: DataType::Float64, values: vec![Scalar::Float(TWO_AND_HALF), Scalar::Float(0)] };
    let rb = Batch::try_new(vec![Field::new("g".to_string(), DataType::Float64, true)], vec![rcol]).unwrap();
    let right = ExecNode::Memory(MemoryExec::new(rschema, vec![rb]));
    let on = Expr::BinOp { op: BinOp::Eq, left: Box::new(Expr::Column("f".to_string())), right: Box::new(Expr::Column("g".to_string())) };
    let mut node = ExecNode::Join(HashJoinExec::new(left, right, &on).unwrap());
    let out = drain(&mut node).unwrap();
    assert_eq!(total(&out), 1);
    assert!(matches!(out[0].columns()[1].values[0], Scalar::Float(b) if b == TWO_AND_HALF));
    // a double key against an integer key: 1.0 is written `1`, 2.5 matches no integer
    let left = ExecNode::Memory(MemoryExec::new(double_schema(), vec![double_batch(vec![Some(ONE), Some(TWO_AND_HALF)])]));
    let right = memory(&["g"], vec![int_batch(&["g"], vec![vec![Some(1), Some(2)]])]);
    let mut node = ExecNode::Join(HashJoinExec::new(left, right, &on).unwrap());
    let out = drain(&mut node).unwrap();
    assert_eq!(total(&out), 1);
    assert!(matches!(out[0].columns()[1].values[0], Scalar::Int(1)));
    // negative zero is written `-0`, which no integer is
    let left = ExecNode::Memory(MemoryExec::new(double_schema(), vec![double_batch(vec![Some(0x8000_0000_0000_0000)])]));
    let right = memory(&["g"], vec![int_batch(&["g"], vec![vec![Some(0)]])]);
    let mut node = ExecNode::Join(HashJoinExec::new(left, right, &on).unwrap());
    assert_eq!(total(&drain(&mut node).unwrap()), 0);
    // 2.5 against a string key needs the double's text: refused
    let left = ExecNode::Memory(MemoryExec::new(double_schema(), vec![double_batch(vec![Some(TWO_AND_HALF)])]));
    let scol = Column { data_type: DataType::Utf8, values: vec![Scalar::Str("2.5".to_string())] };
    let sb = Batch::try_new(vec![Field::new("g".to_string(), DataType::Utf8, true)], vec![scol]).unwrap();
    let right = ExecNode::Memory(MemoryExec::new(vec![Field::new("g".to_string(), DataType::Utf8, true)], vec![sb]));
    assert!(matches!(HashJoinExec::new(left, right, &on), Err(ExecError::Unsupported)));
}

#[test]
fn null_join_keys_match_nothing() {
    let b = int_batch(&["id"], vec![vec![None, Some(3)]]);
    let c = int_batch(&["id"], vec![vec![None, Some(3)]]);
    let on = Expr::BinOp { op: BinOp::Eq, left: Box::new(Expr::Column("id".to_string())), right: Box::new(Expr::Column("id".to_string())) };
    let mut node = ExecNode::Join(HashJoinExec::new(memory(&["id"], vec![b]), memory(&["id"], vec![c]), &on).unwrap());
    let out = drain(&mut node).unwrap();
    assert_eq!(total(&out), 1);
    let names: Vec<String> = out[0].schema().iter().map(|f| f.name.clone()).collect();
    assert_eq!(names, vec!["id", "right.id"]);
}

#[test]
fn count_of_a_column_skips_nulls() {
    let b = int_batch(&["g", "v"], vec![vec![Some(1), Some(1)], vec![Some(5), None]]);
    let calls: Vec<AggCall> = vec![
        (AggFunc::Count, Expr::Column("v".to_string()), "c".to_string()),
        (AggFunc::Count, Expr::Wildcard, "n".to_string()),
    ];
    let mut node = ExecNode::Agg(HashAggExec::new(memory(&["g", "v"], vec![b]), vec!["g".to_string()], calls).unwrap());
    let out = drain(&mut node).unwrap();
    assert_eq!(column_texts(&out[0], 0), vec!["1"]);
    assert_eq!(column_texts(&out[0], 1), vec!["1"]);
    assert_eq!(column_texts(&out[0], 2), vec!["2"]);
}

#[test]
fn group_by_doubles() {
    // 1.5, 1.5, 2.0
    let b = double_batch(vec![Some(0x3ff8_0000_0000_0000), Some(0x3ff8_0000_0000_0000), Some(0x4000_0000_0000_0000)]);
    let calls: Vec<AggCall> = vec![(AggFunc::Count, Expr::Wildcard, "n".to_string())];
    let input = ExecNode::Memory(MemoryExec::new(double_schema(), vec![b]));
    let mut node = ExecNode::Agg(HashAggExec::new(input, vec!["f".to_string()], calls).unwrap());
    let out = drain(&mut node).unwrap();
    assert_eq!(out[0].schema()[0].data_type, DataType::Float64);
    assert_eq!(column_texts(&out[0], 0), vec![format!("float:{}", 0x3ff8_0000_0000_0000u64), format!("float:{}", 0x4000_0000_0000_0000u64)]);
    assert_eq!(column_texts(&out[0], 1), vec!["2", "1"]);
}

#[test]
fn decimal_literal_is_named_by_its_double() {
    let stmt = parse("SELECT 1.50 FROM data").unwrap();
    let texts = float_literal_texts(&stmt);
    let table: Vec<(String, u64, String)> = texts
        .iter()
        .map(|t| {
            let v = t.parse::<f64>().unwrap();
            (t.clone(), v.to_bits(), format!("{:?}", v))
        })
        .collect();
    let stmt = bind_float_literals(stmt, &table);
    let (headers, rows) = sample();
    let plan = build(&stmt, "data.csv", infer_schema(&headers, &rows), &Vec::new()).unwrap();
    let tables = vec![TableData { path: "data.csv".to_string(), rows: raw(&rows) }];
    let mut exec = build_executor(plan, &tables).unwrap();
    let out = drain(&mut exec).unwrap();
    assert_eq!(out[0].schema()[0].name, "Float(1.5)");
}

#[test]
fn max_of_doubles_follows_ieee_order() {
    let schema = vec![Field::new("f".to_string(), DataType::Float64, true)];
    // 1.0, -2.0, 3.5
    let vals = vec![0x3ff0_0000_0000_0000u64, 0xc000_0000_0000_0000, 0x400c_0000_0000_0000];
    let col = Column { data_type: DataType::Float64, values: vals.into_iter().map(Scalar::Float).collect() };
    let b = Batch::try_new(vec![Field::new("f".to_string(), DataType::Float64, true)], vec![col]).unwrap();
    let input = ExecNode::Memory(MemoryExec::new(schema, vec![b]));
    let calls: Vec<AggCall> = vec![
        (AggFunc::Max, Expr::Column("f".to_string()), "hi".to_string()),
        (AggFunc::Min, Expr::Column("f".to_string()), "lo".to_string()),
    ];
    let mut node = ExecNode::Agg(HashAggExec::new(input, Vec::new(), calls).unwrap());
    let out = drain(&mut node).unwrap();
    assert!(matches!(out[0].columns()[0].values[0], Scalar::Float(0x400c_0000_0000_0000)));
    assert!(matches!(out[0].columns()[1].values[0], Scalar::Float(0xc000_0000_0000_0000)));
}

#[test]
fn projection_names_and_errors() {
    let out = run("SELECT name AS n, price + 1, 7 FROM data LIMIT 2").unwrap();
    // `price + 1` is typed by the column it evaluates to
    assert_eq!(out[0].schema()[1].data_type, DataType::Int64);
    assert_eq!(out[0].schema()[1].name, "expr");
    assert_eq!(column_texts(&out[0], 1), vec!["1201", "1501"]);
    let out = run("SELECT name AS n, 7 FROM data LIMIT 1").unwrap();
    let names: Vec<String> = out[0].schema().iter().map(|f| f.name.clone()).collect();
    assert_eq!(names, vec!["n", "Int(7)"]);
    assert_eq!(column_texts(&out[0], 1), vec!["7"]);
}

#[test]
fn arithmetic_errors() {
    let b = int_batch(&["x", "y"], vec![vec![Some(7), Some(i64::MAX)], vec![Some(0), Some(2)]]);
    let items = vec![SelectItem::Expr(
        Expr::BinOp {
            op: BinOp::Div,
            left: Box::new(Expr::Column("x".to_string())),
            right: Box::new(Expr::Column("y".to_string())),
        },
        None,
    )];
    let mut node = ExecNode::Project(ProjectExec::new(memory(&["x", "y"], vec![b]), items).unwrap());
    assert!(matches!(node.next(), Err(ExecError::DivideByZero)));
    let b = int_batch(&["x", "y"], vec![vec![Some(i64::MAX)], vec![Some(2)]]);
    let items = vec![SelectItem::Expr(
        Expr::BinOp {
            op: BinOp::Mul,
            left: Box::new(Expr::Column("x".to_string())),
            right: Box::new(Expr::Column("y".to_string())),
        },
        Some("p".to_string()),
    )];
    let mut node = ExecNode::Project(ProjectExec::new(memory(&["x", "y"], vec![b]), items).unwrap());
    assert!(matches!(node.next(), Err(ExecError::Overflow)));
}

#[test]
fn scan_reads_batches_of_1024() {
    let schema = TableSchema { columns: vec![ColumnDef { name: "x".to_string(), data_type: DataType::Int64 }] };
    let rows: Vec<Vec<RawCell>> = (0..2000).map(|i| vec![RawCell::Text(i.to_string())]).collect();
    let mut node = ExecNode::Scan(CsvScanExec::new(&schema, rows));
    let out = drain(&mut node).unwrap();
    assert_eq!(out.iter().map(|b| b.num_rows()).collect::<Vec<_>>(), vec![1024, 976]);
}

#[test]
fn scan_reads_cells_by_type() {
    let schema = TableSchema {
        columns: vec![
            ColumnDef { name: "i".to_string(), data_type: DataType::Int64 },
            ColumnDef { name: "b".to_string(), data_type: DataType::Boolean },
            ColumnDef { name: "s".to_string(), data_type: DataType::Utf8 },
        ],
    };
    let rows = vec![
        vec![RawCell::Text("-5".to_string()), RawCell::Text("YES".to_string()), RawCell::Text("".to_string())],
        vec![RawCell::Text("".to_string()), RawCell::Text("0".to_string()), RawCell::Text("x".to_string())],
        vec![RawCell::Text("+3".to_string()), RawCell::Text("maybe".to_string())],
    ];
    let mut node = ExecNode::Scan(CsvScanExec::new(&schema, rows));
    let out = drain(&mut node).unwrap();
    assert_eq!(column_texts(&out[0], 0), vec!["-5", "NULL", "3"]);
    assert_eq!(column_texts(&out[0], 1), vec!["true", "false", "NULL"]);
    assert_eq!(column_texts(&out[0], 2), vec!["NULL", "x", "NULL"]);
}

#[test]
fn scan_rejects_a_bad_integer() {
    let schema = TableSchema { columns: vec![ColumnDef { name: "i".to_string(), data_type: DataType::Int64 }] };
    let rows = vec![vec![RawCell::Text("12x".to_string())]];
    let mut node = ExecNode::Scan(CsvScanExec::new(&schema, rows));
    assert!(matches!(node.next(), Err(ExecError::BadValue)));
}

#[test]
fn sort_is_stable_with_nulls_last() {
    let b1 = int_batch(&["k", "v"], vec![vec![Some(2), None, Some(1)], vec![Some(10), Some(20), Some(30)]]);
    let b2 = int_batch(&["k", "v"], vec![vec![Some(2), Some(1)], vec![Some(40), Some(50)]]);
    let input = memory(&["k", "v"], vec![b1, b2]);
    let ob = vec![OrderByItem { column: "t.k".to_string(), asc: true }];
    let mut node = ExecNode::Sort(SortExec::new(input, ob).unwrap());
    let out = drain(&mut node).unwrap();
    assert_eq!(out.len(), 1);
    assert_eq!(column_texts(&out[0], 0), vec!["1", "1", "2", "2", "NULL"]);
    assert_eq!(column_texts(&out[0], 1), vec!["30", "50", "10", "40", "20"]);
}

#[test]
fn sort_descending_and_unknown_column() {
    let b = int_batch(&["k"], vec![vec![Some(2), None, Some(5)]]);
    let ob = vec![OrderByItem { column: "k".to_string(), asc: false }];
    let mut node = ExecNode::Sort(SortExec::new(memory(&["k"], vec![b]), ob).unwrap());
    let out = drain(&mut node).unwrap();
    assert_eq!(column_texts(&out[0], 0), vec!["NULL", "5", "2"]);
    let b = int_batch(&["k"], vec![vec![Some(1)]]);
    let ob = vec![OrderByItem { column: "z".to_string(), asc: true }];
    assert!(matches!(SortExec::new(memory(&["k"], vec![b]), ob), Err(ExecError::ColumnNotFound)));
}

#[test]
fn join_pairs_rows_and_renames_right_columns() {
    let l = int_batch(&["id", "amount"], vec![vec![Some(1), Some(2), Some(2)], vec![Some(100), Some(200), Some(250)]]);
    let r = int_batch(&["id", "score"], vec![vec![Some(2), Some(1), Some(2)], vec![Some(20), Some(10), Some(21)]]);
    let on = Expr::BinOp {
        op: BinOp::Eq,
        left: Box::new(Expr::Column("o.id".to_string())),
        right: Box::new(Expr::Column("id".to_string())),
    };
    let mut node = ExecNode::Join(
        HashJoinExec::new(memory(&["id", "amount"], vec![l]), memory(&["id", "score"], vec![r]), &on).unwrap(),
    );
    let names: Vec<String> = node.schema().iter().map(|f| f.name.clone()).collect();
    assert_eq!(names, vec!["id", "amount", "right.id", "score"]);
    let out = drain(&mut node).unwrap();
    assert_eq!(column_texts(&out[0], 1), vec!["100", "200", "200", "250", "250"]);
    assert_eq!(column_texts(&out[0], 3), vec!["10", "20", "21", "20", "21"]);
}

#[test]
fn join_table_must_be_in_the_catalog() {
    let (headers, rows) = sample();
    let schema = infer_schema(&headers, &rows);
    let mut stmt = parse("SELECT * FROM data").unwrap();
    stmt.joins.push(ember_query::ast::JoinClause {
        table: "other".to_string(),
        alias: None,
        on: Expr::Wildcard,
    });
    let catalog: Vec<CatalogEntry> = Vec::new();
    assert!(matches!(build(&stmt, "data.csv", schema, &catalog), Err(ExecError::TableNotFound)));
}

#[test]
fn strip_table_prefix_keeps_the_last_part() {
    assert_eq!(strip_table_prefix("t.price"), "price");
    assert_eq!(strip_table_prefix("a.b.c"), "c");
    assert_eq!(strip_table_prefix("plain"), "plain");
    assert_eq!(strip_table_prefix("t."), "");
}

#[test]
fn strict_bool_strings() {
    assert!(is_strict_bool_str("true"));
    assert!(is_strict_bool_str("FaLsE"));
    assert!(!is_strict_bool_str("yes"));
    assert!(!is_strict_bool_str("1"));
    assert!(!is_strict_bool_str(""));
}

#[test]
fn schema_inference() {
    let (headers, rows) = sample();
    let schema = infer_schema(&headers, &rows);
    let types: Vec<DataType> = schema.columns.iter().map(|c| c.data_type).collect();
    assert_eq!(types, vec![DataType::Utf8, DataType::Int64, DataType::Boolean]);
}

#[test]
fn explain_shows_the_plan() {
    let (headers, rows) = sample();
    let schema = infer_schema(&headers, &rows);
    let stmt = parse("SELECT name FROM data WHERE price > 1000 LIMIT 2").unwrap();
    let plan = build(&stmt, "data.csv", schema, &Vec::new()).unwrap();
    assert_eq!(
        plan.explain(0),
        "Limit [2]\n  Project [1 exprs]\n    Filter [BinOp { op: Gt, left: Column(\"price\"), right: Literal(Int(1000)) }]\n      Scan [data.csv] columns=[name:Utf8, price:Int64, in_stock:Boolean]"
    );
    let stmt = parse("SELECT in_stock, COUNT(*) FROM data GROUP BY in_stock").unwrap();
    let (headers, rows) = sample();
    let plan = build(&stmt, "d.csv", infer_schema(&headers, &rows), &Vec::new()).unwrap();
    assert_eq!(
        plan.explain(1),
        "  Aggregate [group_by=[\"in_stock\"], aggs=Count(Wildcard) AS agg_1]\n    Scan [d.csv] columns=[name:Utf8, price:Int64, in_stock:Boolean]"
    );
}

#[test]
fn render_table_pads_columns() {
    let header = vec!["name".to_string(), "n".to_string()];
    let cols = vec![
        vec!["Apple".to_string(), "Fig".to_string()],
        vec!["1200".to_string(), "7".to_string()],
    ];
    let lines = render_table(&header, &cols, 2);
    assert_eq!(lines, vec!["name  | n   ", "------+-----", "Apple | 1200", "Fig   | 7   "]);
}

#[test]
fn format_value_texts() {
    assert_eq!(format_value(&Scalar::Int(-42)), Some("-42".to_string()));
    assert_eq!(format_value(&Scalar::Null), Some("NULL".to_string()));
    assert_eq!(format_value(&Scalar::Bool(false)), Some("false".to_string()));
    assert_eq!(format_value(&Scalar::Str("hé".to_string())), Some("hé".to_string()));
    assert_eq!(format_value(&Scalar::Float(0)), None);
    assert_eq!(format_value(&Scalar::Ratio(1, 2)), None);
}

#[test]
fn parse_errors_and_precedence() {
    assert!(parse("SELECT FROM data").is_err());
    assert!(parse("SELECT * FROM data LIMIT").is_err());
    let stmt = parse("select a from t where a = 1 or b = 2 and c = 3").unwrap();
    match stmt.where_ {
        Some(Expr::BinOp { op: BinOp::Or, right, .. }) => {
            assert!(matches!(*right, Expr::BinOp { op: BinOp::And, .. }));
        },
        other => panic!("unexpected {:?}", other),
    }
    let stmt = parse("SELECT * FROM t WHERE s = 'it''s'").unwrap();
    match stmt.where_ {
        Some(Expr::BinOp { right, .. }) => match *right {
            Expr::Literal(Value::Str(s)) => assert_eq!(s, "it's"),
            other => panic!("unexpected {:?}", other),
        },
        other => panic!("unexpected {:?}", other),
    }
}

#[test]
fn exhausted_node_stays_exhausted() {
    let b = int_batch(&["x"], vec![vec![Some(1)]]);
    let mut node = memory(&["x"], vec![b]);
    assert!(matches!(node.next(), Ok(Some(_))));
    assert!(matches!(node.next(), Ok(None)));
    assert!(matches!(node.next(), Ok(None)));
    let mut agg = run_node("SELECT COUNT(*) FROM data");
    assert!(matches!(agg.next(), Ok(Some(_))));
    assert!(matches!(agg.next(), Ok(None)));
    assert!(matches!(agg.next(), Ok(None)));
}

fn run_node(sql: &str) -> ExecNode {
    let (headers, rows) = sample();
    let schema = infer_schema(&headers, &rows);
    let stmt = parse(sql).unwrap();
    let plan = build(&stmt, "data.csv", schema, &Vec::new()).unwrap();
    let tables = vec![TableData { path: "data.csv".to_string(), rows: raw(&rows) }];
    build_executor(plan, &tables).unwrap()
}

#[test]
fn strip_table_prefix_twice_is_once() {
    for s in ["a.b.c", "t.x", "plain", "", "x."] {
        let once = strip_table_prefix(s);
        assert_eq!(strip_table_prefix(&once), once);
    }
}

#[test]
fn projection_keeps_row_count() {
    let out = run("SELECT name, in_stock FROM data").unwrap();
    assert_eq!(total(&out), 5);
    let out = run("SELECT * FROM data WHERE in_stock").unwrap();
    assert_eq!(total(&out), 3);
}

#[test]
fn join_rows_have_matching_keys() {
    let l = int_batch(&["k"], vec![vec![Some(1), Some(2), None]]);
    let r = int_batch(&["k"], vec![vec![None, Some(2), Some(3)]]);
    let on = Expr::BinOp {
        op: BinOp::Eq,
        left: Box::new(Expr::Column("k".to_string())),
        right: Box::new(Expr::Column("k".to_string())),
    };
    let mut node = ExecNode::Join(HashJoinExec::new(memory(&["k"], vec![l]), memory(&["k"], vec![r]), &on).unwrap());
    let out = drain(&mut node).unwrap();
    // a null key matches nothing
    assert_eq!(column_texts(&out[0], 0), vec!["2"]);
    assert_eq!(column_texts(&out[0], 1), vec!["2"]);
}

#[test]
fn missing_table_data_is_reported() {
    let (headers, rows) = sample();
    let schema = infer_schema(&headers, &rows);
    let stmt = parse("SELECT * FROM data").unwrap();
    let plan = build(&stmt, "data.csv", schema, &Vec::new()).unwrap();
    assert!(matches!(build_executor(plan, &Vec::new()), Err(ExecError::TableNotFound)));
}

#[test]
fn decimal_literals_compare_with_doubles() {
    let schema = TableSchema {
        columns: vec![
            ColumnDef { name: "name".to_string(), data_type: DataType::Utf8 },
            ColumnDef { name: "w".to_string(), data_type: DataType::Float64 },
        ],
    };
    let rows: Vec<Vec<RawCell>> = [("a", 0.5f64), ("b", 1.5), ("c", 2.25), ("d", -0.0)]
        .iter()
        .map(|(n, w)| vec![RawCell::Text(n.to_string()), RawCell::Float(w.to_bits())])
        .collect();
    let stmt = parse("SELECT name FROM data WHERE w >= 1.5 OR w = 0.0").unwrap();
    let texts = float_literal_texts(&stmt);
    assert_eq!(texts, vec!["1.5".to_string(), "0.0".to_string()]);
    let unbound = build(&parse("SELECT name FROM data WHERE w >= 1.5").unwrap(), "t", schema.clone(), &Vec::new()).unwrap();
    let tables = vec![TableData { path: "t".to_string(), rows: rows.iter().map(|r| r.iter().map(|c| match c {
        RawCell::Text(s) => RawCell::Text(s.clone()),
        RawCell::Float(b) => RawCell::Float(*b),
    }).collect()).collect() }];
    // an unbound decimal literal cannot be evaluated
    let mut node = build_executor(unbound, &tables).unwrap();
    assert!(matches!(node.next(), Err(ExecError::Unsupported)));
    let table: Vec<(String, u64, String)> = texts
        .iter()
        .map(|t| {
            let v = t.parse::<f64>().unwrap();
            (t.clone(), v.to_bits(), format!("{:?}", v))
        })
        .collect();
    let stmt = bind_float_literals(stmt, &table);
    let plan = build(&stmt, "t", schema, &Vec::new()).unwrap();
    let mut node = build_executor(plan, &tables).unwrap();
    let out = drain(&mut node).unwrap();
    let names: Vec<String> = out.iter().flat_map(|b| column_texts(b, 0)).collect();
    // -0.0 is not 0.0 under IEEE totalOrder, as in the columnar comparison kernels
    assert_eq!(names, vec!["b", "c"]);
}

#[test]
fn a_node_is_over_after_an_error() {
    let b1 = int_batch(&["x"], vec![vec![Some(1)]]);
    let b2 = int_batch(&["x"], vec![vec![Some(2)]]);
    let pred = Expr::BinOp {
        op: BinOp::And,
        left: Box::new(Expr::Column("x".to_string())),
        right: Box::new(Expr::Column("x".to_string())),
    };
    let mut node = ExecNode::Filter(FilterExec::new(memory(&["x"], vec![b1, b2]), pred));
    assert!(matches!(node.next(), Err(ExecError::TypeMismatch)));
    assert!(matches!(node.next(), Ok(None)));
}

#[test]
fn limit_passes_the_first_rows() {
    let b1 = int_batch(&["x"], vec![vec![Some(1), Some(2)]]);
    let b2 = int_batch(&["x"], vec![vec![Some(3), Some(4)]]);
    let mut node = ExecNode::Limit(LimitExec::new(memory(&["x"], vec![b1, b2]), 3));
    let out = drain(&mut node).unwrap();
    let cells: Vec<String> = out.iter().flat_map(|b| column_texts(b, 0)).collect();
    assert_eq!(cells, vec!["1", "2", "3"]);
}
