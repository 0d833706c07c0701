use ember_query::ast::{BinOp, Expr};
use ember_query::batch::{Batch, Column, Field, Scalar};
use ember_query::catalog::DataType;
use ember_query::exec::{ExecNode, HashJoinExec, MemoryExec};

fn make_schema(fields: Vec<(&str, DataType)>) -> Vec<Field> {
    fields
        .into_iter()
        .map(|(n, t)| Field::new(n.to_string(), t, true))
        .collect()
}

fn copy_schema(s: &[Field]) -> Vec<Field> {
    s.iter().map(|f| f.copy()).collect()
}

fn make_batch(schema: &[Field], cols: Vec<Vec<i64>>) -> Batch {
    let columns: Vec<Column> = cols
        .into_iter()
        .map(|v| Column {
            data_type: DataType::Int64,
            values: v.into_iter().map(Scalar::Int).collect(),
        })
        .collect();
    Batch::try_new(copy_schema(schema), columns).unwrap()
}

fn vec_exec(schema: &[Field], batches: Vec<Batch>) -> ExecNode {
    ExecNode::Memory(MemoryExec::new(copy_schema(schema), batches))
}

fn eq_on(op: BinOp) -> Expr {
    Expr::BinOp {
        op,
        left: Box::new(Expr::Column("id".to_string())),
        right: Box::new(Expr::Column("id".to_string())),
    }
}

#[test]
fn inner_join_matches_on_id() {
    // orders: id, amount
    let o_schema = make_schema(vec![("id", DataType::Int64), ("amount", DataType::Int64)]);
    let o_batch = make_batch(&o_schema, vec![vec![1, 2, 3], vec![100, 200, 300]]);

    // customers: id, score
    let c_schema = make_schema(vec![("id", DataType::Int64), ("score", DataType::Int64)]);
    let c_batch = make_batch(&c_schema, vec![vec![2, 3, 4], vec![20, 30, 40]]);

    // ON orders.id = customers.id
    let on = eq_on(BinOp::Eq);

    let left = vec_exec(&o_schema, vec![o_batch]);
    let right = vec_exec(&c_schema, vec![c_batch]);
    let mut exec = ExecNode::Join(HashJoinExec::new(left, right, &on).unwrap());

    let mut total_rows = 0;
    while let Some(batch) = exec.next().unwrap() {
        total_rows += batch.num_rows();
    }
    // ids 2 and 3 match → 2 rows
    assert_eq!(total_rows, 2, "expected 2 matching rows for ids 2 and 3");
}

#[test]
fn inner_join_no_matches_returns_empty() {
    let s = make_schema(vec![("id", DataType::Int64)]);
    let left_b = make_batch(&s, vec![vec![1, 2]]);
    let right_b = make_batch(&s, vec![vec![5, 6]]);

    let on = eq_on(BinOp::Eq);

    let left = vec_exec(&s, vec![left_b]);
    let right = vec_exec(&s, vec![right_b]);
    let mut exec = ExecNode::Join(HashJoinExec::new(left, right, &on).unwrap());

    let mut total_rows = 0;
    while let Some(batch) = exec.next().unwrap() {
        total_rows += batch.num_rows();
    }
    assert_eq!(total_rows, 0, "no matches expected");
}

#[test]
fn non_eq_on_returns_error() {
    let s = make_schema(vec![("id", DataType::Int64)]);
    let on = eq_on(BinOp::Lt); // not equality
    let left = vec_exec(&s, vec![]);
    let right = vec_exec(&s, vec![]);
    assert!(HashJoinExec::new(left, right, &on).is_err());
}
