use ember_query::batch::{Batch, ExecError, Scalar};
use ember_query::catalog::infer_schema;
use ember_query::exec::RawCell;
use ember_query::parser::parse;
use ember_query::plan::{build, build_executor, TableData};

/// The sample table: name, price, in_stock.
fn sample_csv() -> (Vec<String>, Vec<Vec<String>>) {
    let text = "name,price,in_stock\n\
                Apple,1200,true\n\
                Banana,1500,true\n\
                Cherry,800,false\n\
                Date,2000,true\n\
                Elderberry,3000,false\n";
    let mut lines = text.lines();
    let headers: Vec<String> = lines.next().unwrap().split(',').map(|s| s.to_string()).collect();
    let rows: Vec<Vec<String>> = lines
        .map(|l| l.split(',').map(|s| s.to_string()).collect())
        .collect();
    (headers, rows)
}

fn run_query(sql: &str) -> Result<Vec<Batch>, String> {
    let (headers, rows) = sample_csv();
    let schema = infer_schema(&headers, &rows);
    let stmt = parse(sql).map_err(|e| format!("{:?}", e))?;
    let plan = build(&stmt, "data.csv", schema, &Vec::new()).map_err(|e| format!("{:?}", e))?;
    let raw: Vec<Vec<RawCell>> = rows
        .into_iter()
        .map(|r| r.into_iter().map(RawCell::Text).collect())
        .collect();
    let tables = vec![TableData { path: "data.csv".to_string(), rows: raw }];
    let mut exec = build_executor(plan, &tables).map_err(|e: ExecError| format!("{:?}", e))?;

    let mut batches = Vec::new();
    while let Some(batch) = exec.next().map_err(|e| format!("{:?}", e))? {
        batches.push(batch);
    }
    Ok(batches)
}

#[test]
fn test_select_star_where_price_limit() -> Result<(), String> {
    let batches = run_query("SELECT * FROM data WHERE price > 1000 LIMIT 3")?;

    let total_rows: usize = batches.iter().map(|b| b.num_rows()).sum();
    assert_eq!(total_rows, 3, "expected 3 rows, got {}", total_rows);
    Ok(())
}

#[test]
fn test_select_columns_where_in_stock() -> Result<(), String> {
    let batches = run_query("SELECT name, price FROM data WHERE in_stock = true")?;

    let total_rows: usize = batches.iter().map(|b| b.num_rows()).sum();
    assert_eq!(total_rows, 3, "expected 3 rows (Apple, Banana, Date), got {}", total_rows);
    Ok(())
}

#[test]
fn test_count_star() -> Result<(), String> {
    let batches = run_query("SELECT COUNT(*) FROM data")?;

    let total_rows: usize = batches.iter().map(|b| b.num_rows()).sum();
    assert_eq!(total_rows, 1, "COUNT(*) should produce 1 row");

    // The count value should be 5
    let batch = &batches[0];
    let col = &batch.columns()[0];
    assert!(
        matches!(col.data_type, ember_query::catalog::DataType::Int64),
        "COUNT(*) should produce Int64Array"
    );
    assert!(matches!(col.values[0], Scalar::Int(5)), "COUNT(*) should be 5");
    Ok(())
}
