//! Properties that relate the operators' results to their inputs.
use vstd::prelude::*;

use crate::agg::{
    acc_after, acc_fits, agg_batch, agg_batches, agg_run, call_args, call_funcs, find_from,
    fold_rows, fresh_accs, group_columns, out_column, out_groups,
    row_key, step_accs, step_row, SpecAcc, SpecGroup,
};
use crate::ast::{AggFunc, BinOp, SpecExpr, UnaryOp};
use crate::batch::{
    batch_wf, built, can_build, column_fits_field, fits, spec_slice, ExecError, SpecBatch, SpecColumn,
    SpecField, SpecScalar,
};
use crate::catalog::{all_values, has_value, spec_column_type, spec_is_bool_str, spec_is_f64_str, spec_is_i64_str, DataType, SpecColumnDef};
use crate::eval::{map_cells, spec_eval, zip_cells};
use crate::exec::{
    after, chunk_columns, empty_stream, eval_all, filter_seq, limit_seq, next_result, project_seq,
    cell_value, read_cell, read_chunk, scan_stream, spec_filter_batch, spec_project_batch, table_fields, total_rows,
    SpecRawCell, Stream, BATCH_SIZE,
};
use crate::join::{join_pairs, matches_of};
use crate::sort::{concat_values, last_dot_before, lemma_row_order, row_order, sorted_perm, spec_strip_table_prefix};

verus! {

pub open spec fn min_nat(a: nat, b: nat) -> nat {
    if a <= b {
        a
    } else {
        b
    }
}

/// LIMIT `n` passes on exactly `min(n, r)` rows of an input of `r` rows:
/// all of them when there are at most `n`, else the first `n`.
pub proof fn law_limit_rows(n: nat, bs: Seq<SpecBatch>, err: Option<ExecError>)
    ensures
        total_rows(limit_seq(n, bs, err).batches) == min_nat(n, total_rows(bs)),
    decreases bs.len(),
{
    if n == 0 {
    } else if bs.len() == 0 {
    } else if bs[0].num_rows <= n {
        law_limit_rows((n - bs[0].num_rows) as nat, bs.drop_first(), err);
        let rest = limit_seq((n - bs[0].num_rows) as nat, bs.drop_first(), err);
        let all = seq![bs[0]] + rest.batches;
        assert(all.drop_first() =~= rest.batches);
        assert(all[0] == bs[0]);
        assert(total_rows(all) == bs[0].num_rows + total_rows(rest.batches));
        assert(total_rows(bs) == bs[0].num_rows + total_rows(bs.drop_first()));
    } else {
        let s = seq![spec_slice(bs[0], n)];
        assert(s.drop_first() =~= Seq::<SpecBatch>::empty());
        assert(total_rows(s) == spec_slice(bs[0], n).num_rows + total_rows(s.drop_first()));
        assert(total_rows(Seq::<SpecBatch>::empty()) == 0);
        lemma_total_rows_ge_first(bs);
    }
}

proof fn lemma_total_rows_ge_first(bs: Seq<SpecBatch>)
    requires
        bs.len() > 0,
    ensures
        total_rows(bs) >= bs[0].num_rows,
{
}

/// WHERE never adds rows: the filtered stream has at most as many rows as
/// its input (each output batch is an input batch's rows that the
/// predicate keeps).
pub proof fn law_filter_rows(pred: SpecExpr, bs: Seq<SpecBatch>, err: Option<ExecError>)
    requires
        forall|i: int| 0 <= i < bs.len() ==> batch_wf(#[trigger] bs[i]),
    ensures
        total_rows(filter_seq(pred, bs, err).batches) <= total_rows(bs),
    decreases bs.len(),
{
    if bs.len() > 0 {
        let t = bs.drop_first();
        assert forall|i: int| 0 <= i < t.len() implies batch_wf(#[trigger] t[i]) by {
            assert(t[i] == bs[i + 1]);
        }
        law_filter_rows(pred, t, err);
        if bs[0].num_rows != 0 {
            match spec_filter_batch(bs[0], pred) {
                Err(_) => {},
                Ok(f) => {
                    assert(batch_wf(bs[0]));
                    assert(column_fits_field(bs[0].columns[0], bs[0].schema[0], bs[0].num_rows));
                    let m = crate::eval::spec_eval_bool(bs[0], pred)->Ok_0;
                    crate::batch::lemma_filter_fits(bs[0].columns[0].values, m.values, bs[0].columns[0].data_type);
                    if f.num_rows > 0 {
                        let rest = filter_seq(pred, t, err);
                        assert((seq![f] + rest.batches).drop_first() =~= rest.batches);
                    }
                },
            }
        }
    }
}


/// The batches are well formed and each has a column `k`.
pub open spec fn have_column(bs: Seq<SpecBatch>, k: int) -> bool {
    forall|i: int| 0 <= i < bs.len() ==> batch_wf(#[trigger] bs[i]) && 0 <= k < bs[i].columns.len()
}

proof fn lemma_have_column_rest(bs: Seq<SpecBatch>, k: int)
    requires
        have_column(bs, k),
        bs.len() > 0,
    ensures
        have_column(bs.drop_first(), k),
        column_fits_field(bs[0].columns[k], bs[0].schema[k], bs[0].num_rows),
{
    assert forall|i: int| 0 <= i < bs.drop_first().len() implies batch_wf(#[trigger] bs.drop_first()[i])
        && 0 <= k < bs.drop_first()[i].columns.len() by {
        assert(bs.drop_first()[i] == bs[i + 1]);
    }
    assert(batch_wf(bs[0]));
}

proof fn lemma_concat_len(bs: Seq<SpecBatch>, k: int)
    requires
        have_column(bs, k),
    ensures
        concat_values(bs, k).len() == total_rows(bs),
    decreases bs.len(),
{
    if bs.len() > 0 {
        lemma_have_column_rest(bs, k);
        lemma_concat_len(bs.drop_first(), k);
    }
}

/// LIMIT `n` passes on the first rows of its input: column by column, its
/// cells put one after another are the first `min(n, r)` of the input's.
pub proof fn law_limit_prefix(n: nat, bs: Seq<SpecBatch>, err: Option<ExecError>, k: int)
    requires
        have_column(bs, k),
    ensures
        concat_values(limit_seq(n, bs, err).batches, k) == concat_values(bs, k).take(min_nat(n, total_rows(bs)) as int),
    decreases bs.len(),
{
    lemma_concat_len(bs, k);
    if n == 0 {
        assert(concat_values(bs, k).take(0) =~= Seq::<SpecScalar>::empty());
    } else if bs.len() == 0 {
    } else {
        lemma_have_column_rest(bs, k);
        let t = bs.drop_first();
        lemma_concat_len(t, k);
        let v0 = bs[0].columns[k].values;
        assert(concat_values(bs, k) == v0 + concat_values(t, k));
        if bs[0].num_rows <= n {
            let m = (n - bs[0].num_rows) as nat;
            law_limit_prefix(m, t, err, k);
            let rest = limit_seq(m, t, err);
            let all = seq![bs[0]] + rest.batches;
            assert(all.drop_first() =~= rest.batches);
            assert(all[0] == bs[0]);
            assert(concat_values(all, k) == v0 + concat_values(rest.batches, k));
            assert(concat_values(all, k) =~= concat_values(bs, k).take(min_nat(n, total_rows(bs)) as int));
        } else {
            let sl = spec_slice(bs[0], n);
            let s1 = seq![sl];
            assert(s1.drop_first() =~= Seq::<SpecBatch>::empty());
            assert(concat_values(s1, k) == sl.columns[k].values + concat_values(s1.drop_first(), k));
            assert(sl.columns[k].values == v0.take(n as int));
            assert(concat_values(s1, k) =~= concat_values(bs, k).take(min_nat(n, total_rows(bs)) as int));
        }
    }
}

/// The mask that a predicate gives the rows of the batches, batch after
/// batch (an empty batch, or one on which it fails, gives none).
pub open spec fn masks(pred: SpecExpr, bs: Seq<SpecBatch>) -> Seq<SpecScalar>
    decreases bs.len(),
{
    if bs.len() == 0 {
        Seq::empty()
    } else {
        let first = if bs[0].num_rows == 0 {
            Seq::empty()
        } else {
            match crate::eval::spec_eval_bool(bs[0], pred) {
                Ok(m) => m.values,
                Err(_) => Seq::empty(),
            }
        };
        first + masks(pred, bs.drop_first())
    }
}

/// Filtering a concatenation is concatenating the filtered parts.
pub proof fn lemma_filter_concat(a: Seq<SpecScalar>, m1: Seq<SpecScalar>, b: Seq<SpecScalar>, m2: Seq<SpecScalar>)
    requires
        a.len() == m1.len(),
        b.len() == m2.len(),
    ensures
        crate::batch::filter_values(a + b, m1 + m2) == crate::batch::filter_values(a, m1) + crate::batch::filter_values(b, m2),
    decreases b.len(),
{
    if b.len() == 0 {
        assert(a + b =~= a);
        assert(m1 + m2 =~= m1);
        assert(crate::batch::filter_values(b, m2) =~= Seq::<SpecScalar>::empty());
    } else {
        lemma_filter_concat(a, m1, b.drop_last(), m2.drop_last());
        assert((a + b).drop_last() =~= a + b.drop_last());
        assert((m1 + m2).drop_last() =~= m1 + m2.drop_last());
        assert((a + b).last() == b.last());
        assert((m1 + m2).last() == m2.last());
    }
}

/// WHERE passes on exactly the rows that its predicate keeps, in order:
/// when the predicate evaluates on every non-empty input batch, column by column the
/// output's cells put one after another are the input's, filtered by the
/// predicate's mask over all input rows.
pub proof fn law_filter_kept(pred: SpecExpr, bs: Seq<SpecBatch>, err: Option<ExecError>, k: int)
    requires
        have_column(bs, k),
        forall|i: int| 0 <= i < bs.len() && bs[i].num_rows > 0 ==> (#[trigger] crate::eval::spec_eval_bool(bs[i], pred)) is Ok,
    ensures
        concat_values(filter_seq(pred, bs, err).batches, k) == crate::batch::filter_values(concat_values(bs, k), masks(pred, bs)),
    decreases bs.len(),
{
    if bs.len() == 0 {
        assert(crate::batch::filter_values(Seq::<SpecScalar>::empty(), Seq::<SpecScalar>::empty()) =~= Seq::<SpecScalar>::empty());
    } else {
        lemma_have_column_rest(bs, k);
        let t = bs.drop_first();
        assert forall|i: int| 0 <= i < t.len() && t[i].num_rows > 0 implies (#[trigger] crate::eval::spec_eval_bool(t[i], pred)) is Ok by {
            assert(t[i] == bs[i + 1]);
        }
        law_filter_kept(pred, t, err, k);
        assert(batch_wf(bs[0]));
        let v0 = bs[0].columns[k].values;
        assert(concat_values(bs, k) == v0 + concat_values(t, k));
        lemma_masks_len(pred, t, k);
        lemma_concat_len(t, k);
        let rest = filter_seq(pred, t, err);
        if bs[0].num_rows == 0 {
            assert(v0 =~= Seq::<SpecScalar>::empty());
            assert(masks(pred, bs) =~= masks(pred, t));
            assert(v0 + concat_values(t, k) =~= concat_values(t, k));
        } else {
            let m = crate::eval::spec_eval_bool(bs[0], pred)->Ok_0;
            assert(crate::eval::spec_eval_bool(bs[0], pred) is Ok);
            lemma_eval_len(bs[0], pred);
            assert(masks(pred, bs) == m.values + masks(pred, t));
            lemma_filter_concat(v0, m.values, concat_values(t, k), masks(pred, t));
            let f = crate::batch::spec_filter(bs[0], m.values);
            assert(spec_filter_batch(bs[0], pred) == Ok::<SpecBatch, ExecError>(f));
            assert(f.columns[k].values == crate::batch::filter_values(v0, m.values));
            if f.num_rows > 0 {
                let all = seq![f] + rest.batches;
                assert(all.drop_first() =~= rest.batches);
                assert(all[0] == f);
                assert(concat_values(all, k) == f.columns[k].values + concat_values(rest.batches, k));
            } else {
                assert(column_fits_field(bs[0].columns[0], bs[0].schema[0], bs[0].num_rows));
                crate::batch::lemma_filter_len(v0, bs[0].columns[0].values, m.values);
                assert(crate::batch::filter_values(v0, m.values) =~= Seq::<SpecScalar>::empty());
                assert(crate::batch::filter_values(v0, m.values) + concat_values(rest.batches, k) =~= concat_values(rest.batches, k));
            }
        }
    }
}

proof fn lemma_masks_len(pred: SpecExpr, bs: Seq<SpecBatch>, k: int)
    requires
        have_column(bs, k),
        forall|i: int| 0 <= i < bs.len() && bs[i].num_rows > 0 ==> (#[trigger] crate::eval::spec_eval_bool(bs[i], pred)) is Ok,
    ensures
        masks(pred, bs).len() == total_rows(bs),
    decreases bs.len(),
{
    if bs.len() > 0 {
        lemma_have_column_rest(bs, k);
        let t = bs.drop_first();
        assert forall|i: int| 0 <= i < t.len() && t[i].num_rows > 0 implies (#[trigger] crate::eval::spec_eval_bool(t[i], pred)) is Ok by {
            assert(t[i] == bs[i + 1]);
        }
        lemma_masks_len(pred, t, k);
        assert(batch_wf(bs[0]));
        if bs[0].num_rows > 0 {
            assert(crate::eval::spec_eval_bool(bs[0], pred) is Ok);
            lemma_eval_len(bs[0], pred);
        }
    }
}

/// The groups of a COUNT(*) without GROUP BY after `c` rows.
pub open spec fn count_state(c: int) -> Seq<SpecGroup> {
    if c == 0 {
        Seq::empty()
    } else {
        seq![
            SpecGroup {
                key: Seq::empty(),
                accs: seq![SpecAcc { count: c, sum: 0, dsum: None, min: SpecScalar::Null, max: SpecScalar::Null }],
            },
        ]
    }
}

pub open spec fn count_star_call(name: Seq<char>) -> Seq<(AggFunc, SpecExpr, Seq<char>)> {
    seq![(AggFunc::Count, SpecExpr::Wildcard, name)]
}

proof fn lemma_count_fold(c: int, kc: Seq<SpecColumn>, ac: Seq<SpecColumn>, r: int, n: int)
    requires
        0 <= c,
        0 <= r <= n,
        c + (n - r) <= i64::MAX,
        kc.len() == 0,
        ac.len() == 1,
        ac[0].values.len() >= n,
        forall|q: int| 0 <= q < n ==> #[trigger] ac[0].values[q] == SpecScalar::Bool(true),
    ensures
        fold_rows(count_state(c), kc, ac, seq![AggFunc::Count], r, n) == Ok::<Seq<SpecGroup>, ExecError>(
            count_state(c + (n - r)),
        ),
    decreases n - r,
{
    if r < n {
        let funcs = seq![AggFunc::Count];
        let key = row_key(kc, r);
        assert(key =~= Seq::<SpecScalar>::empty());
        let gs = count_state(c);
        assert(ac[0].values[r] == SpecScalar::Bool(true));
        if c == 0 {
            assert(find_from(gs, key, 0) is None);
            let fr = fresh_accs(1);
            assert(acc_fits(fr[0], funcs[0], ac[0].values[r]));
            assert(step_accs(fr, funcs, ac, r) == Ok::<Seq<SpecAcc>, ExecError>(
                Seq::new(1, |k: int| acc_after(fr[k], funcs[k], ac[k].values[r])),
            ));
            let a = Seq::new(1, |k: int| acc_after(fr[k], funcs[k], ac[k].values[r]));
            assert(a =~= seq![SpecAcc { count: 1, sum: 0, dsum: None, min: SpecScalar::Null, max: SpecScalar::Null }]);
            assert(gs.push(SpecGroup { key, accs: a }) =~= count_state(1));
            assert(step_row(gs, kc, ac, funcs, r) == Ok::<Seq<SpecGroup>, ExecError>(count_state(1)));
        } else {
            assert(gs[0].key == key);
            assert(find_from(gs, key, 0) == Some(0int));
            let old_accs = gs[0].accs;
            assert(acc_fits(old_accs[0], funcs[0], ac[0].values[r]));
            let a = Seq::new(1, |k: int| acc_after(old_accs[k], funcs[k], ac[k].values[r]));
            assert(step_accs(old_accs, funcs, ac, r) == Ok::<Seq<SpecAcc>, ExecError>(a));
            assert(a =~= seq![SpecAcc { count: c + 1, sum: 0, dsum: None, min: SpecScalar::Null, max: SpecScalar::Null }]);
            assert(gs.update(0, SpecGroup { key: gs[0].key, accs: a }) =~= count_state(c + 1));
            assert(step_row(gs, kc, ac, funcs, r) == Ok::<Seq<SpecGroup>, ExecError>(count_state(c + 1)));
        }
        lemma_count_fold(c + 1, kc, ac, r + 1, n);
    }
}

proof fn lemma_count_batches(c: int, bs: Seq<SpecBatch>, name: Seq<char>)
    requires
        0 <= c,
        c + total_rows(bs) <= i64::MAX,
    ensures
        agg_batches(count_state(c), bs, Seq::empty(), count_star_call(name)) == Ok::<Seq<SpecGroup>, ExecError>(
            count_state(c + total_rows(bs)),
        ),
    decreases bs.len(),
{
    if bs.len() > 0 {
        let b = bs[0];
        let calls = count_star_call(name);
        let names = Seq::<Seq<char>>::empty();
        let kc = Seq::new(0, |k: int| b.columns[crate::eval::index_of(b.schema, names[k])->Some_0]);
        assert(group_columns(b, names) == Ok::<Seq<SpecColumn>, ExecError>(kc));
        let args = call_args(calls);
        assert(args =~= seq![SpecExpr::Wildcard]);
        assert(args.drop_last() =~= Seq::<SpecExpr>::empty());
        let wc = SpecColumn { data_type: DataType::Boolean, values: Seq::new(b.num_rows, |k: int| SpecScalar::Bool(true)) };
        assert(spec_eval(b, SpecExpr::Wildcard) == Ok::<SpecColumn, ExecError>(wc));
        assert(eval_all(b, Seq::<SpecExpr>::empty()) == Ok::<Seq<SpecColumn>, ExecError>(Seq::empty()));
        assert(eval_all(b, args.drop_last()) == Ok::<Seq<SpecColumn>, ExecError>(Seq::empty()));
        assert(args.last() == SpecExpr::Wildcard);
        assert(Seq::<SpecColumn>::empty().push(wc) =~= seq![wc]);
        assert(eval_all(b, args) == Ok::<Seq<SpecColumn>, ExecError>(seq![wc]));
        let funcs = call_funcs(calls);
        assert(funcs =~= seq![AggFunc::Count]);
        lemma_count_fold(c, kc, seq![wc], 0, b.num_rows as int);
        assert(agg_batch(count_state(c), b, names, calls) == Ok::<Seq<SpecGroup>, ExecError>(
            count_state(c + b.num_rows),
        ));
        lemma_count_batches(c + b.num_rows, bs.drop_first(), name);
    }
}

/// COUNT(*) without GROUP BY counts every row: over a stream of `r` rows
/// that ends without error, the aggregation yields one row holding `r`.
pub proof fn law_count_star(bs: Seq<SpecBatch>, name: Seq<char>, out: Seq<SpecField>)
    requires
        out == seq![SpecField { name, data_type: DataType::Int64, nullable: true }],
        total_rows(bs) <= i64::MAX,
    ensures
        agg_run(Seq::empty(), bs, None, Seq::empty(), count_star_call(name), out) == Ok::<SpecBatch, ExecError>(
            built(out, seq![SpecColumn { data_type: DataType::Int64, values: seq![SpecScalar::Int(total_rows(bs) as i64)] }]),
        ),
{
    let calls = count_star_call(name);
    assert(count_state(0) =~= Seq::<SpecGroup>::empty());
    lemma_count_batches(0, bs, name);
    let t = total_rows(bs) as int;
    let g2 = out_groups(count_state(t), 0, 1);
    assert(g2.len() == 1);
    assert(g2[0].accs[0].count == t) by {
        if t == 0 {
            assert(g2[0].accs == fresh_accs(1));
        }
    }
    let col = SpecColumn { data_type: DataType::Int64, values: seq![SpecScalar::Int(t as i64)] };
    let cols = Seq::new(out.len(), |k: int| out_column(g2, 0, calls, out, k));
    assert(out_column(g2, 0, calls, out, 0).values =~= col.values);
    assert(cols =~= seq![col]);
    assert(column_fits_field(col, out[0], 1));
    assert(can_build(out, cols));
}


/// A cell that a CSV field reads as fits its column's type.
proof fn lemma_read_cell_fits(row: Seq<SpecRawCell>, k: int, t: DataType)
    ensures
        read_cell(row, k, t) matches Ok(v) ==> fits(v, t),
{
}

/// A scan reads every record once, in order: when every field of every
/// record reads as its column's type, the scan's batches end without error,
/// hold as many rows as there are records from `pos` on, and column by
/// column, their cells put one after another are those records' fields as
/// read (an empty field as null).  Each batch holds 1 to `BATCH_SIZE` rows,
/// every one but the last exactly `BATCH_SIZE`: a short batch is the last.
pub proof fn law_scan_rows(t: Seq<SpecColumnDef>, rows: Seq<Seq<SpecRawCell>>, pos: int)
    requires
        0 <= pos <= rows.len(),
        t.len() > 0,
        forall|r: int, k: int|
            0 <= r < rows.len() && 0 <= k < t.len() ==> (#[trigger] read_cell(rows[r], k, t[k].data_type)) is Ok,
    ensures
        scan_stream(table_fields(t), rows, pos, false).error is None,
        total_rows(scan_stream(table_fields(t), rows, pos, false).batches) == rows.len() - pos,
        forall|k: int|
            0 <= k < t.len() ==> #[trigger] concat_values(scan_stream(table_fields(t), rows, pos, false).batches, k)
                == Seq::new((rows.len() - pos) as nat, |r: int| cell_value(rows[pos + r], k, t[k].data_type)),
        forall|i: int|
            0 <= i < scan_stream(table_fields(t), rows, pos, false).batches.len() ==> 1 <= (#[trigger] scan_stream(
                table_fields(t),
                rows,
                pos,
                false,
            ).batches[i]).num_rows <= BATCH_SIZE,
        forall|i: int|
            0 <= i < scan_stream(table_fields(t), rows, pos, false).batches.len() - 1 ==> (#[trigger] scan_stream(
                table_fields(t),
                rows,
                pos,
                false,
            ).batches[i]).num_rows == BATCH_SIZE,
    decreases rows.len() - pos,
{
    let fields = table_fields(t);
    if pos < rows.len() {
        let end = if rows.len() - pos > BATCH_SIZE { pos + BATCH_SIZE } else { rows.len() as int };
        let chunk = rows.subrange(pos, end);
        assert forall|r: int, k: int|
            0 <= r < chunk.len() && 0 <= k < fields.len() implies (#[trigger] read_cell(chunk[r], k, fields[k].data_type)) is Ok by {
            assert(chunk[r] == rows[pos + r]);
            assert(fields[k].data_type == t[k].data_type);
            assert(read_cell(rows[pos + r], k, t[k].data_type) is Ok);
        }
        let cols = chunk_columns(fields, chunk);
        assert forall|k: int| 0 <= k < cols.len() implies column_fits_field(
            #[trigger] cols[k],
            fields[k],
            cols[0].values.len(),
        ) by {
            assert forall|q: int| 0 <= q < cols[k].values.len() implies fits(#[trigger] cols[k].values[q], cols[k].data_type) by {
                assert(read_cell(chunk[q], k, fields[k].data_type) is Ok);
                lemma_read_cell_fits(chunk[q], k, fields[k].data_type);
            }
        }
        assert(can_build(fields, cols));
        let b = built(fields, cols);
        assert(read_chunk(fields, chunk) == Ok::<SpecBatch, ExecError>(b));
        let done = end - pos < BATCH_SIZE;
        let rest = scan_stream(fields, rows, end, done);
        if !done {
            law_scan_rows(t, rows, end);
        } else {
            assert(rest == crate::exec::empty_stream());
        }
        let all = seq![b] + rest.batches;
        assert(all.drop_first() =~= rest.batches);
        assert(all[0] == b);
        assert(total_rows(all) == b.num_rows + total_rows(rest.batches));
        assert(b.num_rows == end - pos);
        assert forall|i: int| 0 <= i < all.len() implies 1 <= (#[trigger] all[i]).num_rows <= BATCH_SIZE by {
            if i > 0 {
                assert(all[i] == rest.batches[i - 1]);
            }
        }
        assert forall|i: int| 0 <= i < all.len() - 1 implies (#[trigger] all[i]).num_rows == BATCH_SIZE by {
            if i > 0 {
                assert(all[i] == rest.batches[i - 1]);
            } else {
                assert(!done);
            }
        }
        assert forall|k: int| 0 <= k < t.len() implies #[trigger] concat_values(all, k) == Seq::new(
            (rows.len() - pos) as nat,
            |r: int| cell_value(rows[pos + r], k, t[k].data_type),
        ) by {
            assert(concat_values(all, k) == b.columns[k].values + concat_values(rest.batches, k));
            assert(fields[k].data_type == t[k].data_type);
            if done {
                assert(end == rows.len());
                assert(concat_values(rest.batches, k) =~= Seq::<SpecScalar>::empty());
            }
            assert(concat_values(all, k) =~= Seq::new(
                (rows.len() - pos) as nat,
                |r: int| cell_value(rows[pos + r], k, t[k].data_type),
            ));
        }
    } else {
        assert forall|k: int| 0 <= k < t.len() implies #[trigger] concat_values(
            scan_stream(table_fields(t), rows, pos, false).batches,
            k,
        ) == Seq::new((rows.len() - pos) as nat, |r: int| cell_value(rows[pos + r], k, t[k].data_type)) by {
            assert(Seq::new((rows.len() - pos) as nat, |r: int| cell_value(rows[pos + r], k, t[k].data_type))
                =~= Seq::<SpecScalar>::empty());
        }
    }
}


/// Once a node's stream is over, `next` answers `None` and the stream
/// stays over: an exhausted node stays exhausted.
pub proof fn law_exhausted(r: Result<Option<crate::batch::Batch>, ExecError>, t: Stream)
    requires
        next_result(r, empty_stream()),
        after(r, empty_stream(), t),
    ensures
        r matches Ok(None),
        t == empty_stream(),
{
}

proof fn lemma_last_dot(s: Seq<char>, k: int)
    requires
        0 <= k <= s.len(),
    ensures
        last_dot_before(s, k) matches Some(i) ==> 0 <= i < k && s[i] == '.' && forall|j: int|
            i < j < k ==> #[trigger] s[j] != '.',
        last_dot_before(s, k) is None ==> forall|j: int| 0 <= j < k ==> #[trigger] s[j] != '.',
    decreases k,
{
    if k > 0 {
        lemma_last_dot(s, k - 1);
    }
}

proof fn lemma_no_dot(s: Seq<char>, k: int)
    requires
        0 <= k <= s.len(),
        forall|j: int| 0 <= j < k ==> #[trigger] s[j] != '.',
    ensures
        last_dot_before(s, k) is None,
    decreases k,
{
    if k > 0 {
        lemma_no_dot(s, k - 1);
    }
}

/// Taking the table qualifier off a name twice is taking it off once.
pub proof fn law_strip_table_prefix_idempotent(s: Seq<char>)
    ensures
        spec_strip_table_prefix(spec_strip_table_prefix(s)) == spec_strip_table_prefix(s),
{
    let t = spec_strip_table_prefix(s);
    lemma_last_dot(s, s.len() as int);
    assert forall|j: int| 0 <= j < t.len() implies #[trigger] t[j] != '.' by {
        match last_dot_before(s, s.len() as int) {
            Some(i) => {
                assert(t[j] == s[i + 1 + j]);
            },
            None => {},
        }
    }
    lemma_no_dot(t, t.len() as int);
}

proof fn lemma_zip_len(op: BinOp, xs: Seq<SpecScalar>, ys: Seq<SpecScalar>)
    ensures
        zip_cells(op, xs, ys) matches Ok(vs) ==> vs.len() == xs.len(),
    decreases xs.len(),
{
    if xs.len() > 0 {
        lemma_zip_len(op, xs.drop_last(), ys.take(xs.len() - 1));
    }
}

proof fn lemma_map_len(op: UnaryOp, xs: Seq<SpecScalar>)
    ensures
        map_cells(op, xs) matches Ok(vs) ==> vs.len() == xs.len(),
    decreases xs.len(),
{
    if xs.len() > 0 {
        lemma_map_len(op, xs.drop_last());
    }
}

/// An expression evaluates to a column of one cell per row.
pub proof fn lemma_eval_len(b: SpecBatch, e: SpecExpr)
    requires
        batch_wf(b),
    ensures
        spec_eval(b, e) matches Ok(c) ==> c.values.len() == b.num_rows,
    decreases e,
{
    match e {
        SpecExpr::Column(n) => {
            crate::join::lemma_index_of_range(b.schema, n, 0);
            match crate::eval::index_of(b.schema, n) {
                Some(i) => {
                    assert(column_fits_field(b.columns[i], b.schema[i], b.num_rows));
                },
                None => {},
            }
        },
        SpecExpr::BinOp { op, left, right } => {
            lemma_eval_len(b, *left);
            lemma_eval_len(b, *right);
            match spec_eval(b, *left) {
                Ok(x) => match spec_eval(b, *right) {
                    Ok(y) => {
                        lemma_zip_len(op, x.values, y.values);
                    },
                    Err(_) => {},
                },
                Err(_) => {},
            }
        },
        SpecExpr::Unary { op, expr } => {
            lemma_eval_len(b, *expr);
            match spec_eval(b, *expr) {
                Ok(x) => {
                    lemma_map_len(op, x.values);
                },
                Err(_) => {},
            }
        },
        _ => {},
    }
}

proof fn lemma_eval_all_len(b: SpecBatch, es: Seq<SpecExpr>)
    requires
        batch_wf(b),
    ensures
        eval_all(b, es) matches Ok(cs) ==> cs.len() == es.len() && forall|k: int|
            0 <= k < cs.len() ==> (#[trigger] cs[k]).values.len() == b.num_rows,
    decreases es.len(),
{
    if es.len() > 0 {
        lemma_eval_all_len(b, es.drop_last());
        lemma_eval_len(b, es.last());
    }
}

/// SELECT without aggregates keeps the number of rows: when every batch
/// of the input projects, the output has as many rows as the input.
pub proof fn law_project_rows(ps: Seq<(Seq<char>, SpecExpr)>, out: Seq<SpecField>, bs: Seq<SpecBatch>, err: Option<ExecError>)
    requires
        forall|i: int| 0 <= i < bs.len() ==> batch_wf(#[trigger] bs[i]),
        forall|i: int| 0 <= i < bs.len() ==> (#[trigger] spec_project_batch(bs[i], ps, out)) is Ok,
    ensures
        total_rows(project_seq(ps, out, bs, err).batches) == total_rows(bs),
    decreases bs.len(),
{
    if bs.len() > 0 {
        let t = bs.drop_first();
        assert forall|i: int| 0 <= i < t.len() implies batch_wf(#[trigger] t[i]) by {
            assert(t[i] == bs[i + 1]);
        }
        assert forall|i: int| 0 <= i < t.len() implies (#[trigger] spec_project_batch(t[i], ps, out)) is Ok by {
            assert(t[i] == bs[i + 1]);
            assert(spec_project_batch(bs[i + 1], ps, out) is Ok);
        }
        law_project_rows(ps, out, t, err);
        assert(batch_wf(bs[0]));
        assert(spec_project_batch(bs[0], ps, out) is Ok);
        lemma_eval_all_len(bs[0], ps.map_values(|p: (Seq<char>, SpecExpr)| p.1));
        let p = spec_project_batch(bs[0], ps, out)->Ok_0;
        assert(p.num_rows == bs[0].num_rows);
        let rest = project_seq(ps, out, t, err);
        let all = seq![p] + rest.batches;
        assert(all.drop_first() =~= rest.batches);
        assert(all[0] == p);
        assert(total_rows(all) == p.num_rows + total_rows(rest.batches));
    }
}


/// No two groups share a key.
pub open spec fn keys_distinct(gs: Seq<SpecGroup>) -> bool {
    forall|i: int, j: int| 0 <= i < j < gs.len() ==> (#[trigger] gs[i]).key != (#[trigger] gs[j]).key
}

pub proof fn lemma_find_from(gs: Seq<SpecGroup>, key: Seq<SpecScalar>, k: int)
    requires
        0 <= k <= gs.len(),
    ensures
        find_from(gs, key, k) matches Some(i) ==> k <= i < gs.len() && gs[i].key == key,
        find_from(gs, key, k) is None ==> forall|j: int| k <= j < gs.len() ==> (#[trigger] gs[j]).key != key,
    decreases gs.len() - k,
{
    if k < gs.len() {
        lemma_find_from(gs, key, k + 1);
    }
}

pub proof fn lemma_step_row_distinct(gs: Seq<SpecGroup>, kc: Seq<SpecColumn>, ac: Seq<SpecColumn>, funcs: Seq<AggFunc>, r: int)
    requires
        keys_distinct(gs),
    ensures
        step_row(gs, kc, ac, funcs, r) matches Ok(g) ==> keys_distinct(g),
{
    let key = row_key(kc, r);
    lemma_find_from(gs, key, 0);
    match step_row(gs, kc, ac, funcs, r) {
        Ok(g) => {
            assert forall|i: int, j: int| 0 <= i < j < g.len() implies (#[trigger] g[i]).key != (#[trigger] g[j]).key by {
                if j == gs.len() {
                    assert(g[j].key == key);
                    assert(g[i] == gs[i]);
                } else {
                    assert(g[i].key == gs[i].key);
                    assert(g[j].key == gs[j].key);
                }
            }
        },
        Err(_) => {},
    }
}

proof fn lemma_fold_rows_distinct(gs: Seq<SpecGroup>, kc: Seq<SpecColumn>, ac: Seq<SpecColumn>, funcs: Seq<AggFunc>, r: int, n: int)
    requires
        keys_distinct(gs),
    ensures
        fold_rows(gs, kc, ac, funcs, r, n) matches Ok(g) ==> keys_distinct(g),
    decreases n - r,
{
    if r < n {
        lemma_step_row_distinct(gs, kc, ac, funcs, r);
        match step_row(gs, kc, ac, funcs, r) {
            Ok(g) => {
                lemma_fold_rows_distinct(g, kc, ac, funcs, r + 1, n);
            },
            Err(_) => {},
        }
    }
}

/// GROUP BY keeps one group per key: folding any batches into groups with
/// distinct keys gives groups with distinct keys (so the output has one
/// row per distinct key).
pub proof fn law_group_keys_distinct(gs: Seq<SpecGroup>, bs: Seq<SpecBatch>, names: Seq<Seq<char>>, calls: Seq<(AggFunc, SpecExpr, Seq<char>)>)
    requires
        keys_distinct(gs),
    ensures
        agg_batches(gs, bs, names, calls) matches Ok(g) ==> keys_distinct(g),
    decreases bs.len(),
{
    if bs.len() > 0 {
        match group_columns(bs[0], names) {
            Ok(kc) => match eval_all(bs[0], call_args(calls)) {
                Ok(ac) => {
                    lemma_fold_rows_distinct(gs, kc, ac, call_funcs(calls), 0, bs[0].num_rows as int);
                },
                Err(_) => {},
            },
            Err(_) => {},
        }
        match agg_batch(gs, bs[0], names, calls) {
            Ok(g) => {
                law_group_keys_distinct(g, bs.drop_first(), names, calls);
            },
            Err(_) => {},
        }
    }
}

proof fn lemma_matches_of(key: Option<Seq<char>>, rk: Seq<Option<Seq<char>>>, m: int, p: int)
    requires
        0 <= m <= rk.len(),
        0 <= p < matches_of(key, rk, m).len(),
    ensures
        0 <= matches_of(key, rk, m)[p] < m,
        rk[matches_of(key, rk, m)[p]] == key,
        key is Some,
    decreases m,
{
    if m > 0 {
        let prev = matches_of(key, rk, m - 1);
        if p < prev.len() {
            lemma_matches_of(key, rk, m - 1, p);
        }
    }
}

/// A join pairs only rows whose keys match: the left row's key is the right
/// row's, and it is not null.
pub proof fn law_join_keys_match(lk: Seq<Option<Seq<char>>>, rk: Seq<Option<Seq<char>>>, n: int, p: int)
    requires
        0 <= n <= lk.len(),
        0 <= p < join_pairs(lk, rk, n).len(),
    ensures
        lk[join_pairs(lk, rk, n)[p].0] == rk[join_pairs(lk, rk, n)[p].1],
        lk[join_pairs(lk, rk, n)[p].0] is Some,
    decreases n,
{
    if n > 0 {
        let prev = join_pairs(lk, rk, n - 1);
        if p < prev.len() {
            law_join_keys_match(lk, rk, n - 1, p);
        } else {
            lemma_matches_of(lk[n - 1], rk, rk.len() as int, p - prev.len());
        }
    }
}


/// `n` distinct positions below `n` are all of them.
proof fn lemma_perm_onto(p: Seq<usize>, n: nat, v: int)
    requires
        p.len() == n,
        forall|i: int| 0 <= i < p.len() ==> #[trigger] p[i] < n,
        forall|i: int, j: int| 0 <= i < j < p.len() ==> p[i] != p[j],
        0 <= v < n,
    ensures
        exists|j: int| 0 <= j < p.len() && p[j] as int == v,
{
    let q = p.map_values(|x: usize| x as int);
    assert(q.no_duplicates()) by {
        assert forall|i: int, j: int| 0 <= i < q.len() && 0 <= j < q.len() && i != j implies q[i] != q[j] by {
            if i < j {
                assert(p[i] != p[j]);
            } else {
                assert(p[j] != p[i]);
            }
        }
    }
    q.unique_seq_to_set();
    let r = vstd::set_lib::set_int_range(0, n as int);
    vstd::set_lib::lemma_int_range(0, n as int);
    assert(q.to_set().subset_of(r)) by {
        assert forall|x: int| q.to_set().contains(x) implies r.contains(x) by {
            assert(q.contains(x));
            let j = choose|j: int| 0 <= j < q.len() && q[j] == x;
            assert(p[j] < n);
        }
    }
    vstd::set_lib::lemma_len_subset(q.to_set(), r);
    vstd::set_lib::lemma_subset_equality(q.to_set(), r);
    assert(r.contains(v));
    assert(q.to_set().contains(v));
    assert(q.contains(v));
    let j = choose|j: int| 0 <= j < q.len() && q[j] == v;
    assert(p[j] as int == v);
}

/// The stable order is unique: two sequences that both order rows `0..n`
/// stably by the keys are the same, so a sort's result is determined by
/// its input.
pub proof fn law_sorted_perm_unique(cols: Seq<SpecColumn>, keys: Seq<(int, bool)>, p: Seq<usize>, q: Seq<usize>, n: nat)
    requires
        sorted_perm(cols, keys, p, n),
        sorted_perm(cols, keys, q, n),
    ensures
        p == q,
{
    assert forall|i: int| 0 <= i < n implies p[i] == q[i] by {
        lemma_same_prefix(cols, keys, p, q, n, i);
    }
    assert(p =~= q);
}

proof fn lemma_same_prefix(cols: Seq<SpecColumn>, keys: Seq<(int, bool)>, p: Seq<usize>, q: Seq<usize>, n: nat, i: int)
    requires
        sorted_perm(cols, keys, p, n),
        sorted_perm(cols, keys, q, n),
        0 <= i < n,
    ensures
        p[i] == q[i],
    decreases i,
{
    if i > 0 {
        lemma_same_prefix(cols, keys, p, q, n, i - 1);
    }
    assert forall|k: int| 0 <= k < i implies p[k] == q[k] by {
        lemma_same_prefix(cols, keys, p, q, n, k);
    }
    if p[i] != q[i] {
        let x = p[i] as int;
        let y = q[i] as int;
        // y comes later in p, and x later in q
        lemma_perm_onto(p, n, y);
        let j = choose|j: int| 0 <= j < p.len() && p[j] as int == y;
        lemma_perm_onto(q, n, x);
        let k = choose|k: int| 0 <= k < q.len() && q[k] as int == x;
        if j < i {
            assert(q[j] == p[j]);
            assert(q[j] == q[i]);
        }
        if k < i {
            assert(p[k] == q[k]);
            assert(p[k] == p[i]);
        }
        assert(j > i && k > i);
        assert(row_order(cols, keys, x, y) <= 0);
        assert(row_order(cols, keys, y, x) <= 0);
        lemma_row_order(cols, keys, x, y, x);
        assert(row_order(cols, keys, x, y) == 0);
        assert(x < y);
        assert(y < x);
    }
}


/// The non-empty values of column `c` in the first `n` rows.
pub open spec fn column_values(rows: Seq<Vec<String>>, n: int, c: int) -> Set<Seq<char>> {
    Set::new(|v: Seq<char>| exists|r: int| 0 <= r < n && #[trigger] has_value(rows, r, c) && rows[r]@[c]@ == v)
}

proof fn lemma_all_values_same(rows1: Seq<Vec<String>>, n1: int, rows2: Seq<Vec<String>>, n2: int, c: int, p: spec_fn(Seq<char>) -> bool)
    requires
        column_values(rows1, n1, c) == column_values(rows2, n2, c),
        all_values(rows1, n1, c, p),
    ensures
        all_values(rows2, n2, c, p),
{
    assert forall|q: int| 0 <= q < n2 && #[trigger] has_value(rows2, q, c) implies p(rows2[q]@[c]@) by {
        let v = rows2[q]@[c]@;
        assert(column_values(rows2, n2, c).contains(v));
        assert(column_values(rows1, n1, c).contains(v));
        let r = choose|r: int| 0 <= r < n1 && #[trigger] has_value(rows1, r, c) && rows1[r]@[c]@ == v;
    }
}

/// The type inferred for a column depends only on the set of its non-empty
/// values in the sample: the order of the rows, repeated values, and rows
/// that hold no value for the column (too short, or an empty field) do not
/// change it.
pub proof fn law_column_type_by_values(rows1: Seq<Vec<String>>, n1: int, rows2: Seq<Vec<String>>, n2: int, c: int)
    requires
        column_values(rows1, n1, c) == column_values(rows2, n2, c),
    ensures
        spec_column_type(rows1, n1, c) == spec_column_type(rows2, n2, c),
{
    let e1 = exists|r: int| 0 <= r < n1 && #[trigger] has_value(rows1, r, c);
    let e2 = exists|r: int| 0 <= r < n2 && #[trigger] has_value(rows2, r, c);
    if e1 {
        let r = choose|r: int| 0 <= r < n1 && #[trigger] has_value(rows1, r, c);
        assert(column_values(rows1, n1, c).contains(rows1[r]@[c]@));
        assert(column_values(rows2, n2, c).contains(rows1[r]@[c]@));
    }
    if e2 {
        let r = choose|r: int| 0 <= r < n2 && #[trigger] has_value(rows2, r, c);
        assert(column_values(rows2, n2, c).contains(rows2[r]@[c]@));
        assert(column_values(rows1, n1, c).contains(rows2[r]@[c]@));
    }
    assert(e1 == e2);
    let pb = |v: Seq<char>| spec_is_bool_str(v);
    let pi = |v: Seq<char>| spec_is_i64_str(v);
    let pf = |v: Seq<char>| spec_is_f64_str(v);
    if all_values(rows1, n1, c, pb) {
        lemma_all_values_same(rows1, n1, rows2, n2, c, pb);
    }
    if all_values(rows2, n2, c, pb) {
        lemma_all_values_same(rows2, n2, rows1, n1, c, pb);
    }
    if all_values(rows1, n1, c, pi) {
        lemma_all_values_same(rows1, n1, rows2, n2, c, pi);
    }
    if all_values(rows2, n2, c, pi) {
        lemma_all_values_same(rows2, n2, rows1, n1, c, pi);
    }
    if all_values(rows1, n1, c, pf) {
        lemma_all_values_same(rows1, n1, rows2, n2, c, pf);
    }
    if all_values(rows2, n2, c, pf) {
        lemma_all_values_same(rows2, n2, rows1, n1, c, pf);
    }
}

/// A projected expression's column has the type that the projection
/// records for it: whenever the expression evaluates on a well-formed
/// batch, the column's type is `infer_expr_type` over the batch's schema.
pub proof fn law_project_type(b: SpecBatch, e: SpecExpr)
    requires
        batch_wf(b),
    ensures
        spec_eval(b, e) matches Ok(c) ==> c.data_type == crate::exec::infer_expr_type(e, b.schema),
    decreases e,
{
    match e {
        SpecExpr::Column(n) => {
            crate::join::lemma_index_of_range(b.schema, n, 0);
            match crate::eval::index_of(b.schema, n) {
                Some(i) => {
                    assert(column_fits_field(b.columns[i], b.schema[i], b.num_rows));
                },
                None => {},
            }
        },
        SpecExpr::BinOp { op, left, right } => {
            law_project_type(b, *left);
            law_project_type(b, *right);
        },
        SpecExpr::Unary { op, expr } => {
            law_project_type(b, *expr);
        },
        _ => {},
    }
}


// ── Batch boundaries do not matter to an aggregation ──────────────────────────

/// The columns of `a` with those of `b` after them, column by column.
pub open spec fn cat_cols(a: Seq<SpecColumn>, b: Seq<SpecColumn>) -> Seq<SpecColumn> {
    Seq::new(a.len(), |k: int| SpecColumn { data_type: a[k].data_type, values: a[k].values + b[k].values })
}

/// The rows of `a`, then those of `b`, under `a`'s schema.
pub open spec fn join2(a: SpecBatch, b: SpecBatch) -> SpecBatch {
    SpecBatch { schema: a.schema, columns: cat_cols(a.columns, b.columns), num_rows: a.num_rows + b.num_rows }
}

/// All rows of the batches as one batch (the first batch's own when there
/// is one).
pub open spec fn merge_all(bs: Seq<SpecBatch>) -> SpecBatch
    decreases bs.len(),
{
    if bs.len() <= 1 {
        bs[0]
    } else {
        join2(bs[0], merge_all(bs.drop_first()))
    }
}

/// Every batch is well formed under the schema `s`.
pub open spec fn all_under(bs: Seq<SpecBatch>, s: Seq<SpecField>) -> bool {
    forall|i: int| 0 <= i < bs.len() ==> batch_wf(#[trigger] bs[i]) && bs[i].schema == s
}

proof fn lemma_join2_wf(a: SpecBatch, b: SpecBatch)
    requires
        batch_wf(a),
        batch_wf(b),
        a.schema == b.schema,
    ensures
        batch_wf(join2(a, b)),
        join2(a, b).schema == a.schema,
{
    let j = join2(a, b);
    assert forall|k: int| 0 <= k < j.columns.len() implies column_fits_field(#[trigger] j.columns[k], j.schema[k], j.num_rows) by {
        assert(column_fits_field(a.columns[k], a.schema[k], a.num_rows));
        assert(column_fits_field(b.columns[k], b.schema[k], b.num_rows));
        let c = j.columns[k];
        assert forall|q: int| 0 <= q < c.values.len() implies fits(#[trigger] c.values[q], c.data_type) by {
            if q < a.num_rows {
                assert(c.values[q] == a.columns[k].values[q]);
            } else {
                assert(c.values[q] == b.columns[k].values[q - a.num_rows]);
            }
        }
        if !j.schema[k].nullable {
            assert forall|q: int| 0 <= q < j.num_rows implies !(#[trigger] c.values[q] is Null) by {
                if q < a.num_rows {
                    assert(c.values[q] == a.columns[k].values[q]);
                } else {
                    assert(c.values[q] == b.columns[k].values[q - a.num_rows]);
                }
            }
        }
    }
}

proof fn lemma_merge_all_wf(bs: Seq<SpecBatch>, s: Seq<SpecField>)
    requires
        bs.len() > 0,
        all_under(bs, s),
    ensures
        batch_wf(merge_all(bs)),
        merge_all(bs).schema == s,
        merge_all(bs).num_rows == total_rows(bs),
    decreases bs.len(),
{
    assert(batch_wf(bs[0]) && bs[0].schema == s);
    if bs.len() == 1 {
        assert(bs.drop_first().len() == 0);
        assert(total_rows(bs) == bs[0].num_rows + total_rows(bs.drop_first()));
    } else {
        let t = bs.drop_first();
        assert forall|i: int| 0 <= i < t.len() implies batch_wf(#[trigger] t[i]) && t[i].schema == s by {
            assert(t[i] == bs[i + 1]);
        }
        lemma_merge_all_wf(t, s);
        lemma_join2_wf(bs[0], merge_all(t));
    }
}

proof fn lemma_zip_concat(op: BinOp, x1: Seq<SpecScalar>, y1: Seq<SpecScalar>, x2: Seq<SpecScalar>, y2: Seq<SpecScalar>)
    requires
        x1.len() == y1.len(),
        x2.len() == y2.len(),
        zip_cells(op, x1, y1) is Ok,
        zip_cells(op, x2, y2) is Ok,
    ensures
        zip_cells(op, x1 + x2, y1 + y2) == Ok::<Seq<SpecScalar>, ExecError>(
            zip_cells(op, x1, y1)->Ok_0 + zip_cells(op, x2, y2)->Ok_0,
        ),
    decreases x2.len(),
{
    if x2.len() == 0 {
        assert(x1 + x2 =~= x1);
        assert(y1 + y2 =~= y1);
        assert(zip_cells(op, x1, y1)->Ok_0 + zip_cells(op, x2, y2)->Ok_0 =~= zip_cells(op, x1, y1)->Ok_0);
    } else {
        let n = x2.len();
        assert(y2.take(n - 1) =~= y2.drop_last());
        lemma_zip_concat(op, x1, y1, x2.drop_last(), y2.drop_last());
        let xs = x1 + x2;
        let ys = y1 + y2;
        assert(xs.drop_last() =~= x1 + x2.drop_last());
        assert(ys.take(xs.len() - 1) =~= y1 + y2.drop_last());
        assert(xs.last() == x2.last());
        assert(ys[xs.len() - 1] == y2[n - 1]);
        let p2 = zip_cells(op, x2.drop_last(), y2.drop_last())->Ok_0;
        let v = crate::eval::binop_cell(op, x2.last(), y2[n - 1])->Ok_0;
        assert(zip_cells(op, x2, y2)->Ok_0 == p2.push(v));
        assert((zip_cells(op, x1, y1)->Ok_0 + p2).push(v) =~= zip_cells(op, x1, y1)->Ok_0 + p2.push(v));
    }
}

proof fn lemma_map_concat(op: UnaryOp, x1: Seq<SpecScalar>, x2: Seq<SpecScalar>)
    requires
        map_cells(op, x1) is Ok,
        map_cells(op, x2) is Ok,
    ensures
        map_cells(op, x1 + x2) == Ok::<Seq<SpecScalar>, ExecError>(map_cells(op, x1)->Ok_0 + map_cells(op, x2)->Ok_0),
    decreases x2.len(),
{
    if x2.len() == 0 {
        assert(x1 + x2 =~= x1);
        assert(map_cells(op, x1)->Ok_0 + map_cells(op, x2)->Ok_0 =~= map_cells(op, x1)->Ok_0);
    } else {
        lemma_map_concat(op, x1, x2.drop_last());
        let xs = x1 + x2;
        assert(xs.drop_last() =~= x1 + x2.drop_last());
        assert(xs.last() == x2.last());
        let p2 = map_cells(op, x2.drop_last())->Ok_0;
        let v = crate::eval::unary_cell(op, x2.last())->Ok_0;
        assert((map_cells(op, x1)->Ok_0 + p2).push(v) =~= map_cells(op, x1)->Ok_0 + p2.push(v));
    }
}

/// Evaluating an expression over two batches' rows at once gives the two
/// results one after the other.
proof fn lemma_eval_join2(a: SpecBatch, b: SpecBatch, e: SpecExpr)
    requires
        batch_wf(a),
        batch_wf(b),
        a.schema == b.schema,
        spec_eval(a, e) is Ok,
        spec_eval(b, e) is Ok,
    ensures
        spec_eval(join2(a, b), e) == Ok::<SpecColumn, ExecError>(
            SpecColumn {
                data_type: spec_eval(a, e)->Ok_0.data_type,
                values: spec_eval(a, e)->Ok_0.values + spec_eval(b, e)->Ok_0.values,
            },
        ),
        spec_eval(a, e)->Ok_0.data_type == spec_eval(b, e)->Ok_0.data_type,
    decreases e,
{
    let j = join2(a, b);
    lemma_eval_len(a, e);
    lemma_eval_len(b, e);
    match e {
        SpecExpr::Column(n) => {
            crate::join::lemma_index_of_range(a.schema, n, 0);
            let i = crate::eval::index_of(a.schema, n)->Some_0;
            assert(column_fits_field(a.columns[i], a.schema[i], a.num_rows));
            assert(column_fits_field(b.columns[i], b.schema[i], b.num_rows));
        },
        SpecExpr::Literal(v) => {
            match v {
                crate::ast::SpecValue::Int(x) => {
                    assert(Seq::new(j.num_rows, |k: int| SpecScalar::Int(x)) =~= Seq::new(a.num_rows, |k: int| SpecScalar::Int(x)) + Seq::new(b.num_rows, |k: int| SpecScalar::Int(x)));
                },
                crate::ast::SpecValue::Double(_, x) => {
                    assert(Seq::new(j.num_rows, |k: int| SpecScalar::Float(x)) =~= Seq::new(a.num_rows, |k: int| SpecScalar::Float(x)) + Seq::new(b.num_rows, |k: int| SpecScalar::Float(x)));
                },
                crate::ast::SpecValue::Str(x) => {
                    assert(Seq::new(j.num_rows, |k: int| SpecScalar::Str(x)) =~= Seq::new(a.num_rows, |k: int| SpecScalar::Str(x)) + Seq::new(b.num_rows, |k: int| SpecScalar::Str(x)));
                },
                crate::ast::SpecValue::Bool(x) => {
                    assert(Seq::new(j.num_rows, |k: int| SpecScalar::Bool(x)) =~= Seq::new(a.num_rows, |k: int| SpecScalar::Bool(x)) + Seq::new(b.num_rows, |k: int| SpecScalar::Bool(x)));
                },
                crate::ast::SpecValue::Null => {
                    assert(Seq::new(j.num_rows, |k: int| SpecScalar::Null) =~= Seq::new(a.num_rows, |k: int| SpecScalar::Null) + Seq::new(b.num_rows, |k: int| SpecScalar::Null));
                },
                crate::ast::SpecValue::Float(_) => {},
            }
        },
        SpecExpr::BinOp { op, left, right } => {
            lemma_eval_join2(a, b, *left);
            lemma_eval_join2(a, b, *right);
            let xa = spec_eval(a, *left)->Ok_0;
            let ya = spec_eval(a, *right)->Ok_0;
            let xb = spec_eval(b, *left)->Ok_0;
            let yb = spec_eval(b, *right)->Ok_0;
            lemma_eval_len(a, *left);
            lemma_eval_len(a, *right);
            lemma_eval_len(b, *left);
            lemma_eval_len(b, *right);
            lemma_zip_concat(op, xa.values, ya.values, xb.values, yb.values);
        },
        SpecExpr::Unary { op, expr } => {
            lemma_eval_join2(a, b, *expr);
            let xa = spec_eval(a, *expr)->Ok_0;
            let xb = spec_eval(b, *expr)->Ok_0;
            lemma_map_concat(op, xa.values, xb.values);
        },
        SpecExpr::Wildcard => {
            assert(Seq::new(j.num_rows, |k: int| SpecScalar::Bool(true)) =~= Seq::new(a.num_rows, |k: int| SpecScalar::Bool(true)) + Seq::new(b.num_rows, |k: int| SpecScalar::Bool(true)));
        },
        SpecExpr::Agg { .. } => {},
    }
}

proof fn lemma_eval_all_join2(a: SpecBatch, b: SpecBatch, es: Seq<SpecExpr>)
    requires
        batch_wf(a),
        batch_wf(b),
        a.schema == b.schema,
        eval_all(a, es) is Ok,
        eval_all(b, es) is Ok,
    ensures
        eval_all(join2(a, b), es) == Ok::<Seq<SpecColumn>, ExecError>(cat_cols(eval_all(a, es)->Ok_0, eval_all(b, es)->Ok_0)),
        eval_all(a, es)->Ok_0.len() == es.len(),
        eval_all(b, es)->Ok_0.len() == es.len(),
        forall|k: int| 0 <= k < es.len() ==> (#[trigger] eval_all(a, es)->Ok_0[k]).values.len() == a.num_rows,
        forall|k: int| 0 <= k < es.len() ==> (#[trigger] eval_all(b, es)->Ok_0[k]).values.len() == b.num_rows,
    decreases es.len(),
{
    if es.len() > 0 {
        let p = es.drop_last();
        lemma_eval_all_join2(a, b, p);
        lemma_eval_join2(a, b, es.last());
        lemma_eval_len(a, es.last());
        lemma_eval_len(b, es.last());
        let ca = eval_all(a, p)->Ok_0;
        let cb = eval_all(b, p)->Ok_0;
        let xa = spec_eval(a, es.last())->Ok_0;
        let xb = spec_eval(b, es.last())->Ok_0;
        assert(cat_cols(ca, cb).push(SpecColumn { data_type: xa.data_type, values: xa.values + xb.values }) =~= cat_cols(ca.push(xa), cb.push(xb)));
    } else {
        assert(cat_cols(Seq::<SpecColumn>::empty(), Seq::<SpecColumn>::empty()) =~= Seq::<SpecColumn>::empty());
    }
}

proof fn lemma_group_columns_join2(a: SpecBatch, b: SpecBatch, names: Seq<Seq<char>>)
    requires
        batch_wf(a),
        batch_wf(b),
        a.schema == b.schema,
        group_columns(a, names) is Ok,
    ensures
        group_columns(b, names) is Ok,
        group_columns(join2(a, b), names) == Ok::<Seq<SpecColumn>, ExecError>(
            cat_cols(group_columns(a, names)->Ok_0, group_columns(b, names)->Ok_0),
        ),
        forall|k: int| 0 <= k < names.len() ==> (#[trigger] group_columns(a, names)->Ok_0[k]).values.len() == a.num_rows,
        forall|k: int| 0 <= k < names.len() ==> (#[trigger] group_columns(b, names)->Ok_0[k]).values.len() == b.num_rows,
        group_columns(a, names)->Ok_0.len() == names.len(),
        group_columns(b, names)->Ok_0.len() == names.len(),
{
    let ka = group_columns(a, names)->Ok_0;
    let kb = group_columns(b, names)->Ok_0;
    assert forall|k: int| 0 <= k < names.len() implies (#[trigger] crate::eval::index_of(a.schema, names[k])) is Some
        && ka[k].values.len() == a.num_rows && kb[k].values.len() == b.num_rows by {
        crate::join::lemma_index_of_range(a.schema, names[k], 0);
        let i = crate::eval::index_of(a.schema, names[k])->Some_0;
        assert(column_fits_field(a.columns[i], a.schema[i], a.num_rows));
        assert(column_fits_field(b.columns[i], b.schema[i], b.num_rows));
    }
    let j = join2(a, b);
    assert(forall|k: int| 0 <= k < names.len() ==> (#[trigger] crate::eval::index_of(j.schema, names[k])) is Some);
    let kj = Seq::new(names.len(), |k: int| j.columns[crate::eval::index_of(j.schema, names[k])->Some_0]);
    assert(group_columns(j, names) == Ok::<Seq<SpecColumn>, ExecError>(kj));
    assert forall|k: int| 0 <= k < names.len() implies #[trigger] kj[k] == cat_cols(ka, kb)[k] by {
        crate::join::lemma_index_of_range(a.schema, names[k], 0);
        let i = crate::eval::index_of(a.schema, names[k])->Some_0;
        assert(i < a.columns.len());
        assert(ka[k] == a.columns[i]);
        assert(kb[k] == b.columns[i]);
    }
    assert(kj =~= cat_cols(ka, kb));
}

/// Folding the rows of two runs of columns at once is folding the first
/// run, then the second.
proof fn lemma_fold_split(
    gs: Seq<SpecGroup>,
    kc1: Seq<SpecColumn>,
    ac1: Seq<SpecColumn>,
    kc2: Seq<SpecColumn>,
    ac2: Seq<SpecColumn>,
    funcs: Seq<AggFunc>,
    r: int,
    n1: int,
    n2: int,
)
    requires
        0 <= r <= n1,
        0 <= n2,
        kc1.len() == kc2.len(),
        ac1.len() == ac2.len(),
        funcs.len() <= ac1.len(),
        forall|k: int| 0 <= k < kc1.len() ==> (#[trigger] kc1[k]).values.len() == n1 && kc2[k].values.len() == n2,
        forall|k: int| 0 <= k < ac1.len() ==> (#[trigger] ac1[k]).values.len() == n1 && ac2[k].values.len() == n2,
    ensures
        fold_rows(gs, cat_cols(kc1, kc2), cat_cols(ac1, ac2), funcs, r, n1 + n2) == match fold_rows(
            gs,
            kc1,
            ac1,
            funcs,
            r,
            n1,
        ) {
            Ok(g) => fold_rows(g, kc2, ac2, funcs, 0, n2),
            Err(e) => Err(e),
        },
    decreases n1 - r,
{
    let kc = cat_cols(kc1, kc2);
    let ac = cat_cols(ac1, ac2);
    if r == n1 {
        lemma_fold_shift(gs, kc1, ac1, kc2, ac2, funcs, 0, n1, n2);
    } else {
        assert(row_key(kc, r) =~= row_key(kc1, r)) by {
            assert forall|k: int| 0 <= k < kc.len() implies kc[k].values[r] == kc1[k].values[r] by {}
        }
        lemma_step_accs_same(gs, ac, ac1, funcs, r, r);
        lemma_fold_split(gs_after(gs, kc1, ac1, funcs, r), kc1, ac1, kc2, ac2, funcs, r + 1, n1, n2);
    }
}

/// The groups after row `r`, where it folds without error.
pub open spec fn gs_after(gs: Seq<SpecGroup>, kc: Seq<SpecColumn>, ac: Seq<SpecColumn>, funcs: Seq<AggFunc>, r: int) -> Seq<SpecGroup> {
    match step_row(gs, kc, ac, funcs, r) {
        Ok(g) => g,
        Err(_) => gs,
    }
}

/// Row `r` of `ac` and row `q` of `bc` update every state the same way.
proof fn lemma_step_accs_same(gs: Seq<SpecGroup>, ac: Seq<SpecColumn>, bc: Seq<SpecColumn>, funcs: Seq<AggFunc>, r: int, q: int)
    requires
        forall|k: int| 0 <= k < funcs.len() ==> (#[trigger] ac[k]).values[r] == bc[k].values[q],
    ensures
        forall|accs: Seq<SpecAcc>| #[trigger] step_accs(accs, funcs, ac, r) == step_accs(accs, funcs, bc, q),
{
    assert forall|accs: Seq<SpecAcc>| #[trigger] step_accs(accs, funcs, ac, r) == step_accs(accs, funcs, bc, q) by {
        assert(Seq::new(funcs.len(), |k: int| acc_after(accs[k], funcs[k], ac[k].values[r])) =~= Seq::new(
            funcs.len(),
            |k: int| acc_after(accs[k], funcs[k], bc[k].values[q]),
        ));
        if forall|k: int| 0 <= k < funcs.len() ==> #[trigger] acc_fits(accs[k], funcs[k], ac[k].values[r]) {
            assert forall|k: int| 0 <= k < funcs.len() implies #[trigger] acc_fits(accs[k], funcs[k], bc[k].values[q]) by {
                assert(acc_fits(accs[k], funcs[k], ac[k].values[r]));
            }
        }
        if forall|k: int| 0 <= k < funcs.len() ==> #[trigger] acc_fits(accs[k], funcs[k], bc[k].values[q]) {
            assert forall|k: int| 0 <= k < funcs.len() implies #[trigger] acc_fits(accs[k], funcs[k], ac[k].values[r]) by {
                assert(acc_fits(accs[k], funcs[k], bc[k].values[q]));
            }
        }
    }
}

proof fn lemma_fold_shift(
    gs: Seq<SpecGroup>,
    kc1: Seq<SpecColumn>,
    ac1: Seq<SpecColumn>,
    kc2: Seq<SpecColumn>,
    ac2: Seq<SpecColumn>,
    funcs: Seq<AggFunc>,
    j: int,
    n1: int,
    n2: int,
)
    requires
        0 <= j <= n2,
        0 <= n1,
        kc1.len() == kc2.len(),
        ac1.len() == ac2.len(),
        funcs.len() <= ac1.len(),
        forall|k: int| 0 <= k < kc1.len() ==> (#[trigger] kc1[k]).values.len() == n1 && kc2[k].values.len() == n2,
        forall|k: int| 0 <= k < ac1.len() ==> (#[trigger] ac1[k]).values.len() == n1 && ac2[k].values.len() == n2,
    ensures
        fold_rows(gs, cat_cols(kc1, kc2), cat_cols(ac1, ac2), funcs, n1 + j, n1 + n2) == fold_rows(gs, kc2, ac2, funcs, j, n2),
    decreases n2 - j,
{
    let kc = cat_cols(kc1, kc2);
    let ac = cat_cols(ac1, ac2);
    if j < n2 {
        assert(row_key(kc, n1 + j) =~= row_key(kc2, j)) by {
            assert forall|k: int| 0 <= k < kc.len() implies kc[k].values[n1 + j] == kc2[k].values[j] by {}
        }
        lemma_step_accs_same(gs, ac, ac2, funcs, n1 + j, j);
        lemma_fold_shift(gs_after(gs, kc2, ac2, funcs, j), kc1, ac1, kc2, ac2, funcs, j + 1, n1, n2);
    }
}

/// One batch after another folds as their rows in one batch.
proof fn lemma_agg_join2(gs: Seq<SpecGroup>, a: SpecBatch, b: SpecBatch, names: Seq<Seq<char>>, calls: Seq<(AggFunc, SpecExpr, Seq<char>)>)
    requires
        batch_wf(a),
        batch_wf(b),
        a.schema == b.schema,
        group_columns(a, names) is Ok,
        eval_all(a, call_args(calls)) is Ok,
        eval_all(b, call_args(calls)) is Ok,
    ensures
        agg_batch(gs, join2(a, b), names, calls) == match agg_batch(gs, a, names, calls) {
            Ok(g) => agg_batch(g, b, names, calls),
            Err(e) => Err(e),
        },
{
    let es = call_args(calls);
    lemma_group_columns_join2(a, b, names);
    lemma_eval_all_join2(a, b, es);
    let ka = group_columns(a, names)->Ok_0;
    let kb = group_columns(b, names)->Ok_0;
    let xa = eval_all(a, es)->Ok_0;
    let xb = eval_all(b, es)->Ok_0;
    assert(es.len() == calls.len());
    assert(call_funcs(calls).len() == calls.len());
    lemma_fold_split(gs, ka, xa, kb, xb, call_funcs(calls), 0, a.num_rows as int, b.num_rows as int);
}

proof fn lemma_agg_merge_all(gs: Seq<SpecGroup>, bs: Seq<SpecBatch>, s: Seq<SpecField>, names: Seq<Seq<char>>, calls: Seq<(AggFunc, SpecExpr, Seq<char>)>)
    requires
        bs.len() > 0,
        all_under(bs, s),
        forall|i: int| 0 <= i < bs.len() ==> (#[trigger] group_columns(bs[i], names)) is Ok && eval_all(bs[i], call_args(calls)) is Ok,
    ensures
        agg_batches(gs, bs, names, calls) == agg_batch(gs, merge_all(bs), names, calls),
        eval_all(merge_all(bs), call_args(calls)) is Ok,
        group_columns(merge_all(bs), names) is Ok,
    decreases bs.len(),
{
    assert(group_columns(bs[0], names) is Ok);
    assert(batch_wf(bs[0]) && bs[0].schema == s);
    if bs.len() == 1 {
        assert(bs.drop_first().len() == 0);
        match agg_batch(gs, bs[0], names, calls) {
            Ok(g) => {
                assert(agg_batches(g, bs.drop_first(), names, calls) == Ok::<Seq<SpecGroup>, ExecError>(g));
            },
            Err(_) => {},
        }
    } else {
        let t = bs.drop_first();
        assert forall|i: int| 0 <= i < t.len() implies batch_wf(#[trigger] t[i]) && t[i].schema == s by {
            assert(t[i] == bs[i + 1]);
        }
        assert forall|i: int| 0 <= i < t.len() implies (#[trigger] group_columns(t[i], names)) is Ok && eval_all(t[i], call_args(calls)) is Ok by {
            assert(t[i] == bs[i + 1]);
        }
        lemma_merge_all_wf(t, s);
        let m = merge_all(t);
        match agg_batch(gs, bs[0], names, calls) {
            Ok(g) => {
                lemma_agg_merge_all(g, t, s, names, calls);
            },
            Err(_) => {
                lemma_agg_merge_all(gs, t, s, names, calls);
            },
        }
        assert(eval_all(bs[0], call_args(calls)) is Ok);
        lemma_agg_join2(gs, bs[0], m, names, calls);
        lemma_eval_all_join2(bs[0], m, call_args(calls));
        lemma_group_columns_join2(bs[0], m, names);
    }
}

/// An aggregation does not depend on how its input's rows are cut into
/// batches: two runs of well-formed batches under one schema that hold the
/// same rows in the same order (`merge_all`), on each of whose batches the
/// GROUP BY columns are found and the aggregates' arguments evaluate, fold
/// into the same groups, or fail with the same error.
pub proof fn law_agg_rebatch(
    gs: Seq<SpecGroup>,
    bs1: Seq<SpecBatch>,
    bs2: Seq<SpecBatch>,
    s: Seq<SpecField>,
    names: Seq<Seq<char>>,
    calls: Seq<(AggFunc, SpecExpr, Seq<char>)>,
)
    requires
        bs1.len() > 0,
        bs2.len() > 0,
        all_under(bs1, s),
        all_under(bs2, s),
        merge_all(bs1) == merge_all(bs2),
        forall|i: int| 0 <= i < bs1.len() ==> (#[trigger] group_columns(bs1[i], names)) is Ok && eval_all(bs1[i], call_args(calls)) is Ok,
        forall|i: int| 0 <= i < bs2.len() ==> (#[trigger] group_columns(bs2[i], names)) is Ok && eval_all(bs2[i], call_args(calls)) is Ok,
    ensures
        agg_batches(gs, bs1, names, calls) == agg_batches(gs, bs2, names, calls),
{
    lemma_agg_merge_all(gs, bs1, s, names, calls);
    lemma_agg_merge_all(gs, bs2, s, names, calls);
}

} // verus!
