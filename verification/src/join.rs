//! Inner equi-join: rows of the left input paired with the rows of the
//! right input whose key text is the same.
use vstd::prelude::*;

use crate::ast::{BinOp, Expr, SpecExpr};
use crate::batch::{
    built, can_build, copy_fields, fields_view, Batch, Column, ExecError, Field, Scalar, SpecBatch,
    SpecColumn, SpecField, SpecScalar,
};
use crate::catalog::DataType;
use crate::eval::{find_field, index_from, index_of};
use crate::exec::{batches_view, total_rows, Stream};
use crate::sort::{
    columns_view, concat_ok, merged_columns, spec_strip_table_prefix, strip_table_prefix,
};

verus! {

/// The columns of an ON condition `left = right` between two columns.
pub open spec fn spec_eq_columns(on: SpecExpr) -> Option<(Seq<char>, Seq<char>)> {
    match on {
        SpecExpr::BinOp { op: BinOp::Eq, left, right } => match (*left, *right) {
            (SpecExpr::Column(l), SpecExpr::Column(r)) => Some((l, r)),
            _ => None,
        },
        _ => None,
    }
}

/// The columns of an ON condition `left = right` between two columns.
pub fn extract_eq_columns(on: &Expr) -> (r: Option<(String, String)>)
    ensures
        match (r, spec_eq_columns(on@)) {
            (Some((a, b)), Some((c, d))) => a@ == c && b@ == d,
            (None, None) => true,
            _ => false,
        },
{
    match on {
        Expr::BinOp { op, left, right } => {
            if *op != BinOp::Eq {
                return None;
            }
            match (&**left, &**right) {
                (Expr::Column(l), Expr::Column(r)) => {
                    assert((**left)@ == SpecExpr::Column(l@));
                    assert((**right)@ == SpecExpr::Column(r@));
                    Some((l.clone(), r.clone()))
                },
                _ => {
                    assert(!((**left)@ is Column && (**right)@ is Column)) by {
                        match &**left {
                            Expr::Column(_) => {},
                            _ => {},
                        }
                    }
                    None
                },
            }
        },
        _ => None,
    }
}

/// 2^52: the weight of a double's lowest exponent bit.
pub open spec fn two52() -> int {
    0x10_0000_0000_0000
}

/// The biased exponent of a double given by its bits.
pub open spec fn float_exp(b: u64) -> int {
    (b as int % crate::eval::sign_bit()) / two52()
}

/// The mantissa bits of a double.
pub open spec fn float_man(b: u64) -> int {
    b as int % two52()
}

/// `x` halved `k` times, rounding down.
pub open spec fn halve(x: int, k: nat) -> int
    decreases k,
{
    if k == 0 {
        x
    } else {
        halve(x / 2, (k - 1) as nat)
    }
}

/// The lowest `k` bits of `x` are zero.
pub open spec fn low_zero(x: int, k: nat) -> bool
    decreases k,
{
    k == 0 || (x % 2 == 0 && low_zero(x / 2, (k - 1) as nat))
}

/// The text that `to_string` gives a double, where it is short to state:
/// `NaN`, `inf` and `-inf`, `0` and `-0`, and the digits of an integer below
/// 2^53 (whose shortest round-trip form is the integer itself); `None` for
/// other doubles.
pub open spec fn double_text(b: u64) -> Option<Seq<char>> {
    let e = float_exp(b);
    let m = float_man(b);
    let sign = if b as int >= crate::eval::sign_bit() {
        seq!['-']
    } else {
        Seq::empty()
    };
    if e == 2047 {
        if m != 0 {
            Some("NaN"@)
        } else {
            Some(sign + "inf"@)
        }
    } else if e == 0 && m == 0 {
        Some(sign + seq!['0'])
    } else if 1023 <= e <= 1075 && low_zero(m, (1075 - e) as nat) {
        Some(sign + crate::fmt::nat_digits(halve(m + two52(), (1075 - e) as nat) as nat))
    } else {
        None
    }
}

/// The key by which a key cell is matched, where `other` is the type of the
/// other side's key column: `None` for a null, which matches nothing (an
/// inner join); else the text that `to_string` gives the cell.  For a double
/// whose text `double_text` does not give, the key is its bits after a NUL
/// character: it can only equal the key of the same double (two doubles'
/// texts are equal exactly when their bits are) and never a number's text,
/// save that of an integer of 2^53 or more; so it is `Unsupported` against
/// a string key, and for such a large double against an integer key.  A
/// ratio or a double computation as a key is `Unsupported`.
pub open spec fn key_of(c: SpecScalar, other: Option<DataType>) -> Result<Option<Seq<char>>, ExecError> {
    match c {
        SpecScalar::Null => Ok(None),
        SpecScalar::Int(i) => Ok(Some(crate::fmt::int_text(i as int))),
        SpecScalar::Str(s) => Ok(Some(s)),
        SpecScalar::Bool(b) => Ok(Some(if b { "true"@ } else { "false"@ })),
        SpecScalar::Float(b) => match double_text(b) {
            Some(t) => Ok(Some(t)),
            None => if other == Some(DataType::Utf8) || (other == Some(DataType::Int64) && float_exp(b) > 1075) {
                Err(ExecError::Unsupported)
            } else {
                Ok(Some(seq!['\0'] + crate::fmt::int_text(b as int)))
            },
        },
        _ => Err(ExecError::Unsupported),
    }
}

/// The key column of a batch: by the name as written, else by the name
/// without its table qualifier.
pub open spec fn key_column(b: SpecBatch, col: Seq<char>) -> Result<SpecColumn, ExecError> {
    match index_of(b.schema, col) {
        Some(i) => Ok(b.columns[i]),
        None => match index_of(b.schema, spec_strip_table_prefix(col)) {
            Some(i) => Ok(b.columns[i]),
            None => Err(ExecError::ColumnNotFound),
        },
    }
}

/// The keys of a batch's rows (see `key_of`); the first key that cannot
/// be given is the batch's error.
pub open spec fn key_texts(b: SpecBatch, col: Seq<char>, other: Option<DataType>) -> Result<Seq<Option<Seq<char>>>, ExecError> {
    match key_column(b, col) {
        Err(e) => Err(e),
        Ok(c) => if exists|k: int| 0 <= k < c.values.len() && (#[trigger] key_of(c.values[k], other)) is Err {
            Err(ExecError::Unsupported)
        } else {
            Ok(c.values.map_values(|v: SpecScalar| key_of(v, other)->Ok_0))
        },
    }
}

/// The type of the key column of a schema, found as `key_column` finds it.
pub open spec fn key_type(schema: Seq<SpecField>, col: Seq<char>) -> Option<DataType> {
    match index_of(schema, col) {
        Some(i) => Some(schema[i].data_type),
        None => match index_of(schema, spec_strip_table_prefix(col)) {
            Some(i) => Some(schema[i].data_type),
            None => None,
        },
    }
}

/// The key texts of all rows of the right input, batch after batch.
pub open spec fn right_keys(bs: Seq<SpecBatch>, col: Seq<char>, other: Option<DataType>) -> Result<Seq<Option<Seq<char>>>, ExecError>
    decreases bs.len(),
{
    if bs.len() == 0 {
        Ok(Seq::empty())
    } else {
        match key_texts(bs[0], col, other) {
            Err(e) => Err(e),
            Ok(k) => match right_keys(bs.drop_first(), col, other) {
                Err(e) => Err(e),
                Ok(rest) => Ok(k + rest),
            },
        }
    }
}

/// The right rows `0..m` whose key is `key`, in order; a null key matches
/// nothing.
pub open spec fn matches_of(key: Option<Seq<char>>, rk: Seq<Option<Seq<char>>>, m: int) -> Seq<int>
    decreases m,
{
    if m <= 0 {
        Seq::empty()
    } else {
        matches_of(key, rk, m - 1) + if key is Some && rk[m - 1] == key {
            seq![m - 1]
        } else {
            Seq::empty()
        }
    }
}

/// The (left row, right row) pairs of left rows `0..n`: left rows in order,
/// and for each its matching right rows in order.
pub open spec fn join_pairs(lk: Seq<Option<Seq<char>>>, rk: Seq<Option<Seq<char>>>, n: int) -> Seq<(int, int)>
    decreases n,
{
    if n <= 0 {
        Seq::empty()
    } else {
        join_pairs(lk, rk, n - 1) + matches_of(lk[n - 1], rk, rk.len() as int).map_values(|r: int| (n - 1, r))
    }
}

/// The columns of the joined rows: the left batch's columns, then the
/// right table's.
pub open spec fn joined_columns(lb: SpecBatch, rcols: Seq<SpecColumn>, ps: Seq<(int, int)>) -> Seq<SpecColumn> {
    Seq::new(
        lb.columns.len(),
        |k: int| SpecColumn { data_type: lb.columns[k].data_type, values: Seq::new(ps.len(), |p: int| lb.columns[k].values[ps[p].0]) },
    ) + Seq::new(
        rcols.len(),
        |k: int| SpecColumn { data_type: rcols[k].data_type, values: Seq::new(ps.len(), |p: int| rcols[k].values[ps[p].1]) },
    )
}

/// One left batch joined: `None` when no row matches.
pub open spec fn join_batch(lb: SpecBatch, lcol: Seq<char>, other: Option<DataType>, rk: Seq<Option<Seq<char>>>, rcols: Seq<SpecColumn>, schema: Seq<SpecField>) -> Result<
    Option<SpecBatch>,
    ExecError,
> {
    match key_texts(lb, lcol, other) {
        Err(e) => Err(e),
        Ok(lk) => {
            let ps = join_pairs(lk, rk, lk.len() as int);
            if ps.len() == 0 {
                Ok(None)
            } else if can_build(schema, joined_columns(lb, rcols, ps)) {
                Ok(Some(built(schema, joined_columns(lb, rcols, ps))))
            } else {
                Err(ExecError::SchemaMismatch)
            }
        },
    }
}

/// The left batches joined in order after the batches `acc` already made;
/// the left input's error, if it has one, ends the join.
pub open spec fn join_left(acc: Seq<SpecBatch>, lbs: Seq<SpecBatch>, lerr: Option<ExecError>, lcol: Seq<char>, other: Option<DataType>, rk: Seq<Option<Seq<char>>>, rcols: Seq<SpecColumn>, schema: Seq<SpecField>) -> Result<
    Seq<SpecBatch>,
    ExecError,
>
    decreases lbs.len(),
{
    if lbs.len() == 0 {
        match lerr {
            Some(e) => Err(e),
            None => Ok(acc),
        }
    } else {
        match join_batch(lbs[0], lcol, other, rk, rcols, schema) {
            Err(e) => Err(e),
            Ok(None) => join_left(acc, lbs.drop_first(), lerr, lcol, other, rk, rcols, schema),
            Ok(Some(b)) => join_left(acc.push(b), lbs.drop_first(), lerr, lcol, other, rk, rcols, schema),
        }
    }
}

/// The fields of the joined rows: the left fields, then the right ones,
/// a right field whose name the left side has taking the prefix `right.`.
pub open spec fn merge_schemas(l: Seq<SpecField>, r: Seq<SpecField>) -> Seq<SpecField> {
    l + r.map_values(
        |f: SpecField|
            if index_of(l, f.name) is Some {
                SpecField { name: "right."@ + f.name, data_type: f.data_type, nullable: f.nullable }
            } else {
                f
            },
    )
}

/// The right table's columns (none when it has no batch).
pub open spec fn right_columns(rbs: Seq<SpecBatch>) -> Seq<SpecColumn> {
    if rbs.len() > 0 {
        merged_columns(rbs)
    } else {
        Seq::empty()
    }
}

// ── Executable join ──────────────────────────────────────────────────────────

/// The text of a double where `double_text` gives it.
fn double_text_exec(b: u64) -> (r: Option<String>)
    ensures
        match (r, double_text(b)) {
            (Some(x), Some(y)) => x@ == y,
            (None, None) => true,
            _ => false,
        },
{
    let e: u64 = (b % 0x8000_0000_0000_0000u64) / 0x10_0000_0000_0000u64;
    let m: u64 = b % 0x10_0000_0000_0000u64;
    let mut s = String::new();
    if b >= 0x8000_0000_0000_0000u64 {
        crate::lexer::push_char(&mut s, '-');
    }
    let ghost sign = s@;
    proof {
        reveal_strlit("NaN");
        reveal_strlit("inf");
    }
    if e == 2047 {
        if m != 0 {
            let mut t = String::new();
            crate::fmt::push_str(&mut t, "NaN");
            return Some(t);
        }
        crate::fmt::push_str(&mut s, "inf");
        assert(s@ =~= sign + "inf"@);
        return Some(s);
    }
    if e == 0 && m == 0 {
        crate::lexer::push_char(&mut s, '0');
        assert(s@ =~= sign + seq!['0']);
        return Some(s);
    }
    if e < 1023 || e > 1075 {
        return None;
    }
    let k: u64 = 1075 - e;
    let mut x: u64 = m;
    let mut y: u64 = m + 0x10_0000_0000_0000u64;
    let mut i: u64 = 0;
    while i < k
        invariant
            e as int == float_exp(b),
            m as int == float_man(b),
            1023 <= e <= 1075,
            k == 1075 - e,
            i <= k,
            k <= 52,
            low_zero(m as int, k as nat) == low_zero(x as int, (k - i) as nat),
            halve(m + two52(), k as nat) == halve(y as int, (k - i) as nat),
        decreases k - i,
    {
        if x % 2 != 0 {
            return None;
        }
        x = x / 2;
        y = y / 2;
        i = i + 1;
    }
    let d = crate::fmt::int_to_string(y as i128);
    crate::fmt::push_str(&mut s, d.as_str());
    assert(s@ =~= sign + crate::fmt::nat_digits(halve(m + two52(), k as nat) as nat));
    Some(s)
}

/// The key of a cell (see `key_of`).
fn key_of_exec(c: &Scalar, other: Option<DataType>) -> (r: Result<Option<String>, ExecError>)
    ensures
        match (r, key_of(c@, other)) {
            (Ok(Some(x)), Ok(Some(y))) => x@ == y,
            (Ok(None), Ok(None)) => true,
            (Err(e), Err(f)) => e == f,
            _ => false,
        },
{
    proof {
        reveal_strlit("true");
        reveal_strlit("false");
    }
    match c {
        Scalar::Null => Ok(None),
        Scalar::Int(i) => Ok(Some(crate::fmt::int_to_string(*i as i128))),
        Scalar::Str(t) => Ok(Some(t.clone())),
        Scalar::Bool(b) => {
            let mut s = String::new();
            if *b {
                crate::fmt::push_str(&mut s, "true");
            } else {
                crate::fmt::push_str(&mut s, "false");
            }
            Ok(Some(s))
        },
        Scalar::Float(b) => match double_text_exec(*b) {
            Some(t) => Ok(Some(t)),
            None => {
                let e: u64 = (*b % 0x8000_0000_0000_0000u64) / 0x10_0000_0000_0000u64;
                if other == Some(DataType::Utf8) || (other == Some(DataType::Int64) && e > 1075) {
                    Err(ExecError::Unsupported)
                } else {
                    let mut s = String::new();
                    crate::lexer::push_char(&mut s, '\0');
                    let d = crate::fmt::int_to_string(*b as i128);
                    crate::fmt::push_str(&mut s, d.as_str());
                    assert(s@ =~= seq!['\0'] + crate::fmt::int_text(*b as int));
                    Ok(Some(s))
                }
            },
        },
        _ => Err(ExecError::Unsupported),
    }
}

/// The type of the key column of a schema (see `key_type`).
pub fn key_type_exec(schema: &Vec<Field>, col: &String) -> (r: Option<DataType>)
    ensures
        r == key_type(crate::batch::fields_view(schema@), col@),
{
    let ghost sv = crate::batch::fields_view(schema@);
    let bare = strip_table_prefix(col.as_str());
    let i = match find_field(schema, col) {
        Some(i) => i,
        None => match find_field(schema, &bare) {
            Some(i) => i,
            None => {
                return None;
            },
        },
    };
    assert(sv[i as int] == schema@[i as int]@);
    Some(schema[i].data_type)
}

pub open spec fn opt_view(k: Option<String>) -> Option<Seq<char>> {
    match k {
        Some(s) => Some(s@),
        None => None,
    }
}

pub open spec fn keys_of(v: Seq<Option<String>>) -> Seq<Option<Seq<char>>> {
    v.map_values(|k: Option<String>| opt_view(k))
}

fn copy_key(k: &Option<String>) -> (r: Option<String>)
    ensures
        opt_view(r) == opt_view(*k),
{
    match k {
        Some(s) => Some(s.clone()),
        None => None,
    }
}

/// A left key matches a right key: both are present and equal.
fn key_matches(a: &Option<String>, b: &Option<String>) -> (r: bool)
    ensures
        r == (opt_view(*a) is Some && opt_view(*b) == opt_view(*a)),
{
    match (a, b) {
        (Some(x), Some(y)) => *x == *y,
        _ => false,
    }
}

/// The key texts of a batch's rows (see `key_texts`).
fn key_texts_exec(b: &Batch, col: &String, other: Option<DataType>) -> (r: Result<Vec<Option<String>>, ExecError>)
    ensures
        match key_texts(b@, col@, other) {
            Ok(k) => r matches Ok(v) && keys_of(v@) == k && k.len() == b@.num_rows,
            Err(e) => r == Err::<Vec<Option<String>>, ExecError>(e),
        },
{
    let schema = b.schema();
    let cols = b.columns();
    let _ = b.num_columns();
    let bare = strip_table_prefix(col.as_str());
    let i = match find_field(schema, col) {
        Some(i) => i,
        None => match find_field(schema, &bare) {
            Some(i) => i,
            None => {
                return Err(ExecError::ColumnNotFound);
            },
        },
    };
    let c = &cols[i];
    assert(c@ == b@.columns[i as int]);
    assert(crate::batch::column_fits_field(b@.columns[i as int], b@.schema[i as int], b@.num_rows));
    let mut out: Vec<Option<String>> = Vec::new();
    let mut k: usize = 0;
    while k < c.values.len()
        invariant
            k <= c.values@.len(),
            keys_of(out@) == c@.values.take(k as int).map_values(|v: SpecScalar| key_of(v, other)->Ok_0),
            forall|q: int| 0 <= q < k ==> (#[trigger] key_of(c@.values[q], other)) is Ok,
            key_column(b@, col@) == Ok::<SpecColumn, ExecError>(c@),
        decreases c.values@.len() - k,
    {
        let ghost before = keys_of(out@);
        assert(c@.values[k as int] == c.values@[k as int]@);
        let t = match key_of_exec(&c.values[k], other) {
            Err(e) => {
                assert(key_of(c@.values[k as int], other) is Err);
                return Err(ExecError::Unsupported);
            },
            Ok(t) => t,
        };
        let ghost tv = opt_view(t);
        out.push(t);
        assert(keys_of(out@) =~= before.push(tv));
        k = k + 1;
        assert(keys_of(out@) =~= c@.values.take(k as int).map_values(|v: SpecScalar| key_of(v, other)->Ok_0));
    }
    assert(c@.values.take(k as int) =~= c@.values);
    Ok(out)
}

/// The key texts of all right rows (see `right_keys`).
pub fn right_keys_exec(bs: &Vec<Batch>, col: &String, other: Option<DataType>) -> (r: Result<Vec<Option<String>>, ExecError>)
    ensures
        match right_keys(batches_view(bs@), col@, other) {
            Ok(k) => r matches Ok(v) && keys_of(v@) == k,
            Err(e) => r == Err::<Vec<Option<String>>, ExecError>(e),
        },
{
    let ghost bv = batches_view(bs@);
    // from the last batch back, so that what is gathered is a suffix
    let mut keys: Vec<Option<String>> = Vec::new();
    let mut j: usize = bs.len();
    // first find the first failing batch, front to back
    let mut i: usize = 0;
    while i < bs.len()
        invariant
            bv == batches_view(bs@),
            i <= bs@.len(),
            forall|q: int| 0 <= q < i ==> (#[trigger] key_texts(bv[q], col@, other)) is Ok,
        decreases bs@.len() - i,
    {
        assert(bv[i as int] == bs@[i as int]@);
        match key_texts_exec(&bs[i], col, other) {
            Err(e) => {
                proof {
                    lemma_right_keys_err(bv, col@, other, i as int);
                }
                return Err(e);
            },
            Ok(_) => {},
        }
        i = i + 1;
    }
    assert(bv.skip(j as int) =~= Seq::<SpecBatch>::empty());
    assert(keys_of(keys@) =~= Seq::<Option<Seq<char>>>::empty());
    while j > 0
        invariant
            bv == batches_view(bs@),
            j <= bs@.len(),
            forall|q: int| 0 <= q < bs@.len() ==> (#[trigger] key_texts(bv[q], col@, other)) is Ok,
            right_keys(bv.skip(j as int), col@, other) == Ok::<Seq<Option<Seq<char>>>, ExecError>(keys_of(keys@)),
        decreases j,
    {
        j = j - 1;
        assert(bv[j as int] == bs@[j as int]@);
        assert(bv.skip(j as int).drop_first() =~= bv.skip(j + 1));
        assert(bv.skip(j as int)[0] == bv[j as int]);
        match key_texts_exec(&bs[j], col, other) {
            Err(e) => {
                return Err(e);
            },
            Ok(k) => {
                let mut v = k;
                let ghost front = keys_of(v@);
                let mut q: usize = 0;
                while q < keys.len()
                    invariant
                        q <= keys@.len(),
                        keys_of(v@) == front + keys_of(keys@).take(q as int),
                    decreases keys@.len() - q,
                {
                    let ghost before = keys_of(v@);
                    let t = copy_key(&keys[q]);
                    let ghost tv = opt_view(t);
                    v.push(t);
                    assert(keys_of(v@) =~= before.push(tv));
                    q = q + 1;
                    assert(keys_of(v@) =~= front + keys_of(keys@).take(q as int));
                }
                assert(keys_of(keys@).take(q as int) =~= keys_of(keys@));
                keys = v;
            },
        }
    }
    assert(bv.skip(0) =~= bv);
    Ok(keys)
}

/// The first failing batch's error is the error of the whole.
proof fn lemma_right_keys_err(bs: Seq<SpecBatch>, col: Seq<char>, other: Option<DataType>, i: int)
    requires
        0 <= i < bs.len(),
        forall|q: int| 0 <= q < i ==> (#[trigger] key_texts(bs[q], col, other)) is Ok,
        key_texts(bs[i], col, other) is Err,
    ensures
        right_keys(bs, col, other) == Err::<Seq<Option<Seq<char>>>, ExecError>(key_texts(bs[i], col, other)->Err_0),
    decreases i,
{
    if i > 0 {
        let t = bs.drop_first();
        assert forall|q: int| 0 <= q < i - 1 implies (#[trigger] key_texts(t[q], col, other)) is Ok by {
            assert(t[q] == bs[q + 1]);
        }
        assert(t[i - 1] == bs[i]);
        lemma_right_keys_err(t, col, other, i - 1);
        assert(key_texts(bs[0], col, other) is Ok);
    }
}

/// The output fields (see `merge_schemas`).
pub fn merge_schemas_exec(l: &Vec<Field>, r: &Vec<Field>) -> (out: Vec<Field>)
    ensures
        fields_view(out@) == merge_schemas(fields_view(l@), fields_view(r@)),
{
    let ghost lv = fields_view(l@);
    let ghost rv = fields_view(r@);
    let mut out = copy_fields(l);
    let mut k: usize = 0;
    while k < r.len()
        invariant
            lv == fields_view(l@),
            rv == fields_view(r@),
            k <= r@.len(),
            fields_view(out@) == merge_schemas(lv, rv.take(k as int)),
        decreases r@.len() - k,
    {
        let f = &r[k];
        assert(rv[k as int] == f@);
        let nf = match find_field(l, &f.name) {
            Some(_) => {
                let mut name = String::new();
                crate::fmt::push_str(&mut name, "right.");
                crate::fmt::push_str(&mut name, f.name.as_str());
                proof {
                    reveal_strlit("right.");
                }
                Field::new(name, f.data_type, f.nullable)
            },
            None => f.copy(),
        };
        let ghost before = fields_view(out@);
        out.push(nf);
        assert(fields_view(out@) =~= before.push(nf@));
        assert(rv.take(k + 1) =~= rv.take(k as int).push(rv[k as int]));
        k = k + 1;
        assert(fields_view(out@) =~= merge_schemas(lv, rv.take(k as int)));
    }
    assert(rv.take(k as int) =~= rv);
    out
}

/// One left batch joined (see `join_batch`).
pub fn join_batch_exec(lb: &Batch, lcol: &String, other: Option<DataType>, rk: &Vec<Option<String>>, rcols: &Vec<Column>, schema: &Vec<Field>) -> (r: Result<Option<Batch>, ExecError>)
    requires
        forall|k: int| 0 <= k < rcols@.len() ==> (#[trigger] rcols@[k]).values@.len() == rk@.len(),
    ensures
        match join_batch(lb@, lcol@, other, keys_of(rk@), columns_view(rcols@), fields_view(schema@)) {
            Ok(None) => r matches Ok(None),
            Ok(Some(b)) => r matches Ok(Some(x)) && x@ == b,
            Err(e) => r == Err::<Option<Batch>, ExecError>(e),
        },
{
    let lk = match key_texts_exec(lb, lcol, other) {
        Err(e) => {
            return Err(e);
        },
        Ok(k) => k,
    };
    let ghost lkv = keys_of(lk@);
    let ghost rkv = keys_of(rk@);
    let n = lb.num_rows();
    let cols = lb.columns();
    let _ = lb.num_columns();
    proof {
        assert(key_texts(lb@, lcol@, other) == Ok::<Seq<Option<Seq<char>>>, ExecError>(lkv));
        assert(lkv.len() == n);
    }
    // the pairs
    let mut li: Vec<usize> = Vec::new();
    let mut ri: Vec<usize> = Vec::new();
    let mut l: usize = 0;
    while l < n
        invariant
            lkv == keys_of(lk@),
            rkv == keys_of(rk@),
            lkv.len() == n,
            l <= n,
            li@.len() == ri@.len(),
            join_pairs(lkv, rkv, l as int) == Seq::new(li@.len(), |p: int| (li@[p] as int, ri@[p] as int)),
        decreases n - l,
    {
        let ghost base = Seq::new(li@.len(), |p: int| (li@[p] as int, ri@[p] as int));
        let mut r: usize = 0;
        while r < rk.len()
            invariant
                lkv == keys_of(lk@),
                rkv == keys_of(rk@),
                lkv.len() == n,
                l < n,
                li@.len() == ri@.len(),
                r <= rk@.len(),
                Seq::new(li@.len(), |p: int| (li@[p] as int, ri@[p] as int)) == base + matches_of(lkv[l as int], rkv, r as int).map_values(
                    |x: int| (l as int, x),
                ),
            decreases rk@.len() - r,
        {
            let ghost before = Seq::new(li@.len(), |p: int| (li@[p] as int, ri@[p] as int));
            if key_matches(&lk[l], &rk[r]) {
                li.push(l);
                ri.push(r);
                assert(Seq::new(li@.len(), |p: int| (li@[p] as int, ri@[p] as int)) =~= before.push((l as int, r as int)));
            } else {
                assert(Seq::new(li@.len(), |p: int| (li@[p] as int, ri@[p] as int)) =~= before);
            }
            assert(lkv[l as int] == opt_view(lk@[l as int]));
            assert(rkv[r as int] == opt_view(rk@[r as int]));
            r = r + 1;
            assert(matches_of(lkv[l as int], rkv, r as int).map_values(|x: int| (l as int, x)) =~= matches_of(
                lkv[l as int],
                rkv,
                r - 1,
            ).map_values(|x: int| (l as int, x)) + if lkv[l as int] is Some && rkv[r - 1] == lkv[l as int] {
                seq![(l as int, (r - 1) as int)]
            } else {
                Seq::empty()
            });
            assert(Seq::new(li@.len(), |p: int| (li@[p] as int, ri@[p] as int)) =~= base + matches_of(lkv[l as int], rkv, r as int).map_values(
                |x: int| (l as int, x),
            ));
        }
        l = l + 1;
    }
    let ghost ps = join_pairs(lkv, rkv, n as int);
    if li.len() == 0 {
        return Ok(None);
    }
    proof {
        assert forall|p: int| 0 <= p < ps.len() implies #[trigger] ps[p].0 < n && ps[p].1 < rkv.len() && 0 <= ps[p].0 && 0 <= ps[p].1 by {
            lemma_pairs_in_range(lkv, rkv, n as int, p);
        }
    }
    // the columns
    let mut out: Vec<Column> = Vec::new();
    let mut k: usize = 0;
    while k < cols.len()
        invariant
            cols@.map_values(|c: Column| c@) == lb@.columns,
            batch_wf_cols(lb@),
            lb@.num_rows == n,
            li@.len() == ri@.len(),
            ps == Seq::new(li@.len(), |p: int| (li@[p] as int, ri@[p] as int)),
            forall|p: int| 0 <= p < ps.len() ==> #[trigger] ps[p].0 < n && ps[p].1 < rkv.len() && 0 <= ps[p].0 && 0 <= ps[p].1,
            k <= cols@.len(),
            out@.len() == k,
            forall|q: int| 0 <= q < k ==> (#[trigger] out@[q])@ == joined_columns(lb@, columns_view(rcols@), ps)[q],
        decreases cols@.len() - k,
    {
        assert(cols@[k as int]@ == lb@.columns[k as int]);
        assert(cols@[k as int].values@.len() == n);
        proof {
            assert forall|p: int| 0 <= p < li@.len() implies #[trigger] li@[p] < cols@[k as int].values@.len() by {
                assert(ps[p].0 == li@[p]);
            }
        }
        let c = crate::batch::take_column(&cols[k], &li);
        assert(c@.values =~= joined_columns(lb@, columns_view(rcols@), ps)[k as int].values);
        out.push(c);
        k = k + 1;
    }
    let nl = cols.len();
    let mut j: usize = 0;
    while j < rcols.len()
        invariant
            nl == lb@.columns.len(),
            li@.len() == ri@.len(),
            ps == Seq::new(li@.len(), |p: int| (li@[p] as int, ri@[p] as int)),
            forall|p: int| 0 <= p < ps.len() ==> #[trigger] ps[p].0 < n && ps[p].1 < rkv.len() && 0 <= ps[p].0 && 0 <= ps[p].1,
            forall|q: int| 0 <= q < rcols@.len() ==> (#[trigger] rcols@[q]).values@.len() == rk@.len(),
            rkv == keys_of(rk@),
            j <= rcols@.len(),
            out@.len() == nl + j,
            forall|q: int| 0 <= q < nl + j ==> (#[trigger] out@[q])@ == joined_columns(lb@, columns_view(rcols@), ps)[q],
        decreases rcols@.len() - j,
    {
        proof {
            assert(rcols@[j as int].values@.len() == rk@.len());
            assert(rkv.len() == rk@.len());
            assert forall|p: int| 0 <= p < ri@.len() implies #[trigger] ri@[p] < rcols@[j as int].values@.len() by {
                assert(ps[p].1 == ri@[p]);
                assert(ps[p].0 < n);
            }
        }
        let c = crate::batch::take_column(&rcols[j], &ri);
        assert(c@.values =~= joined_columns(lb@, columns_view(rcols@), ps)[nl + j].values);
        out.push(c);
        j = j + 1;
    }
    assert(out@.map_values(|c: Column| c@) =~= joined_columns(lb@, columns_view(rcols@), ps));
    match Batch::try_new(copy_fields(schema), out) {
        Err(e) => Err(e),
        Ok(b) => Ok(Some(b)),
    }
}

pub open spec fn batch_wf_cols(b: SpecBatch) -> bool {
    forall|k: int| 0 <= k < b.columns.len() ==> (#[trigger] b.columns[k]).values.len() == b.num_rows
}

pub proof fn lemma_matches_in_range(key: Option<Seq<char>>, rk: Seq<Option<Seq<char>>>, m: int, p: int)
    requires
        0 <= m <= rk.len(),
        0 <= p < matches_of(key, rk, m).len(),
    ensures
        0 <= matches_of(key, rk, m)[p] < m,
    decreases m,
{
    if m > 0 {
        let prev = matches_of(key, rk, m - 1);
        if p < prev.len() {
            lemma_matches_in_range(key, rk, m - 1, p);
        }
    }
}

pub proof fn lemma_pairs_in_range(lk: Seq<Option<Seq<char>>>, rk: Seq<Option<Seq<char>>>, n: int, p: int)
    requires
        0 <= n <= lk.len(),
        0 <= p < join_pairs(lk, rk, n).len(),
    ensures
        0 <= join_pairs(lk, rk, n)[p].0 < n,
        0 <= join_pairs(lk, rk, n)[p].1 < rk.len(),
    decreases n,
{
    if n > 0 {
        let prev = join_pairs(lk, rk, n - 1);
        if p < prev.len() {
            lemma_pairs_in_range(lk, rk, n - 1, p);
        } else {
            lemma_matches_in_range(lk[n - 1], rk, rk.len() as int, p - prev.len());
        }
    }
}


/// The joined batches of two streams: the ON condition must equate two
/// columns; the right stream is read whole first (its error ends the
/// join), its rows keyed; then the left batches are joined in order.
pub open spec fn join_result(l: Stream, r: Stream, on: SpecExpr, ls: Seq<SpecField>, rs: Seq<SpecField>) -> Result<
    Seq<SpecBatch>,
    ExecError,
> {
    match spec_eq_columns(on) {
        None => Err(ExecError::BadJoinCondition),
        Some((lc, rc)) => match r.error {
            Some(e) => Err(e),
            None => match right_keys(r.batches, rc, key_type(ls, lc)) {
                Err(e) => Err(e),
                Ok(rk) => if r.batches.len() > 0 && !concat_ok(r.batches) {
                    Err(ExecError::SchemaMismatch)
                } else {
                    join_left(
                        Seq::empty(),
                        l.batches,
                        l.error,
                        lc,
                        key_type(rs, rc),
                        rk,
                        right_columns(r.batches),
                        merge_schemas(ls, rs),
                    )
                },
            },
        },
    }
}

/// A position that `index_of` gives is a position of the schema.
pub proof fn lemma_index_of_range(schema: Seq<SpecField>, name: Seq<char>, k: int)
    requires
        0 <= k,
    ensures
        index_from(schema, name, k) matches Some(i) ==> k <= i < schema.len(),
    decreases schema.len() - k,
{
    if k < schema.len() && schema[k].name != name {
        lemma_index_of_range(schema, name, k + 1);
    }
}

/// A wf batch's key texts are one per row.
proof fn lemma_key_texts_len(b: SpecBatch, col: Seq<char>, other: Option<DataType>)
    requires
        crate::batch::batch_wf(b),
    ensures
        key_texts(b, col, other) matches Ok(k) ==> k.len() == b.num_rows,
{
    lemma_index_of_range(b.schema, col, 0);
    lemma_index_of_range(b.schema, spec_strip_table_prefix(col), 0);
    match index_of(b.schema, col) {
        Some(i) => {
            assert(crate::batch::column_fits_field(b.columns[i], b.schema[i], b.num_rows));
        },
        None => match index_of(b.schema, spec_strip_table_prefix(col)) {
            Some(i) => {
                assert(crate::batch::column_fits_field(b.columns[i], b.schema[i], b.num_rows));
            },
            None => {},
        },
    }
}

/// The right keys are one per right row, and so is each right column.
#[verifier::spinoff_prover]
pub proof fn lemma_right_lens(bs: Seq<SpecBatch>, col: Seq<char>, other: Option<DataType>, k: int)
    requires
        forall|i: int| 0 <= i < bs.len() ==> crate::batch::batch_wf(#[trigger] bs[i]),
        bs.len() > 0 ==> concat_ok(bs) && 0 <= k < bs[0].columns.len(),
    ensures
        right_keys(bs, col, other) matches Ok(rk) ==> rk.len() == total_rows(bs),
        bs.len() > 0 ==> crate::sort::concat_values(bs, k).len() == total_rows(bs),
    decreases bs.len(),
{
    if bs.len() > 0 {
        let t = bs.drop_first();
        assert forall|i: int| 0 <= i < t.len() implies crate::batch::batch_wf(#[trigger] t[i]) by {
            assert(t[i] == bs[i + 1]);
        }
        assert(crate::batch::batch_wf(bs[0]));
        lemma_key_texts_len(bs[0], col, other);
        assert(crate::batch::column_fits_field(bs[0].columns[k], bs[0].schema[k], bs[0].num_rows));
        if t.len() > 0 {
            assert(concat_ok(t)) by {
                assert forall|i: int| 0 <= i < t.len() implies (#[trigger] t[i]).columns.len() == t[0].columns.len() && forall|q: int|
                    0 <= q < t[0].columns.len() ==> (#[trigger] t[i].columns[q]).data_type == t[0].columns[q].data_type by {
                    assert(t[i] == bs[i + 1]);
                    assert(t[0] == bs[1]);
                    assert(bs[1].columns.len() == bs[0].columns.len());
                    assert forall|q: int| 0 <= q < t[0].columns.len() implies (#[trigger] t[i].columns[q]).data_type == t[0].columns[q].data_type by {
                        assert(bs[i + 1].columns[q].data_type == bs[0].columns[q].data_type);
                        assert(bs[1].columns[q].data_type == bs[0].columns[q].data_type);
                    }
                }
            }
            assert(bs[1].columns.len() == bs[0].columns.len());
            assert(t[0] == bs[1]);
        }
        lemma_right_lens(t, col, other, k);
        assert(crate::sort::concat_values(bs, k) == bs[0].columns[k].values + crate::sort::concat_values(t, k));
        assert(total_rows(bs) == bs[0].num_rows + total_rows(t));
        if t.len() == 0 {
            assert(crate::sort::concat_values(t, k).len() == 0);
            assert(total_rows(t) == 0);
        }
    }
}

} // verus!
