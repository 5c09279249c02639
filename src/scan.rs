//! Scan: every intermediate accumulator of a left-to-right reduction.

use vstd::prelude::*;
use crate::array::{Array, ArrayModel, copy_range};
use crate::env::{Env, StackResult, finish1, pop_spec, pop_fn_spec};
use crate::error::Error;
use crate::function::{Function, Primitive, apply, apply_spec, elem_op, elem_apply, is_arith, numeric, to_nums};
use crate::reduce::{prepend, combine};
use crate::value::{Value, ValueModel, all_wf, views};

verus! {

/// The accumulators after `acc` as `f` runs over `rows`, the accumulator on
/// top; a `break` keeps the accumulator it produced and stops.
pub open spec fn scan_rows(f: Function, acc: ValueModel, rows: Seq<ValueModel>) -> Result<Seq<ValueModel>, Error>
    decreases rows.len(),
{
    if rows.len() == 0 {
        Ok(Seq::empty())
    } else {
        match apply_spec(f, seq![acc, rows[0]]) {
            Err(e) => Err(e),
            Ok((out, brk)) => match out {
                None => Err(Error::StackEmpty),
                Some(a) => if brk {
                    Ok(seq![a])
                } else {
                    prepend(seq![a], scan_rows(f, a, rows.drop_first()))
                },
            },
        }
    }
}

/// The generic scan: the first row, then each accumulator, as rows of one
/// value. No rows give the array back.
pub open spec fn generic_scan_spec(f: Function, xs: ValueModel) -> Result<ValueModel, Error> {
    if f.args() != 2 {
        Err(Error::BadArity(f.args() as usize))
    } else if xs.row_count() == 0 {
        Ok(xs)
    } else {
        let rows = xs.rows();
        match scan_rows(f, rows[0], rows.drop_first()) {
            Ok(s) => combine(seq![rows[0]] + s),
            Err(e) => Err(e),
        }
    }
}

/// The first `n` elements of a numeric scan with rows of `row_len` elements:
/// the first row as it is, then each element combined with the one a row
/// above it, that one on top.
pub open spec fn scan_data(p: Primitive, flipped: bool, data: Seq<i64>, row_len: nat, n: nat) -> Option<Seq<i64>>
    decreases n,
{
    if n == 0 {
        Some(Seq::empty())
    } else {
        match scan_data(p, flipped, data, row_len, (n - 1) as nat) {
            None => None,
            Some(prev) => if n - 1 < row_len {
                Some(prev.push(data[n - 1]))
            } else {
                match elem_op(p, flipped, prev[n - 1 - row_len], data[n - 1]) {
                    Some(v) => Some(prev.push(v)),
                    None => None,
                }
            },
        }
    }
}

pub open spec fn fast_scan_spec(p: Primitive, flipped: bool, a: ArrayModel<i64>) -> Result<ArrayModel<i64>, Error> {
    match scan_data(p, flipped, a.data, a.row_len(), a.data.len()) {
        Some(d) => Ok(ArrayModel { shape: a.shape, data: d }),
        None => Err(Error::Unrepresentable),
    }
}

/// What scanning `xs` with `f` gives.
pub open spec fn scan_spec(f: Function, xs: ValueModel) -> Result<ValueModel, Error> {
    if xs.rank() == 0 {
        Err(Error::ScanRankZero)
    } else {
        match (f.flipped_primitive(), numeric(xs)) {
            (Some((p, fl)), Some(a)) => if is_arith(p) {
                match fast_scan_spec(p, fl, a) {
                    Ok(r) => Ok(ValueModel::Num(r)),
                    Err(e) => Err(e),
                }
            } else {
                generic_scan_spec(f, xs)
            },
            _ => generic_scan_spec(f, xs),
        }
    }
}

/// The stack after `scan`.
pub open spec fn scan_outcome(s: Seq<ValueModel>) -> StackResult {
    match pop_fn_spec(s) {
        Err(e) => Err((e, s)),
        Ok((f, s1)) => match pop_spec(s1) {
            Err(e) => Err((e, s1)),
            Ok((xs, s2)) => finish1(s2, scan_spec(f, xs)),
        },
    }
}

pub proof fn lemma_scan_data_len(p: Primitive, flipped: bool, data: Seq<i64>, row_len: nat, n: nat)
    ensures
        scan_data(p, flipped, data, row_len, n).is_some() ==> scan_data(p, flipped, data, row_len, n).unwrap().len() == n,
    decreases n,
{
    if n > 0 {
        lemma_scan_data_len(p, flipped, data, row_len, (n - 1) as nat);
    }
}

/// Once a prefix of the scan fails, every longer one does.
pub proof fn lemma_scan_data_fails(p: Primitive, flipped: bool, data: Seq<i64>, row_len: nat, m: nat, n: nat)
    requires
        m <= n,
        scan_data(p, flipped, data, row_len, m).is_none(),
    ensures
        scan_data(p, flipped, data, row_len, n).is_none(),
    decreases n - m,
{
    if m < n {
        lemma_scan_data_fails(p, flipped, data, row_len, m, (n - 1) as nat);
    }
}

/// Scans a numeric array with a primitive, row by row.
fn fast_scan(p: Primitive, flipped: bool, a: &Array<i64>) -> (r: Result<Array<i64>, Error>)
    requires
        a@.wf(),
        a@.rank() > 0,
    ensures
        match fast_scan_spec(p, flipped, a@) {
            Ok(m) => r.is_ok() && r.unwrap()@ == m && m.wf(),
            Err(e) => r == Err::<Array<i64>, Error>(e),
        },
{
    let row_len = a.row_len();
    let n = a.data.len();
    proof {
        let rc = a@.shape[0] as int;
        let rl = row_len as int;
        assert(n == rc * rl);
        assert(rl == 0 ==> rc * rl == 0) by (nonlinear_arith);
    }
    let mut out: Vec<i64> = Vec::new();
    let mut k: usize = 0;
    while k < n
        invariant
            n == a@.data.len(),
            row_len == a@.row_len(),
            row_len > 0 || n == 0,
            0 <= k <= n,
            scan_data(p, flipped, a@.data, row_len as nat, k as nat) == Some(out@),
        decreases n - k,
    {
        proof {
            lemma_scan_data_len(p, flipped, a@.data, row_len as nat, k as nat);
        }
        if k < row_len {
            out.push(a.data[k]);
        } else {
            match elem_apply(p, flipped, out[k - row_len], a.data[k]) {
                Some(v) => out.push(v),
                None => {
                    proof {
                        lemma_scan_data_fails(p, flipped, a@.data, row_len as nat, (k + 1) as nat, n as nat);
                    }
                    return Err(Error::Unrepresentable);
                },
            }
        }
        k = k + 1;
    }
    proof {
        lemma_scan_data_len(p, flipped, a@.data, row_len as nat, n as nat);
    }
    let shape = copy_range(&a.shape, 0, a.shape.len());
    proof {
        assert(shape@ =~= a@.shape);
    }
    Ok(Array { shape, data: out })
}

/// The generic scan: each row and the accumulator go to `f` on the stack.
fn generic_scan(f: Function, xs: &Value) -> (r: Result<Value, Error>)
    requires
        xs@.wf(),
    ensures
        match generic_scan_spec(f, xs@) {
            Ok(v) => r.is_ok() && r.unwrap()@ == v && v.wf(),
            Err(e) => r == Err::<Value, Error>(e),
        },
{
    let (args, _) = f.signature();
    if args != 2 {
        return Err(Error::BadArity(args));
    }
    if xs.row_count() == 0 {
        return Ok(xs.copy());
    }
    let rows = xs.rows();
    let n = rows.len();
    let ghost all = views(rows@);
    let mut acc = rows[0].copy();
    let mut scanned: Vec<Value> = Vec::new();
    scanned.push(rows[0].copy());
    let ghost whole = scan_rows(f, all[0], all.drop_first());
    proof {
        assert(all[0] == rows@[0]@);
        assert(all.drop_first() =~= all.subrange(1, n as int));
        assert(views(scanned@) =~= seq![all[0]]);
        match whole {
            Ok(x) => assert(seq![all[0]] + x =~= seq![all[0]] + x),
            Err(_) => {},
        }
    }
    let mut i: usize = 1;
    while i < n
        invariant
            n == rows@.len(),
            n >= 1,
            all == views(rows@),
            all_wf(all),
            f.args() == 2,
            1 <= i <= n,
            acc@.wf(),
            all_wf(views(scanned@)),
            views(scanned@).len() >= 1,
            views(scanned@)[0] == all[0],
            whole == scan_rows(f, all[0], all.drop_first()),
            all == xs@.rows(),
            xs@.row_count() > 0,
            generic_scan_spec(f, xs@) == match whole {
                Ok(s) => combine(seq![all[0]] + s),
                Err(e) => Err::<ValueModel, Error>(e),
            },
            prepend(seq![all[0]], whole) == prepend(views(scanned@), scan_rows(f, acc@, all.subrange(i as int, n as int))),
        decreases n - i,
    {
        let ghost rest = all.subrange(i as int, n as int);
        let mut args_v: Vec<Value> = Vec::new();
        args_v.push(acc);
        args_v.push(rows[i].copy());
        proof {
            assert(rest[0] == all[i as int]);
            assert(all[i as int] == rows@[i as int]@);
            assert(views(args_v@) =~= seq![acc@, rest[0]]);
            assert(rest.drop_first() =~= all.subrange(i + 1, n as int));
            assert(all_wf(views(args_v@)));
        }
        match apply(f, &args_v) {
            Err(e) => return Err(e),
            Ok((out, brk)) => {
                let a = match out {
                    Some(a) => a,
                    None => return Err(Error::StackEmpty),
                };
                let ghost before = scanned@;
                scanned.push(a.copy());
                proof {
                    assert(views(scanned@) =~= views(before).push(a@));
                    assert(views(scanned@)[0] == views(before)[0]);
                    match scan_rows(f, a@, rest.drop_first()) {
                        Ok(x) => {
                            assert(views(before) + (seq![a@] + x) =~= views(scanned@) + x);
                        },
                        Err(_) => {},
                    }
                }
                if brk {
                    proof {
                        assert(views(before) + seq![a@] =~= views(scanned@));
                    }
                    return Value::from_row_values(&scanned);
                }
                acc = a;
            },
        }
        i = i + 1;
    }
    proof {
        assert(all.subrange(n as int, n as int) =~= Seq::<ValueModel>::empty());
        assert(views(scanned@) + Seq::<ValueModel>::empty() =~= views(scanned@));
    }
    Value::from_row_values(&scanned)
}

fn scan_value(f: Function, xs: &Value) -> (r: Result<Value, Error>)
    requires
        xs@.wf(),
    ensures
        match scan_spec(f, xs@) {
            Ok(v) => r.is_ok() && r.unwrap()@ == v && v.wf(),
            Err(e) => r == Err::<Value, Error>(e),
        },
{
    if xs.rank() == 0 {
        return Err(Error::ScanRankZero);
    }
    match f.as_flipped_primitive() {
        Some((p, fl)) => {
            if matches!(p, Primitive::Add | Primitive::Sub | Primitive::Mul | Primitive::Div | Primitive::Max | Primitive::Min) {
                match to_nums(xs) {
                    Some(a) => {
                        return match fast_scan(p, fl, &a) {
                            Ok(r) => Ok(Value::Num(r)),
                            Err(e) => Err(e),
                        };
                    },
                    None => {},
                }
            }
        },
        None => {},
    }
    generic_scan(f, xs)
}

/// Replaces an array by the running reductions of its rows.
pub fn scan(env: &mut Env) -> (r: Result<(), Error>)
    requires
        old(env).wf(),
    ensures
        final(env).wf(),
        match scan_outcome(old(env).model()) {
            Ok(s) => r.is_ok() && final(env).model() == s,
            Err((e, t)) => r == Err::<(), Error>(e) && final(env).model() == t,
        },
{
    let f = match env.pop_function() {
        Ok(f) => f,
        Err(e) => return Err(e),
    };
    let xs = match env.pop() {
        Ok(v) => v,
        Err(e) => return Err(e),
    };
    match scan_value(f, &xs) {
        Ok(v) => {
            env.push(v);
            Ok(())
        },
        Err(e) => Err(e),
    }
}

} // verus!
