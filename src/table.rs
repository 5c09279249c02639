//! Table and cross: a function on every combination of elements or rows of
//! two arrays.

use vstd::prelude::*;
use vstd::arithmetic::div_mod::lemma_fundamental_div_mod_converse;
use crate::array::{Array, ArrayModel, flat_len, fits};
use crate::each::{map_pairs, map_pairs_exec, assemble, lemma_map_pairs_len};
use crate::env::{Env, StackResult, finish1, pop_spec, pop_fn_spec};
use crate::error::Error;
use crate::function::{Function, Primitive, elem_op, elem_apply, is_arith, is_compare, numeric, to_nums,
    lemma_flat_len_append, nums_as_bytes, nums_to_bytes, concat};
use crate::value::{Value, ValueModel, all_wf, views, flat_values, shape_fits};

verus! {

/// Each of `a` repeated `m` times: the outer index of a table.
pub open spec fn outer_left(a: Seq<ValueModel>, m: nat) -> Seq<ValueModel> {
    Seq::new(a.len() * m, |k: int| a[k / (m as int)])
}

/// All of `b`, `n` times over: the inner index of a table.
pub open spec fn outer_right(b: Seq<ValueModel>, n: nat) -> Seq<ValueModel> {
    Seq::new(n * b.len(), |k: int| b[k % (b.len() as int)])
}

/// The generic outer product of `f` over `a` and `b` (`a` on top), the
/// results arranged along `prefix`.
pub open spec fn outer_spec(f: Function, a: Seq<ValueModel>, b: Seq<ValueModel>, prefix: Seq<usize>) -> Result<ValueModel, Error> {
    if f.args() != 2 {
        Err(Error::BadArity(f.args() as usize))
    } else if f.outputs() != 1 {
        Err(Error::BadOutputs(f.outputs() as usize))
    } else {
        match map_pairs(f, outer_left(a, b.len()), outer_right(b, a.len())) {
            Err(e) => Err(e),
            Ok(vs) => assemble(vs, prefix),
        }
    }
}

/// The generic table: `f` on every pair of elements, arranged along both
/// shapes; a combined shape too large for memory is an overflow.
pub open spec fn generic_table_spec(f: Function, xs: ValueModel, ys: ValueModel) -> Result<ValueModel, Error> {
    if !fits(xs.shape() + ys.shape()) {
        Err(Error::Unrepresentable)
    } else {
        outer_spec(f, flat_values(xs), flat_values(ys), xs.shape() + ys.shape())
    }
}

/// Element `k` of a numeric table.
pub open spec fn outer_elem(p: Primitive, flipped: bool, a: ArrayModel<i64>, b: ArrayModel<i64>, k: int) -> Option<i64> {
    elem_op(p, flipped, a.data[k / (b.data.len() as int)], b.data[k % (b.data.len() as int)])
}

/// A table of numbers by an element-wise primitive.
pub open spec fn fast_table_spec(p: Primitive, flipped: bool, a: ArrayModel<i64>, b: ArrayModel<i64>) -> Result<ArrayModel<i64>, Error> {
    let n = a.data.len() * b.data.len();
    if !fits(a.shape + b.shape) {
        Err(Error::Unrepresentable)
    } else if exists|k: int| 0 <= k < n && (#[trigger] outer_elem(p, flipped, a, b, k)).is_none() {
        Err(Error::Unrepresentable)
    } else {
        Ok(ArrayModel { shape: a.shape + b.shape, data: Seq::new(n, |k: int| outer_elem(p, flipped, a, b, k).unwrap()) })
    }
}

/// A table of pairs: each element of `a` next to each of `b` (the other way
/// round when flipped), along a new trailing axis of two.
pub open spec fn pairs_table_spec<T>(flipped: bool, a: ArrayModel<T>, b: ArrayModel<T>) -> Result<ArrayModel<T>, Error> {
    let n = a.data.len() * b.data.len();
    let shape = a.shape + b.shape + seq![2usize];
    if !fits(shape) {
        Err(Error::Unrepresentable)
    } else {
        Ok(ArrayModel {
            shape,
            data: Seq::new(2 * n, |k: int| {
                let q = k / 2;
                let x = a.data[q / (b.data.len() as int)];
                let y = b.data[q % (b.data.len() as int)];
                if (k % 2 == 0) != flipped { x } else { y }
            }),
        })
    }
}

/// What `table` gives.
pub open spec fn table_spec(f: Function, xs: ValueModel, ys: ValueModel) -> Result<ValueModel, Error> {
    match (f.flipped_primitive(), numeric(xs), numeric(ys)) {
        (Some((p, fl)), Some(a), Some(b)) => if is_arith(p) || is_compare(p) {
            match fast_table_spec(p, fl, a, b) {
                Ok(r) => Ok(if is_compare(p) { ValueModel::Byte(nums_as_bytes(r)) } else { ValueModel::Num(r) }),
                Err(e) => Err(e),
            }
        } else if p == Primitive::Join || p == Primitive::Couple {
            match (xs, ys) {
                (ValueModel::Byte(u), ValueModel::Byte(v)) => match pairs_table_spec(fl, u, v) {
                    Ok(r) => Ok(ValueModel::Byte(r)),
                    Err(e) => Err(e),
                },
                _ => match pairs_table_spec(fl, a, b) {
                    Ok(r) => Ok(ValueModel::Num(r)),
                    Err(e) => Err(e),
                },
            }
        } else {
            generic_table_spec(f, xs, ys)
        },
        _ => generic_table_spec(f, xs, ys),
    }
}

/// What `cross` gives: the function on every pair of rows.
pub open spec fn cross_spec(f: Function, xs: ValueModel, ys: ValueModel) -> Result<ValueModel, Error> {
    if xs.row_count() * ys.row_count() > usize::MAX {
        Err(Error::Unrepresentable)
    } else {
        outer_spec(f, xs.rows(), ys.rows(), seq![xs.row_count() as usize, ys.row_count() as usize])
    }
}

pub open spec fn table_outcome(s: Seq<ValueModel>) -> StackResult {
    match pop_fn_spec(s) {
        Err(e) => Err((e, s)),
        Ok((f, s1)) => match pop_spec(s1) {
            Err(e) => Err((e, s1)),
            Ok((xs, s2)) => match pop_spec(s2) {
                Err(e) => Err((e, s2)),
                Ok((ys, s3)) => finish1(s3, table_spec(f, xs, ys)),
            },
        },
    }
}

pub open spec fn cross_outcome(s: Seq<ValueModel>) -> StackResult {
    match pop_fn_spec(s) {
        Err(e) => Err((e, s)),
        Ok((f, s1)) => match pop_spec(s1) {
            Err(e) => Err((e, s1)),
            Ok((xs, s2)) => match pop_spec(s2) {
                Err(e) => Err((e, s2)),
                Ok((ys, s3)) => finish1(s3, cross_spec(f, xs, ys)),
            },
        },
    }
}

/// Position `i * m + j` of an `n` by `m` table.
proof fn lemma_outer_index(i: int, j: int, n: int, m: int)
    requires
        0 <= i < n,
        0 <= j < m,
    ensures
        (i * m + j) / m == i,
        (i * m + j) % m == j,
        0 <= i * m + j < n * m,
        i * m + j + 1 == (if j + 1 < m { i * m + (j + 1) } else { (i + 1) * m }),
{
    lemma_fundamental_div_mod_converse(i * m + j, m, i, j);
    assert(0 <= i * m + j < n * m) by (nonlinear_arith)
        requires 0 <= i < n, 0 <= j < m;
    assert((i + 1) * m == i * m + m) by (nonlinear_arith);
}

/// The pairs of an outer product, in order: `a[i]` with every `b[j]`.
fn outer_args(a: &Vec<Value>, b: &Vec<Value>) -> (r: (Vec<Value>, Vec<Value>))
    requires
        all_wf(views(a@)),
        all_wf(views(b@)),
        a@.len() * b@.len() <= usize::MAX,
    ensures
        views(r.0@) == outer_left(views(a@), b@.len()),
        views(r.1@) == outer_right(views(b@), a@.len()),
        r.0@.len() == r.1@.len(),
        all_wf(views(r.0@)),
        all_wf(views(r.1@)),
{
    let ghost va = views(a@);
    let ghost vb = views(b@);
    let n = a.len();
    let m = b.len();
    let mut left: Vec<Value> = Vec::new();
    let mut right: Vec<Value> = Vec::new();
    let mut i: usize = 0;
    while i < n
        invariant
            n == a@.len(),
            m == b@.len(),
            va == views(a@),
            vb == views(b@),
            all_wf(va),
            all_wf(vb),
            0 <= i <= n,
            left@.len() == i * m,
            right@.len() == i * m,
            forall|k: int| 0 <= k < i * m ==> views(left@)[k] == #[trigger] va[k / (m as int)],
            forall|k: int| 0 <= k < i * m ==> views(right@)[k] == #[trigger] vb[k % (m as int)],
            all_wf(views(left@)),
            all_wf(views(right@)),
        decreases n - i,
    {
        let mut j: usize = 0;
        while j < m
            invariant
                n == a@.len(),
                m == b@.len(),
                va == views(a@),
                vb == views(b@),
                all_wf(va),
                all_wf(vb),
                0 <= i < n,
                0 <= j <= m,
                left@.len() == i * m + j,
                right@.len() == i * m + j,
                forall|k: int| 0 <= k < i * m + j ==> views(left@)[k] == #[trigger] va[k / (m as int)],
                forall|k: int| 0 <= k < i * m + j ==> views(right@)[k] == #[trigger] vb[k % (m as int)],
                all_wf(views(left@)),
                all_wf(views(right@)),
            decreases m - j,
        {
            proof {
                lemma_outer_index(i as int, j as int, n as int, m as int);
                assert(va[i as int] == a@[i as int]@);
                assert(vb[j as int] == b@[j as int]@);
            }
            let ghost lb = left@;
            let ghost rb = right@;
            left.push(a[i].copy());
            right.push(b[j].copy());
            proof {
                assert(views(left@) =~= views(lb).push(a@[i as int]@));
                assert(views(right@) =~= views(rb).push(b@[j as int]@));
            }
            j = j + 1;
        }
        proof {
            assert((i + 1) * m == i * m + m) by (nonlinear_arith);
        }
        i = i + 1;
    }
    proof {
        assert(views(left@) =~= outer_left(va, m as nat));
        assert(views(right@) =~= outer_right(vb, n as nat));
    }
    (left, right)
}

/// The generic outer product: `f` on each pair, `a` on top.
fn outer(f: Function, a: &Vec<Value>, b: &Vec<Value>, prefix: &Vec<usize>) -> (r: Result<Value, Error>)
    requires
        all_wf(views(a@)),
        all_wf(views(b@)),
        a@.len() * b@.len() == flat_len(prefix@),
        flat_len(prefix@) <= usize::MAX,
    ensures
        match outer_spec(f, views(a@), views(b@), prefix@) {
            Ok(v) => r.is_ok() && r.unwrap()@ == v && v.wf(),
            Err(e) => r == Err::<Value, Error>(e),
        },
{
    let (args, outputs) = f.signature();
    if args != 2 {
        return Err(Error::BadArity(args));
    }
    if outputs != 1 {
        return Err(Error::BadOutputs(outputs));
    }
    let (left, right) = outer_args(a, b);
    let vs = match map_pairs_exec(f, &left, &right) {
        Ok(vs) => vs,
        Err(e) => return Err(e),
    };
    proof {
        lemma_map_pairs_len(f, views(left@), views(right@));
    }
    crate::each::assemble_exec(&vs, prefix)
}

/// A table of numbers by an element-wise primitive, `a` on top.
fn fast_table(p: Primitive, flipped: bool, a: &Array<i64>, b: &Array<i64>) -> (r: Result<Array<i64>, Error>)
    requires
        a@.wf(),
        b@.wf(),
    ensures
        match fast_table_spec(p, flipped, a@, b@) {
            Ok(m) => r.is_ok() && r.unwrap()@ == m && m.wf(),
            Err(e) => r == Err::<Array<i64>, Error>(e),
        },
{
    let shape = concat(&a.shape, &b.shape);
    if !shape_fits(&shape) {
        return Err(Error::Unrepresentable);
    }
    let n = a.data.len();
    let m = b.data.len();
    proof {
        lemma_flat_len_append(a@.shape, b@.shape);
        assert(flat_len(shape@) <= usize::MAX);
    }
    let mut data: Vec<i64> = Vec::new();
    let mut i: usize = 0;
    while i < n
        invariant
            n == a@.data.len(),
            m == b@.data.len(),
            n * m <= usize::MAX,
            0 <= i <= n,
            data@.len() == i * m,
            forall|k: int| 0 <= k < i * m ==> Some(#[trigger] data@[k]) == outer_elem(p, flipped, a@, b@, k),
        decreases n - i,
    {
        let mut j: usize = 0;
        while j < m
            invariant
                n == a@.data.len(),
                m == b@.data.len(),
                n * m <= usize::MAX,
                0 <= i < n,
                0 <= j <= m,
                data@.len() == i * m + j,
                forall|k: int| 0 <= k < i * m + j ==> Some(#[trigger] data@[k]) == outer_elem(p, flipped, a@, b@, k),
            decreases m - j,
        {
            proof {
                lemma_outer_index(i as int, j as int, n as int, m as int);
            }
            match elem_apply(p, flipped, a.data[i], b.data[j]) {
                Some(v) => data.push(v),
                None => {
                    proof {
                        assert(outer_elem(p, flipped, a@, b@, i * m + j).is_none());
                    }
                    return Err(Error::Unrepresentable);
                },
            }
            j = j + 1;
        }
        proof {
            assert((i + 1) * m == i * m + m) by (nonlinear_arith);
        }
        i = i + 1;
    }
    proof {
        assert forall|k: int| 0 <= k < n * m implies (#[trigger] outer_elem(p, flipped, a@, b@, k)).is_some() by {
            assert(Some(data@[k]) == outer_elem(p, flipped, a@, b@, k));
        }
        assert(data@ =~= Seq::new((n * m) as nat, |k: int| outer_elem(p, flipped, a@, b@, k).unwrap()));
    }
    Ok(Array { shape, data })
}

/// A table of pairs of elements of one type.
fn pairs_table<T: Copy>(flipped: bool, a: &Array<T>, b: &Array<T>) -> (r: Result<Array<T>, Error>)
    requires
        a@.wf(),
        b@.wf(),
    ensures
        match pairs_table_spec(flipped, a@, b@) {
            Ok(m) => r.is_ok() && r.unwrap()@ == m && m.wf(),
            Err(e) => r == Err::<Array<T>, Error>(e),
        },
{
    let mut shape = concat(&a.shape, &b.shape);
    shape.push(2);
    proof {
        assert(shape@ =~= a@.shape + b@.shape + seq![2usize]);
    }
    if !shape_fits(&shape) {
        return Err(Error::Unrepresentable);
    }
    let n = a.data.len();
    let m = b.data.len();
    proof {
        lemma_flat_len_append(a@.shape, b@.shape);
        lemma_flat_len_append(a@.shape + b@.shape, seq![2usize]);
        assert(seq![2usize].drop_first() =~= Seq::<usize>::empty());
        assert(flat_len(Seq::<usize>::empty()) == 1);
        assert(seq![2usize][0] == 2);
        assert(flat_len(seq![2usize]) == 2 * flat_len(seq![2usize].drop_first()));
        assert(flat_len(seq![2usize]) == 2);
        assert(flat_len(a@.shape + b@.shape) == n * m);
        assert(flat_len(shape@) == (n * m) * 2);
        assert(flat_len(shape@) <= usize::MAX);
    }
    let ghost want = Seq::new(2 * (n * m) as nat, |k: int| {
        let q = k / 2;
        let x = a@.data[q / (m as int)];
        let y = b@.data[q % (m as int)];
        if (k % 2 == 0) != flipped { x } else { y }
    });
    let mut data: Vec<T> = Vec::new();
    let mut i: usize = 0;
    while i < n
        invariant
            n == a@.data.len(),
            m == b@.data.len(),
            2 * (n * m) <= usize::MAX,
            want.len() == 2 * (n * m),
            want == Seq::new(2 * (n * m) as nat, |k: int| {
                let q = k / 2;
                let x = a@.data[q / (m as int)];
                let y = b@.data[q % (m as int)];
                if (k % 2 == 0) != flipped { x } else { y }
            }),
            0 <= i <= n,
            data@.len() == 2 * (i * m),
            forall|k: int| 0 <= k < 2 * (i * m) ==> #[trigger] data@[k] == want[k],
        decreases n - i,
    {
        let mut j: usize = 0;
        while j < m
            invariant
                n == a@.data.len(),
                m == b@.data.len(),
                2 * (n * m) <= usize::MAX,
                want.len() == 2 * (n * m),
                want == Seq::new(2 * (n * m) as nat, |k: int| {
                    let q = k / 2;
                    let x = a@.data[q / (m as int)];
                    let y = b@.data[q % (m as int)];
                    if (k % 2 == 0) != flipped { x } else { y }
                }),
                0 <= i < n,
                0 <= j <= m,
                data@.len() == 2 * (i * m + j),
                forall|k: int| 0 <= k < 2 * (i * m + j) ==> #[trigger] data@[k] == want[k],
            decreases m - j,
        {
            let ghost q = i * m + j;
            proof {
                lemma_outer_index(i as int, j as int, n as int, m as int);
                lemma_fundamental_div_mod_converse(2 * q, 2, q, 0);
                lemma_fundamental_div_mod_converse(2 * q + 1, 2, q, 1);
                assert(2 * q + 1 < 2 * (n * m));
            }
            let x = a.data[i];
            let y = b.data[j];
            if flipped {
                data.push(y);
                data.push(x);
            } else {
                data.push(x);
                data.push(y);
            }
            proof {
                assert(data@[2 * q] == want[2 * q]);
                assert(data@[2 * q + 1] == want[2 * q + 1]);
            }
            j = j + 1;
        }
        proof {
            assert((i + 1) * m == i * m + m) by (nonlinear_arith);
        }
        i = i + 1;
    }
    proof {
        assert(data@ =~= want);
        let sp = pairs_table_spec(flipped, a@, b@);
        assert(fits(shape@));
        assert(sp.is_ok());
        assert(sp.unwrap().shape == shape@);
        assert(sp.unwrap().data =~= want);
    }
    Ok(Array { shape, data })
}

fn table_value(f: Function, xs: &Value, ys: &Value) -> (r: Result<Value, Error>)
    requires
        xs@.wf(),
        ys@.wf(),
    ensures
        match table_spec(f, xs@, ys@) {
            Ok(v) => r.is_ok() && r.unwrap()@ == v && v.wf(),
            Err(e) => r == Err::<Value, Error>(e),
        },
{
    match f.as_flipped_primitive() {
        Some((p, fl)) => {
            match (to_nums(xs), to_nums(ys)) {
                (Some(a), Some(b)) => {
                    if matches!(p, Primitive::Add | Primitive::Sub | Primitive::Mul | Primitive::Div | Primitive::Max | Primitive::Min) {
                        return match fast_table(p, fl, &a, &b) {
                            Ok(r) => Ok(Value::Num(r)),
                            Err(e) => Err(e),
                        };
                    }
                    if matches!(p, Primitive::Eq | Primitive::Ne | Primitive::Lt | Primitive::Gt | Primitive::Le | Primitive::Ge) {
                        return match fast_table(p, fl, &a, &b) {
                            Ok(r) => Ok(Value::Byte(nums_to_bytes(&r))),
                            Err(e) => Err(e),
                        };
                    }
                    if matches!(p, Primitive::Join | Primitive::Couple) {
                        return match (xs, ys) {
                            (Value::Byte(u), Value::Byte(v)) => match pairs_table(fl, u, v) {
                                Ok(r) => Ok(Value::Byte(r)),
                                Err(e) => Err(e),
                            },
                            _ => match pairs_table(fl, &a, &b) {
                                Ok(r) => Ok(Value::Num(r)),
                                Err(e) => Err(e),
                            },
                        };
                    }
                },
                _ => {},
            }
        },
        None => {},
    }
    let a = xs.flat_values();
    let b = ys.flat_values();
    let prefix = concat(xs.shape(), ys.shape());
    proof {
        lemma_flat_len_append(xs@.shape(), ys@.shape());
    }
    if !shape_fits(&prefix) {
        return Err(Error::Unrepresentable);
    }
    outer(f, &a, &b, &prefix)
}

/// Calls a two-argument function on every pair of elements of two arrays.
pub fn table(env: &mut Env) -> (r: Result<(), Error>)
    requires
        old(env).wf(),
    ensures
        final(env).wf(),
        match table_outcome(old(env).model()) {
            Ok(s) => r.is_ok() && final(env).model() == s,
            Err((e, t)) => r == Err::<(), Error>(e) && final(env).model() == t,
        },
{
    let f = match env.pop_function() {
        Ok(f) => f,
        Err(e) => return Err(e),
    };
    let xs = match env.pop() {
        Ok(v) => v,
        Err(e) => return Err(e),
    };
    let ys = match env.pop() {
        Ok(v) => v,
        Err(e) => return Err(e),
    };
    match table_value(f, &xs, &ys) {
        Ok(v) => {
            env.push(v);
            Ok(())
        },
        Err(e) => Err(e),
    }
}

/// Calls a two-argument function on every pair of rows of two arrays.
pub fn cross(env: &mut Env) -> (r: Result<(), Error>)
    requires
        old(env).wf(),
    ensures
        final(env).wf(),
        match cross_outcome(old(env).model()) {
            Ok(s) => r.is_ok() && final(env).model() == s,
            Err((e, t)) => r == Err::<(), Error>(e) && final(env).model() == t,
        },
{
    let f = match env.pop_function() {
        Ok(f) => f,
        Err(e) => return Err(e),
    };
    let xs = match env.pop() {
        Ok(v) => v,
        Err(e) => return Err(e),
    };
    let ys = match env.pop() {
        Ok(v) => v,
        Err(e) => return Err(e),
    };
    let nx = xs.row_count();
    let ny = ys.row_count();
    if ny > 0 && nx > usize::MAX / ny {
        proof {
            assert(nx * ny > usize::MAX) by (nonlinear_arith)
                requires ny > 0, nx > usize::MAX / ny;
        }
        return Err(Error::Unrepresentable);
    }
    proof {
        assert(nx * ny <= usize::MAX) by (nonlinear_arith)
            requires ny == 0 || nx <= usize::MAX / ny;
    }
    let x_rows = xs.rows();
    let y_rows = ys.rows();
    let mut prefix: Vec<usize> = Vec::new();
    prefix.push(nx);
    prefix.push(ny);
    proof {
        let p = seq![nx, ny];
        assert(prefix@ =~= p);
        assert(p.drop_first() =~= seq![ny]);
        assert(seq![ny].drop_first() =~= Seq::<usize>::empty());
        assert(flat_len(Seq::<usize>::empty()) == 1);
        assert(flat_len(seq![ny]) == ny * flat_len(seq![ny].drop_first()));
        assert(flat_len(p) == nx * flat_len(p.drop_first()));
        assert(flat_len(p) == nx * ny);
    }
    match outer(f, &x_rows, &y_rows, &prefix) {
        Ok(v) => {
            env.push(v);
            Ok(())
        },
        Err(e) => Err(e),
    }
}

} // verus!
