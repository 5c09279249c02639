//! Reduce and fold: combining the rows of an array left to right.

use vstd::prelude::*;
use crate::array::{Array, ArrayModel, flat_len, fits, copy_range, lemma_row_in_bounds};
use crate::env::{Env, StackResult, finish, opt_seq, pop_spec, pop_fn_spec};
use crate::error::Error;
use crate::function::{Function, Primitive, apply, apply_spec, elem_op, elem_apply, is_arith, numeric, opt_view, to_nums};
use crate::value::{Value, ValueModel, all_wf, views, from_values_spec};

verus! {

/// `Ok(p + r)` for `Ok(r)`; errors pass through.
pub open spec fn prepend(p: Seq<ValueModel>, r: Result<Seq<ValueModel>, Error>) -> Result<Seq<ValueModel>, Error> {
    match r {
        Ok(x) => Ok(p + x),
        Err(e) => Err(e),
    }
}

/// One value made of `vals` as rows.
pub open spec fn combine(vals: Seq<ValueModel>) -> Result<ValueModel, Error> {
    match from_values_spec(vals) {
        Some(v) => Ok(v),
        None => Err(Error::CombineMismatch),
    }
}

/// A function of at most one argument called on each row in turn: its
/// results stay on the stack. When it signals `break`, its last result and
/// the rows not yet visited are combined into one value, and the walk stops.
pub open spec fn fold_monadic(f: Function, rows: Seq<ValueModel>) -> Result<Seq<ValueModel>, Error>
    decreases rows.len(),
{
    if rows.len() == 0 {
        Ok(Seq::empty())
    } else {
        match apply_spec(f, seq![rows[0]]) {
            Err(e) => Err(e),
            Ok((out, brk)) => if brk {
                match combine(opt_seq(out) + rows.drop_first()) {
                    Ok(v) => Ok(seq![v]),
                    Err(e) => Err(e),
                }
            } else {
                prepend(opt_seq(out), fold_monadic(f, rows.drop_first()))
            },
        }
    }
}

/// A two-argument function folded over `rows` from the left, the accumulator
/// on top. When it signals `break`, the accumulator and the rows not yet
/// visited are combined into one value.
pub open spec fn fold_dyadic(f: Function, acc: ValueModel, rows: Seq<ValueModel>) -> Result<ValueModel, Error>
    decreases rows.len(),
{
    if rows.len() == 0 {
        Ok(acc)
    } else {
        match apply_spec(f, seq![acc, rows[0]]) {
            Err(e) => Err(e),
            Ok((out, brk)) => match out {
                None => Err(Error::StackEmpty),
                Some(a) => if brk {
                    combine(seq![a] + rows.drop_first())
                } else {
                    fold_dyadic(f, a, rows.drop_first())
                },
            },
        }
    }
}

/// What a generic reduction (with `init`, a fold) pushes.
pub open spec fn generic_fold_spec(f: Function, xs: ValueModel, init: Option<ValueModel>) -> Result<Seq<ValueModel>, Error> {
    if f.args() <= 1 {
        fold_monadic(f, opt_seq(init) + xs.rows())
    } else if f.args() == 2 {
        let rows = xs.rows();
        let r = match init {
            Some(a) => fold_dyadic(f, a, rows),
            None => if rows.len() == 0 {
                Err(Error::EmptyReduce)
            } else {
                fold_dyadic(f, rows[0], rows.drop_first())
            },
        };
        match r {
            Ok(v) => Ok(seq![v]),
            Err(e) => Err(e),
        }
    } else {
        Err(Error::BadArity(f.args() as usize))
    }
}

/// `first` followed by `rows[start..]`.
fn with_rest(first: Value, rows: &Vec<Value>, start: usize) -> (r: Vec<Value>)
    requires
        start <= rows@.len(),
        first@.wf(),
        all_wf(views(rows@)),
    ensures
        views(r@) == seq![first@] + views(rows@).subrange(start as int, rows@.len() as int),
        all_wf(views(r@)),
{
    let mut r: Vec<Value> = Vec::new();
    r.push(first);
    let mut i: usize = start;
    while i < rows.len()
        invariant
            start <= i <= rows@.len(),
            all_wf(views(rows@)),
            views(r@) == seq![first@] + views(rows@).subrange(start as int, i as int),
            all_wf(views(r@)),
        decreases rows.len() - i,
    {
        let ghost before = r@;
        proof {
            assert(views(rows@)[i as int] == rows@[i as int]@);
        }
        r.push(rows[i].copy());
        i = i + 1;
        proof {
            assert(views(r@) =~= views(before).push(rows@[i - 1]@));
            assert(views(r@) =~= seq![first@] + views(rows@).subrange(start as int, i as int));
        }
    }
    r
}

/// The generic reduction with a function of at most one argument.
fn fold_rows_monadic(f: Function, xs: &Value, init: Option<Value>) -> (r: Result<Vec<Value>, Error>)
    requires
        xs@.wf(),
        init.is_some() ==> init.unwrap()@.wf(),
        f.args() <= 1,
    ensures
        match fold_monadic(f, opt_seq(opt_view(init)) + xs@.rows()) {
            Ok(s) => r.is_ok() && views(r.unwrap()@) == s && all_wf(s),
            Err(e) => r == Err::<Vec<Value>, Error>(e),
        },
{
    let ghost target = opt_seq(opt_view(init)) + xs@.rows();
    let mut rows: Vec<Value> = Vec::new();
    match init {
        Some(v) => rows.push(v),
        None => {},
    }
    let xs_rows = xs.rows();
    let mut k: usize = 0;
    while k < xs_rows.len()
        invariant
            all_wf(views(xs_rows@)),
            0 <= k <= xs_rows@.len(),
            views(rows@) == opt_seq(opt_view(init)) + views(xs_rows@).subrange(0, k as int),
            all_wf(views(rows@)),
        decreases xs_rows.len() - k,
    {
        let ghost before = rows@;
        proof {
            assert(views(xs_rows@)[k as int] == xs_rows@[k as int]@);
        }
        rows.push(xs_rows[k].copy());
        k = k + 1;
        proof {
            assert(views(rows@) =~= views(before).push(xs_rows@[k - 1]@));
            assert(views(rows@) =~= opt_seq(opt_view(init)) + views(xs_rows@).subrange(0, k as int));
        }
    }
    proof {
        assert(views(xs_rows@).subrange(0, k as int) =~= xs@.rows());
    }
    let ghost all = views(rows@);
    let n = rows.len();
    let mut outs: Vec<Value> = Vec::new();
    proof {
        assert(all.subrange(0, n as int) =~= all);
        assert(views(outs@) =~= Seq::<ValueModel>::empty());
        match fold_monadic(f, all) {
            Ok(x) => assert(Seq::<ValueModel>::empty() + x =~= x),
            Err(_) => {},
        }
    }
    let mut i: usize = 0;
    while i < n
        invariant
            n == rows@.len(),
            all == views(rows@),
            all == target,
            target == opt_seq(opt_view(init)) + xs@.rows(),
            all_wf(all),
            f.args() <= 1,
            0 <= i <= n,
            all_wf(views(outs@)),
            fold_monadic(f, all) == prepend(views(outs@), fold_monadic(f, all.subrange(i as int, n as int))),
        decreases n - i,
    {
        let ghost rest = all.subrange(i as int, n as int);
        let mut args_v: Vec<Value> = Vec::new();
        args_v.push(rows[i].copy());
        proof {
            assert(rest[0] == all[i as int]);
            assert(views(args_v@) =~= seq![rest[0]]);
            assert(rest.drop_first() =~= all.subrange(i + 1, n as int));
        }
        match apply(f, &args_v) {
            Err(e) => {
                proof {
                    assert(rest.len() > 0);
                    assert(fold_monadic(f, rest) == Err::<Seq<ValueModel>, Error>(e));
                }
                return Err(e);
            },
            Ok((out, brk)) => {
                if brk {
                    let vals = match out {
                        Some(v) => with_rest(v, &rows, i + 1),
                        None => {
                            let mut t: Vec<Value> = Vec::new();
                            let mut j: usize = i + 1;
                            while j < n
                                invariant
                                    n == rows@.len(),
                                    all == views(rows@),
                                    all_wf(all),
                                    i + 1 <= j <= n,
                                    views(t@) == all.subrange(i + 1, j as int),
                                    all_wf(views(t@)),
                                decreases n - j,
                            {
                                let ghost tb = t@;
                                proof {
                                    assert(all[j as int] == rows@[j as int]@);
                                }
                                t.push(rows[j].copy());
                                j = j + 1;
                                proof {
                                    assert(views(t@) =~= views(tb).push(rows@[j - 1]@));
                                    assert(views(t@) =~= all.subrange(i + 1, j as int));
                                }
                            }
                            t
                        },
                    };
                    proof {
                        assert(views(vals@) =~= opt_seq(opt_view(out)) + rest.drop_first());
                    }
                    let v = match Value::from_row_values(&vals) {
                        Ok(v) => v,
                        Err(e) => return Err(e),
                    };
                    outs.push(v);
                    proof {
                        assert(views(outs@) =~= views(outs@.drop_last()) + seq![v@]);
                    }
                    return Ok(outs);
                }
                let ghost before = outs@;
                match out {
                    Some(v) => outs.push(v),
                    None => {},
                }
                proof {
                    assert(views(outs@) =~= views(before) + opt_seq(opt_view(out)));
                    match fold_monadic(f, all.subrange(i + 1, n as int)) {
                        Ok(x) => {
                            assert((views(before) + opt_seq(opt_view(out))) + x
                                =~= views(before) + (opt_seq(opt_view(out)) + x));
                        },
                        Err(_) => {},
                    }
                    assert(all_wf(views(outs@))) by {
                        assert forall|q: int| 0 <= q < views(outs@).len() implies (#[trigger] views(outs@)[q]).wf() by {
                            if q < views(before).len() {
                                assert(views(outs@)[q] == views(before)[q]);
                            }
                        }
                    }
                }
            },
        }
        i = i + 1;
    }
    proof {
        assert(all.subrange(n as int, n as int) =~= Seq::<ValueModel>::empty());
        assert(views(outs@) + Seq::<ValueModel>::empty() =~= views(outs@));
    }
    Ok(outs)
}

/// The generic reduction with a function of two arguments.
fn fold_rows_dyadic(f: Function, xs: &Value, init: Option<Value>) -> (r: Result<Vec<Value>, Error>)
    requires
        xs@.wf(),
        init.is_some() ==> init.unwrap()@.wf(),
        f.args() == 2,
    ensures
        match generic_fold_spec(f, xs@, opt_view(init)) {
            Ok(s) => r.is_ok() && views(r.unwrap()@) == s && all_wf(s),
            Err(e) => r == Err::<Vec<Value>, Error>(e),
        },
{
    let rows = xs.rows();
    let n = rows.len();
    let ghost all = views(rows@);
    let (mut acc, start) = match init {
        Some(v) => (v, 0usize),
        None => {
            if n == 0 {
                return Err(Error::EmptyReduce);
            }
            (rows[0].copy(), 1usize)
        },
    };
    proof {
        if init.is_none() {
            assert(all.subrange(1, n as int) =~= all.drop_first());
        } else {
            assert(all.subrange(0, n as int) =~= all);
        }
    }
    let ghost whole = fold_dyadic(f, acc@, all.subrange(start as int, n as int));
    let ghost spec_res = generic_fold_spec(f, xs@, opt_view(init));
    proof {
        assert(spec_res == match whole { Ok(v) => Ok(seq![v]), Err(e) => Err::<Seq<ValueModel>, Error>(e) });
    }
    let mut i: usize = start;
    while i < n
        invariant
            n == rows@.len(),
            all == views(rows@),
            all_wf(all),
            f.args() == 2,
            start <= i <= n,
            acc@.wf(),
            spec_res == generic_fold_spec(f, xs@, opt_view(init)),
            spec_res == match whole { Ok(v) => Ok(seq![v]), Err(e) => Err::<Seq<ValueModel>, Error>(e) },
            whole == fold_dyadic(f, acc@, all.subrange(i as int, n as int)),
        decreases n - i,
    {
        let ghost rest = all.subrange(i as int, n as int);
        let mut args_v: Vec<Value> = Vec::new();
        args_v.push(acc);
        args_v.push(rows[i].copy());
        proof {
            assert(rest[0] == all[i as int]);
            assert(views(args_v@) =~= seq![acc@, rest[0]]);
            assert(rest.drop_first() =~= all.subrange(i + 1, n as int));
            assert(all_wf(views(args_v@)));
        }
        match apply(f, &args_v) {
            Err(e) => return Err(e),
            Ok((out, brk)) => {
                let a = match out {
                    Some(a) => a,
                    None => return Err(Error::StackEmpty),
                };
                if brk {
                    let vals = with_rest(a, &rows, i + 1);
                    let v = match Value::from_row_values(&vals) {
                        Ok(v) => v,
                        Err(e) => return Err(e),
                    };
                    let mut res: Vec<Value> = Vec::new();
                    res.push(v);
                    proof {
                        assert(views(res@) =~= seq![v@]);
                    }
                    return Ok(res);
                }
                acc = a;
            },
        }
        i = i + 1;
    }
    proof {
        assert(all.subrange(n as int, n as int) =~= Seq::<ValueModel>::empty());
    }
    let mut res: Vec<Value> = Vec::new();
    res.push(acc);
    proof {
        assert(views(res@) =~= seq![acc@]);
    }
    Ok(res)
}

/// The generic reduction: rows are pushed and `f` is called on the stack.
fn generic_fold(f: Function, xs: &Value, init: Option<Value>) -> (r: Result<Vec<Value>, Error>)
    requires
        xs@.wf(),
        init.is_some() ==> init.unwrap()@.wf(),
    ensures
        match generic_fold_spec(f, xs@, opt_view(init)) {
            Ok(s) => r.is_ok() && views(r.unwrap()@) == s && all_wf(s),
            Err(e) => r == Err::<Vec<Value>, Error>(e),
        },
{
    let (args, _) = f.signature();
    if args <= 1 {
        fold_rows_monadic(f, xs, init)
    } else if args == 2 {
        fold_rows_dyadic(f, xs, init)
    } else {
        Err(Error::BadArity(args))
    }
}

/// The left fold of a primitive over numbers, starting from `acc`; `None`
/// when a step leaves `i64`.
pub open spec fn fold_elems(p: Primitive, flipped: bool, acc: i64, xs: Seq<i64>) -> Option<i64>
    decreases xs.len(),
{
    if xs.len() == 0 {
        Some(acc)
    } else {
        match elem_op(p, flipped, acc, xs[0]) {
            Some(a) => fold_elems(p, flipped, a, xs.drop_first()),
            None => None,
        }
    }
}

/// The value a reduction of nothing gives: 0 for sums and differences, 1 for
/// products and quotients, and the infinity that a maximum or minimum starts
/// from.
pub open spec fn identity(p: Primitive) -> i64 {
    match p {
        Primitive::Mul | Primitive::Div => 1,
        Primitive::Max => i64::MIN,
        Primitive::Min => i64::MAX,
        _ => 0,
    }
}

/// Column `j` of a numeric array below its first row.
pub open spec fn column(a: ArrayModel<i64>, j: int) -> Seq<i64> {
    Seq::new((a.row_count() - 1) as nat, |i: int| a.data[(i + 1) * a.row_len() + j])
}

pub open spec fn scalar_array(v: i64) -> ArrayModel<i64> {
    ArrayModel { shape: Seq::empty(), data: seq![v] }
}

/// The reduction of a numeric array by a primitive: the element itself at rank
/// 0, the left fold of a list (the identity when empty), and the left fold of
/// each column otherwise (the identity in each place when there are no rows).
pub open spec fn fast_reduce_spec(p: Primitive, flipped: bool, a: ArrayModel<i64>) -> Result<ArrayModel<i64>, Error> {
    if a.shape.len() == 0 {
        Ok(scalar_array(a.data[0]))
    } else if a.shape.len() == 1 {
        if a.data.len() == 0 {
            Ok(scalar_array(identity(p)))
        } else {
            match fold_elems(p, flipped, a.data[0], a.data.drop_first()) {
                Some(v) => Ok(scalar_array(v)),
                None => Err(Error::Unrepresentable),
            }
        }
    } else if a.row_count() == 0 {
        Ok(ArrayModel { shape: a.shape.drop_first(), data: Seq::new(a.row_len(), |j: int| identity(p)) })
    } else if exists|j: int| 0 <= j < a.row_len() && (#[trigger] fold_elems(p, flipped, a.data[j], column(a, j))).is_none() {
        Err(Error::Unrepresentable)
    } else {
        Ok(ArrayModel {
            shape: a.shape.drop_first(),
            data: Seq::new(a.row_len(), |j: int| fold_elems(p, flipped, a.data[j], column(a, j)).unwrap()),
        })
    }
}

fn identity_of(p: Primitive) -> (r: i64)
    ensures
        r == identity(p),
{
    match p {
        Primitive::Mul | Primitive::Div => 1,
        Primitive::Max => i64::MIN,
        Primitive::Min => i64::MAX,
        _ => 0,
    }
}

fn scalar(v: i64) -> (r: Array<i64>)
    ensures
        r@ == scalar_array(v),
        r@.wf(),
{
    let mut data: Vec<i64> = Vec::new();
    data.push(v);
    let shape: Vec<usize> = Vec::new();
    proof {
        assert(data@ =~= seq![v]);
        assert(shape@ =~= Seq::<usize>::empty());
        assert(flat_len(shape@) == 1);
        assert(fits(shape@));
    }
    Array { shape, data }
}

/// Reduces a numeric array with a primitive, without calling back into the
/// stack machine.
pub fn fast_reduce(p: Primitive, flipped: bool, a: &Array<i64>) -> (r: Result<Array<i64>, Error>)
    requires
        a@.wf(),
    ensures
        match fast_reduce_spec(p, flipped, a@) {
            Ok(m) => r.is_ok() && r.unwrap()@ == m && m.wf(),
            Err(e) => r == Err::<Array<i64>, Error>(e),
        },
{
    if a.shape.len() == 0 {
        return Ok(scalar(a.data[0]));
    }
    if a.shape.len() == 1 {
        if a.data.len() == 0 {
            return Ok(scalar(identity_of(p)));
        }
        let ghost xs = a@.data;
        let mut acc = a.data[0];
        let mut i: usize = 1;
        while i < a.data.len()
            invariant
                xs == a@.data,
                a@.shape.len() == 1,
                1 <= i <= xs.len(),
                fold_elems(p, flipped, xs[0], xs.drop_first()) == fold_elems(p, flipped, acc, xs.subrange(i as int, xs.len() as int)),
            decreases xs.len() - i,
        {
            proof {
                let rest = xs.subrange(i as int, xs.len() as int);
                assert(rest[0] == xs[i as int]);
                assert(rest.drop_first() =~= xs.subrange(i + 1, xs.len() as int));
            }
            match elem_apply(p, flipped, acc, a.data[i]) {
                Some(v) => acc = v,
                None => return Err(Error::Unrepresentable),
            }
            i = i + 1;
        }
        proof {
            assert(xs.subrange(i as int, xs.len() as int) =~= Seq::<i64>::empty());
            assert(xs.subrange(1, xs.len() as int) =~= xs.drop_first());
        }
        return Ok(scalar(acc));
    }
    let row_len = a.row_len();
    let row_count = a.row_count();
    let shape = copy_range(&a.shape, 1, a.shape.len());
    proof {
        assert(shape@ =~= a@.shape.drop_first());
        assert(fits(a@.shape.drop_first()));
    }
    if row_count == 0 {
        let id = identity_of(p);
        let mut data: Vec<i64> = Vec::new();
        let mut j: usize = 0;
        while j < row_len
            invariant
                0 <= j <= row_len,
                id == identity(p),
                data@ == Seq::new(j as nat, |q: int| identity(p)),
            decreases row_len - j,
        {
            data.push(id);
            j = j + 1;
            proof {
                assert(data@ =~= Seq::new(j as nat, |q: int| identity(p)));
            }
        }
        return Ok(Array { shape, data });
    }
    proof {
        lemma_row_in_bounds(a@, 0);
    }
    let mut data = copy_range(&a.data, 0, row_len);
    let ghost m = a@;
    proof {
        assert forall|j: int| 0 <= j < row_len implies fold_elems(p, flipped, m.data[j], #[trigger] column(m, j))
            == fold_elems(p, flipped, data@[j], column(m, j).subrange(0, row_count - 1)) by {
            assert(column(m, j).subrange(0, row_count - 1) =~= column(m, j));
        }
    }
    let mut i: usize = 1;
    while i < row_count
        invariant
            m == a@,
            m.wf(),
            m.shape.len() >= 2,
            row_len == m.row_len(),
            row_count == m.row_count(),
            1 <= i <= row_count,
            data@.len() == row_len,
            forall|j: int| 0 <= j < row_len ==> fold_elems(p, flipped, m.data[j], #[trigger] column(m, j))
                == fold_elems(p, flipped, data@[j], column(m, j).subrange(i - 1, row_count - 1)),
        decreases row_count - i,
    {
        proof {
            lemma_row_in_bounds(m, i as int);
        }
        let start = i * row_len;
        let mut j: usize = 0;
        while j < row_len
            invariant
                m == a@,
                m.wf(),
                m.shape.len() >= 2,
                row_len == m.row_len(),
                row_count == m.row_count(),
                1 <= i < row_count,
                start == i * row_len,
                start + row_len <= m.data.len(),
                0 <= j <= row_len,
                data@.len() == row_len,
                forall|q: int| 0 <= q < j ==> fold_elems(p, flipped, m.data[q], #[trigger] column(m, q))
                    == fold_elems(p, flipped, data@[q], column(m, q).subrange(i as int, row_count - 1)),
                forall|q: int| j <= q < row_len ==> fold_elems(p, flipped, m.data[q], #[trigger] column(m, q))
                    == fold_elems(p, flipped, data@[q], column(m, q).subrange(i - 1, row_count - 1)),
            decreases row_len - j,
        {
            let ghost col = column(m, j as int);
            proof {
                let rest = col.subrange(i - 1, row_count - 1);
                assert(rest[0] == col[i - 1]);
                assert(col[i - 1] == m.data[i * row_len + j]);
                assert(rest.drop_first() =~= col.subrange(i as int, row_count - 1));
            }
            match elem_apply(p, flipped, data[j], a.data[start + j]) {
                Some(v) => {
                    let ghost before = data@;
                    data.set(j, v);
                    proof {
                        assert forall|q: int| 0 <= q < j + 1 implies fold_elems(p, flipped, m.data[q], #[trigger] column(m, q))
                            == fold_elems(p, flipped, data@[q], column(m, q).subrange(i as int, row_count - 1)) by {
                            if q < j {
                                assert(data@[q] == before[q]);
                            }
                        }
                        assert forall|q: int| j + 1 <= q < row_len implies fold_elems(p, flipped, m.data[q], #[trigger] column(m, q))
                            == fold_elems(p, flipped, data@[q], column(m, q).subrange(i - 1, row_count - 1)) by {
                            assert(data@[q] == before[q]);
                        }
                    }
                },
                None => {
                    proof {
                        assert(fold_elems(p, flipped, m.data[j as int], column(m, j as int)).is_none());
                    }
                    return Err(Error::Unrepresentable);
                },
            }
            j = j + 1;
        }
        i = i + 1;
    }
    proof {
        assert forall|j: int| 0 <= j < row_len implies fold_elems(p, flipped, m.data[j], #[trigger] column(m, j))
            == Some(data@[j]) by {
            assert(column(m, j).subrange(row_count - 1, row_count - 1) =~= Seq::<i64>::empty());
        }
        assert(data@ =~= Seq::new(m.row_len(), |j: int| fold_elems(p, flipped, m.data[j], column(m, j)).unwrap()));
    }
    Ok(Array { shape, data })
}

/// What reducing `xs` by `f` pushes: a recognised arithmetic primitive on
/// numbers takes the numeric kernel, anything else the generic path.
pub open spec fn reduce_spec(f: Function, xs: ValueModel) -> Result<Seq<ValueModel>, Error> {
    match (f.flipped_primitive(), numeric(xs)) {
        (Some((p, fl)), Some(a)) => if is_arith(p) {
            match fast_reduce_spec(p, fl, a) {
                Ok(r) => Ok(seq![ValueModel::Num(r)]),
                Err(e) => Err(e),
            }
        } else {
            generic_fold_spec(f, xs, None)
        },
        _ => generic_fold_spec(f, xs, None),
    }
}

/// The stack after `reduce`: the function, then the array, come off the top.
pub open spec fn reduce_outcome(s: Seq<ValueModel>) -> StackResult {
    match pop_fn_spec(s) {
        Err(e) => Err((e, s)),
        Ok((f, s1)) => match pop_spec(s1) {
            Err(e) => Err((e, s1)),
            Ok((xs, s2)) => finish(s2, reduce_spec(f, xs)),
        },
    }
}

/// The stack after `fold`: the function, the initial value and the array come
/// off the top.
pub open spec fn fold_outcome(s: Seq<ValueModel>) -> StackResult {
    match pop_fn_spec(s) {
        Err(e) => Err((e, s)),
        Ok((f, s1)) => match pop_spec(s1) {
            Err(e) => Err((e, s1)),
            Ok((acc, s2)) => match pop_spec(s2) {
                Err(e) => Err((e, s2)),
                Ok((xs, s3)) => finish(s3, generic_fold_spec(f, xs, Some(acc))),
            },
        },
    }
}

fn reduce_value(f: Function, xs: &Value) -> (r: Result<Vec<Value>, Error>)
    requires
        xs@.wf(),
    ensures
        match reduce_spec(f, xs@) {
            Ok(s) => r.is_ok() && views(r.unwrap()@) == s && all_wf(s),
            Err(e) => r == Err::<Vec<Value>, Error>(e),
        },
{
    match f.as_flipped_primitive() {
        Some((p, fl)) => {
            if matches!(p, Primitive::Add | Primitive::Sub | Primitive::Mul | Primitive::Div | Primitive::Max | Primitive::Min) {
                match to_nums(xs) {
                    Some(a) => {
                        return match fast_reduce(p, fl, &a) {
                            Ok(r) => {
                                let mut out: Vec<Value> = Vec::new();
                                out.push(Value::Num(r));
                                proof {
                                    assert(views(out@) =~= seq![out@[0]@]);
                                }
                                Ok(out)
                            },
                            Err(e) => Err(e),
                        };
                    },
                    None => {},
                }
            }
        },
        None => {},
    }
    generic_fold(f, xs, None)
}

/// Reduces the rows of an array with a function, left to right.
pub fn reduce(env: &mut Env) -> (r: Result<(), Error>)
    requires
        old(env).wf(),
    ensures
        final(env).wf(),
        match reduce_outcome(old(env).model()) {
            Ok(s) => r.is_ok() && final(env).model() == s,
            Err((e, t)) => r == Err::<(), Error>(e) && final(env).model() == t,
        },
{
    let f = match env.pop_function() {
        Ok(f) => f,
        Err(e) => return Err(e),
    };
    let xs = match env.pop() {
        Ok(v) => v,
        Err(e) => return Err(e),
    };
    match reduce_value(f, &xs) {
        Ok(vals) => {
            env.push_all(vals);
            Ok(())
        },
        Err(e) => Err(e),
    }
}

/// Folds the rows of an array into an initial value with a function.
pub fn fold(env: &mut Env) -> (r: Result<(), Error>)
    requires
        old(env).wf(),
    ensures
        final(env).wf(),
        match fold_outcome(old(env).model()) {
            Ok(s) => r.is_ok() && final(env).model() == s,
            Err((e, t)) => r == Err::<(), Error>(e) && final(env).model() == t,
        },
{
    let f = match env.pop_function() {
        Ok(f) => f,
        Err(e) => return Err(e),
    };
    let acc = match env.pop() {
        Ok(v) => v,
        Err(e) => return Err(e),
    };
    let xs = match env.pop() {
        Ok(v) => v,
        Err(e) => return Err(e),
    };
    match generic_fold(f, &xs, Some(acc)) {
        Ok(vals) => {
            env.push_all(vals);
            Ok(())
        },
        Err(e) => Err(e),
    }
}

} // verus!
