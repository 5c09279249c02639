//! Each, rows and distribute: calling a function on every element or row.

use vstd::prelude::*;
use crate::array::flat_len;
use crate::env::{Env, StackResult, finish, finish1, opt_seq, pop_spec, pop_fn_spec, pop_n_spec};
use crate::error::Error;
use crate::function::{Function, apply, apply_spec, pervade_shape, stride, is_prefix, lemma_stride};
use crate::reduce::{prepend, combine};
use crate::value::{Value, ValueModel, all_wf, views, flat_values, elem, reshape_front};

verus! {

/// A one-argument function called on each value in turn, collecting what it
/// returns. When it signals `break`, the values not yet visited are kept as
/// they are.
pub open spec fn map_monadic(f: Function, vals: Seq<ValueModel>) -> Result<Seq<ValueModel>, Error>
    decreases vals.len(),
{
    if vals.len() == 0 {
        Ok(Seq::empty())
    } else {
        match apply_spec(f, seq![vals[0]]) {
            Err(e) => Err(e),
            Ok((out, brk)) => if brk {
                Ok(opt_seq(out) + vals.drop_first())
            } else {
                prepend(opt_seq(out), map_monadic(f, vals.drop_first()))
            },
        }
    }
}

/// A two-argument function called on each pair `(xs[i], ys[i])`, `xs[i]` on
/// top, collecting what it returns; `break` is an error.
pub open spec fn map_pairs(f: Function, xs: Seq<ValueModel>, ys: Seq<ValueModel>) -> Result<Seq<ValueModel>, Error>
    decreases xs.len(),
{
    if xs.len() == 0 || ys.len() == 0 {
        Ok(Seq::empty())
    } else {
        match apply_spec(f, seq![xs[0], ys[0]]) {
            Err(e) => Err(e),
            Ok((out, brk)) => if brk {
                Err(Error::BreakNotAllowed)
            } else {
                prepend(opt_seq(out), map_pairs(f, xs.drop_first(), ys.drop_first()))
            },
        }
    }
}

/// The results as rows of one value whose leading axis becomes `prefix`.
pub open spec fn assemble(vals: Seq<ValueModel>, prefix: Seq<usize>) -> Result<ValueModel, Error> {
    match combine(vals) {
        Err(e) => Err(e),
        Ok(v) => match reshape_front(v, prefix) {
            Some(r) => Ok(r),
            None => Err(Error::Unrepresentable),
        },
    }
}

/// What one-argument `each` pushes: the results over every element, shaped
/// like the array with each result's shape appended.
pub open spec fn each1_spec(f: Function, xs: ValueModel) -> Result<Seq<ValueModel>, Error> {
    match map_monadic(f, flat_values(xs)) {
        Err(e) => Err(e),
        Ok(vs) => if f.outputs() == 0 {
            Ok(Seq::empty())
        } else {
            match assemble(vs, xs.shape()) {
                Ok(v) => Ok(seq![v]),
                Err(e) => Err(e),
            }
        },
    }
}

/// The elements of `v` met by each place of a broadcast to shape `out`.
pub open spec fn spread(v: ValueModel, out: Seq<usize>) -> Seq<ValueModel> {
    Seq::new(flat_len(out), |i: int| elem(v, i / (stride(v.shape(), out) as int)))
}

/// What two-argument `each` pushes: the function on every pair of elements
/// under left-aligned broadcasting.
pub open spec fn each2_spec(f: Function, xs: ValueModel, ys: ValueModel) -> Result<Seq<ValueModel>, Error> {
    match pervade_shape(xs.shape(), ys.shape()) {
        None => Err(Error::ShapeMismatch),
        Some(out) => match map_pairs(f, spread(xs, out), spread(ys, out)) {
            Err(e) => Err(e),
            Ok(vs) => if f.outputs() == 0 {
                Ok(Seq::empty())
            } else {
                match assemble(vs, out) {
                    Ok(v) => Ok(seq![v]),
                    Err(e) => Err(e),
                }
            },
        },
    }
}

/// The `i`-th value of each list, the first list's first.
pub open spec fn column_args(lists: Seq<Seq<ValueModel>>, i: int) -> Seq<ValueModel> {
    Seq::new(lists.len(), |a: int| lists[a][i])
}

/// A function of as many arguments as there are lists, called on the values
/// at each index from `i` to `n` in turn; `break` is an error.
pub open spec fn map_multi(f: Function, lists: Seq<Seq<ValueModel>>, i: nat, n: nat) -> Result<Seq<ValueModel>, Error>
    decreases n - i,
{
    if i >= n {
        Ok(Seq::empty())
    } else {
        match apply_spec(f, column_args(lists, i as int)) {
            Err(e) => Err(e),
            Ok((out, brk)) => if brk {
                Err(Error::BreakNotAllowed)
            } else {
                prepend(opt_seq(out), map_multi(f, lists, i + 1, n))
            },
        }
    }
}

pub open spec fn same_shapes(vals: Seq<ValueModel>) -> bool {
    forall|a: int| 0 <= a < vals.len() ==> (#[trigger] vals[a]).shape() == vals[0].shape()
}

pub open spec fn same_row_counts(vals: Seq<ValueModel>) -> bool {
    forall|a: int| 0 <= a < vals.len() ==> (#[trigger] vals[a]).row_count() == vals[0].row_count()
}

/// What `each` with three or more arguments pushes: the arrays must share
/// one shape, and the function runs on the elements at each place.
pub open spec fn eachn_spec(f: Function, args: Seq<ValueModel>) -> Result<Seq<ValueModel>, Error> {
    if !same_shapes(args) {
        Err(Error::ShapeMismatch)
    } else {
        let lists = Seq::new(args.len(), |a: int| flat_values(args[a]));
        match map_multi(f, lists, 0, flat_len(args[0].shape())) {
            Err(e) => Err(e),
            Ok(vs) => if f.outputs() == 0 {
                Ok(Seq::empty())
            } else {
                match assemble(vs, args[0].shape()) {
                    Ok(v) => Ok(seq![v]),
                    Err(e) => Err(e),
                }
            },
        }
    }
}

/// What `rows` with three or more arguments pushes: the arrays must have as
/// many rows, and the function runs on the rows at each index.
pub open spec fn rowsn_spec(f: Function, args: Seq<ValueModel>) -> Result<Seq<ValueModel>, Error> {
    if !same_row_counts(args) {
        Err(Error::RowCountMismatch)
    } else {
        let lists = Seq::new(args.len(), |a: int| args[a].rows());
        match map_multi(f, lists, 0, args[0].row_count()) {
            Err(e) => Err(e),
            Ok(vs) => if f.outputs() == 0 {
                Ok(Seq::empty())
            } else {
                match combine(vs) {
                    Ok(v) => Ok(seq![v]),
                    Err(e) => Err(e),
                }
            },
        }
    }
}

/// What `each` does to the stack.
/// What `each` does once its function `f` is off the stack `s1`.
pub open spec fn each_with(f: Function, s1: Seq<ValueModel>) -> StackResult {
    if f.outputs() > 1 {
        Err((Error::BadOutputs(f.outputs() as usize), s1))
    } else if f.args() == 1 {
        match pop_spec(s1) {
            Err(e) => Err((e, s1)),
            Ok((xs, s2)) => finish(s2, each1_spec(f, xs)),
        }
    } else if f.args() == 2 {
        match pop_spec(s1) {
            Err(e) => Err((e, s1)),
            Ok((xs, s2)) => match pop_spec(s2) {
                Err(e) => Err((e, s2)),
                Ok((ys, s3)) => finish(s3, each2_spec(f, xs, ys)),
            },
        }
    } else if f.args() >= 3 {
        match pop_n_spec(s1, f.args()) {
            Err(e) => Err((e, s1)),
            Ok((args, s2)) => finish(s2, eachn_spec(f, args)),
        }
    } else {
        Ok(s1)
    }
}

pub open spec fn each_outcome(s: Seq<ValueModel>) -> StackResult {
    match pop_fn_spec(s) {
        Err(e) => Err((e, s)),
        Ok((f, s1)) => each_with(f, s1),
    }
}

/// What one-argument `rows` pushes: the results over every row, as rows.
pub open spec fn rows1_spec(f: Function, xs: ValueModel) -> Result<Seq<ValueModel>, Error> {
    match map_monadic(f, xs.rows()) {
        Err(e) => Err(e),
        Ok(vs) => if f.outputs() == 0 {
            Ok(Seq::empty())
        } else {
            match combine(vs) {
                Ok(v) => Ok(seq![v]),
                Err(e) => Err(e),
            }
        },
    }
}

/// What two-argument `rows` pushes: the function on each pair of rows.
pub open spec fn rows2_spec(f: Function, xs: ValueModel, ys: ValueModel) -> Result<Seq<ValueModel>, Error> {
    if xs.row_count() != ys.row_count() {
        Err(Error::RowCountMismatch)
    } else {
        match map_pairs(f, xs.rows(), ys.rows()) {
            Err(e) => Err(e),
            Ok(vs) => if f.outputs() == 0 {
                Ok(Seq::empty())
            } else {
                match combine(vs) {
                    Ok(v) => Ok(seq![v]),
                    Err(e) => Err(e),
                }
            },
        }
    }
}

/// What `rows` does to the stack.
/// What `rows` does once its function `f` is off the stack `s1`.
pub open spec fn rows_with(f: Function, s1: Seq<ValueModel>) -> StackResult {
    if f.outputs() > 1 {
        Err((Error::BadOutputs(f.outputs() as usize), s1))
    } else if f.args() == 1 {
        match pop_spec(s1) {
            Err(e) => Err((e, s1)),
            Ok((xs, s2)) => finish(s2, rows1_spec(f, xs)),
        }
    } else if f.args() == 2 {
        match pop_spec(s1) {
            Err(e) => Err((e, s1)),
            Ok((xs, s2)) => match pop_spec(s2) {
                Err(e) => Err((e, s2)),
                Ok((ys, s3)) => finish(s3, rows2_spec(f, xs, ys)),
            },
        }
    } else if f.args() >= 3 {
        match pop_n_spec(s1, f.args()) {
            Err(e) => Err((e, s1)),
            Ok((args, s2)) => finish(s2, rowsn_spec(f, args)),
        }
    } else {
        Ok(s1)
    }
}

pub open spec fn rows_outcome(s: Seq<ValueModel>) -> StackResult {
    match pop_fn_spec(s) {
        Err(e) => Err((e, s)),
        Ok((f, s1)) => rows_with(f, s1),
    }
}

/// What `distribute` pushes: the function on each row of `xs` with the whole
/// of `y`.
pub open spec fn distribute_spec(f: Function, xs: ValueModel, y: ValueModel) -> Result<ValueModel, Error> {
    if f.args() != 2 {
        Err(Error::BadArity(f.args() as usize))
    } else if f.outputs() != 1 {
        Err(Error::BadOutputs(f.outputs() as usize))
    } else {
        match map_pairs(f, xs.rows(), Seq::new(xs.row_count(), |i: int| y)) {
            Err(e) => Err(e),
            Ok(vs) => combine(vs),
        }
    }
}

/// What `distribute` does to the stack.
pub open spec fn distribute_outcome(s: Seq<ValueModel>) -> StackResult {
    match pop_fn_spec(s) {
        Err(e) => Err((e, s)),
        Ok((f, s1)) => match pop_spec(s1) {
            Err(e) => Err((e, s1)),
            Ok((xs, s2)) => match pop_spec(s2) {
                Err(e) => Err((e, s2)),
                Ok((y, s3)) => finish1(s3, distribute_spec(f, xs, y)),
            },
        },
    }
}

/// Calls a one-argument function on each value; after a `break` the rest are
/// kept as they are.
pub fn map_monadic_exec(f: Function, vals: &Vec<Value>) -> (r: Result<Vec<Value>, Error>)
    requires
        f.args() == 1,
        all_wf(views(vals@)),
    ensures
        match map_monadic(f, views(vals@)) {
            Ok(s) => r.is_ok() && views(r.unwrap()@) == s && all_wf(s),
            Err(e) => r == Err::<Vec<Value>, Error>(e),
        },
{
    let ghost all = views(vals@);
    let n = vals.len();
    let mut outs: Vec<Value> = Vec::new();
    proof {
        assert(all.subrange(0, n as int) =~= all);
        assert(views(outs@) =~= Seq::<ValueModel>::empty());
        match map_monadic(f, all) {
            Ok(x) => assert(Seq::<ValueModel>::empty() + x =~= x),
            Err(_) => {},
        }
    }
    let mut i: usize = 0;
    while i < n
        invariant
            n == vals@.len(),
            all == views(vals@),
            all_wf(all),
            f.args() == 1,
            0 <= i <= n,
            all_wf(views(outs@)),
            map_monadic(f, all) == prepend(views(outs@), map_monadic(f, all.subrange(i as int, n as int))),
        decreases n - i,
    {
        let ghost rest = all.subrange(i as int, n as int);
        let mut args_v: Vec<Value> = Vec::new();
        args_v.push(vals[i].copy());
        proof {
            assert(rest[0] == all[i as int]);
            assert(all[i as int] == vals@[i as int]@);
            assert(views(args_v@) =~= seq![rest[0]]);
            assert(rest.drop_first() =~= all.subrange(i + 1, n as int));
        }
        match apply(f, &args_v) {
            Err(e) => return Err(e),
            Ok((out, brk)) => {
                let ghost before = outs@;
                match out {
                    Some(v) => outs.push(v),
                    None => {},
                }
                proof {
                    assert(views(outs@) =~= views(before) + opt_seq(crate::function::opt_view(out)));
                    assert(all_wf(views(outs@))) by {
                        assert forall|q: int| 0 <= q < views(outs@).len() implies (#[trigger] views(outs@)[q]).wf() by {
                            if q < views(before).len() {
                                assert(views(outs@)[q] == views(before)[q]);
                            }
                        }
                    }
                }
                if brk {
                    let ghost mid = outs@;
                    let mut j: usize = i + 1;
                    while j < n
                        invariant
                            n == vals@.len(),
                            all == views(vals@),
                            all_wf(all),
                            i + 1 <= j <= n,
                            views(outs@) == views(mid) + all.subrange(i + 1, j as int),
                            all_wf(views(outs@)),
                        decreases n - j,
                    {
                        let ghost ob = outs@;
                        proof {
                            assert(all[j as int] == vals@[j as int]@);
                        }
                        outs.push(vals[j].copy());
                        j = j + 1;
                        proof {
                            assert(views(outs@) =~= views(ob).push(vals@[j - 1]@));
                            assert(views(outs@) =~= views(mid) + all.subrange(i + 1, j as int));
                        }
                    }
                    proof {
                        assert(views(outs@) =~= views(before) + (opt_seq(crate::function::opt_view(out)) + rest.drop_first()));
                    }
                    return Ok(outs);
                }
                proof {
                    match map_monadic(f, all.subrange(i + 1, n as int)) {
                        Ok(x) => {
                            assert((views(before) + opt_seq(crate::function::opt_view(out))) + x
                                =~= views(before) + (opt_seq(crate::function::opt_view(out)) + x));
                        },
                        Err(_) => {},
                    }
                }
            },
        }
        i = i + 1;
    }
    proof {
        assert(all.subrange(n as int, n as int) =~= Seq::<ValueModel>::empty());
        assert(views(outs@) + Seq::<ValueModel>::empty() =~= views(outs@));
    }
    Ok(outs)
}

/// Calls a two-argument function on each pair, the first of the pair on top;
/// `break` is an error.
pub fn map_pairs_exec(f: Function, xs: &Vec<Value>, ys: &Vec<Value>) -> (r: Result<Vec<Value>, Error>)
    requires
        f.args() == 2,
        xs@.len() == ys@.len(),
        all_wf(views(xs@)),
        all_wf(views(ys@)),
    ensures
        match map_pairs(f, views(xs@), views(ys@)) {
            Ok(s) => r.is_ok() && views(r.unwrap()@) == s && all_wf(s),
            Err(e) => r == Err::<Vec<Value>, Error>(e),
        },
{
    let ghost ax = views(xs@);
    let ghost ay = views(ys@);
    let n = xs.len();
    let mut outs: Vec<Value> = Vec::new();
    proof {
        assert(ax.subrange(0, n as int) =~= ax);
        assert(ay.subrange(0, n as int) =~= ay);
        assert(views(outs@) =~= Seq::<ValueModel>::empty());
        match map_pairs(f, ax, ay) {
            Ok(x) => assert(Seq::<ValueModel>::empty() + x =~= x),
            Err(_) => {},
        }
    }
    let mut i: usize = 0;
    while i < n
        invariant
            n == xs@.len(),
            n == ys@.len(),
            ax == views(xs@),
            ay == views(ys@),
            all_wf(ax),
            all_wf(ay),
            f.args() == 2,
            0 <= i <= n,
            all_wf(views(outs@)),
            map_pairs(f, ax, ay) == prepend(views(outs@),
                map_pairs(f, ax.subrange(i as int, n as int), ay.subrange(i as int, n as int))),
        decreases n - i,
    {
        let ghost rx = ax.subrange(i as int, n as int);
        let ghost ry = ay.subrange(i as int, n as int);
        let mut args_v: Vec<Value> = Vec::new();
        args_v.push(xs[i].copy());
        args_v.push(ys[i].copy());
        proof {
            assert(rx[0] == ax[i as int]);
            assert(ry[0] == ay[i as int]);
            assert(ax[i as int] == xs@[i as int]@);
            assert(ay[i as int] == ys@[i as int]@);
            assert(views(args_v@) =~= seq![rx[0], ry[0]]);
            assert(rx.drop_first() =~= ax.subrange(i + 1, n as int));
            assert(ry.drop_first() =~= ay.subrange(i + 1, n as int));
            assert(all_wf(views(args_v@)));
        }
        match apply(f, &args_v) {
            Err(e) => return Err(e),
            Ok((out, brk)) => {
                if brk {
                    return Err(Error::BreakNotAllowed);
                }
                let ghost before = outs@;
                match out {
                    Some(v) => outs.push(v),
                    None => {},
                }
                proof {
                    assert(views(outs@) =~= views(before) + opt_seq(crate::function::opt_view(out)));
                    assert(all_wf(views(outs@))) by {
                        assert forall|q: int| 0 <= q < views(outs@).len() implies (#[trigger] views(outs@)[q]).wf() by {
                            if q < views(before).len() {
                                assert(views(outs@)[q] == views(before)[q]);
                            }
                        }
                    }
                    match map_pairs(f, ax.subrange(i + 1, n as int), ay.subrange(i + 1, n as int)) {
                        Ok(x) => {
                            assert((views(before) + opt_seq(crate::function::opt_view(out))) + x
                                =~= views(before) + (opt_seq(crate::function::opt_view(out)) + x));
                        },
                        Err(_) => {},
                    }
                }
            },
        }
        i = i + 1;
    }
    proof {
        assert(ax.subrange(n as int, n as int) =~= Seq::<ValueModel>::empty());
        assert(views(outs@) + Seq::<ValueModel>::empty() =~= views(outs@));
    }
    Ok(outs)
}

pub proof fn lemma_map_monadic_len(f: Function, vals: Seq<ValueModel>)
    requires
        f.outputs() == 1,
    ensures
        map_monadic(f, vals) matches Ok(s) ==> s.len() == vals.len(),
    decreases vals.len(),
{
    if vals.len() > 0 {
        crate::function::lemma_apply_outputs(f, seq![vals[0]]);
        lemma_map_monadic_len(f, vals.drop_first());
    }
}

pub proof fn lemma_map_pairs_len(f: Function, xs: Seq<ValueModel>, ys: Seq<ValueModel>)
    requires
        f.outputs() == 1,
        xs.len() == ys.len(),
    ensures
        map_pairs(f, xs, ys) matches Ok(s) ==> s.len() == xs.len(),
    decreases xs.len(),
{
    if xs.len() > 0 {
        crate::function::lemma_apply_outputs(f, seq![xs[0], ys[0]]);
        lemma_map_pairs_len(f, xs.drop_first(), ys.drop_first());
    }
}

/// Combines results into one value and gives it the leading axes `prefix`.
pub fn assemble_exec(vals: &Vec<Value>, prefix: &Vec<usize>) -> (r: Result<Value, Error>)
    requires
        all_wf(views(vals@)),
        vals@.len() == flat_len(prefix@),
    ensures
        match assemble(views(vals@), prefix@) {
            Ok(v) => r.is_ok() && r.unwrap()@ == v && v.wf(),
            Err(e) => r == Err::<Value, Error>(e),
        },
{
    let count = vals.len();
    let v = match Value::from_row_values(vals) {
        Ok(v) => v,
        Err(e) => return Err(e),
    };
    proof {
        assert(views(vals@).len() == count);
        crate::value::lemma_from_values_shape(views(vals@));
    }
    v.reshape_front(prefix)
}

/// `each` with a one-argument function.
pub(crate) fn each1(f: Function, xs: &Value) -> (r: Result<Vec<Value>, Error>)
    requires
        xs@.wf(),
        f.args() == 1,
        f.outputs() <= 1,
    ensures
        match each1_spec(f, xs@) {
            Ok(s) => r.is_ok() && views(r.unwrap()@) == s && all_wf(s),
            Err(e) => r == Err::<Vec<Value>, Error>(e),
        },
{
    let vals = xs.flat_values();
    let vs = match map_monadic_exec(f, &vals) {
        Ok(vs) => vs,
        Err(e) => return Err(e),
    };
    let (_, outputs) = f.signature();
    let mut res: Vec<Value> = Vec::new();
    if outputs == 0 {
        proof {
            assert(views(res@) =~= Seq::<ValueModel>::empty());
        }
        return Ok(res);
    }
    proof {
        lemma_map_monadic_len(f, views(vals@));
    }
    match assemble_exec(&vs, xs.shape()) {
        Ok(v) => {
            res.push(v);
            proof {
                assert(views(res@) =~= seq![res@[0]@]);
            }
            Ok(res)
        },
        Err(e) => Err(e),
    }
}

/// The elements of `v` that each place of the broadcast shape meets.
fn spread_exec(v: &Value, out_shape: &Vec<usize>, n: usize) -> (r: Vec<Value>)
    requires
        v@.wf(),
        n == flat_len(out_shape@),
        v@.shape().len() <= out_shape@.len(),
        out_shape@.subrange(0, v@.shape().len() as int) == v@.shape(),
    ensures
        views(r@) == spread(v@, out_shape@),
        all_wf(views(r@)),
{
    let len = v.flat_len();
    proof {
        lemma_stride(v@.shape(), out_shape@, len as nat);
    }
    let st: usize = if len > 0 { n / len } else { 1 };
    let mut r: Vec<Value> = Vec::new();
    let mut i: usize = 0;
    while i < n
        invariant
            v@.wf(),
            len == flat_len(v@.shape()),
            n == flat_len(out_shape@),
            n > 0 ==> st == stride(v@.shape(), out_shape@) && st > 0,
            forall|k: int| 0 <= k < flat_len(out_shape@) ==> 0 <= #[trigger] (k / (stride(v@.shape(), out_shape@) as int)) < len,
            0 <= i <= n,
            views(r@) == spread(v@, out_shape@).subrange(0, i as int),
            all_wf(views(r@)),
        decreases n - i,
    {
        let e = v.elem(i / st);
        let ghost before = r@;
        r.push(e);
        proof {
            assert(views(r@) =~= views(before).push(e@));
            assert(views(r@) =~= spread(v@, out_shape@).subrange(0, i + 1));
        }
        i = i + 1;
    }
    proof {
        assert(spread(v@, out_shape@).subrange(0, n as int) =~= spread(v@, out_shape@));
    }
    r
}

/// `each` with a two-argument function: left-aligned broadcasting pairs the
/// elements.
pub(crate) fn each2(f: Function, xs: &Value, ys: &Value) -> (r: Result<Vec<Value>, Error>)
    requires
        xs@.wf(),
        ys@.wf(),
        f.args() == 2,
        f.outputs() <= 1,
    ensures
        match each2_spec(f, xs@, ys@) {
            Ok(s) => r.is_ok() && views(r.unwrap()@) == s && all_wf(s),
            Err(e) => r == Err::<Vec<Value>, Error>(e),
        },
{
    let x_short = is_prefix(xs.shape(), ys.shape());
    let y_short = is_prefix(ys.shape(), xs.shape());
    if !x_short && !y_short {
        return Err(Error::ShapeMismatch);
    }
    let out_shape = if x_short { ys.shape() } else { xs.shape() };
    let n = if x_short { ys.flat_len() } else { xs.flat_len() };
    proof {
        assert(out_shape@.subrange(0, out_shape@.len() as int) =~= out_shape@);
    }
    let xv = spread_exec(xs, out_shape, n);
    let yv = spread_exec(ys, out_shape, n);
    let vs = match map_pairs_exec(f, &xv, &yv) {
        Ok(vs) => vs,
        Err(e) => return Err(e),
    };
    let (_, outputs) = f.signature();
    let mut res: Vec<Value> = Vec::new();
    if outputs == 0 {
        proof {
            assert(views(res@) =~= Seq::<ValueModel>::empty());
        }
        return Ok(res);
    }
    proof {
        lemma_map_pairs_len(f, views(xv@), views(yv@));
    }
    match assemble_exec(&vs, out_shape) {
        Ok(v) => {
            res.push(v);
            proof {
                assert(views(res@) =~= seq![res@[0]@]);
            }
            Ok(res)
        },
        Err(e) => Err(e),
    }
}

pub open spec fn list_views(lists: Seq<Vec<Value>>) -> Seq<Seq<ValueModel>> {
    lists.map_values(|l: Vec<Value>| views(l@))
}

/// Calls a function on the values at each index of the lists, the first
/// list's value on top; `break` is an error.
pub fn map_multi_exec(f: Function, lists: &Vec<Vec<Value>>, n: usize) -> (r: Result<Vec<Value>, Error>)
    requires
        f.args() == lists@.len(),
        forall|a: int| 0 <= a < lists@.len() ==> (#[trigger] lists@[a])@.len() >= n,
        forall|a: int| 0 <= a < lists@.len() ==> all_wf(#[trigger] views(lists@[a]@)),
    ensures
        match map_multi(f, list_views(lists@), 0, n as nat) {
            Ok(s) => r.is_ok() && views(r.unwrap()@) == s && all_wf(s),
            Err(e) => r == Err::<Vec<Value>, Error>(e),
        },
{
    let ghost ls = list_views(lists@);
    let mut outs: Vec<Value> = Vec::new();
    proof {
        assert(views(outs@) =~= Seq::<ValueModel>::empty());
        match map_multi(f, ls, 0, n as nat) {
            Ok(x) => assert(Seq::<ValueModel>::empty() + x =~= x),
            Err(_) => {},
        }
    }
    let mut i: usize = 0;
    while i < n
        invariant
            ls == list_views(lists@),
            f.args() == lists@.len(),
            forall|a: int| 0 <= a < lists@.len() ==> (#[trigger] lists@[a])@.len() >= n,
            forall|a: int| 0 <= a < lists@.len() ==> all_wf(#[trigger] views(lists@[a]@)),
            0 <= i <= n,
            all_wf(views(outs@)),
            map_multi(f, ls, 0, n as nat) == prepend(views(outs@), map_multi(f, ls, i as nat, n as nat)),
        decreases n - i,
    {
        let mut args_v: Vec<Value> = Vec::new();
        let mut a: usize = 0;
        while a < lists.len()
            invariant
                ls == list_views(lists@),
                forall|q: int| 0 <= q < lists@.len() ==> (#[trigger] lists@[q])@.len() >= n,
                forall|q: int| 0 <= q < lists@.len() ==> all_wf(#[trigger] views(lists@[q]@)),
                0 <= i < n,
                0 <= a <= lists@.len(),
                views(args_v@) == column_args(ls, i as int).subrange(0, a as int),
                all_wf(views(args_v@)),
            decreases lists.len() - a,
        {
            let ghost before = args_v@;
            proof {
                assert(ls[a as int] == views(lists@[a as int]@));
                assert(views(lists@[a as int]@)[i as int] == lists@[a as int]@[i as int]@);
                assert(all_wf(views(lists@[a as int]@)));
                assert(views(lists@[a as int]@)[i as int].wf());
            }
            args_v.push(lists[a][i].copy());
            a = a + 1;
            proof {
                assert(views(args_v@) =~= views(before).push(lists@[a - 1]@[i as int]@));
                assert(views(args_v@) =~= column_args(ls, i as int).subrange(0, a as int));
            }
        }
        proof {
            assert(column_args(ls, i as int).subrange(0, a as int) =~= column_args(ls, i as int));
        }
        match apply(f, &args_v) {
            Err(e) => return Err(e),
            Ok((out, brk)) => {
                if brk {
                    return Err(Error::BreakNotAllowed);
                }
                let ghost before = outs@;
                match out {
                    Some(v) => outs.push(v),
                    None => {},
                }
                proof {
                    assert(views(outs@) =~= views(before) + opt_seq(crate::function::opt_view(out)));
                    assert(all_wf(views(outs@))) by {
                        assert forall|q: int| 0 <= q < views(outs@).len() implies (#[trigger] views(outs@)[q]).wf() by {
                            if q < views(before).len() {
                                assert(views(outs@)[q] == views(before)[q]);
                            }
                        }
                    }
                    match map_multi(f, ls, (i + 1) as nat, n as nat) {
                        Ok(x) => {
                            assert((views(before) + opt_seq(crate::function::opt_view(out))) + x
                                =~= views(before) + (opt_seq(crate::function::opt_view(out)) + x));
                        },
                        Err(_) => {},
                    }
                }
            },
        }
        i = i + 1;
    }
    proof {
        assert(views(outs@) + Seq::<ValueModel>::empty() =~= views(outs@));
    }
    Ok(outs)
}

pub proof fn lemma_map_multi_len(f: Function, lists: Seq<Seq<ValueModel>>, i: nat, n: nat)
    requires
        f.outputs() == 1,
    ensures
        map_multi(f, lists, i, n) matches Ok(s) ==> s.len() == if i >= n { 0 } else { n - i },
    decreases n - i,
{
    if i < n {
        crate::function::lemma_apply_outputs(f, column_args(lists, i as int));
        lemma_map_multi_len(f, lists, i + 1, n);
    }
}

/// `each` or `rows` with three or more arguments.
pub(crate) fn eachn_rowsn(f: Function, args: &Vec<Value>, by_rows: bool) -> (r: Result<Vec<Value>, Error>)
    requires
        f.args() == args@.len(),
        args@.len() >= 3,
        f.outputs() <= 1,
        all_wf(views(args@)),
    ensures
        match (if by_rows { rowsn_spec(f, views(args@)) } else { eachn_spec(f, views(args@)) }) {
            Ok(s) => r.is_ok() && views(r.unwrap()@) == s && all_wf(s),
            Err(e) => r == Err::<Vec<Value>, Error>(e),
        },
{
    let ghost va = views(args@);
    let k = args.len();
    let mut lists: Vec<Vec<Value>> = Vec::new();
    let mut a: usize = 0;
    proof {
        assert(va[0] == args@[0]@);
        assert(va[0].wf());
    }
    let n = if by_rows { args[0].row_count() } else { args[0].flat_len() };
    while a < k
        invariant
            k == args@.len(),
            va == views(args@),
            all_wf(va),
            0 <= a <= k,
            n == (if by_rows { va[0].row_count() } else { flat_len(va[0].shape()) }),
            lists@.len() == a,
            forall|q: int| 0 <= q < a ==> (#[trigger] va[q]).shape() == va[0].shape() || by_rows,
            forall|q: int| 0 <= q < a ==> (#[trigger] va[q]).row_count() == va[0].row_count() || !by_rows,
            forall|q: int| 0 <= q < a ==> views((#[trigger] lists@[q])@)
                == (if by_rows { va[q].rows() } else { flat_values(va[q]) }),
            forall|q: int| 0 <= q < a ==> (#[trigger] lists@[q])@.len() >= n,
            forall|q: int| 0 <= q < a ==> all_wf(#[trigger] views(lists@[q]@)),
        decreases k - a,
    {
        proof {
            assert(va[a as int] == args@[a as int]@);
            assert(va[a as int].wf());
        }
        if by_rows {
            if args[a].row_count() != n {
                proof {
                    assert(!same_row_counts(va));
                }
                return Err(Error::RowCountMismatch);
            }
            lists.push(args[a].rows());
        } else {
            if !crate::array::shape_eq(args[a].shape(), args[0].shape()) {
                proof {
                    assert(!same_shapes(va));
                }
                return Err(Error::ShapeMismatch);
            }
            lists.push(args[a].flat_values());
        }
        proof {
            assert(views(lists@[a as int]@).len() == lists@[a as int]@.len());
        }
        a = a + 1;
    }
    proof {
        let want = if by_rows { Seq::new(va.len(), |q: int| va[q].rows()) } else { Seq::new(va.len(), |q: int| flat_values(va[q])) };
        assert(list_views(lists@) =~= want);
        if by_rows {
            assert(same_row_counts(va));
        } else {
            assert(same_shapes(va));
        }
    }
    let vs = match map_multi_exec(f, &lists, n) {
        Ok(vs) => vs,
        Err(e) => return Err(e),
    };
    let (_, outputs) = f.signature();
    let mut res: Vec<Value> = Vec::new();
    if outputs == 0 {
        proof {
            assert(views(res@) =~= Seq::<ValueModel>::empty());
        }
        return Ok(res);
    }
    proof {
        lemma_map_multi_len(f, list_views(lists@), 0, n as nat);
    }
    let made = if by_rows { Value::from_row_values(&vs) } else { assemble_exec(&vs, args[0].shape()) };
    match made {
        Ok(v) => {
            res.push(v);
            proof {
                assert(views(res@) =~= seq![res@[0]@]);
            }
            Ok(res)
        },
        Err(e) => Err(e),
    }
}

/// Calls a function on every element of its arguments.
pub fn each(env: &mut Env) -> (r: Result<(), Error>)
    requires
        old(env).wf(),
    ensures
        final(env).wf(),
        match each_outcome(old(env).model()) {
            Ok(s) => r.is_ok() && final(env).model() == s,
            Err((e, t)) => r == Err::<(), Error>(e) && final(env).model() == t,
        },
{
    let f = match env.pop_function() {
        Ok(f) => f,
        Err(e) => return Err(e),
    };
    each_with_fn(env, f)
}

/// `each` once its function is off the stack.
pub(crate) fn each_with_fn(env: &mut Env, f: Function) -> (r: Result<(), Error>)
    requires
        old(env).wf(),
    ensures
        final(env).wf(),
        match each_with(f, old(env).model()) {
            Ok(s) => r.is_ok() && final(env).model() == s,
            Err((e, t)) => r == Err::<(), Error>(e) && final(env).model() == t,
        },
{
    let (args, outputs) = f.signature();
    if outputs > 1 {
        return Err(Error::BadOutputs(outputs));
    }
    if args == 1 {
        let xs = match env.pop() {
            Ok(v) => v,
            Err(e) => return Err(e),
        };
        match each1(f, &xs) {
            Ok(vals) => {
                env.push_all(vals);
                Ok(())
            },
            Err(e) => Err(e),
        }
    } else if args == 2 {
        let xs = match env.pop() {
            Ok(v) => v,
            Err(e) => return Err(e),
        };
        let ys = match env.pop() {
            Ok(v) => v,
            Err(e) => return Err(e),
        };
        match each2(f, &xs, &ys) {
            Ok(vals) => {
                env.push_all(vals);
                Ok(())
            },
            Err(e) => Err(e),
        }
    } else if args >= 3 {
        let vals = match env.pop_n(args) {
            Ok(v) => v,
            Err(e) => return Err(e),
        };
        match eachn_rowsn(f, &vals, false) {
            Ok(res) => {
                env.push_all(res);
                Ok(())
            },
            Err(e) => Err(e),
        }
    } else {
        Ok(())
    }
}

/// `rows` with a one-argument function.
pub(crate) fn rows1(f: Function, xs: &Value) -> (r: Result<Vec<Value>, Error>)
    requires
        xs@.wf(),
        f.args() == 1,
        f.outputs() <= 1,
    ensures
        match rows1_spec(f, xs@) {
            Ok(s) => r.is_ok() && views(r.unwrap()@) == s && all_wf(s),
            Err(e) => r == Err::<Vec<Value>, Error>(e),
        },
{
    let rows = xs.rows();
    let vs = match map_monadic_exec(f, &rows) {
        Ok(vs) => vs,
        Err(e) => return Err(e),
    };
    let (_, outputs) = f.signature();
    let mut res: Vec<Value> = Vec::new();
    if outputs == 0 {
        proof {
            assert(views(res@) =~= Seq::<ValueModel>::empty());
        }
        return Ok(res);
    }
    match Value::from_row_values(&vs) {
        Ok(v) => {
            res.push(v);
            proof {
                assert(views(res@) =~= seq![res@[0]@]);
            }
            Ok(res)
        },
        Err(e) => Err(e),
    }
}

/// `rows` with a two-argument function: the arrays must have as many rows.
pub(crate) fn rows2(f: Function, xs: &Value, ys: &Value) -> (r: Result<Vec<Value>, Error>)
    requires
        xs@.wf(),
        ys@.wf(),
        f.args() == 2,
        f.outputs() <= 1,
    ensures
        match rows2_spec(f, xs@, ys@) {
            Ok(s) => r.is_ok() && views(r.unwrap()@) == s && all_wf(s),
            Err(e) => r == Err::<Vec<Value>, Error>(e),
        },
{
    if xs.row_count() != ys.row_count() {
        return Err(Error::RowCountMismatch);
    }
    let x_rows = xs.rows();
    let y_rows = ys.rows();
    let vs = match map_pairs_exec(f, &x_rows, &y_rows) {
        Ok(vs) => vs,
        Err(e) => return Err(e),
    };
    let (_, outputs) = f.signature();
    let mut res: Vec<Value> = Vec::new();
    if outputs == 0 {
        proof {
            assert(views(res@) =~= Seq::<ValueModel>::empty());
        }
        return Ok(res);
    }
    match Value::from_row_values(&vs) {
        Ok(v) => {
            res.push(v);
            proof {
                assert(views(res@) =~= seq![res@[0]@]);
            }
            Ok(res)
        },
        Err(e) => Err(e),
    }
}

/// Calls a function on every row of its arguments.
pub fn rows(env: &mut Env) -> (r: Result<(), Error>)
    requires
        old(env).wf(),
    ensures
        final(env).wf(),
        match rows_outcome(old(env).model()) {
            Ok(s) => r.is_ok() && final(env).model() == s,
            Err((e, t)) => r == Err::<(), Error>(e) && final(env).model() == t,
        },
{
    let f = match env.pop_function() {
        Ok(f) => f,
        Err(e) => return Err(e),
    };
    rows_with_fn(env, f)
}

/// `rows` once its function is off the stack.
pub(crate) fn rows_with_fn(env: &mut Env, f: Function) -> (r: Result<(), Error>)
    requires
        old(env).wf(),
    ensures
        final(env).wf(),
        match rows_with(f, old(env).model()) {
            Ok(s) => r.is_ok() && final(env).model() == s,
            Err((e, t)) => r == Err::<(), Error>(e) && final(env).model() == t,
        },
{
    let (args, outputs) = f.signature();
    if outputs > 1 {
        return Err(Error::BadOutputs(outputs));
    }
    if args == 1 {
        let xs = match env.pop() {
            Ok(v) => v,
            Err(e) => return Err(e),
        };
        match rows1(f, &xs) {
            Ok(vals) => {
                env.push_all(vals);
                Ok(())
            },
            Err(e) => Err(e),
        }
    } else if args == 2 {
        let xs = match env.pop() {
            Ok(v) => v,
            Err(e) => return Err(e),
        };
        let ys = match env.pop() {
            Ok(v) => v,
            Err(e) => return Err(e),
        };
        match rows2(f, &xs, &ys) {
            Ok(vals) => {
                env.push_all(vals);
                Ok(())
            },
            Err(e) => Err(e),
        }
    } else if args >= 3 {
        let vals = match env.pop_n(args) {
            Ok(v) => v,
            Err(e) => return Err(e),
        };
        match eachn_rowsn(f, &vals, true) {
            Ok(res) => {
                env.push_all(res);
                Ok(())
            },
            Err(e) => Err(e),
        }
    } else {
        Ok(())
    }
}

/// Calls a two-argument function on each row of one array together with the
/// whole of another.
pub fn distribute(env: &mut Env) -> (r: Result<(), Error>)
    requires
        old(env).wf(),
    ensures
        final(env).wf(),
        match distribute_outcome(old(env).model()) {
            Ok(s) => r.is_ok() && final(env).model() == s,
            Err((e, t)) => r == Err::<(), Error>(e) && final(env).model() == t,
        },
{
    let f = match env.pop_function() {
        Ok(f) => f,
        Err(e) => return Err(e),
    };
    let xs = match env.pop() {
        Ok(v) => v,
        Err(e) => return Err(e),
    };
    let y = match env.pop() {
        Ok(v) => v,
        Err(e) => return Err(e),
    };
    let (args, outputs) = f.signature();
    if args != 2 {
        return Err(Error::BadArity(args));
    }
    if outputs != 1 {
        return Err(Error::BadOutputs(outputs));
    }
    let x_rows = xs.rows();
    let n = x_rows.len();
    let mut ys: Vec<Value> = Vec::new();
    let mut i: usize = 0;
    while i < n
        invariant
            y@.wf(),
            0 <= i <= n,
            views(ys@) == Seq::new(i as nat, |k: int| y@),
            all_wf(views(ys@)),
        decreases n - i,
    {
        let ghost before = ys@;
        ys.push(y.copy());
        i = i + 1;
        proof {
            assert(views(ys@) =~= views(before).push(y@));
            assert(views(ys@) =~= Seq::new(i as nat, |k: int| y@));
        }
    }
    let vs = match map_pairs_exec(f, &x_rows, &ys) {
        Ok(vs) => vs,
        Err(e) => return Err(e),
    };
    match Value::from_row_values(&vs) {
        Ok(v) => {
            env.push(v);
            Ok(())
        },
        Err(e) => Err(e),
    }
}

} // verus!
