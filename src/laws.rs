//! Properties that hold across the modifiers, proved from their
//! specifications.

use vstd::prelude::*;
use crate::array::{ArrayModel, flat_len, from_rows_spec};
use crate::each::{each1_spec, each_outcome, map_monadic, map_pairs, rows_outcome};
use crate::groups::{collapse_spec, group_buckets, map_strict, reversed, value_group};
use crate::table::{cross_spec, generic_table_spec, outer_left, outer_right, outer_spec, table_spec};
use crate::env::{as_function, call_spec};
use crate::error::Error;
use crate::function::{Function, Primitive, apply_spec, dyadic_spec, pervade_spec, pervade_shape,
    stride, elem_op, is_arith, is_compare, scalar_num, numeric, bytes_as_nums};
use crate::level::level_dispatch;
use crate::reduce::{fold_dyadic, fold_elems, fast_reduce_spec, generic_fold_spec, reduce_spec, scalar_array, combine};
use crate::repeat::{repeat_outcome, repeat_stack, repetitions, inverse};
use crate::scan::{scan_rows, scan_data, scan_spec};
use crate::reduce::column;
use vstd::arithmetic::div_mod::{lemma_fundamental_div_mod, lemma_fundamental_div_mod_converse};
use crate::value::{ValueModel, data_len, flat_values, from_values_spec};

verus! {

/// Every value on a well-formed stack holds exactly as many elements as its
/// shape asks for; every modifier leaves the stack well formed.
pub proof fn lemma_values_consistent(s: Seq<ValueModel>, i: int)
    requires
        crate::value::all_wf(s),
        0 <= i < s.len(),
    ensures
        data_len(s[i]) == flat_len(s[i].shape()),
{
    assert(s[i].wf());
}

/// Column `j` of a list of numeric rows.
pub open spec fn row_column(rows: Seq<ValueModel>, j: int) -> Seq<i64> {
    Seq::new(rows.len(), |i: int| numeric(rows[i]).unwrap().data[j])
}

pub open spec fn num_of(shape: Seq<usize>, data: Seq<i64>) -> ValueModel {
    ValueModel::Num(ArrayModel { shape, data })
}

pub open spec fn is_num_row(v: ValueModel, shape: Seq<usize>, n: nat) -> bool {
    match numeric(v) {
        Some(r) => r.shape == shape && r.data.len() == n,
        None => false,
    }
}

/// Numeric rows of one shape.
pub open spec fn num_rows(rows: Seq<ValueModel>, shape: Seq<usize>, n: nat) -> bool {
    forall|i: int| 0 <= i < rows.len() ==> is_num_row(#[trigger] rows[i], shape, n)
}

/// A primitive on two arrays of numbers of one shape works place by place.
proof fn lemma_apply_same_shape(f: Function, shape: Seq<usize>, x: ValueModel, y: ValueModel, d: Seq<i64>, r: Seq<i64>)
    requires
        f.bound is None,
        f.until is None,
        is_arith(f.prim),
        d.len() == flat_len(shape),
        r.len() == flat_len(shape),
        numeric(x) == Some(ArrayModel { shape, data: d }),
        numeric(y) == Some(ArrayModel { shape, data: r }),
    ensures
        apply_spec(f, seq![x, y]) == if exists|j: int| 0 <= j < d.len() && (#[trigger] elem_op(f.prim, f.flipped, d[j], r[j])).is_none() {
            Err::<(Option<ValueModel>, bool), Error>(Error::Unrepresentable)
        } else {
            Ok((Some(num_of(shape, Seq::new(d.len(), |j: int| elem_op(f.prim, f.flipped, d[j], r[j]).unwrap()))), false))
        },
{
    reveal(apply_spec);
    reveal(dyadic_spec);
    reveal(pervade_spec);
    assert(shape.subrange(0, shape.len() as int) =~= shape);
    assert(pervade_shape(shape, shape) == Some(shape));
    assert(shape.subrange(shape.len() as int, shape.len() as int) =~= Seq::<usize>::empty());
    assert(stride(shape, shape) == 1);
    let a = ArrayModel { shape, data: d };
    let b = ArrayModel { shape, data: r };
    assert forall|j: int| 0 <= j < d.len() implies #[trigger] crate::function::pervade_elem(f.prim, f.flipped, a, b, shape, j)
        == elem_op(f.prim, f.flipped, d[j], r[j]) by {
        assert(j / 1 == j);
    }
    if exists|j: int| 0 <= j < d.len() && (#[trigger] elem_op(f.prim, f.flipped, d[j], r[j])).is_none() {
        let j = choose|j: int| 0 <= j < d.len() && (#[trigger] elem_op(f.prim, f.flipped, d[j], r[j])).is_none();
        assert(crate::function::pervade_elem(f.prim, f.flipped, a, b, shape, j).is_none());
    } else {
        let res = pervade_spec(f.prim, f.flipped, a, b);
        assert forall|j: int| 0 <= j < flat_len(shape) implies !(#[trigger] crate::function::pervade_elem(f.prim, f.flipped, a, b, shape, j)).is_none() by {
            assert(!elem_op(f.prim, f.flipped, d[j], r[j]).is_none());
        }
        assert(res.unwrap().data =~= Seq::new(d.len(), |j: int| elem_op(f.prim, f.flipped, d[j], r[j]).unwrap()));
    }
}

/// Folding a primitive over numeric rows of one shape folds each column.
proof fn lemma_fold_columns(f: Function, shape: Seq<usize>, acc: ValueModel, d: Seq<i64>, rows: Seq<ValueModel>)
    requires
        f.bound is None,
        f.until is None,
        is_arith(f.prim),
        d.len() == flat_len(shape),
        numeric(acc) == Some(ArrayModel { shape, data: d }),
        acc is Num || rows.len() > 0,
        num_rows(rows, shape, d.len()),
    ensures
        fold_dyadic(f, acc, rows) == if exists|j: int| 0 <= j < d.len() && (#[trigger] fold_elems(f.prim, f.flipped, d[j], row_column(rows, j))).is_none() {
            Err::<ValueModel, Error>(Error::Unrepresentable)
        } else {
            Ok(num_of(shape, Seq::new(d.len(), |j: int| fold_elems(f.prim, f.flipped, d[j], row_column(rows, j)).unwrap())))
        },
    decreases rows.len(),
{
    if rows.len() == 0 {
        assert(acc == num_of(shape, d));
        assert forall|j: int| 0 <= j < d.len() implies (#[trigger] fold_elems(f.prim, f.flipped, d[j], row_column(rows, j))) == Some(d[j]) by {
            assert(row_column(rows, j).len() == 0);
        }
        assert(Seq::new(d.len(), |j: int| fold_elems(f.prim, f.flipped, d[j], row_column(rows, j)).unwrap()) =~= d);
    } else {
        assert(is_num_row(rows[0], shape, d.len()));
        let r = numeric(rows[0]).unwrap().data;
        lemma_apply_same_shape(f, shape, acc, rows[0], d, r);
        assert forall|j: int| 0 <= j < d.len() implies (#[trigger] row_column(rows, j)).len() > 0
            && row_column(rows, j)[0] == r[j] && row_column(rows, j).drop_first() == row_column(rows.drop_first(), j) by {
            assert(row_column(rows, j).drop_first() =~= row_column(rows.drop_first(), j));
        }
        if exists|j: int| 0 <= j < d.len() && (#[trigger] elem_op(f.prim, f.flipped, d[j], r[j])).is_none() {
            let j = choose|j: int| 0 <= j < d.len() && (#[trigger] elem_op(f.prim, f.flipped, d[j], r[j])).is_none();
            assert(fold_elems(f.prim, f.flipped, d[j], row_column(rows, j)).is_none());
        } else {
            let d2 = Seq::new(d.len(), |j: int| elem_op(f.prim, f.flipped, d[j], r[j]).unwrap());
            assert(num_rows(rows.drop_first(), shape, d.len())) by {
                assert forall|i: int| 0 <= i < rows.drop_first().len() implies is_num_row(#[trigger] rows.drop_first()[i], shape, d.len()) by {
                    assert(rows.drop_first()[i] == rows[i + 1]);
                }
            }
            lemma_fold_columns(f, shape, num_of(shape, d2), d2, rows.drop_first());
            assert forall|j: int| 0 <= j < d.len() implies #[trigger] fold_elems(f.prim, f.flipped, d[j], row_column(rows, j))
                == fold_elems(f.prim, f.flipped, d2[j], row_column(rows.drop_first(), j)) by {
                assert(elem_op(f.prim, f.flipped, d[j], r[j]) == Some(d2[j]));
            }
            if exists|j: int| 0 <= j < d.len() && (#[trigger] fold_elems(f.prim, f.flipped, d[j], row_column(rows, j))).is_none() {
                let j = choose|j: int| 0 <= j < d.len() && (#[trigger] fold_elems(f.prim, f.flipped, d[j], row_column(rows, j))).is_none();
                assert(fold_elems(f.prim, f.flipped, d2[j], row_column(rows.drop_first(), j)).is_none());
            } else {
                assert forall|j: int| 0 <= j < d2.len() implies !(#[trigger] fold_elems(f.prim, f.flipped, d2[j], row_column(rows.drop_first(), j))).is_none() by {
                    assert(!fold_elems(f.prim, f.flipped, d[j], row_column(rows, j)).is_none());
                }
                assert(Seq::new(d2.len(), |j: int| fold_elems(f.prim, f.flipped, d2[j], row_column(rows.drop_first(), j)).unwrap())
                    =~= Seq::new(d.len(), |j: int| fold_elems(f.prim, f.flipped, d[j], row_column(rows, j)).unwrap()));
            }
        }
    }
}

/// On numbers, or bytes with at least two rows, the numeric kernel of
/// `reduce` gives what the generic left fold of the rows gives.
pub proof fn lemma_fast_reduce_agrees_on_rows(f: Function, xs: ValueModel)
    requires
        xs.wf(),
        numeric(xs) is Some,
        xs is Num || xs.row_count() >= 2,
        xs.row_count() >= 1,
        f.bound is None,
        f.until is None,
        is_arith(f.prim),
    ensures
        reduce_spec(f, xs) == generic_fold_spec(f, xs, None),
{
    let a = numeric(xs).unwrap();
    assert(a.wf() && a.shape == xs.shape()) by {
        match xs {
            ValueModel::Byte(b) => {
                assert(a.data.len() == b.data.len());
            },
            _ => {},
        }
    }
    let rows = xs.rows();
    if a.shape.len() == 0 {
        assert(xs is Num);
        assert(xs.rows() =~= seq![xs]);
        assert(xs.rows().drop_first() =~= Seq::<ValueModel>::empty());
        assert(a.data.len() == 1);
        assert(a.data =~= seq![a.data[0]]);
        assert(a.shape =~= Seq::<usize>::empty());
        assert(a == scalar_array(a.data[0]));
        assert(xs.rows()[0] == xs);
        assert(fold_dyadic(f, xs, Seq::<ValueModel>::empty()) == Ok::<ValueModel, Error>(xs));
    } else {
        let rl = a.row_len();
        let s = a.shape.drop_first();
        crate::array::lemma_row_in_bounds(a, 0);
        let d = a.data.subrange(0, rl as int);
        assert forall|i: int| 0 <= i < rows.len() implies #[trigger] numeric(rows[i]) == Some(a.row(i)) by {
            crate::array::lemma_row_in_bounds(a, i);
            match xs {
                ValueModel::Byte(b) => {
                    assert(b.row_len() == rl);
                    assert(bytes_as_nums(b.row(i)).data =~= a.row(i).data);
                },
                _ => {},
            }
        }
        assert(numeric(rows[0]) == Some(ArrayModel { shape: s, data: d }));
        let rest = rows.drop_first();
        assert(num_rows(rest, s, d.len())) by {
            assert forall|i: int| 0 <= i < rest.len() implies is_num_row(#[trigger] rest[i], s, d.len()) by {
                crate::array::lemma_row_in_bounds(a, i + 1);
                assert(rest[i] == rows[i + 1]);
            }
        }
        assert(rows[0] is Num || rest.len() > 0);
        lemma_fold_columns(f, s, rows[0], d, rest);
        assert forall|j: int| 0 <= j < rl implies #[trigger] row_column(rest, j) == crate::reduce::column(a, j) && d[j] == a.data[j] by {
            assert forall|i: int| 0 <= i < rest.len() implies #[trigger] row_column(rest, j)[i] == crate::reduce::column(a, j)[i] by {
                crate::array::lemma_row_in_bounds(a, i + 1);
                assert(rest[i] == rows[i + 1]);
            }
            assert(row_column(rest, j) =~= crate::reduce::column(a, j));
        }
        let fast = fast_reduce_spec(f.prim, f.flipped, a);
        if a.shape.len() == 1 {
            assert(rl == 1) by {
                assert(s =~= Seq::<usize>::empty());
            }
            assert(a.data.len() >= 1);
            assert(crate::reduce::column(a, 0) =~= a.data.drop_first());
            assert(s =~= Seq::<usize>::empty());
            match fold_elems(f.prim, f.flipped, a.data[0], a.data.drop_first()) {
                Some(v) => {
                    assert(Seq::new(d.len(), |j: int| fold_elems(f.prim, f.flipped, d[j], row_column(rest, j)).unwrap()) =~= seq![v]);
                },
                None => {
                    assert(fold_elems(f.prim, f.flipped, d[0], row_column(rest, 0)).is_none());
                },
            }
        } else if exists|j: int| 0 <= j < rl && (#[trigger] fold_elems(f.prim, f.flipped, a.data[j], crate::reduce::column(a, j))).is_none() {
            let j = choose|j: int| 0 <= j < rl && (#[trigger] fold_elems(f.prim, f.flipped, a.data[j], crate::reduce::column(a, j))).is_none();
            assert(fold_elems(f.prim, f.flipped, d[j], row_column(rest, j)).is_none());
            assert(fast == Err::<ArrayModel<i64>, Error>(Error::Unrepresentable));
            assert(fold_dyadic(f, rows[0], rest) == Err::<ValueModel, Error>(Error::Unrepresentable));
        } else {
            assert forall|j: int| 0 <= j < d.len() implies !(#[trigger] fold_elems(f.prim, f.flipped, d[j], row_column(rest, j))).is_none() by {
                assert(!fold_elems(f.prim, f.flipped, a.data[j], crate::reduce::column(a, j)).is_none());
            }
            assert(Seq::new(d.len(), |j: int| fold_elems(f.prim, f.flipped, d[j], row_column(rest, j)).unwrap())
                =~= Seq::new(rl, |j: int| fold_elems(f.prim, f.flipped, a.data[j], crate::reduce::column(a, j)).unwrap()));
            assert(d.len() == rl);
            assert(fast.is_ok());
            assert(fold_dyadic(f, rows[0], rest) == Ok::<ValueModel, Error>(ValueModel::Num(fast.unwrap())));
        }
    }
}

/// `reduce` with a two-argument function over a value with at least one row
/// is the left fold of the function over the rows, starting from the first.
/// (A numeric kernel gives numbers, so on a single row of bytes it returns that
/// row as numbers where the fold returns the bytes themselves; that case is
/// left out.)
pub proof fn lemma_reduce_is_left_fold(f: Function, xs: ValueModel)
    requires
        f.args() == 2,
        xs.wf(),
        xs.row_count() >= 1,
        !(xs is Byte && xs.row_count() == 1),
    ensures
        reduce_spec(f, xs) == match fold_dyadic(f, xs.rows()[0], xs.rows().drop_first()) {
            Ok(v) => Ok(seq![v]),
            Err(e) => Err::<Seq<ValueModel>, Error>(e),
        },
{
    match (f.flipped_primitive(), numeric(xs)) {
        (Some((p, fl)), Some(a)) => if is_arith(p) {
            lemma_fast_reduce_agrees_on_rows(f, xs);
        },
        _ => {},
    }
}

/// A primitive on two single numbers is that primitive on the numbers.
proof fn lemma_apply_scalars(f: Function, x: i64, y: i64)
    requires
        f.bound is None,
        f.until is None,
        is_arith(f.prim),
    ensures
        apply_spec(f, seq![scalar_num(x), scalar_num(y)]) == match elem_op(f.prim, f.flipped, x, y) {
            Some(v) => Ok::<(Option<ValueModel>, bool), Error>((Some(scalar_num(v)), false)),
            None => Err(Error::Unrepresentable),
        },
{
    reveal(apply_spec);
    reveal(dyadic_spec);
    reveal(pervade_spec);
    let e: Seq<usize> = Seq::empty();
    assert(e.subrange(0, 0) =~= e);
    assert(pervade_shape(e, e) == Some(e));
    assert(flat_len(e) == 1);
    assert(stride(e, e) == 1) by {
        assert(e.subrange(0, 0) =~= e);
    }
    let a = ArrayModel { shape: e, data: seq![x] };
    let b = ArrayModel { shape: e, data: seq![y] };
    let r = pervade_spec(f.prim, f.flipped, a, b);
    assert(crate::function::pervade_elem(f.prim, f.flipped, a, b, e, 0) == elem_op(f.prim, f.flipped, x, y));
    match elem_op(f.prim, f.flipped, x, y) {
        Some(v) => {
            assert(r.unwrap().data =~= seq![v]);
        },
        None => {},
    }
}

/// Folding a primitive over single numbers is folding it over the numbers.
proof fn lemma_fold_scalars(f: Function, acc: i64, data: Seq<i64>)
    requires
        f.bound is None,
        f.until is None,
        is_arith(f.prim),
    ensures
        fold_dyadic(f, scalar_num(acc), Seq::new(data.len(), |i: int| scalar_num(data[i])))
            == match fold_elems(f.prim, f.flipped, acc, data) {
                Some(v) => Ok(scalar_num(v)),
                None => Err::<ValueModel, Error>(Error::Unrepresentable),
            },
    decreases data.len(),
{
    let rows = Seq::new(data.len(), |i: int| scalar_num(data[i]));
    if data.len() > 0 {
        lemma_apply_scalars(f, acc, data[0]);
        assert(rows[0] == scalar_num(data[0]));
        assert(rows.drop_first() =~= Seq::new(data.drop_first().len(), |i: int| scalar_num(data.drop_first()[i])));
        match elem_op(f.prim, f.flipped, acc, data[0]) {
            Some(a) => lemma_fold_scalars(f, a, data.drop_first()),
            None => {},
        }
    }
}

/// For a recognised arithmetic primitive and a non-empty list of numbers,
/// the numeric kernel agrees with the generic left fold.
pub proof fn lemma_fast_reduce_agrees(f: Function, a: ArrayModel<i64>)
    requires
        a.wf(),
        a.shape.len() == 1,
        a.data.len() >= 1,
        f.bound is None,
        f.until is None,
        is_arith(f.prim),
    ensures
        reduce_spec(f, ValueModel::Num(a)) == generic_fold_spec(f, ValueModel::Num(a), None),
{
    let xs = ValueModel::Num(a);
    let rows = xs.rows();
    assert(a.row_len() == 1) by {
        assert(a.shape.drop_first() =~= Seq::<usize>::empty());
    }
    assert(a.data.len() == a.shape[0] as nat * flat_len(a.shape.drop_first()));
    assert(flat_len(a.shape.drop_first()) == 1) by {
        assert(a.shape.drop_first() =~= Seq::<usize>::empty());
    }
    assert(rows.len() == a.data.len());
    assert(rows =~= Seq::new(a.data.len(), |i: int| scalar_num(a.data[i]))) by {
        assert forall|i: int| 0 <= i < rows.len() implies rows[i] == scalar_num(a.data[i]) by {
            assert(a.data.subrange(i * 1, (i + 1) * 1) =~= seq![a.data[i]]);
            assert(a.shape.drop_first() =~= Seq::<usize>::empty());
        }
    }
    lemma_fold_scalars(f, a.data[0], a.data.drop_first());
    assert(rows.drop_first() =~= Seq::new(a.data.drop_first().len(), |i: int| scalar_num(a.data.drop_first()[i])));
    assert(rows[0] == scalar_num(a.data[0]));
}

/// Each accumulator of a scan is the left fold of the rows up to it, when the
/// function never signals `break`.
pub proof fn lemma_scan_prefix_folds(f: Function, acc: ValueModel, rows: Seq<ValueModel>)
    requires
        f.until is None,
        f.args() == 2,
    ensures
        scan_rows(f, acc, rows) matches Ok(s) ==> s.len() == rows.len()
            && forall|k: int| 0 <= k < s.len() ==> fold_dyadic(f, acc, #[trigger] rows.take(k + 1)) == Ok::<ValueModel, Error>(s[k]),
    decreases rows.len(),
{
    if rows.len() > 0 {
        reveal(apply_spec);
        match apply_spec(f, seq![acc, rows[0]]) {
            Ok((out, brk)) => {
                assert(!brk);
                match out {
                    Some(a) => {
                        lemma_scan_prefix_folds(f, a, rows.drop_first());
                        match scan_rows(f, acc, rows) {
                            Ok(s) => {
                                let t = scan_rows(f, a, rows.drop_first()).unwrap();
                                assert(s == seq![a] + t);
                                assert forall|k: int| 0 <= k < s.len() implies fold_dyadic(f, acc, #[trigger] rows.take(k + 1)) == Ok::<ValueModel, Error>(s[k]) by {
                                    let p = rows.take(k + 1);
                                    assert(p[0] == rows[0]);
                                    assert(seq![acc, p[0]] =~= seq![acc, rows[0]]);
                                    assert(fold_dyadic(f, acc, p) == fold_dyadic(f, a, p.drop_first()));
                                    if k == 0 {
                                        assert(p.drop_first() =~= Seq::<ValueModel>::empty());
                                        assert(fold_dyadic(f, a, p.drop_first()) == Ok::<ValueModel, Error>(a));
                                        assert(s[0] == a);
                                    } else {
                                        assert(p.drop_first() =~= rows.drop_first().take((k - 1) + 1));
                                        assert(s[k] == t[k - 1]);
                                        assert(fold_dyadic(f, a, rows.drop_first().take((k - 1) + 1)) == Ok::<ValueModel, Error>(t[k - 1]));
                                    }
                                }
                            },
                            Err(_) => {},
                        }
                    },
                    None => {},
                }
            },
            Err(_) => {},
        }
    }
}

/// Folding over one more element takes one more step at the end.
proof fn lemma_fold_snoc(p: Primitive, fl: bool, acc: i64, xs: Seq<i64>, i: nat)
    requires
        0 < i <= xs.len(),
    ensures
        fold_elems(p, fl, acc, xs.take(i as int)) == match fold_elems(p, fl, acc, xs.take(i - 1)) {
            Some(b) => elem_op(p, fl, b, xs[i - 1]),
            None => None,
        },
    decreases i,
{
    if i == 1 {
        assert(xs.take(1).drop_first() =~= Seq::<i64>::empty());
        assert(xs.take(0) =~= Seq::<i64>::empty());
        assert(xs.take(1)[0] == xs[0]);
        assert(fold_elems(p, fl, acc, xs.take(0)) == Some(acc));
        match elem_op(p, fl, acc, xs[0]) {
            Some(a2) => {
                assert(fold_elems(p, fl, a2, xs.take(1).drop_first()) == Some(a2));
            },
            None => {},
        }
    } else {
        assert(xs.take(i as int)[0] == xs[0]);
        assert(xs.take(i - 1)[0] == xs[0]);
        assert(xs.take(i as int).drop_first() =~= xs.drop_first().take(i - 1));
        assert(xs.take(i - 1).drop_first() =~= xs.drop_first().take(i - 2));
        match elem_op(p, fl, acc, xs[0]) {
            Some(a2) => {
                lemma_fold_snoc(p, fl, a2, xs.drop_first(), (i - 1) as nat);
                assert(xs.drop_first()[i - 2] == xs[i - 1]);
            },
            None => {},
        }
    }
}

/// The fold of the column of flat position `q` down to its row.
pub open spec fn scan_elem(p: Primitive, fl: bool, a: ArrayModel<i64>, q: int) -> Option<i64> {
    let rl = a.row_len() as int;
    fold_elems(p, fl, a.data[q % rl], column(a, q % rl).take(q / rl))
}

/// Element `q` of a numeric scan is the fold of its column down to its row.
proof fn lemma_scan_data_elems(p: Primitive, fl: bool, a: ArrayModel<i64>, k: nat)
    requires
        a.wf(),
        a.shape.len() >= 1,
        k <= a.data.len(),
        a.row_len() > 0,
    ensures
        scan_data(p, fl, a.data, a.row_len(), k) matches Some(out) ==> forall|q: int| 0 <= q < k ==> {
            &&& (#[trigger] scan_elem(p, fl, a, q)).is_some()
            &&& out[q] == scan_elem(p, fl, a, q).unwrap()
        },
    decreases k,
{
    let rl = a.row_len() as int;
    if k > 0 {
        lemma_scan_data_elems(p, fl, a, (k - 1) as nat);
        crate::scan::lemma_scan_data_len(p, fl, a.data, a.row_len(), (k - 1) as nat);
        match scan_data(p, fl, a.data, a.row_len(), k) {
            Some(out) => {
                let prev = scan_data(p, fl, a.data, a.row_len(), (k - 1) as nat).unwrap();
                let q = k - 1;
                let i = q / rl;
                let j = q % rl;
                lemma_fundamental_div_mod(q, rl);
                assert(0 <= j < rl);
                assert(q == i * rl + j);
                assert(a.data.len() == a.row_count() * a.row_len());
                assert(0 <= i < a.row_count()) by (nonlinear_arith)
                    requires q == i * rl + j, 0 <= j < rl, 0 <= q < a.row_count() * rl, rl > 0;
                assert(out == prev.push(out[q]));
                if q < rl {
                    assert(i == 0) by (nonlinear_arith) requires q == i * rl + j, 0 <= j < rl, 0 <= q < rl, rl > 0;
                    assert(i * rl == 0) by (nonlinear_arith) requires i == 0;
                    assert(column(a, j).take(0) =~= Seq::<i64>::empty());
                    assert(j == q);
                    assert(fold_elems(p, fl, a.data[j], column(a, j).take(0)) == Some(a.data[j]));
                    assert(out[q] == a.data[q]);
                    assert(scan_elem(p, fl, a, q) == Some(out[q]));
                } else {
                    let q2 = q - rl;
                    assert(q2 == (i - 1) * rl + j) by (nonlinear_arith) requires q2 == q - rl, q == i * rl + j;
                    lemma_fundamental_div_mod_converse(q2, rl, i - 1, j);
                    assert(i >= 1) by (nonlinear_arith) requires q == i * rl + j, 0 <= j < rl, q >= rl;
                    assert(q2 / rl == i - 1 && q2 % rl == j);
                    assert(i - 1 < a.row_count() - 1);
                    lemma_fold_snoc(p, fl, a.data[j], column(a, j), i as nat);
                    assert(((i - 1) + 1) * rl + j == i * rl + j);
                    assert(column(a, j)[i - 1] == a.data[i * rl + j]);
                    assert(scan_elem(p, fl, a, q2) == fold_elems(p, fl, a.data[j], column(a, j).take(i - 1)));
                    assert(scan_elem(p, fl, a, q2).is_some() && prev[q2] == scan_elem(p, fl, a, q2).unwrap());
                    assert(k - 1 - rl == q2);
                    assert(Some(out[q]) == elem_op(p, fl, prev[q2], a.data[q]));
                    assert(scan_elem(p, fl, a, q) == fold_elems(p, fl, a.data[j], column(a, j).take(i)));
                    assert(scan_elem(p, fl, a, q) == Some(out[q]));
                }
                assert forall|q3: int| 0 <= q3 < k implies {
                    &&& (#[trigger] scan_elem(p, fl, a, q3)).is_some()
                    &&& out[q3] == scan_elem(p, fl, a, q3).unwrap()
                } by {
                    if q3 < q {
                        assert(out[q3] == prev[q3]);
                    }
                }
            },
            None => {},
        }
    }
}

/// The first `m` rows of an array.
pub open spec fn prefix_rows(a: ArrayModel<i64>, m: nat) -> ArrayModel<i64> {
    ArrayModel { shape: seq![m as usize] + a.shape.drop_first(), data: a.data.subrange(0, (m * a.row_len()) as int) }
}

/// For a recognised arithmetic primitive on numbers, row `i` of the scan is
/// the reduction of the rows `0..=i`.
pub proof fn lemma_fast_scan_rows_are_reductions(f: Function, a: ArrayModel<i64>, i: nat)
    requires
        a.wf(),
        a.shape.len() >= 1,
        i < a.row_count(),
        f.bound is None,
        f.until is None,
        is_arith(f.prim),
    ensures
        scan_spec(f, ValueModel::Num(a)) matches Ok(v) ==> reduce_spec(f, ValueModel::Num(prefix_rows(a, i + 1)))
            == Ok::<Seq<ValueModel>, Error>(seq![v.row(i as int)]),
{
    let rl = a.row_len() as int;
    crate::array::lemma_row_in_bounds(a, i as int);
    lemma_positive_row_len(a);
    let n = a.data.len();
    if rl == 0 {
        assert(a.shape.len() >= 2) by {
            if a.shape.len() == 1 {
                assert(a.shape.drop_first() =~= Seq::<usize>::empty());
            }
        }
        let pre = prefix_rows(a, i + 1);
        assert(pre.shape.drop_first() =~= a.shape.drop_first());
        assert(pre.shape.len() >= 2);
        assert(pre.row_count() == i + 1);
        assert(scan_data(f.prim, f.flipped, a.data, a.row_len(), 0) == Some(Seq::<i64>::empty()));
        let v = ValueModel::Num(ArrayModel { shape: a.shape, data: Seq::<i64>::empty() });
        assert(v.row(i as int) == ValueModel::Num(ArrayModel { shape: a.shape.drop_first(), data: Seq::<i64>::empty().subrange(0, 0) }));
        assert(Seq::<i64>::empty().subrange(0, 0) =~= Seq::new(0, |j: int| fold_elems(f.prim, f.flipped, pre.data[j], column(pre, j)).unwrap()));
        return;
    }
    assert(rl > 0);
    match scan_data(f.prim, f.flipped, a.data, a.row_len(), n) {
        Some(out) => {
            lemma_scan_data_elems(f.prim, f.flipped, a, n);
            crate::scan::lemma_scan_data_len(f.prim, f.flipped, a.data, a.row_len(), n);
            let pre = prefix_rows(a, i + 1);
            assert(pre.shape.drop_first() =~= a.shape.drop_first());
            assert(pre.row_len() == rl);
            assert(pre.row_count() == i + 1);
            assert(pre.data.len() == (i + 1) * rl);
            let v = ValueModel::Num(ArrayModel { shape: a.shape, data: out });
            let blk = out.subrange(i * rl, (i + 1) * rl);
            assert(v.row(i as int) == ValueModel::Num(ArrayModel { shape: a.shape.drop_first(), data: blk }));
            assert forall|j: int| 0 <= j < rl implies #[trigger] column(pre, j) == column(a, j).take(i as int) by {
                assert forall|t: int| 0 <= t < i implies column(pre, j)[t] == column(a, j).take(i as int)[t] by {
                    assert((t + 1) * rl + j < (i + 1) * rl) by (nonlinear_arith) requires 0 <= t < i, 0 <= j < rl;
                }
                assert(column(pre, j) =~= column(a, j).take(i as int));
            }
            assert forall|j: int| 0 <= j < rl implies {
                &&& (#[trigger] fold_elems(f.prim, f.flipped, a.data[j], column(a, j).take(i as int))).is_some()
                &&& blk[j] == fold_elems(f.prim, f.flipped, a.data[j], column(a, j).take(i as int)).unwrap()
            } by {
                let q = i * rl + j;
                lemma_fundamental_div_mod_converse(q, rl, i as int, j);
                assert(q < n) by (nonlinear_arith) requires q == i * rl + j, 0 <= j < rl, (i + 1) * rl <= n;
                assert(blk[j] == out[q]);
                assert(scan_elem(f.prim, f.flipped, a, q).is_some());
            }
            assert forall|j: int| 0 <= j < rl implies pre.data[j] == a.data[j] by {
                assert(j < (i + 1) * rl) by (nonlinear_arith) requires 0 <= j < rl, i >= 0;
            }
            if a.shape.len() == 1 {
                assert(rl == 1) by {
                    assert(a.shape.drop_first() =~= Seq::<usize>::empty());
                }
                assert(pre.shape.len() == 1);
                assert(column(a, 0).take(i as int) =~= pre.data.drop_first());
                assert(blk =~= seq![blk[0]]);
                assert(a.shape.drop_first() =~= Seq::<usize>::empty());
            } else {
                assert(pre.shape.len() >= 2);
                assert(blk =~= Seq::new(rl as nat, |j: int| fold_elems(f.prim, f.flipped, pre.data[j], column(pre, j)).unwrap()));
            }
        },
        None => {},
    }
}

proof fn lemma_positive_row_len(a: ArrayModel<i64>)
    requires
        a.wf(),
        a.shape.len() >= 1,
        a.row_count() >= 1,
    ensures
        a.row_len() > 0 || a.data.len() == 0,
{
    assert(a.data.len() == a.shape[0] as nat * flat_len(a.shape.drop_first()));
    assert(a.row_len() == 0 ==> a.data.len() == 0) by (nonlinear_arith)
        requires a.data.len() == a.shape[0] as nat * a.row_len();
}

/// With a one-argument function that returns single elements, `each` keeps
/// the shape of its argument.
pub proof fn lemma_each_keeps_shape(f: Function, xs: ValueModel)
    requires
        f.outputs() == 1,
        flat_len(xs.shape()) <= usize::MAX,
        map_monadic(f, crate::value::flat_values(xs)) matches Ok(vs) && forall|k: int| 0 <= k < vs.len() ==> (#[trigger] vs[k]).rank() == 0,
    ensures
        each1_spec(f, xs) matches Ok(out) ==> out.len() == 1 && out[0].shape() == xs.shape(),
{
    let vs = map_monadic(f, crate::value::flat_values(xs)).unwrap();
    crate::each::lemma_map_monadic_len(f, crate::value::flat_values(xs));
    crate::value::lemma_from_values_shape(vs);
    match from_values_spec(vs) {
        Some(v) => {
            assert(v.shape().drop_first() =~= Seq::<usize>::empty()) by {
                if vs.len() == 0 {
                    assert(v.shape() =~= seq![0usize]);
                } else {
                    assert(vs[0].rank() == 0);
                    lemma_from_values_cell(vs);
                }
            }
            assert(xs.shape() + v.shape().drop_first() =~= xs.shape());
        },
        None => {},
    }
}

/// Combined rows stand along a new axis in front of the first row's shape.
pub proof fn lemma_from_values_cell(vs: Seq<ValueModel>)
    requires
        vs.len() > 0,
        vs.len() <= usize::MAX,
    ensures
        from_values_spec(vs) matches Some(v) ==> v.shape() == seq![vs.len() as usize] + vs[0].shape()
            && forall|k: int| 0 <= k < vs.len() ==> (#[trigger] vs[k]).shape() == vs[0].shape(),
{
    let k0 = crate::value::kind(vs[0]);
    if crate::value::same_kind(vs, k0) && from_values_spec(vs).is_some() {
        match vs[0] {
            ValueModel::Num(a) => {
                let parts = vs.map_values(|v: ValueModel| crate::value::num_part(v));
                assert(parts[0] == a);
                assert forall|k: int| 0 <= k < vs.len() implies (#[trigger] vs[k]).shape() == vs[0].shape() by {
                    assert(crate::value::kind(vs[k]) == 0);
                    assert(parts[k].shape == parts[0].shape);
                }
            },
            ValueModel::Byte(a) => {
                let parts = vs.map_values(|v: ValueModel| crate::value::byte_part(v));
                assert(parts[0] == a);
                assert forall|k: int| 0 <= k < vs.len() implies (#[trigger] vs[k]).shape() == vs[0].shape() by {
                    assert(crate::value::kind(vs[k]) == 1);
                    assert(parts[k].shape == parts[0].shape);
                }
            },
            ValueModel::Char(a) => {
                let parts = vs.map_values(|v: ValueModel| crate::value::char_part(v));
                assert(parts[0] == a);
                assert forall|k: int| 0 <= k < vs.len() implies (#[trigger] vs[k]).shape() == vs[0].shape() by {
                    assert(crate::value::kind(vs[k]) == 2);
                    assert(parts[k].shape == parts[0].shape);
                }
            },
            ValueModel::Func(a) => {
                let parts = vs.map_values(|v: ValueModel| crate::value::func_part(v));
                assert(parts[0] == a);
                assert forall|k: int| 0 <= k < vs.len() implies (#[trigger] vs[k]).shape() == vs[0].shape() by {
                    assert(crate::value::kind(vs[k]) == 3);
                    assert(parts[k].shape == parts[0].shape);
                }
            },
        }
    }
}

/// The shape of an outer product: `prefix` followed by the shape that every
/// call's result shares (none when there were no calls).
proof fn lemma_outer_shape(f: Function, a: Seq<ValueModel>, b: Seq<ValueModel>, prefix: Seq<usize>)
    requires
        a.len() * b.len() == flat_len(prefix),
        flat_len(prefix) <= usize::MAX,
    ensures
        outer_spec(f, a, b, prefix) matches Ok(v) ==> map_pairs(f, outer_left(a, b.len()), outer_right(b, a.len())) matches Ok(vs)
            && v.shape() == prefix + (if vs.len() > 0 { vs[0].shape() } else { Seq::empty() })
            && forall|k: int| 0 <= k < vs.len() ==> (#[trigger] vs[k]).shape() == vs[0].shape(),
{
    if f.args() == 2 && f.outputs() == 1 {
        let l = outer_left(a, b.len());
        let r = outer_right(b, a.len());
        assert(b.len() * a.len() == a.len() * b.len()) by (nonlinear_arith);
        crate::each::lemma_map_pairs_len(f, l, r);
        match map_pairs(f, l, r) {
            Ok(vs) => {
                crate::value::lemma_from_values_shape(vs);
                if vs.len() > 0 {
                    lemma_from_values_cell(vs);
                    match from_values_spec(vs) {
                        Some(c) => {
                            assert(c.shape().drop_first() =~= vs[0].shape());
                        },
                        None => {},
                    }
                } else {
                    match from_values_spec(vs) {
                        Some(c) => {
                            assert(c.shape() =~= seq![0usize]);
                            assert(c.shape().drop_first() =~= Seq::<usize>::empty());
                        },
                        None => {},
                    }
                }
            },
            Err(_) => {},
        }
    }
}

/// `table` by a generic function arranges the results along both shapes and
/// then the shape each result has; `cross` along the two row counts.
pub proof fn lemma_table_cross_shape(f: Function, xs: ValueModel, ys: ValueModel)
    requires
        xs.wf(),
        ys.wf(),
    ensures
        generic_table_spec(f, xs, ys) matches Ok(v) ==> map_pairs(f,
            outer_left(flat_values(xs), flat_values(ys).len()), outer_right(flat_values(ys), flat_values(xs).len())) matches Ok(vs)
            && v.shape() == xs.shape() + ys.shape() + (if vs.len() > 0 { vs[0].shape() } else { Seq::empty() })
            && forall|k: int| 0 <= k < vs.len() ==> (#[trigger] vs[k]).shape() == vs[0].shape(),
        cross_spec(f, xs, ys) matches Ok(v) ==> map_pairs(f,
            outer_left(xs.rows(), ys.rows().len()), outer_right(ys.rows(), xs.rows().len())) matches Ok(vs)
            && v.shape() == seq![xs.row_count() as usize, ys.row_count() as usize]
                + (if vs.len() > 0 { vs[0].shape() } else { Seq::empty() })
            && forall|k: int| 0 <= k < vs.len() ==> (#[trigger] vs[k]).shape() == vs[0].shape(),
{
    let prefix = xs.shape() + ys.shape();
    if crate::array::fits(prefix) {
        crate::function::lemma_flat_len_append(xs.shape(), ys.shape());
        lemma_outer_shape(f, flat_values(xs), flat_values(ys), prefix);
    }
    if xs.row_count() * ys.row_count() <= usize::MAX {
        let p = seq![xs.row_count() as usize, ys.row_count() as usize];
        assert(p.drop_first() =~= seq![ys.row_count() as usize]);
        assert(seq![ys.row_count() as usize].drop_first() =~= Seq::<usize>::empty());
        assert(flat_len(Seq::<usize>::empty()) == 1);
        assert(flat_len(seq![ys.row_count() as usize]) == ys.row_count() * 1);
        assert(flat_len(p) == xs.row_count() * ys.row_count());
        lemma_outer_shape(f, xs.rows(), ys.rows(), p);
    }
}

/// Whatever path `table` takes, its result's shape begins with both
/// arguments' shapes.
pub proof fn lemma_table_shape_prefix(f: Function, xs: ValueModel, ys: ValueModel)
    requires
        xs.wf(),
        ys.wf(),
    ensures
        table_spec(f, xs, ys) matches Ok(v) ==> v.shape().take((xs.rank() + ys.rank()) as int) == xs.shape() + ys.shape(),
{
    lemma_table_cross_shape(f, xs, ys);
    let pre = xs.shape() + ys.shape();
    match table_spec(f, xs, ys) {
        Ok(v) => {
            match (f.flipped_primitive(), numeric(xs), numeric(ys)) {
                (Some((p, fl)), Some(a), Some(b)) => {
                    assert(a.shape == xs.shape() && b.shape == ys.shape());
                    if is_arith(p) || is_compare(p) {
                        assert(v.shape() =~= pre);
                        assert(v.shape().take(pre.len() as int) =~= pre);
                    } else if p == Primitive::Join || p == Primitive::Couple {
                        assert(v.shape() =~= pre + seq![2usize]);
                        assert(v.shape().take(pre.len() as int) =~= pre);
                    } else {
                        assert(v.shape().take(pre.len() as int) =~= pre);
                    }
                },
                _ => {
                    assert(v.shape().take(pre.len() as int) =~= pre);
                },
            }
        },
        Err(_) => {},
    }
}

/// The identity maps groups to themselves.
proof fn lemma_map_identity(vals: Seq<ValueModel>)
    ensures
        map_strict(identity_fn(), vals) == Ok::<Seq<ValueModel>, Error>(vals),
    decreases vals.len(),
{
    if vals.len() > 0 {
        reveal(apply_spec);
        assert(apply_spec(identity_fn(), seq![vals[0]]) == Ok::<(Option<ValueModel>, bool), Error>((Some(vals[0]), false)));
        lemma_map_identity(vals.drop_first());
        assert(crate::env::opt_seq(Some(vals[0])) =~= seq![vals[0]]);
        assert(seq![vals[0]] + vals.drop_first() =~= vals);
    } else {
        assert(vals =~= Seq::<ValueModel>::empty());
    }
}

pub open spec fn identity_fn() -> Function {
    Function { prim: Primitive::Identity, flipped: false, bound: None, until: None }
}

/// Grouping and then collapsing with the identity: the groups come to the
/// collapse last bucket first, and the collapse reverses them back, so the
/// buckets are reassembled in bucket order.
pub proof fn lemma_group_then_identity(xs: ValueModel, idx: Seq<isize>)
    ensures
        value_group(xs, idx) matches Ok(groups) ==> collapse_spec(identity_fn(), groups) == match combine(reversed(groups)) {
            Ok(v) => Ok(seq![v]),
            Err(e) => Err::<Seq<ValueModel>, Error>(e),
        },
        value_group(xs, idx) matches Ok(groups) ==> xs matches ValueModel::Num(a) ==> reversed(groups)
            == Seq::new(group_buckets(a.rows(), idx).len(), |i: int| ValueModel::Num(from_rows_spec(group_buckets(a.rows(), idx)[i]).unwrap())),
{
    match value_group(xs, idx) {
        Ok(groups) => {
            lemma_map_identity(groups);
            match xs {
                ValueModel::Num(a) => {
                    let b = group_buckets(a.rows(), idx);
                    assert(reversed(groups) =~= Seq::new(b.len(), |i: int| ValueModel::Num(from_rows_spec(b[i]).unwrap())));
                },
                _ => {},
            }
        },
        Err(_) => {},
    }
}

/// Repeating zero times leaves the stack as it is once the function and the
/// count are off it; a positive count makes that many calls of the function,
/// and a negative one that many calls of its inverse.
pub proof fn lemma_repeat_counts(s: Seq<ValueModel>, f: Function, n: i64)
    requires
        i64::MIN < n < i64::MAX,
    ensures
        ({
            let st = s.push(scalar_num(n)).push(ValueModel::Func(ArrayModel { shape: Seq::empty(), data: seq![f] }));
            &&& n == 0 ==> repeat_outcome(st) == Ok::<Seq<ValueModel>, (Error, Seq<ValueModel>)>(s)
            &&& n > 0 ==> repeat_outcome(st) == repeat_stack(f, s, n as nat)
            &&& n < 0 ==> repeat_outcome(st) == match inverse(f) {
                Some(g) => repeat_stack(g, s, (-n) as nat),
                None => Err((Error::CannotInvert, s)),
            }
        }),
{
    let fv = ValueModel::Func(ArrayModel { shape: Seq::empty(), data: seq![f] });
    let st = s.push(scalar_num(n)).push(fv);
    assert(as_function(fv) == Some(f));
    assert(st.drop_last() =~= s.push(scalar_num(n)));
    assert(s.push(scalar_num(n)).drop_last() =~= s);
    assert(repetitions(n) == if n < 0 { (-n) as nat } else { n as nat });
}

/// Level with the single rank 0 is `each`, with -1 is `rows`, and with
/// infinity one call of the function, whatever the function and the argument.
pub proof fn lemma_level_special_ranks(f: Function, xs: ValueModel, s: Seq<ValueModel>)
    ensures
        ({
            let fv = ValueModel::Func(ArrayModel { shape: Seq::empty(), data: seq![f] });
            &&& level_dispatch(f, seq![Some(0i64)], s.push(xs)) == each_outcome(s.push(xs).push(fv))
            &&& level_dispatch(f, seq![Some(-1i64)], s.push(xs)) == rows_outcome(s.push(xs).push(fv))
            &&& level_dispatch(f, seq![None::<i64>], s.push(xs)) == match call_spec(f, s.push(xs)) {
                Ok((s2, _)) => Ok(s2),
                Err(et) => Err(et),
            }
        }),
{
    let fv = ValueModel::Func(ArrayModel { shape: Seq::empty(), data: seq![f] });
    assert(as_function(fv) == Some(f));
    assert(s.push(xs).push(fv).drop_last() =~= s.push(xs));
}

} // verus!
