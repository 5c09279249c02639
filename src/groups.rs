//! Splitting the rows of an array into groups, by partition markers or by
//! group indices.

use vstd::prelude::*;
use crate::array::{Array, ArrayModel, from_row_arrays, from_rows_spec};
use crate::env::{Env, StackResult, finish, opt_seq, pop_spec, pop_fn_spec};
use crate::error::Error;
use crate::function::{Function, apply, apply_spec, numeric, to_nums, opt_view};
use crate::reduce::{prepend, combine};
use crate::value::{Value, ValueModel, all_wf, views};

verus! {

/// The runs of rows under equal positive markers, in order. A row whose
/// marker is zero or negative belongs to no run and ends the current one.
pub open spec fn partition_runs<T>(rows: Seq<ArrayModel<T>>, markers: Seq<isize>) -> Seq<Seq<ArrayModel<T>>>
    decreases markers.len(),
{
    if markers.len() == 0 {
        Seq::empty()
    } else {
        let k = markers.len() - 1;
        let prev = partition_runs(rows, markers.drop_last());
        if markers[k] <= 0 {
            prev
        } else if k > 0 && markers[k - 1] == markers[k] {
            prev.update(prev.len() - 1, prev.last().push(rows[k]))
        } else {
            prev.push(seq![rows[k]])
        }
    }
}

/// The rows among the first `n` whose index is `g`, in order.
pub open spec fn bucket<T>(rows: Seq<ArrayModel<T>>, indices: Seq<isize>, g: int, n: int) -> Seq<ArrayModel<T>>
    decreases n,
{
    if n <= 0 {
        Seq::empty()
    } else if indices[n - 1] == g {
        bucket(rows, indices, g, n - 1).push(rows[n - 1])
    } else {
        bucket(rows, indices, g, n - 1)
    }
}

/// The greatest of the indices, and -1 for none.
pub open spec fn max_index(indices: Seq<isize>) -> int
    decreases indices.len(),
{
    if indices.len() == 0 {
        -1
    } else {
        let m = max_index(indices.drop_last());
        if indices.last() > m { indices.last() as int } else { m }
    }
}

/// The buckets `0 ..= max(M, 0)` of the rows by index, where `M` is the
/// greatest index (-1 when there are none).
pub open spec fn group_buckets<T>(rows: Seq<ArrayModel<T>>, indices: Seq<isize>) -> Seq<Seq<ArrayModel<T>>> {
    let m = max_index(indices);
    Seq::new(
        (if m > 0 { m + 1 } else { 1 }) as nat,
        |g: int| bucket(rows, indices, g, indices.len() as int),
    )
}

/// Each group stacked into one array, the last group first.
pub open spec fn stacked_reversed<T>(groups: Seq<Seq<ArrayModel<T>>>) -> Seq<ArrayModel<T>> {
    Seq::new(groups.len(), |i: int| from_rows_spec(groups[groups.len() - 1 - i]).unwrap())
}

/// Every member of the group is a row of `a`.
pub open spec fn rows_of<T>(a: ArrayModel<T>, group: Seq<ArrayModel<T>>) -> bool {
    forall|k: int| 0 <= k < group.len() ==> exists|j: int| 0 <= j < a.row_count() && #[trigger] group[k] == a.row(j)
}

proof fn lemma_same_shape<T>(a: ArrayModel<T>, group: Seq<ArrayModel<T>>)
    requires
        a.wf(),
        rows_of(a, group),
    ensures
        from_rows_spec(group).is_some(),
        forall|k: int| 0 <= k < group.len() ==> (#[trigger] group[k]).wf(),
{
    assert forall|k: int| 0 <= k < group.len() implies (#[trigger] group[k]).wf() && group[k].shape == (if a.shape.len() == 0 { a.shape } else { a.shape.drop_first() }) by {
        let j = choose|j: int| 0 <= j < a.row_count() && group[k] == a.row(j);
        crate::array::lemma_row_wf(a, j);
    }
}

proof fn lemma_rows_of_push<T>(a: ArrayModel<T>, group: Seq<ArrayModel<T>>, j: int)
    requires
        rows_of(a, group),
        0 <= j < a.row_count(),
    ensures
        rows_of(a, group.push(a.row(j))),
{
    let g2 = group.push(a.row(j));
    assert forall|k: int| 0 <= k < g2.len() implies exists|i: int| 0 <= i < a.row_count() && #[trigger] g2[k] == a.row(i) by {
        if k < group.len() {
            assert(g2[k] == group[k]);
        } else {
            assert(g2[k] == a.row(j));
        }
    }
}

/// Stacks each group into an array, the last group first.
fn stack_groups_reversed<T: Copy>(groups: &Vec<Vec<Array<T>>>, Ghost(a): Ghost<ArrayModel<T>>) -> (r: Vec<Array<T>>)
    requires
        a.wf(),
        forall|i: int| 0 <= i < groups@.len() ==> rows_of(a, (#[trigger] groups@[i])@.map_values(|x: Array<T>| x@)),
    ensures
        r@.map_values(|x: Array<T>| x@) == stacked_reversed(groups@.map_values(|g: Vec<Array<T>>| g@.map_values(|x: Array<T>| x@))),
        forall|i: int| 0 <= i < r@.len() ==> (#[trigger] r@[i])@.wf(),
{
    let ghost models = groups@.map_values(|g: Vec<Array<T>>| g@.map_values(|x: Array<T>| x@));
    let mut r: Vec<Array<T>> = Vec::new();
    let mut i: usize = groups.len();
    while i > 0
        invariant
            0 <= i <= groups.len(),
            a.wf(),
            models == groups@.map_values(|g: Vec<Array<T>>| g@.map_values(|x: Array<T>| x@)),
            forall|k: int| 0 <= k < groups@.len() ==> rows_of(a, (#[trigger] groups@[k])@.map_values(|x: Array<T>| x@)),
            r@.len() == groups.len() - i,
            forall|k: int| 0 <= k < r@.len() ==> (#[trigger] r@[k])@ == stacked_reversed(models)[k] && r@[k]@.wf(),
        decreases i,
    {
        i = i - 1;
        let group = &groups[i];
        proof {
            lemma_same_shape(a, models[i as int]);
            assert(models[i as int] == group@.map_values(|x: Array<T>| x@));
            assert forall|k: int| 0 <= k < group@.len() implies (#[trigger] group@[k])@.wf() by {
                assert(models[i as int][k] == group@[k]@);
            }
        }
        let s = from_row_arrays(group);
        r.push(s.unwrap());
    }
    proof {
        assert(r@.map_values(|x: Array<T>| x@) =~= stacked_reversed(models));
    }
    r
}

impl<T: Copy> Array<T> {
    /// Splits the rows into runs of equal positive markers and stacks each run
    /// into an array; the runs come back last first.
    pub fn partition_groups(&self, markers: &Vec<isize>) -> (r: Result<Vec<Array<T>>, Error>)
        requires
            self@.wf(),
        ensures
            markers@.len() != self@.row_count() ==> r == Err::<Vec<Array<T>>, Error>(Error::LengthMismatch),
            markers@.len() == self@.row_count() ==> r.is_ok() && r.unwrap()@.map_values(|x: Array<T>| x@)
                == stacked_reversed(partition_runs(self@.rows(), markers@)),
            r.is_ok() ==> forall|i: int| 0 <= i < r.unwrap()@.len() ==> (#[trigger] r.unwrap()@[i])@.wf(),
    {
        if markers.len() != self.row_count() {
            return Err(Error::LengthMismatch);
        }
        let ghost rows = self@.rows();
        let mut groups: Vec<Vec<Array<T>>> = Vec::new();
        let mut i: usize = 0;
        while i < markers.len()
            invariant
                self@.wf(),
                rows == self@.rows(),
                markers@.len() == self@.row_count(),
                0 <= i <= markers.len(),
                groups@.map_values(|g: Vec<Array<T>>| g@.map_values(|x: Array<T>| x@))
                    == partition_runs(rows, markers@.subrange(0, i as int)),
                i > 0 && markers@[i - 1] > 0 ==> groups@.len() > 0,
                forall|k: int| 0 <= k < groups@.len() ==> rows_of(self@, (#[trigger] groups@[k])@.map_values(|x: Array<T>| x@)),
            decreases markers.len() - i,
        {
            let m = markers[i];
            let ghost before = groups@.map_values(|g: Vec<Array<T>>| g@.map_values(|x: Array<T>| x@));
            proof {
                let p = markers@.subrange(0, i + 1);
                assert(p.drop_last() =~= markers@.subrange(0, i as int));
            }
            if m > 0 {
                let row = self.row(i);
                proof {
                    assert(rows[i as int] == self@.row(i as int));
                }
                if i > 0 && markers[i - 1] == m {
                    let last = groups.len() - 1;
                    proof {
                        lemma_rows_of_push(self@, groups@[last as int]@.map_values(|x: Array<T>| x@), i as int);
                    }
                    groups[last].push(row);
                    proof {
                        assert(groups@[last as int]@.map_values(|x: Array<T>| x@)
                            =~= before[last as int].push(rows[i as int]));
                        assert(groups@.map_values(|g: Vec<Array<T>>| g@.map_values(|x: Array<T>| x@))
                            =~= before.update(last as int, before.last().push(rows[i as int])));
                    }
                } else {
                    let mut g: Vec<Array<T>> = Vec::new();
                    g.push(row);
                    proof {
                        assert(g@.map_values(|x: Array<T>| x@) =~= seq![rows[i as int]]);
                        lemma_rows_of_push(self@, Seq::empty(), i as int);
                        assert(seq![rows[i as int]] =~= Seq::<ArrayModel<T>>::empty().push(self@.row(i as int)));
                    }
                    groups.push(g);
                    proof {
                        assert(groups@.map_values(|g: Vec<Array<T>>| g@.map_values(|x: Array<T>| x@))
                            =~= before.push(seq![rows[i as int]]));
                    }
                }
            }
            i = i + 1;
        }
        proof {
            assert(markers@.subrange(0, markers@.len() as int) =~= markers@);
        }
        Ok(stack_groups_reversed(&groups, Ghost(self@)))
    }

    /// Puts each row whose index is `g >= 0` into bucket `g`, with as many
    /// buckets as the greatest index asks for (at least one), and stacks each
    /// bucket; the buckets come back last first.
    pub fn group_groups(&self, indices: &Vec<isize>) -> (r: Result<Vec<Array<T>>, Error>)
        requires
            self@.wf(),
        ensures
            indices@.len() != self@.row_count() ==> r == Err::<Vec<Array<T>>, Error>(Error::LengthMismatch),
            indices@.len() == self@.row_count() ==> r.is_ok() && r.unwrap()@.map_values(|x: Array<T>| x@)
                == stacked_reversed(group_buckets(self@.rows(), indices@)),
            r.is_ok() ==> forall|i: int| 0 <= i < r.unwrap()@.len() ==> (#[trigger] r.unwrap()@[i])@.wf(),
    {
        if indices.len() != self.row_count() {
            return Err(Error::LengthMismatch);
        }
        let ghost rows = self@.rows();
        let mut groups: Vec<Vec<Array<T>>> = Vec::new();
        let mut m: isize = -1;
        let mut i: usize = 0;
        while i < indices.len()
            invariant
                0 <= i <= indices.len(),
                m == max_index(indices@.subrange(0, i as int)),
            decreases indices.len() - i,
        {
            proof {
                let p = indices@.subrange(0, i + 1);
                assert(p.drop_last() =~= indices@.subrange(0, i as int));
            }
            if indices[i] > m {
                m = indices[i];
            }
            i = i + 1;
        }
        proof {
            assert(indices@.subrange(0, indices@.len() as int) =~= indices@);
        }
        let count: usize = if m > 0 { m as usize + 1 } else { 1 };
        let n = indices.len();
        let mut g: usize = 0;
        while g < count
            invariant
                0 <= g <= count,
                groups@.len() == g,
                forall|k: int| 0 <= k < g ==> (#[trigger] groups@[k])@.len() == 0,
            decreases count - g,
        {
            groups.push(Vec::new());
            g = g + 1;
        }
        let mut i: usize = 0;
        while i < n
            invariant
                self@.wf(),
                rows == self@.rows(),
                n == indices@.len() == self@.row_count(),
                0 <= i <= n,
                m == max_index(indices@),
                count == (if m > 0 { m + 1 } else { 1 }),
                groups@.len() == count,
                forall|k: int| 0 <= k < count ==> (#[trigger] groups@[k])@.map_values(|x: Array<T>| x@)
                    == bucket(rows, indices@, k, i as int),
                forall|k: int| 0 <= k < groups@.len() ==> rows_of(self@, (#[trigger] groups@[k])@.map_values(|x: Array<T>| x@)),
            decreases n - i,
        {
            let gi = indices[i];
            proof {
                lemma_max_index_bound(indices@, i as int);
            }
            if gi >= 0 {
                let row = self.row(i);
                let k = gi as usize;
                let ghost before = groups@;
                proof {
                    assert(rows[i as int] == self@.row(i as int));
                    lemma_rows_of_push(self@, groups@[k as int]@.map_values(|x: Array<T>| x@), i as int);
                }
                groups[k].push(row);
                proof {
                    assert forall|q: int| 0 <= q < count implies (#[trigger] groups@[q])@.map_values(|x: Array<T>| x@)
                        == bucket(rows, indices@, q, i + 1) by {
                        if q == k {
                            assert(groups@[q]@.map_values(|x: Array<T>| x@)
                                =~= before[q]@.map_values(|x: Array<T>| x@).push(rows[i as int]));
                        } else {
                            assert(groups@[q] == before[q]);
                        }
                    }
                    assert forall|q: int| 0 <= q < groups@.len() implies rows_of(self@, (#[trigger] groups@[q])@.map_values(|x: Array<T>| x@)) by {
                        if q != k {
                            assert(groups@[q] == before[q]);
                        }
                    }
                }
            }
            i = i + 1;
        }
        proof {
            let models = groups@.map_values(|g: Vec<Array<T>>| g@.map_values(|x: Array<T>| x@));
            assert(models =~= group_buckets(rows, indices@));
        }
        Ok(stack_groups_reversed(&groups, Ghost(self@)))
    }
}


fn wrap_num(arrs: &Vec<Array<i64>>) -> (r: Vec<Value>)
    requires
        forall|i: int| 0 <= i < arrs@.len() ==> (#[trigger] arrs@[i])@.wf(),
    ensures
        views(r@) == arrs@.map_values(|a: Array<i64>| ValueModel::Num(a@)),
        all_wf(views(r@)),
{
    let mut r: Vec<Value> = Vec::new();
    let mut i: usize = 0;
    while i < arrs.len()
        invariant
            0 <= i <= arrs@.len(),
            forall|k: int| 0 <= k < arrs@.len() ==> (#[trigger] arrs@[k])@.wf(),
            views(r@) == arrs@.subrange(0, i as int).map_values(|a: Array<i64>| ValueModel::Num(a@)),
            all_wf(views(r@)),
        decreases arrs.len() - i,
    {
        let ghost before = r@;
        r.push(Value::Num(arrs[i].copy()));
        i = i + 1;
        proof {
            assert(views(r@) =~= views(before).push(ValueModel::Num(arrs@[i - 1]@)));
            assert(views(r@) =~= arrs@.subrange(0, i as int).map_values(|a: Array<i64>| ValueModel::Num(a@)));
        }
    }
    proof {
        assert(arrs@.subrange(0, i as int) =~= arrs@);
    }
    r
}

fn wrap_byte(arrs: &Vec<Array<u8>>) -> (r: Vec<Value>)
    requires
        forall|i: int| 0 <= i < arrs@.len() ==> (#[trigger] arrs@[i])@.wf(),
    ensures
        views(r@) == arrs@.map_values(|a: Array<u8>| ValueModel::Byte(a@)),
        all_wf(views(r@)),
{
    let mut r: Vec<Value> = Vec::new();
    let mut i: usize = 0;
    while i < arrs.len()
        invariant
            0 <= i <= arrs@.len(),
            forall|k: int| 0 <= k < arrs@.len() ==> (#[trigger] arrs@[k])@.wf(),
            views(r@) == arrs@.subrange(0, i as int).map_values(|a: Array<u8>| ValueModel::Byte(a@)),
            all_wf(views(r@)),
        decreases arrs.len() - i,
    {
        let ghost before = r@;
        r.push(Value::Byte(arrs[i].copy()));
        i = i + 1;
        proof {
            assert(views(r@) =~= views(before).push(ValueModel::Byte(arrs@[i - 1]@)));
            assert(views(r@) =~= arrs@.subrange(0, i as int).map_values(|a: Array<u8>| ValueModel::Byte(a@)));
        }
    }
    proof {
        assert(arrs@.subrange(0, i as int) =~= arrs@);
    }
    r
}

fn wrap_char(arrs: &Vec<Array<char>>) -> (r: Vec<Value>)
    requires
        forall|i: int| 0 <= i < arrs@.len() ==> (#[trigger] arrs@[i])@.wf(),
    ensures
        views(r@) == arrs@.map_values(|a: Array<char>| ValueModel::Char(a@)),
        all_wf(views(r@)),
{
    let mut r: Vec<Value> = Vec::new();
    let mut i: usize = 0;
    while i < arrs.len()
        invariant
            0 <= i <= arrs@.len(),
            forall|k: int| 0 <= k < arrs@.len() ==> (#[trigger] arrs@[k])@.wf(),
            views(r@) == arrs@.subrange(0, i as int).map_values(|a: Array<char>| ValueModel::Char(a@)),
            all_wf(views(r@)),
        decreases arrs.len() - i,
    {
        let ghost before = r@;
        r.push(Value::Char(arrs[i].copy()));
        i = i + 1;
        proof {
            assert(views(r@) =~= views(before).push(ValueModel::Char(arrs@[i - 1]@)));
            assert(views(r@) =~= arrs@.subrange(0, i as int).map_values(|a: Array<char>| ValueModel::Char(a@)));
        }
    }
    proof {
        assert(arrs@.subrange(0, i as int) =~= arrs@);
    }
    r
}

fn wrap_func(arrs: &Vec<Array<Function>>) -> (r: Vec<Value>)
    requires
        forall|i: int| 0 <= i < arrs@.len() ==> (#[trigger] arrs@[i])@.wf(),
    ensures
        views(r@) == arrs@.map_values(|a: Array<Function>| ValueModel::Func(a@)),
        all_wf(views(r@)),
{
    let mut r: Vec<Value> = Vec::new();
    let mut i: usize = 0;
    while i < arrs.len()
        invariant
            0 <= i <= arrs@.len(),
            forall|k: int| 0 <= k < arrs@.len() ==> (#[trigger] arrs@[k])@.wf(),
            views(r@) == arrs@.subrange(0, i as int).map_values(|a: Array<Function>| ValueModel::Func(a@)),
            all_wf(views(r@)),
        decreases arrs.len() - i,
    {
        let ghost before = r@;
        r.push(Value::Func(arrs[i].copy()));
        i = i + 1;
        proof {
            assert(views(r@) =~= views(before).push(ValueModel::Func(arrs@[i - 1]@)));
            assert(views(r@) =~= arrs@.subrange(0, i as int).map_values(|a: Array<Function>| ValueModel::Func(a@)));
        }
    }
    proof {
        assert(arrs@.subrange(0, i as int) =~= arrs@);
    }
    r
}

/// The groups of a value by partition markers, as values, last first.
pub open spec fn value_partition(v: ValueModel, idx: Seq<isize>) -> Result<Seq<ValueModel>, Error> {
    if idx.len() != v.row_count() {
        Err(Error::LengthMismatch)
    } else {
        match v {
            ValueModel::Num(a) => Ok(partition_stacked(a.rows(), idx).map_values(|x: ArrayModel<i64>| ValueModel::Num(x))),
            ValueModel::Byte(a) => Ok(partition_stacked(a.rows(), idx).map_values(|x: ArrayModel<u8>| ValueModel::Byte(x))),
            ValueModel::Char(a) => Ok(partition_stacked(a.rows(), idx).map_values(|x: ArrayModel<char>| ValueModel::Char(x))),
            ValueModel::Func(a) => Ok(partition_stacked(a.rows(), idx).map_values(|x: ArrayModel<Function>| ValueModel::Func(x))),
        }
    }
}

/// The buckets of a value by group indices, as values, last first.
pub open spec fn value_group(v: ValueModel, idx: Seq<isize>) -> Result<Seq<ValueModel>, Error> {
    if idx.len() != v.row_count() {
        Err(Error::LengthMismatch)
    } else {
        match v {
            ValueModel::Num(a) => Ok(group_stacked(a.rows(), idx).map_values(|x: ArrayModel<i64>| ValueModel::Num(x))),
            ValueModel::Byte(a) => Ok(group_stacked(a.rows(), idx).map_values(|x: ArrayModel<u8>| ValueModel::Byte(x))),
            ValueModel::Char(a) => Ok(group_stacked(a.rows(), idx).map_values(|x: ArrayModel<char>| ValueModel::Char(x))),
            ValueModel::Func(a) => Ok(group_stacked(a.rows(), idx).map_values(|x: ArrayModel<Function>| ValueModel::Func(x))),
        }
    }
}

pub open spec fn partition_stacked<T>(rows: Seq<ArrayModel<T>>, idx: Seq<isize>) -> Seq<ArrayModel<T>> {
    stacked_reversed(partition_runs(rows, idx))
}

pub open spec fn group_stacked<T>(rows: Seq<ArrayModel<T>>, idx: Seq<isize>) -> Seq<ArrayModel<T>> {
    stacked_reversed(group_buckets(rows, idx))
}

impl Value {
    /// Splits the rows into runs of equal positive markers; the runs come back
    /// last first.
    pub fn partition_groups(&self, idx: &Vec<isize>) -> (r: Result<Vec<Value>, Error>)
        requires
            self@.wf(),
        ensures
            match value_partition(self@, idx@) {
                Ok(s) => r.is_ok() && views(r.unwrap()@) == s && all_wf(s),
                Err(e) => r == Err::<Vec<Value>, Error>(e),
            },
    {
        match self {
            Value::Num(a) => match a.partition_groups(idx) {
                Ok(gs) => Ok(wrap_num(&gs)),
                Err(e) => Err(e),
            },
            Value::Byte(a) => match a.partition_groups(idx) {
                Ok(gs) => Ok(wrap_byte(&gs)),
                Err(e) => Err(e),
            },
            Value::Char(a) => match a.partition_groups(idx) {
                Ok(gs) => Ok(wrap_char(&gs)),
                Err(e) => Err(e),
            },
            Value::Func(a) => match a.partition_groups(idx) {
                Ok(gs) => Ok(wrap_func(&gs)),
                Err(e) => Err(e),
            },
        }
    }

    /// Puts the rows into buckets by index; the buckets come back last first.
    pub fn group_groups(&self, idx: &Vec<isize>) -> (r: Result<Vec<Value>, Error>)
        requires
            self@.wf(),
        ensures
            match value_group(self@, idx@) {
                Ok(s) => r.is_ok() && views(r.unwrap()@) == s && all_wf(s),
                Err(e) => r == Err::<Vec<Value>, Error>(e),
            },
    {
        match self {
            Value::Num(a) => match a.group_groups(idx) {
                Ok(gs) => Ok(wrap_num(&gs)),
                Err(e) => Err(e),
            },
            Value::Byte(a) => match a.group_groups(idx) {
                Ok(gs) => Ok(wrap_byte(&gs)),
                Err(e) => Err(e),
            },
            Value::Char(a) => match a.group_groups(idx) {
                Ok(gs) => Ok(wrap_char(&gs)),
                Err(e) => Err(e),
            },
            Value::Func(a) => match a.group_groups(idx) {
                Ok(gs) => Ok(wrap_func(&gs)),
                Err(e) => Err(e),
            },
        }
    }
}

/// A one-argument function on each value in turn; `break` is an error.
pub open spec fn map_strict(f: Function, vals: Seq<ValueModel>) -> Result<Seq<ValueModel>, Error>
    decreases vals.len(),
{
    if vals.len() == 0 {
        Ok(Seq::empty())
    } else {
        match apply_spec(f, seq![vals[0]]) {
            Err(e) => Err(e),
            Ok((out, brk)) => if brk {
                Err(Error::BreakNotAllowed)
            } else {
                prepend(opt_seq(out), map_strict(f, vals.drop_first()))
            },
        }
    }
}

pub open spec fn reversed(s: Seq<ValueModel>) -> Seq<ValueModel> {
    Seq::new(s.len(), |i: int| s[s.len() - 1 - i])
}

/// A two-argument function folded over groups, each new group on top of the
/// accumulator; after a `break` the result of that call is what remains.
pub open spec fn collapse_fold(f: Function, acc: ValueModel, rest: Seq<ValueModel>) -> Result<Seq<ValueModel>, Error>
    decreases rest.len(),
{
    if rest.len() == 0 {
        Ok(seq![acc])
    } else {
        match apply_spec(f, seq![rest[0], acc]) {
            Err(e) => Err(e),
            Ok((out, brk)) => if brk {
                Ok(opt_seq(out))
            } else {
                match out {
                    None => Err(Error::StackEmpty),
                    Some(a) => collapse_fold(f, a, rest.drop_first()),
                }
            },
        }
    }
}

/// What collapsing the groups, in the order given, pushes. A function of one
/// argument maps them, and its results are reversed and combined; one of two
/// arguments folds them.
pub open spec fn collapse_spec(f: Function, groups: Seq<ValueModel>) -> Result<Seq<ValueModel>, Error> {
    if f.args() <= 1 {
        if f.outputs() != 1 {
            Err(Error::BadOutputs(f.outputs() as usize))
        } else {
            match map_strict(f, groups) {
                Err(e) => Err(e),
                Ok(vs) => match combine(reversed(vs)) {
                    Ok(v) => Ok(seq![v]),
                    Err(e) => Err(e),
                },
            }
        }
    } else if f.args() == 2 {
        if groups.len() == 0 {
            Err(Error::EmptyGroups)
        } else {
            collapse_fold(f, groups[0], groups.drop_first())
        }
    } else {
        Err(Error::BadArity(f.args() as usize))
    }
}

/// The integers of a numeric scalar or list, each within `isize`.
pub open spec fn indices_of(v: ValueModel) -> Option<Seq<isize>> {
    match numeric(v) {
        Some(a) => if a.shape.len() <= 1 && forall|i: int| 0 <= i < a.data.len() ==> isize::MIN <= #[trigger] a.data[i] <= isize::MAX {
            Some(a.data.map_values(|x: i64| x as isize))
        } else {
            None
        },
        None => None,
    }
}

pub fn as_indices(v: &Value) -> (r: Result<Vec<isize>, Error>)
    requires
        v@.wf(),
    ensures
        match indices_of(v@) {
            Some(s) => r.is_ok() && r.unwrap()@ == s,
            None => r == Err::<Vec<isize>, Error>(Error::BadIndices),
        },
{
    let a = match to_nums(v) {
        Some(a) => a,
        None => return Err(Error::BadIndices),
    };
    if a.shape.len() > 1 {
        return Err(Error::BadIndices);
    }
    let mut r: Vec<isize> = Vec::new();
    let mut i: usize = 0;
    while i < a.data.len()
        invariant
            0 <= i <= a@.data.len(),
            numeric(v@) == Some(a@),
            a@.shape.len() <= 1,
            forall|k: int| 0 <= k < i ==> isize::MIN <= #[trigger] a@.data[k] <= isize::MAX,
            r@ == a@.data.subrange(0, i as int).map_values(|x: i64| x as isize),
        decreases a.data.len() - i,
    {
        let x = a.data[i];
        if x < isize::MIN as i64 || x > isize::MAX as i64 {
            proof {
                assert(!(isize::MIN <= a@.data[i as int] <= isize::MAX));
            }
            return Err(Error::BadIndices);
        }
        r.push(x as isize);
        i = i + 1;
        proof {
            assert(r@ =~= a@.data.subrange(0, i as int).map_values(|x: i64| x as isize));
        }
    }
    proof {
        assert(a@.data.subrange(0, i as int) =~= a@.data);
    }
    Ok(r)
}

/// Collapses groups with a function.
fn collapse_groups(f: Function, groups: &Vec<Value>) -> (r: Result<Vec<Value>, Error>)
    requires
        all_wf(views(groups@)),
    ensures
        match collapse_spec(f, views(groups@)) {
            Ok(s) => r.is_ok() && views(r.unwrap()@) == s && all_wf(s),
            Err(e) => r == Err::<Vec<Value>, Error>(e),
        },
{
    let (args, outputs) = f.signature();
    let ghost all = views(groups@);
    let n = groups.len();
    if args <= 1 {
        if outputs != 1 {
            return Err(Error::BadOutputs(outputs));
        }
        let mut outs: Vec<Value> = Vec::new();
        proof {
            assert(all.subrange(0, n as int) =~= all);
            assert(views(outs@) =~= Seq::<ValueModel>::empty());
            match map_strict(f, all) {
                Ok(x) => assert(Seq::<ValueModel>::empty() + x =~= x),
                Err(_) => {},
            }
        }
        let mut i: usize = 0;
        while i < n
            invariant
                n == groups@.len(),
                all == views(groups@),
                all_wf(all),
                f.args() == 1,
                f.outputs() == 1,
                0 <= i <= n,
                outs@.len() == i,
                all_wf(views(outs@)),
                map_strict(f, all) == prepend(views(outs@), map_strict(f, all.subrange(i as int, n as int))),
            decreases n - i,
        {
            let ghost rest = all.subrange(i as int, n as int);
            let mut args_v: Vec<Value> = Vec::new();
            args_v.push(groups[i].copy());
            proof {
                assert(rest[0] == all[i as int]);
                assert(all[i as int] == groups@[i as int]@);
                assert(views(args_v@) =~= seq![rest[0]]);
                assert(rest.drop_first() =~= all.subrange(i + 1, n as int));
            }
            match apply(f, &args_v) {
                Err(e) => return Err(e),
                Ok((out, brk)) => {
                    if brk {
                        return Err(Error::BreakNotAllowed);
                    }
                    let v = match out {
                        Some(v) => v,
                        None => return Err(Error::StackEmpty),
                    };
                    let ghost before = outs@;
                    outs.push(v);
                    proof {
                        assert(views(outs@) =~= views(before) + opt_seq(opt_view(out)));
                        assert(all_wf(views(outs@))) by {
                            assert forall|q: int| 0 <= q < views(outs@).len() implies (#[trigger] views(outs@)[q]).wf() by {
                                if q < views(before).len() {
                                    assert(views(outs@)[q] == views(before)[q]);
                                }
                            }
                        }
                        match map_strict(f, all.subrange(i + 1, n as int)) {
                            Ok(x) => {
                                assert((views(before) + opt_seq(opt_view(out))) + x
                                    =~= views(before) + (opt_seq(opt_view(out)) + x));
                            },
                            Err(_) => {},
                        }
                    }
                },
            }
            i = i + 1;
        }
        proof {
            assert(all.subrange(n as int, n as int) =~= Seq::<ValueModel>::empty());
            assert(views(outs@) + Seq::<ValueModel>::empty() =~= views(outs@));
        }
        let mut rev: Vec<Value> = Vec::new();
        let mut k: usize = n;
        while k > 0
            invariant
                0 <= k <= n,
                outs@.len() == n,
                all_wf(views(outs@)),
                rev@.len() == n - k,
                forall|q: int| 0 <= q < n - k ==> (#[trigger] views(rev@)[q]) == views(outs@)[n - 1 - q],
                all_wf(views(rev@)),
            decreases k,
        {
            k = k - 1;
            let ghost before = rev@;
            proof {
                assert(views(outs@)[k as int] == outs@[k as int]@);
            }
            rev.push(outs[k].copy());
            proof {
                assert(views(rev@) =~= views(before).push(outs@[k as int]@));
            }
        }
        proof {
            assert(views(rev@) =~= reversed(views(outs@)));
        }
        let v = match Value::from_row_values(&rev) {
            Ok(v) => v,
            Err(e) => return Err(e),
        };
        let mut res: Vec<Value> = Vec::new();
        res.push(v);
        proof {
            assert(views(res@) =~= seq![res@[0]@]);
        }
        Ok(res)
    } else if args == 2 {
        if n == 0 {
            return Err(Error::EmptyGroups);
        }
        let mut acc = groups[0].copy();
        let ghost whole = collapse_fold(f, all[0], all.drop_first());
        proof {
            assert(all[0] == groups@[0]@);
            assert(all.drop_first() =~= all.subrange(1, n as int));
        }
        let mut i: usize = 1;
        while i < n
            invariant
                n == groups@.len(),
                all == views(groups@),
                all_wf(all),
                f.args() == 2,
                1 <= i <= n,
                acc@.wf(),
                collapse_spec(f, all) == whole,
                whole == collapse_fold(f, acc@, all.subrange(i as int, n as int)),
            decreases n - i,
        {
            let ghost rest = all.subrange(i as int, n as int);
            let mut args_v: Vec<Value> = Vec::new();
            args_v.push(groups[i].copy());
            args_v.push(acc);
            proof {
                assert(rest[0] == all[i as int]);
                assert(all[i as int] == groups@[i as int]@);
                assert(views(args_v@) =~= seq![rest[0], acc@]);
                assert(rest.drop_first() =~= all.subrange(i + 1, n as int));
                assert(all_wf(views(args_v@)));
            }
            match apply(f, &args_v) {
                Err(e) => return Err(e),
                Ok((out, brk)) => {
                    if brk {
                        let mut res: Vec<Value> = Vec::new();
                        match out {
                            Some(v) => res.push(v),
                            None => {},
                        }
                        proof {
                            assert(views(res@) =~= opt_seq(opt_view(out)));
                        }
                        return Ok(res);
                    }
                    acc = match out {
                        Some(a) => a,
                        None => return Err(Error::StackEmpty),
                    };
                },
            }
            i = i + 1;
        }
        proof {
            assert(all.subrange(n as int, n as int) =~= Seq::<ValueModel>::empty());
        }
        let mut res: Vec<Value> = Vec::new();
        res.push(acc);
        proof {
            assert(views(res@) =~= seq![acc@]);
        }
        Ok(res)
    } else {
        Err(Error::BadArity(args))
    }
}

/// What `partition` does to the stack: the function, the markers and the
/// array come off; the runs are collapsed by the function.
pub open spec fn partition_outcome(s: Seq<ValueModel>) -> StackResult {
    match pop_fn_spec(s) {
        Err(e) => Err((e, s)),
        Ok((f, s1)) => match pop_spec(s1) {
            Err(e) => Err((e, s1)),
            Ok((m, s2)) => match indices_of(m) {
                None => Err((Error::BadIndices, s2)),
                Some(idx) => match pop_spec(s2) {
                    Err(e) => Err((e, s2)),
                    Ok((xs, s3)) => match value_partition(xs, idx) {
                        Err(e) => Err((e, s3)),
                        Ok(groups) => finish(s3, collapse_spec(f, groups)),
                    },
                },
            },
        },
    }
}

/// What `group` does to the stack: the function, the indices and the array
/// come off; the buckets are collapsed by the function.
pub open spec fn group_outcome(s: Seq<ValueModel>) -> StackResult {
    match pop_fn_spec(s) {
        Err(e) => Err((e, s)),
        Ok((f, s1)) => match pop_spec(s1) {
            Err(e) => Err((e, s1)),
            Ok((m, s2)) => match indices_of(m) {
                None => Err((Error::BadIndices, s2)),
                Some(idx) => match pop_spec(s2) {
                    Err(e) => Err((e, s2)),
                    Ok((xs, s3)) => match value_group(xs, idx) {
                        Err(e) => Err((e, s3)),
                        Ok(groups) => finish(s3, collapse_spec(f, groups)),
                    },
                },
            },
        },
    }
}

/// Groups the rows of an array into runs by markers and collapses the runs.
pub fn partition(env: &mut Env) -> (r: Result<(), Error>)
    requires
        old(env).wf(),
    ensures
        final(env).wf(),
        match partition_outcome(old(env).model()) {
            Ok(s) => r.is_ok() && final(env).model() == s,
            Err((e, t)) => r == Err::<(), Error>(e) && final(env).model() == t,
        },
{
    let f = match env.pop_function() {
        Ok(f) => f,
        Err(e) => return Err(e),
    };
    let m = match env.pop() {
        Ok(v) => v,
        Err(e) => return Err(e),
    };
    let idx = match as_indices(&m) {
        Ok(idx) => idx,
        Err(e) => return Err(e),
    };
    let xs = match env.pop() {
        Ok(v) => v,
        Err(e) => return Err(e),
    };
    let groups = match xs.partition_groups(&idx) {
        Ok(g) => g,
        Err(e) => return Err(e),
    };
    match collapse_groups(f, &groups) {
        Ok(vals) => {
            env.push_all(vals);
            Ok(())
        },
        Err(e) => Err(e),
    }
}

/// Groups the rows of an array into buckets by index and collapses the
/// buckets.
pub fn group(env: &mut Env) -> (r: Result<(), Error>)
    requires
        old(env).wf(),
    ensures
        final(env).wf(),
        match group_outcome(old(env).model()) {
            Ok(s) => r.is_ok() && final(env).model() == s,
            Err((e, t)) => r == Err::<(), Error>(e) && final(env).model() == t,
        },
{
    let f = match env.pop_function() {
        Ok(f) => f,
        Err(e) => return Err(e),
    };
    let m = match env.pop() {
        Ok(v) => v,
        Err(e) => return Err(e),
    };
    let idx = match as_indices(&m) {
        Ok(idx) => idx,
        Err(e) => return Err(e),
    };
    let xs = match env.pop() {
        Ok(v) => v,
        Err(e) => return Err(e),
    };
    let groups = match xs.group_groups(&idx) {
        Ok(g) => g,
        Err(e) => return Err(e),
    };
    match collapse_groups(f, &groups) {
        Ok(vals) => {
            env.push_all(vals);
            Ok(())
        },
        Err(e) => Err(e),
    }
}

/// Every index is at most the greatest one.
pub proof fn lemma_max_index_bound(indices: Seq<isize>, i: int)
    requires
        0 <= i < indices.len(),
    ensures
        indices[i] <= max_index(indices),
        -1 <= max_index(indices) <= isize::MAX,
    decreases indices.len(),
{
    let init = indices.drop_last();
    if i < indices.len() - 1 {
        lemma_max_index_bound(init, i);
        assert(indices[i] == init[i]);
    } else if init.len() > 0 {
        lemma_max_index_bound(init, 0);
    }
}

} // verus!
