//! Rank-polymorphic arrays: a shape and a flat, row-major buffer.

use vstd::prelude::*;

verus! {

/// Number of elements of an array with the given shape (1 for rank 0).
pub open spec fn flat_len(shape: Seq<usize>) -> nat
    decreases shape.len(),
{
    if shape.len() == 0 {
        1
    } else {
        shape[0] as nat * flat_len(shape.drop_first())
    }
}

/// Every trailing part of the shape has an element count that fits in `usize`,
/// so the length of a row, of a row of a row, and so on, can be computed.
pub open spec fn fits(shape: Seq<usize>) -> bool
    decreases shape.len(),
{
    flat_len(shape) <= usize::MAX && (shape.len() == 0 || fits(shape.drop_first()))
}

/// The mathematical content of an array.
pub struct ArrayModel<T> {
    pub shape: Seq<usize>,
    pub data: Seq<T>,
}

impl<T> ArrayModel<T> {
    pub open spec fn wf(self) -> bool {
        &&& self.data.len() == flat_len(self.shape)
        &&& fits(self.shape)
    }

    pub open spec fn rank(self) -> nat {
        self.shape.len()
    }

    pub open spec fn row_count(self) -> nat {
        if self.shape.len() == 0 {
            1
        } else {
            self.shape[0] as nat
        }
    }

    pub open spec fn row_len(self) -> nat {
        if self.shape.len() == 0 {
            1
        } else {
            flat_len(self.shape.drop_first())
        }
    }

    /// Row `i`: the array itself at rank 0, else the `i`-th block of the data
    /// with the leading axis removed.
    pub open spec fn row(self, i: int) -> ArrayModel<T> {
        if self.shape.len() == 0 {
            self
        } else {
            ArrayModel {
                shape: self.shape.drop_first(),
                data: self.data.subrange(i * self.row_len(), (i + 1) * self.row_len()),
            }
        }
    }

    pub open spec fn rows(self) -> Seq<ArrayModel<T>> {
        Seq::new(self.row_count(), |i: int| self.row(i))
    }
}

/// The data of the given arrays, one after the other.
pub open spec fn concat_data<T>(parts: Seq<ArrayModel<T>>) -> Seq<T>
    decreases parts.len(),
{
    if parts.len() == 0 {
        Seq::empty()
    } else {
        concat_data(parts.drop_last()) + parts.last().data
    }
}

/// The array whose rows are `parts`, each of shape `cell`.
pub open spec fn stack_rows<T>(parts: Seq<ArrayModel<T>>, cell: Seq<usize>) -> ArrayModel<T> {
    ArrayModel { shape: seq![parts.len() as usize] + cell, data: concat_data(parts) }
}

pub open spec fn all_shaped<T>(parts: Seq<ArrayModel<T>>, cell: Seq<usize>) -> bool {
    forall|i: int| 0 <= i < parts.len() ==> (#[trigger] parts[i]).shape == cell && parts[i].wf()
}

/// The array whose rows are `parts`; at least one row fixes the cell shape, and
/// no rows give an empty list. `None` when two rows differ in shape.
pub open spec fn from_rows_spec<T>(parts: Seq<ArrayModel<T>>) -> Option<ArrayModel<T>> {
    if parts.len() == 0 {
        Some(ArrayModel { shape: seq![0usize], data: Seq::empty() })
    } else if forall|i: int| 0 <= i < parts.len() ==> (#[trigger] parts[i]).shape == parts[0].shape {
        Some(stack_rows(parts, parts[0].shape))
    } else {
        None
    }
}

pub proof fn lemma_concat_len<T>(parts: Seq<ArrayModel<T>>, cell: Seq<usize>)
    requires
        all_shaped(parts, cell),
    ensures
        concat_data(parts).len() == parts.len() * flat_len(cell),
    decreases parts.len(),
{
    if parts.len() > 0 {
        let init = parts.drop_last();
        assert(all_shaped(init, cell)) by {
            assert forall|i: int| 0 <= i < init.len() implies (#[trigger] init[i]).shape == cell
                && init[i].wf() by {
                assert(init[i] == parts[i]);
            }
        }
        lemma_concat_len(init, cell);
        assert(parts.last() == parts[parts.len() - 1]);
        assert((init.len() * flat_len(cell)) + flat_len(cell) == parts.len() * flat_len(cell))
            by (nonlinear_arith)
            requires init.len() + 1 == parts.len();
    }
}

/// A stack of rows of one well-formed shape is well formed, given that its
/// element count fits in memory.
pub proof fn lemma_stack_wf<T>(parts: Seq<ArrayModel<T>>, cell: Seq<usize>)
    requires
        all_shaped(parts, cell),
        parts.len() <= usize::MAX,
        concat_data(parts).len() <= usize::MAX,
        parts.len() > 0,
    ensures
        stack_rows(parts, cell).wf(),
        stack_rows(parts, cell).rows() == parts,
{
    let a = stack_rows(parts, cell);
    lemma_concat_len(parts, cell);
    assert(a.shape.drop_first() =~= cell);
    assert(parts[0].wf());
    assert(fits(cell));
    assert(a.wf());
    assert forall|i: int| 0 <= i < parts.len() implies #[trigger] a.row(i) == parts[i] by {
        lemma_concat_row(parts, cell, i);
    }
    assert(a.rows() =~= parts);
}

pub proof fn lemma_concat_row<T>(parts: Seq<ArrayModel<T>>, cell: Seq<usize>, i: int)
    requires
        all_shaped(parts, cell),
        0 <= i < parts.len(),
    ensures
        concat_data(parts).subrange(i * flat_len(cell), (i + 1) * flat_len(cell)) == parts[i].data,
    decreases parts.len(),
{
    let init = parts.drop_last();
    let l = flat_len(cell);
    assert(all_shaped(init, cell)) by {
        assert forall|k: int| 0 <= k < init.len() implies (#[trigger] init[k]).shape == cell
            && init[k].wf() by {
            assert(init[k] == parts[k]);
        }
    }
    lemma_concat_len(init, cell);
    assert(parts[parts.len() - 1] == parts.last());
    assert(0 <= i * l && (i + 1) * l <= init.len() * l + l && (i + 1) * l - i * l == l)
        by (nonlinear_arith)
        requires 0 <= i < init.len() + 1, 0 <= l;
    if i < init.len() {
        lemma_concat_row(init, cell, i);
        assert((i + 1) * l <= init.len() * l) by (nonlinear_arith)
            requires 0 <= i < init.len(), 0 <= l;
        assert(concat_data(parts).subrange(i * l, (i + 1) * l)
            =~= concat_data(init).subrange(i * l, (i + 1) * l));
    } else {
        assert(i * l == init.len() * l);
        assert(concat_data(parts).subrange(i * l, (i + 1) * l) =~= parts[i].data);
    }
}

/// An array: a shape and its elements in row-major order.
pub struct Array<T> {
    pub shape: Vec<usize>,
    pub data: Vec<T>,
}

impl<T> View for Array<T> {
    type V = ArrayModel<T>;

    open spec fn view(&self) -> ArrayModel<T> {
        ArrayModel { shape: self.shape@, data: self.data@ }
    }
}

pub proof fn lemma_row_in_bounds<T>(a: ArrayModel<T>, i: int)
    requires
        a.wf(),
        a.shape.len() > 0,
        0 <= i < a.row_count(),
    ensures
        0 <= i * a.row_len(),
        (i + 1) * a.row_len() <= a.data.len(),
        a.data.len() == a.row_count() * a.row_len(),
        (i + 1) * a.row_len() - i * a.row_len() == a.row_len(),
{
    let n = a.row_count() as int;
    let l = a.row_len() as int;
    assert(a.data.len() == n * l);
    assert(0 <= i * l && (i + 1) * l <= n * l && (i + 1) * l - i * l == l) by (nonlinear_arith)
        requires 0 <= i < n, 0 <= l;
}

pub proof fn lemma_row_wf<T>(a: ArrayModel<T>, i: int)
    requires
        a.wf(),
        0 <= i < a.row_count(),
    ensures
        a.row(i).wf(),
{
    if a.shape.len() > 0 {
        lemma_row_in_bounds(a, i);
        assert(fits(a.shape.drop_first()));
        assert(a.row(i).data.len() == a.row_len());
    }
}

impl<T: Copy> Array<T> {
    pub fn row_count(&self) -> (r: usize)
        requires
            self@.wf(),
        ensures
            r == self@.row_count(),
    {
        if self.shape.len() == 0 {
            1
        } else {
            self.shape[0]
        }
    }

    pub fn row_len(&self) -> (r: usize)
        requires
            self@.wf(),
        ensures
            r == self@.row_len(),
    {
        if self.shape.len() == 0 {
            1
        } else {
            let mut r: usize = 1;
            let mut k: usize = self.shape.len();
            while k > 1
                invariant
                    1 <= k <= self.shape.len(),
                    fits(self.shape@),
                    r == flat_len(self.shape@.subrange(k as int, self.shape.len() as int)),
                decreases k,
            {
                proof {
                    lemma_fits_suffix(self.shape@, k - 1);
                    let s = self.shape@.subrange(k - 1, self.shape.len() as int);
                    assert(s.drop_first() =~= self.shape@.subrange(k as int, self.shape.len() as int));
                }
                r = self.shape[k - 1] * r;
                k = k - 1;
            }
            proof {
                assert(self.shape@.subrange(1, self.shape.len() as int) =~= self.shape@.drop_first());
            }
            r
        }
    }

    pub fn copy(&self) -> (r: Array<T>)
        ensures
            r@ == self@,
    {
        let shape = copy_range(&self.shape, 0, self.shape.len());
        let data = copy_range(&self.data, 0, self.data.len());
        proof {
            assert(shape@ =~= self.shape@);
            assert(data@ =~= self.data@);
        }
        Array { shape, data }
    }

    /// Row `i` of the array (the array itself at rank 0).
    pub fn row(&self, i: usize) -> (r: Array<T>)
        requires
            self@.wf(),
            i < self@.row_count(),
        ensures
            r@ == self@.row(i as int),
            r@.wf(),
    {
        proof {
            lemma_row_wf(self@, i as int);
        }
        if self.shape.len() == 0 {
            return self.copy();
        }
        let len = self.row_len();
        proof {
            lemma_row_in_bounds(self@, i as int);
        }
        let start = i * len;
        let shape = copy_range(&self.shape, 1, self.shape.len());
        let data = copy_range(&self.data, start, start + len);
        proof {
            assert(shape@ =~= self.shape@.drop_first());
        }
        Array { shape, data }
    }

    /// All rows, in order.
    pub fn rows(&self) -> (r: Vec<Array<T>>)
        requires
            self@.wf(),
        ensures
            r@.len() == self@.row_count(),
            forall|i: int| 0 <= i < r@.len() ==> (#[trigger] r@[i])@ == self@.row(i) && r@[i]@.wf(),
    {
        let n = self.row_count();
        let mut r: Vec<Array<T>> = Vec::new();
        let mut i: usize = 0;
        while i < n
            invariant
                self@.wf(),
                n == self@.row_count(),
                i <= n,
                r@.len() == i,
                forall|k: int| 0 <= k < i ==> (#[trigger] r@[k])@ == self@.row(k) && r@[k]@.wf(),
            decreases n - i,
        {
            r.push(self.row(i));
            i = i + 1;
        }
        r
    }
}

/// Stacks `parts` as the rows of one array: `None` when two of them differ in
/// shape.
pub fn from_row_arrays<T: Copy>(parts: &Vec<Array<T>>) -> (r: Option<Array<T>>)
    requires
        forall|i: int| 0 <= i < parts@.len() ==> (#[trigger] parts@[i])@.wf(),
    ensures
        r.is_some() == from_rows_spec(parts@.map_values(|a: Array<T>| a@)).is_some(),
        r.is_some() ==> r.unwrap()@ == from_rows_spec(parts@.map_values(|a: Array<T>| a@)).unwrap(),
        r.is_some() ==> r.unwrap()@.wf(),
        r.is_some() && parts@.len() > 0 ==> r.unwrap()@.rows() == parts@.map_values(|a: Array<T>| a@),
{
    let ghost models = parts@.map_values(|a: Array<T>| a@);
    if parts.len() == 0 {
        let mut shape: Vec<usize> = Vec::new();
        shape.push(0);
        let r = Array { shape, data: Vec::new() };
        proof {
            assert(r@.shape =~= seq![0usize]);
            assert(r@.data =~= Seq::<T>::empty());
            assert(r@.shape.drop_first() =~= Seq::<usize>::empty());
            assert(fits(r@.shape.drop_first()));
            assert(flat_len(r@.shape.drop_first()) == 1);
            assert(r@.shape[0] == 0);
            assert(flat_len(r@.shape) == 0);
            assert(fits(r@.shape));
        }
        return Some(r);
    }
    let cell = &parts[0].shape;
    let mut i: usize = 0;
    while i < parts.len()
        invariant
            0 <= i <= parts.len(),
            models == parts@.map_values(|a: Array<T>| a@),
            *cell == parts@[0].shape,
            forall|k: int| 0 <= k < i ==> (#[trigger] models[k]).shape == models[0].shape,
        decreases parts.len() - i,
    {
        if !shape_eq(&parts[i].shape, cell) {
            proof {
                assert(models[i as int].shape != models[0].shape);
            }
            return None;
        }
        i = i + 1;
    }
    let mut data: Vec<T> = Vec::new();
    let mut i: usize = 0;
    while i < parts.len()
        invariant
            0 <= i <= parts.len(),
            models == parts@.map_values(|a: Array<T>| a@),
            data@ == concat_data(models.subrange(0, i as int)),
        decreases parts.len() - i,
    {
        let part = &parts[i];
        let mut j: usize = 0;
        while j < part.data.len()
            invariant
                0 <= j <= part.data.len(),
                0 <= i < parts.len(),
                data@ == concat_data(models.subrange(0, i as int)) + part.data@.subrange(0, j as int),
            decreases part.data.len() - j,
        {
            data.push(part.data[j]);
            j = j + 1;
            proof {
                assert(data@ =~= concat_data(models.subrange(0, i as int)) + part.data@.subrange(0, j as int));
            }
        }
        proof {
            let next = models.subrange(0, i + 1);
            assert(next.drop_last() =~= models.subrange(0, i as int));
            assert(next.last() == models[i as int]);
            assert(part.data@.subrange(0, j as int) =~= part.data@);
        }
        i = i + 1;
    }
    let mut shape: Vec<usize> = Vec::new();
    shape.push(parts.len());
    let mut j: usize = 0;
    while j < cell.len()
        invariant
            0 <= j <= cell.len(),
            shape@ == seq![parts@.len() as usize] + cell@.subrange(0, j as int),
        decreases cell.len() - j,
    {
        shape.push(cell[j]);
        j = j + 1;
        proof {
            assert(shape@ =~= seq![parts@.len() as usize] + cell@.subrange(0, j as int));
        }
    }
    let total = data.len();
    let r = Array { shape, data };
    proof {
        assert(models.subrange(0, models.len() as int) =~= models);
        assert(cell@.subrange(0, cell@.len() as int) =~= cell@);
        assert(all_shaped(models, cell@));
        lemma_stack_wf(models, cell@);
    }
    Some(r)
}

/// Whether two shapes are equal.
pub fn shape_eq(a: &Vec<usize>, b: &Vec<usize>) -> (r: bool)
    ensures
        r == (a@ == b@),
{
    if a.len() != b.len() {
        return false;
    }
    let mut i: usize = 0;
    while i < a.len()
        invariant
            a.len() == b.len(),
            0 <= i <= a.len(),
            forall|k: int| 0 <= k < i ==> a@[k] == b@[k],
        decreases a.len() - i,
    {
        if a[i] != b[i] {
            return false;
        }
        i = i + 1;
    }
    proof {
        assert(a@ =~= b@);
    }
    true
}

/// The elements `v[start..end]`, copied.
pub fn copy_range<T: Copy>(v: &Vec<T>, start: usize, end: usize) -> (r: Vec<T>)
    requires
        start <= end <= v.len(),
    ensures
        r@ == v@.subrange(start as int, end as int),
{
    let mut r: Vec<T> = Vec::new();
    let mut j: usize = start;
    while j < end
        invariant
            start <= j <= end <= v.len(),
            r@ == v@.subrange(start as int, j as int),
        decreases end - j,
    {
        r.push(v[j]);
        j = j + 1;
        proof {
            assert(r@ =~= v@.subrange(start as int, j as int));
        }
    }
    r
}

/// Every suffix of a shape that fits fits too.
pub proof fn lemma_fits_suffix(shape: Seq<usize>, k: int)
    requires
        fits(shape),
        0 <= k <= shape.len(),
    ensures
        fits(shape.subrange(k, shape.len() as int)),
        flat_len(shape.subrange(k, shape.len() as int)) <= usize::MAX,
    decreases k,
{
    if k == 0 {
        assert(shape.subrange(0, shape.len() as int) =~= shape);
    } else {
        lemma_fits_suffix(shape.drop_first(), k - 1);
        assert(shape.drop_first().subrange(k - 1, shape.drop_first().len() as int)
            =~= shape.subrange(k, shape.len() as int));
    }
}

} // verus!
