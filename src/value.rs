//! Values: arrays tagged with their element kind.

use vstd::prelude::*;
use crate::array::{Array, ArrayModel, from_row_arrays, from_rows_spec, flat_len, fits, copy_range};
use crate::function::Function;
use crate::error::Error;

verus! {

/// A value on the stack. Numbers are integers; the extreme values of `i64`
/// stand for the infinities.
pub enum Value {
    Num(Array<i64>),
    Byte(Array<u8>),
    Char(Array<char>),
    Func(Array<Function>),
}

/// The mathematical content of a value.
pub enum ValueModel {
    Num(ArrayModel<i64>),
    Byte(ArrayModel<u8>),
    Char(ArrayModel<char>),
    Func(ArrayModel<Function>),
}

impl View for Value {
    type V = ValueModel;

    open spec fn view(&self) -> ValueModel {
        match self {
            Value::Num(a) => ValueModel::Num(a@),
            Value::Byte(a) => ValueModel::Byte(a@),
            Value::Char(a) => ValueModel::Char(a@),
            Value::Func(a) => ValueModel::Func(a@),
        }
    }
}

/// Which of the four element kinds a value holds.
pub open spec fn kind(v: ValueModel) -> int {
    match v {
        ValueModel::Num(_) => 0,
        ValueModel::Byte(_) => 1,
        ValueModel::Char(_) => 2,
        ValueModel::Func(_) => 3,
    }
}

pub open spec fn same_kind(vs: Seq<ValueModel>, k: int) -> bool {
    forall|i: int| 0 <= i < vs.len() ==> kind(#[trigger] vs[i]) == k
}

impl ValueModel {
    pub open spec fn wf(self) -> bool {
        match self {
            ValueModel::Num(a) => a.wf(),
            ValueModel::Byte(a) => a.wf(),
            ValueModel::Char(a) => a.wf(),
            ValueModel::Func(a) => a.wf(),
        }
    }

    pub open spec fn shape(self) -> Seq<usize> {
        match self {
            ValueModel::Num(a) => a.shape,
            ValueModel::Byte(a) => a.shape,
            ValueModel::Char(a) => a.shape,
            ValueModel::Func(a) => a.shape,
        }
    }

    pub open spec fn rank(self) -> nat {
        self.shape().len()
    }

    pub open spec fn row_count(self) -> nat {
        if self.shape().len() == 0 {
            1
        } else {
            self.shape()[0] as nat
        }
    }

    pub open spec fn row(self, i: int) -> ValueModel {
        match self {
            ValueModel::Num(a) => ValueModel::Num(a.row(i)),
            ValueModel::Byte(a) => ValueModel::Byte(a.row(i)),
            ValueModel::Char(a) => ValueModel::Char(a.row(i)),
            ValueModel::Func(a) => ValueModel::Func(a.row(i)),
        }
    }

    pub open spec fn rows(self) -> Seq<ValueModel> {
        Seq::new(self.row_count(), |i: int| self.row(i))
    }
}

pub open spec fn num_part(v: ValueModel) -> ArrayModel<i64> {
    match v {
        ValueModel::Num(a) => a,
        _ => ArrayModel { shape: Seq::empty(), data: Seq::empty() },
    }
}

pub open spec fn byte_part(v: ValueModel) -> ArrayModel<u8> {
    match v {
        ValueModel::Byte(a) => a,
        _ => ArrayModel { shape: Seq::empty(), data: Seq::empty() },
    }
}

pub open spec fn char_part(v: ValueModel) -> ArrayModel<char> {
    match v {
        ValueModel::Char(a) => a,
        _ => ArrayModel { shape: Seq::empty(), data: Seq::empty() },
    }
}

pub open spec fn func_part(v: ValueModel) -> ArrayModel<Function> {
    match v {
        ValueModel::Func(a) => a,
        _ => ArrayModel { shape: Seq::empty(), data: Seq::empty() },
    }
}

/// The value whose rows are `rows`: `None` when they differ in kind or shape.
/// No rows give an empty list of numbers.
pub open spec fn from_values_spec(rows: Seq<ValueModel>) -> Option<ValueModel> {
    if rows.len() == 0 {
        Some(ValueModel::Num(ArrayModel { shape: seq![0usize], data: Seq::empty() }))
    } else if !same_kind(rows, kind(rows[0])) {
        None
    } else {
        match rows[0] {
            ValueModel::Num(_) => match from_rows_spec(rows.map_values(|v: ValueModel| num_part(v))) {
                Some(a) => Some(ValueModel::Num(a)),
                None => None,
            },
            ValueModel::Byte(_) => match from_rows_spec(rows.map_values(|v: ValueModel| byte_part(v))) {
                Some(a) => Some(ValueModel::Byte(a)),
                None => None,
            },
            ValueModel::Char(_) => match from_rows_spec(rows.map_values(|v: ValueModel| char_part(v))) {
                Some(a) => Some(ValueModel::Char(a)),
                None => None,
            },
            ValueModel::Func(_) => match from_rows_spec(rows.map_values(|v: ValueModel| func_part(v))) {
                Some(a) => Some(ValueModel::Func(a)),
                None => None,
            },
        }
    }
}

/// Element `j` of a value, as a value of rank 0.
pub open spec fn elem(v: ValueModel, j: int) -> ValueModel {
    match v {
        ValueModel::Num(a) => ValueModel::Num(ArrayModel { shape: Seq::empty(), data: seq![a.data[j]] }),
        ValueModel::Byte(a) => ValueModel::Byte(ArrayModel { shape: Seq::empty(), data: seq![a.data[j]] }),
        ValueModel::Char(a) => ValueModel::Char(ArrayModel { shape: Seq::empty(), data: seq![a.data[j]] }),
        ValueModel::Func(a) => ValueModel::Func(ArrayModel { shape: Seq::empty(), data: seq![a.data[j]] }),
    }
}

/// Every element of a value, in row-major order, each as a value of rank 0.
pub open spec fn flat_values(v: ValueModel) -> Seq<ValueModel> {
    Seq::new(flat_len(v.shape()), |j: int| elem(v, j))
}

/// The value with the same elements and its leading axis replaced by `prefix`;
/// `None` when the new shape does not fit.
pub open spec fn reshape_front(v: ValueModel, prefix: Seq<usize>) -> Option<ValueModel> {
    let shape = prefix + v.shape().drop_first();
    if !fits(shape) {
        None
    } else {
        Some(match v {
            ValueModel::Num(a) => ValueModel::Num(ArrayModel { shape, data: a.data }),
            ValueModel::Byte(a) => ValueModel::Byte(ArrayModel { shape, data: a.data }),
            ValueModel::Char(a) => ValueModel::Char(ArrayModel { shape, data: a.data }),
            ValueModel::Func(a) => ValueModel::Func(ArrayModel { shape, data: a.data }),
        })
    }
}

pub open spec fn data_len(v: ValueModel) -> nat {
    match v {
        ValueModel::Num(a) => a.data.len(),
        ValueModel::Byte(a) => a.data.len(),
        ValueModel::Char(a) => a.data.len(),
        ValueModel::Func(a) => a.data.len(),
    }
}

/// Whether every trailing part of a shape has an element count that fits.
pub fn shape_fits(s: &Vec<usize>) -> (r: bool)
    ensures
        r == fits(s@),
{
    let mut prod: usize = 1;
    let mut k: usize = s.len();
    while k > 0
        invariant
            0 <= k <= s.len(),
            prod == flat_len(s@.subrange(k as int, s@.len() as int)),
            fits(s@.subrange(k as int, s@.len() as int)),
        decreases k,
    {
        let ghost t = s@.subrange(k - 1, s@.len() as int);
        proof {
            assert(t.drop_first() =~= s@.subrange(k as int, s@.len() as int));
            assert(t[0] == s@[k - 1]);
        }
        if prod > 0 && s[k - 1] > usize::MAX / prod {
            proof {
                assert(s@[k - 1] * prod > usize::MAX) by (nonlinear_arith)
                    requires prod > 0, s@[k - 1] > usize::MAX / prod;
                lemma_fits_prefix_fails(s@, k - 1);
            }
            return false;
        }
        proof {
            assert(s@[k - 1] * prod <= usize::MAX) by (nonlinear_arith)
                requires prod == 0 || s@[k - 1] <= usize::MAX / prod;
        }
        prod = s[k - 1] * prod;
        k = k - 1;
    }
    proof {
        assert(s@.subrange(0, s@.len() as int) =~= s@);
    }
    true
}

/// A shape fits only if each of its suffixes does.
proof fn lemma_fits_prefix_fails(s: Seq<usize>, k: int)
    requires
        0 <= k < s.len(),
        flat_len(s.subrange(k, s.len() as int)) > usize::MAX,
    ensures
        !fits(s),
    decreases k,
{
    if k == 0 {
        assert(s.subrange(0, s.len() as int) =~= s);
    } else {
        assert(s.drop_first().subrange(k - 1, s.drop_first().len() as int) =~= s.subrange(k, s.len() as int));
        lemma_fits_prefix_fails(s.drop_first(), k - 1);
    }
}

/// Reassembled rows stand along a new leading axis.
pub proof fn lemma_from_values_shape(vals: Seq<ValueModel>)
    requires
        vals.len() <= usize::MAX,
    ensures
        from_values_spec(vals) matches Some(v) ==> v.rank() >= 1 && v.shape()[0] == vals.len(),
{
    if vals.len() > 0 && same_kind(vals, kind(vals[0])) {
        match vals[0] {
            ValueModel::Num(_) => {
                let parts = vals.map_values(|v: ValueModel| num_part(v));
                assert((seq![parts.len() as usize] + parts[0].shape)[0] == vals.len());
            },
            ValueModel::Byte(_) => {
                let parts = vals.map_values(|v: ValueModel| byte_part(v));
                assert((seq![parts.len() as usize] + parts[0].shape)[0] == vals.len());
            },
            ValueModel::Char(_) => {
                let parts = vals.map_values(|v: ValueModel| char_part(v));
                assert((seq![parts.len() as usize] + parts[0].shape)[0] == vals.len());
            },
            ValueModel::Func(_) => {
                let parts = vals.map_values(|v: ValueModel| func_part(v));
                assert((seq![parts.len() as usize] + parts[0].shape)[0] == vals.len());
            },
        }
    } else if vals.len() == 0 {
        assert(seq![0usize][0] == 0);
    }
}

pub open spec fn all_wf(vs: Seq<ValueModel>) -> bool {
    forall|i: int| 0 <= i < vs.len() ==> (#[trigger] vs[i]).wf()
}

pub open spec fn views(vs: Seq<Value>) -> Seq<ValueModel> {
    vs.map_values(|v: Value| v@)
}


/// The Num arrays of `rows`, stacked; `rows[0]` is a Num value.
fn stack_num_part(rows: &Vec<Value>) -> (r: Result<Value, Error>)
    requires
        rows@.len() > 0,
        kind(rows@[0]@) == 0,
        all_wf(views(rows@)),
    ensures
        match from_values_spec(views(rows@)) {
            Some(v) => r.is_ok() && r.unwrap()@ == v,
            None => r == Err::<Value, Error>(Error::CombineMismatch),
        },
        r.is_ok() ==> r.unwrap()@.wf(),
{
    let ghost vs = views(rows@);
    let mut parts: Vec<Array<i64>> = Vec::new();
    let mut i: usize = 0;
    while i < rows.len()
        invariant
            0 <= i <= rows.len(),
            vs == views(rows@),
            all_wf(vs),
            parts@.len() == i,
            rows@.len() > 0,
            kind(rows@[0]@) == 0,
            same_kind(vs.subrange(0, i as int), 0),
            parts@.map_values(|a: Array<i64>| a@) == vs.subrange(0, i as int).map_values(|v: ValueModel| num_part(v)),
            forall|j: int| 0 <= j < parts@.len() ==> (#[trigger] parts@[j])@.wf(),
        decreases rows.len() - i,
    {
        proof {
            assert(vs[i as int] == rows@[i as int]@);
        }
        match &rows[i] {
            Value::Num(a) => {
                let ghost before = parts@;
                parts.push(a.copy());
                proof {
                    assert(vs[i as int].wf());
                    assert(num_part(vs[i as int]) == a@);
                    let lhs = parts@.map_values(|a: Array<i64>| a@);
                    let rhs = vs.subrange(0, i + 1).map_values(|v: ValueModel| num_part(v));
                    let old_l = before.map_values(|a: Array<i64>| a@);
                    let old_r = vs.subrange(0, i as int).map_values(|v: ValueModel| num_part(v));
                    assert forall|j: int| 0 <= j < i implies lhs[j] == rhs[j] by {
                        assert(parts@[j] == before[j]);
                        assert(old_l[j] == old_r[j]);
                    }
                    assert(lhs.len() == rhs.len());
                    assert(lhs[i as int] == rhs[i as int]);
                    assert(parts@.map_values(|a: Array<i64>| a@)
                        =~= vs.subrange(0, i + 1).map_values(|v: ValueModel| num_part(v)));
                    assert(same_kind(vs.subrange(0, i + 1), 0));
                }
            }
            _ => {
                proof {
                    assert(kind(vs[i as int]) != 0);
                    assert(vs[0] == rows@[0]@);
                    assert(vs.len() == rows@.len());
                    assert(kind(vs[i as int]) != kind(vs[0]));
                    assert(!same_kind(vs, kind(vs[0])));
                }
                return Err(Error::CombineMismatch);
            }
        }
        i = i + 1;
    }
    proof {
        assert(vs.subrange(0, vs.len() as int) =~= vs);
    }
    match from_row_arrays(&parts) {
        Some(a) => Ok(Value::Num(a)),
        None => Err(Error::CombineMismatch),
    }
}

/// The Byte arrays of `rows`, stacked; `rows[0]` is a Byte value.
fn stack_byte_part(rows: &Vec<Value>) -> (r: Result<Value, Error>)
    requires
        rows@.len() > 0,
        kind(rows@[0]@) == 1,
        all_wf(views(rows@)),
    ensures
        match from_values_spec(views(rows@)) {
            Some(v) => r.is_ok() && r.unwrap()@ == v,
            None => r == Err::<Value, Error>(Error::CombineMismatch),
        },
        r.is_ok() ==> r.unwrap()@.wf(),
{
    let ghost vs = views(rows@);
    let mut parts: Vec<Array<u8>> = Vec::new();
    let mut i: usize = 0;
    while i < rows.len()
        invariant
            0 <= i <= rows.len(),
            vs == views(rows@),
            all_wf(vs),
            parts@.len() == i,
            rows@.len() > 0,
            kind(rows@[0]@) == 1,
            same_kind(vs.subrange(0, i as int), 1),
            parts@.map_values(|a: Array<u8>| a@) == vs.subrange(0, i as int).map_values(|v: ValueModel| byte_part(v)),
            forall|j: int| 0 <= j < parts@.len() ==> (#[trigger] parts@[j])@.wf(),
        decreases rows.len() - i,
    {
        proof {
            assert(vs[i as int] == rows@[i as int]@);
        }
        match &rows[i] {
            Value::Byte(a) => {
                let ghost before = parts@;
                parts.push(a.copy());
                proof {
                    assert(vs[i as int].wf());
                    assert(byte_part(vs[i as int]) == a@);
                    let lhs = parts@.map_values(|a: Array<u8>| a@);
                    let rhs = vs.subrange(0, i + 1).map_values(|v: ValueModel| byte_part(v));
                    let old_l = before.map_values(|a: Array<u8>| a@);
                    let old_r = vs.subrange(0, i as int).map_values(|v: ValueModel| byte_part(v));
                    assert forall|j: int| 0 <= j < i implies lhs[j] == rhs[j] by {
                        assert(parts@[j] == before[j]);
                        assert(old_l[j] == old_r[j]);
                    }
                    assert(lhs.len() == rhs.len());
                    assert(lhs[i as int] == rhs[i as int]);
                    assert(parts@.map_values(|a: Array<u8>| a@)
                        =~= vs.subrange(0, i + 1).map_values(|v: ValueModel| byte_part(v)));
                    assert(same_kind(vs.subrange(0, i + 1), 1));
                }
            }
            _ => {
                proof {
                    assert(kind(vs[i as int]) != 1);
                    assert(vs[0] == rows@[0]@);
                    assert(vs.len() == rows@.len());
                    assert(kind(vs[i as int]) != kind(vs[0]));
                    assert(!same_kind(vs, kind(vs[0])));
                }
                return Err(Error::CombineMismatch);
            }
        }
        i = i + 1;
    }
    proof {
        assert(vs.subrange(0, vs.len() as int) =~= vs);
    }
    match from_row_arrays(&parts) {
        Some(a) => Ok(Value::Byte(a)),
        None => Err(Error::CombineMismatch),
    }
}

/// The Char arrays of `rows`, stacked; `rows[0]` is a Char value.
fn stack_char_part(rows: &Vec<Value>) -> (r: Result<Value, Error>)
    requires
        rows@.len() > 0,
        kind(rows@[0]@) == 2,
        all_wf(views(rows@)),
    ensures
        match from_values_spec(views(rows@)) {
            Some(v) => r.is_ok() && r.unwrap()@ == v,
            None => r == Err::<Value, Error>(Error::CombineMismatch),
        },
        r.is_ok() ==> r.unwrap()@.wf(),
{
    let ghost vs = views(rows@);
    let mut parts: Vec<Array<char>> = Vec::new();
    let mut i: usize = 0;
    while i < rows.len()
        invariant
            0 <= i <= rows.len(),
            vs == views(rows@),
            all_wf(vs),
            parts@.len() == i,
            rows@.len() > 0,
            kind(rows@[0]@) == 2,
            same_kind(vs.subrange(0, i as int), 2),
            parts@.map_values(|a: Array<char>| a@) == vs.subrange(0, i as int).map_values(|v: ValueModel| char_part(v)),
            forall|j: int| 0 <= j < parts@.len() ==> (#[trigger] parts@[j])@.wf(),
        decreases rows.len() - i,
    {
        proof {
            assert(vs[i as int] == rows@[i as int]@);
        }
        match &rows[i] {
            Value::Char(a) => {
                let ghost before = parts@;
                parts.push(a.copy());
                proof {
                    assert(vs[i as int].wf());
                    assert(char_part(vs[i as int]) == a@);
                    let lhs = parts@.map_values(|a: Array<char>| a@);
                    let rhs = vs.subrange(0, i + 1).map_values(|v: ValueModel| char_part(v));
                    let old_l = before.map_values(|a: Array<char>| a@);
                    let old_r = vs.subrange(0, i as int).map_values(|v: ValueModel| char_part(v));
                    assert forall|j: int| 0 <= j < i implies lhs[j] == rhs[j] by {
                        assert(parts@[j] == before[j]);
                        assert(old_l[j] == old_r[j]);
                    }
                    assert(lhs.len() == rhs.len());
                    assert(lhs[i as int] == rhs[i as int]);
                    assert(parts@.map_values(|a: Array<char>| a@)
                        =~= vs.subrange(0, i + 1).map_values(|v: ValueModel| char_part(v)));
                    assert(same_kind(vs.subrange(0, i + 1), 2));
                }
            }
            _ => {
                proof {
                    assert(kind(vs[i as int]) != 2);
                    assert(vs[0] == rows@[0]@);
                    assert(vs.len() == rows@.len());
                    assert(kind(vs[i as int]) != kind(vs[0]));
                    assert(!same_kind(vs, kind(vs[0])));
                }
                return Err(Error::CombineMismatch);
            }
        }
        i = i + 1;
    }
    proof {
        assert(vs.subrange(0, vs.len() as int) =~= vs);
    }
    match from_row_arrays(&parts) {
        Some(a) => Ok(Value::Char(a)),
        None => Err(Error::CombineMismatch),
    }
}

/// The Func arrays of `rows`, stacked; `rows[0]` is a Func value.
fn stack_func_part(rows: &Vec<Value>) -> (r: Result<Value, Error>)
    requires
        rows@.len() > 0,
        kind(rows@[0]@) == 3,
        all_wf(views(rows@)),
    ensures
        match from_values_spec(views(rows@)) {
            Some(v) => r.is_ok() && r.unwrap()@ == v,
            None => r == Err::<Value, Error>(Error::CombineMismatch),
        },
        r.is_ok() ==> r.unwrap()@.wf(),
{
    let ghost vs = views(rows@);
    let mut parts: Vec<Array<Function>> = Vec::new();
    let mut i: usize = 0;
    while i < rows.len()
        invariant
            0 <= i <= rows.len(),
            vs == views(rows@),
            all_wf(vs),
            parts@.len() == i,
            rows@.len() > 0,
            kind(rows@[0]@) == 3,
            same_kind(vs.subrange(0, i as int), 3),
            parts@.map_values(|a: Array<Function>| a@) == vs.subrange(0, i as int).map_values(|v: ValueModel| func_part(v)),
            forall|j: int| 0 <= j < parts@.len() ==> (#[trigger] parts@[j])@.wf(),
        decreases rows.len() - i,
    {
        proof {
            assert(vs[i as int] == rows@[i as int]@);
        }
        match &rows[i] {
            Value::Func(a) => {
                let ghost before = parts@;
                parts.push(a.copy());
                proof {
                    assert(vs[i as int].wf());
                    assert(func_part(vs[i as int]) == a@);
                    let lhs = parts@.map_values(|a: Array<Function>| a@);
                    let rhs = vs.subrange(0, i + 1).map_values(|v: ValueModel| func_part(v));
                    let old_l = before.map_values(|a: Array<Function>| a@);
                    let old_r = vs.subrange(0, i as int).map_values(|v: ValueModel| func_part(v));
                    assert forall|j: int| 0 <= j < i implies lhs[j] == rhs[j] by {
                        assert(parts@[j] == before[j]);
                        assert(old_l[j] == old_r[j]);
                    }
                    assert(lhs.len() == rhs.len());
                    assert(lhs[i as int] == rhs[i as int]);
                    assert(parts@.map_values(|a: Array<Function>| a@)
                        =~= vs.subrange(0, i + 1).map_values(|v: ValueModel| func_part(v)));
                    assert(same_kind(vs.subrange(0, i + 1), 3));
                }
            }
            _ => {
                proof {
                    assert(kind(vs[i as int]) != 3);
                    assert(vs[0] == rows@[0]@);
                    assert(vs.len() == rows@.len());
                    assert(kind(vs[i as int]) != kind(vs[0]));
                    assert(!same_kind(vs, kind(vs[0])));
                }
                return Err(Error::CombineMismatch);
            }
        }
        i = i + 1;
    }
    proof {
        assert(vs.subrange(0, vs.len() as int) =~= vs);
    }
    match from_row_arrays(&parts) {
        Some(a) => Ok(Value::Func(a)),
        None => Err(Error::CombineMismatch),
    }
}

impl Value {
    /// Reassembles `rows` into one value whose rows they are.
    pub fn from_row_values(rows: &Vec<Value>) -> (r: Result<Value, Error>)
        requires
            all_wf(views(rows@)),
        ensures
            match from_values_spec(views(rows@)) {
                Some(v) => r.is_ok() && r.unwrap()@ == v,
                None => r == Err::<Value, Error>(Error::CombineMismatch),
            },
            r.is_ok() ==> r.unwrap()@.wf(),
    {
        if rows.len() == 0 {
            let parts: Vec<Array<i64>> = Vec::new();
            proof {
                assert(parts@.map_values(|a: Array<i64>| a@) =~= Seq::<ArrayModel<i64>>::empty());
            }
            return Ok(Value::Num(from_row_arrays(&parts).unwrap()));
        }
        match &rows[0] {
            Value::Num(_) => stack_num_part(rows),
            Value::Byte(_) => stack_byte_part(rows),
            Value::Char(_) => stack_char_part(rows),
            Value::Func(_) => stack_func_part(rows),
        }
    }

    pub fn copy(&self) -> (r: Value)
        ensures
            r@ == self@,
    {
        match self {
            Value::Num(a) => Value::Num(a.copy()),
            Value::Byte(a) => Value::Byte(a.copy()),
            Value::Char(a) => Value::Char(a.copy()),
            Value::Func(a) => Value::Func(a.copy()),
        }
    }

    pub fn shape(&self) -> (r: &Vec<usize>)
        ensures
            r@ == self@.shape(),
    {
        match self {
            Value::Num(a) => &a.shape,
            Value::Byte(a) => &a.shape,
            Value::Char(a) => &a.shape,
            Value::Func(a) => &a.shape,
        }
    }

    pub fn rank(&self) -> (r: usize)
        ensures
            r == self@.rank(),
    {
        self.shape().len()
    }

    pub fn row_count(&self) -> (r: usize)
        requires
            self@.wf(),
        ensures
            r == self@.row_count(),
    {
        match self {
            Value::Num(a) => a.row_count(),
            Value::Byte(a) => a.row_count(),
            Value::Char(a) => a.row_count(),
            Value::Func(a) => a.row_count(),
        }
    }

    pub fn row(&self, i: usize) -> (r: Value)
        requires
            self@.wf(),
            i < self@.row_count(),
        ensures
            r@ == self@.row(i as int),
            r@.wf(),
    {
        match self {
            Value::Num(a) => Value::Num(a.row(i)),
            Value::Byte(a) => Value::Byte(a.row(i)),
            Value::Char(a) => Value::Char(a.row(i)),
            Value::Func(a) => Value::Func(a.row(i)),
        }
    }

    /// Element `j` as a value of rank 0.
    pub fn elem(&self, j: usize) -> (r: Value)
        requires
            self@.wf(),
            j < flat_len(self@.shape()),
        ensures
            r@ == elem(self@, j as int),
            r@.wf(),
    {
        let shape: Vec<usize> = Vec::new();
        proof {
            assert(shape@ =~= Seq::<usize>::empty());
            assert(flat_len(shape@) == 1);
            assert(fits(shape@));
        }
        match self {
            Value::Num(a) => {
                let mut data = Vec::new();
                data.push(a.data[j]);
                proof { assert(data@ =~= seq![a@.data[j as int]]); }
                Value::Num(Array { shape, data })
            },
            Value::Byte(a) => {
                let mut data = Vec::new();
                data.push(a.data[j]);
                proof { assert(data@ =~= seq![a@.data[j as int]]); }
                Value::Byte(Array { shape, data })
            },
            Value::Char(a) => {
                let mut data = Vec::new();
                data.push(a.data[j]);
                proof { assert(data@ =~= seq![a@.data[j as int]]); }
                Value::Char(Array { shape, data })
            },
            Value::Func(a) => {
                let mut data = Vec::new();
                data.push(a.data[j]);
                proof { assert(data@ =~= seq![a@.data[j as int]]); }
                Value::Func(Array { shape, data })
            },
        }
    }

    pub fn flat_len(&self) -> (r: usize)
        requires
            self@.wf(),
        ensures
            r == flat_len(self@.shape()),
    {
        match self {
            Value::Num(a) => a.data.len(),
            Value::Byte(a) => a.data.len(),
            Value::Char(a) => a.data.len(),
            Value::Func(a) => a.data.len(),
        }
    }

    /// Every element, in row-major order.
    pub fn flat_values(&self) -> (r: Vec<Value>)
        requires
            self@.wf(),
        ensures
            views(r@) == flat_values(self@),
            all_wf(views(r@)),
    {
        let n = self.flat_len();
        let mut r: Vec<Value> = Vec::new();
        let mut j: usize = 0;
        while j < n
            invariant
                self@.wf(),
                n == flat_len(self@.shape()),
                j <= n,
                views(r@) == flat_values(self@).subrange(0, j as int),
                all_wf(views(r@)),
            decreases n - j,
        {
            let v = self.elem(j);
            let ghost before = r@;
            r.push(v);
            proof {
                assert(views(r@) =~= views(before).push(v@));
                assert(views(r@) =~= flat_values(self@).subrange(0, j + 1));
            }
            j = j + 1;
        }
        proof {
            assert(flat_values(self@).subrange(0, n as int) =~= flat_values(self@));
        }
        r
    }

    /// The same elements with the leading axis replaced by `prefix`, when the
    /// leading axis has as many places as `prefix` has elements.
    pub fn reshape_front(self, prefix: &Vec<usize>) -> (r: Result<Value, Error>)
        requires
            self@.wf(),
            self@.rank() > 0,
            self@.shape()[0] == flat_len(prefix@),
        ensures
            match reshape_front(self@, prefix@) {
                Some(v) => r.is_ok() && r.unwrap()@ == v && v.wf(),
                None => r == Err::<Value, Error>(Error::Unrepresentable),
            },
    {
        let ghost cell = self@.shape().drop_first();
        let mut shape = copy_range(prefix, 0, prefix.len());
        let old_shape = self.shape();
        let mut i: usize = 1;
        while i < old_shape.len()
            invariant
                1 <= i <= old_shape@.len(),
                shape@ == prefix@ + old_shape@.subrange(1, i as int),
            decreases old_shape.len() - i,
        {
            shape.push(old_shape[i]);
            i = i + 1;
            proof {
                assert(shape@ =~= prefix@ + old_shape@.subrange(1, i as int));
            }
        }
        proof {
            assert(prefix@.subrange(0, prefix@.len() as int) =~= prefix@);
            assert(old_shape@.subrange(1, old_shape@.len() as int) =~= cell);
            crate::function::lemma_flat_len_append(prefix@, cell);
            assert(flat_len(self@.shape()) == self@.shape()[0] * flat_len(cell));
        }
        if !shape_fits(&shape) {
            return Err(Error::Unrepresentable);
        }
        match self {
            Value::Num(a) => Ok(Value::Num(Array { shape, data: a.data })),
            Value::Byte(a) => Ok(Value::Byte(Array { shape, data: a.data })),
            Value::Char(a) => Ok(Value::Char(Array { shape, data: a.data })),
            Value::Func(a) => Ok(Value::Func(Array { shape, data: a.data })),
        }
    }

    /// All rows, in order.
    pub fn rows(&self) -> (r: Vec<Value>)
        requires
            self@.wf(),
        ensures
            views(r@) == self@.rows(),
            all_wf(views(r@)),
    {
        let n = self.row_count();
        let mut r: Vec<Value> = Vec::new();
        let mut i: usize = 0;
        while i < n
            invariant
                self@.wf(),
                n == self@.row_count(),
                i <= n,
                views(r@) == self@.rows().subrange(0, i as int),
                all_wf(views(r@)),
            decreases n - i,
        {
            let row = self.row(i);
            let ghost before = r@;
            r.push(row);
            proof {
                assert(views(r@) =~= views(before).push(row@));
                assert(self@.rows()[i as int] == row@);
                assert(views(r@) =~= self@.rows().subrange(0, i + 1));
            }
            i = i + 1;
        }
        proof {
            assert(self@.rows().subrange(0, n as int) =~= self@.rows());
        }
        r
    }
}

} // verus!
