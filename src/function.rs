//! Function values and what calling one does.

use vstd::prelude::*;
use crate::array::{Array, ArrayModel, flat_len, fits, copy_range};
use crate::error::Error;
use crate::value::{Value, ValueModel, all_wf, views};

verus! {

/// The built-in operations a function value can run.
#[derive(Debug, Clone, Copy, PartialEq, Eq, Structural)]
pub enum Primitive {
    Identity,
    Pop,
    Add,
    Sub,
    Mul,
    Div,
    Max,
    Min,
    Eq,
    Ne,
    Lt,
    Gt,
    Le,
    Ge,
    Join,
    Couple,
    Triple,
}

/// A callable value: a primitive, possibly with its arguments swapped, with
/// a number bound as its first argument, or made to signal `break` once it
/// returns a number at or above a threshold.
#[derive(Debug, Clone, Copy, PartialEq, Eq)]
pub struct Function {
    pub prim: Primitive,
    pub flipped: bool,
    pub bound: Option<i64>,
    pub until: Option<i64>,
}

pub open spec fn is_arith(p: Primitive) -> bool {
    p == Primitive::Add || p == Primitive::Sub || p == Primitive::Mul || p == Primitive::Div
        || p == Primitive::Max || p == Primitive::Min
}

pub open spec fn is_compare(p: Primitive) -> bool {
    p == Primitive::Eq || p == Primitive::Ne || p == Primitive::Lt || p == Primitive::Gt
        || p == Primitive::Le || p == Primitive::Ge
}

pub open spec fn is_dyadic(p: Primitive) -> bool {
    p != Primitive::Identity && p != Primitive::Pop && p != Primitive::Triple
}

impl Function {
    /// How many values a call takes from the stack.
    pub open spec fn args(self) -> nat {
        if self.prim == Primitive::Triple {
            if self.bound.is_some() { 2 } else { 3 }
        } else if !is_dyadic(self.prim) {
            1
        } else if self.bound.is_some() {
            1
        } else {
            2
        }
    }

    /// How many values a call leaves on the stack.
    pub open spec fn outputs(self) -> nat {
        if self.prim == Primitive::Pop {
            0
        } else {
            1
        }
    }

    /// The number of arguments and of results.
    pub fn signature(&self) -> (r: (usize, usize))
        ensures
            r.0 == self.args(),
            r.1 == self.outputs(),
    {
        let args: usize = match self.prim {
            Primitive::Identity | Primitive::Pop => 1,
            Primitive::Triple => if self.bound.is_some() { 2 } else { 3 },
            _ => if self.bound.is_some() { 1 } else { 2 },
        };
        let outputs: usize = match self.prim {
            Primitive::Pop => 0,
            _ => 1,
        };
        (args, outputs)
    }

    /// The primitive and whether its arguments are swapped, for a function that
    /// is a bare primitive.
    pub open spec fn flipped_primitive(self) -> Option<(Primitive, bool)> {
        if self.bound.is_none() && self.until.is_none() {
            Some((self.prim, self.flipped))
        } else {
            None
        }
    }

    pub fn as_flipped_primitive(&self) -> (r: Option<(Primitive, bool)>)
        ensures
            r == self.flipped_primitive(),
    {
        if self.bound.is_none() && self.until.is_none() {
            Some((self.prim, self.flipped))
        } else {
            None
        }
    }
}

pub open spec fn abs(a: int) -> int {
    if a < 0 { -a } else { a }
}

/// Whether `b` is not zero and divides `a` exactly.
pub open spec fn divides(b: int, a: int) -> bool {
    b != 0 && abs(a) % abs(b) == 0
}

/// The quotient of `a` by `b` when `b` divides it exactly.
pub open spec fn exact_quotient(a: int, b: int) -> int {
    if divides(b, a) {
        if (a < 0) != (b < 0) { -(abs(a) / abs(b)) } else { abs(a) / abs(b) }
    } else {
        0
    }
}

/// The quotient of an exact division times the divisor is the dividend.
pub proof fn lemma_exact_quotient(a: int, b: int)
    requires
        divides(b, a),
    ensures
        exact_quotient(a, b) * b == a,
{
    let ua = abs(a);
    let ub = abs(b);
    let uq = ua / ub;
    vstd::arithmetic::div_mod::lemma_fundamental_div_mod(ua, ub);
    assert(ua == ub * uq);
    if (a < 0) != (b < 0) {
        assert(-uq * b == a) by (nonlinear_arith)
            requires ua == ub * uq, ua == (if a < 0 { -a } else { a }), ub == (if b < 0 { -b } else { b }), (a < 0) != (b < 0);
    } else {
        assert(uq * b == a) by (nonlinear_arith)
            requires ua == ub * uq, ua == (if a < 0 { -a } else { a }), ub == (if b < 0 { -b } else { b }), (a < 0) == (b < 0);
    }
}

/// A primitive on two numbers; `x` is the first argument (the top of the
/// stack). Subtraction takes the second from the first and division divides
/// the first by the second; a comparison asks whether the second stands in
/// that relation to the first. Comparisons give 1 or 0. `None` when the
/// result leaves `i64`, and for a division by zero or one that is not exact.
pub open spec fn elem_op(p: Primitive, flipped: bool, x: i64, y: i64) -> Option<i64> {
    let a = if flipped { y as int } else { x as int };
    let b = if flipped { x as int } else { y as int };
    let r: int = match p {
        Primitive::Add => a + b,
        Primitive::Sub => a - b,
        Primitive::Mul => a * b,
        Primitive::Div => exact_quotient(a, b),
        Primitive::Max => if a >= b { a } else { b },
        Primitive::Min => if a <= b { a } else { b },
        Primitive::Eq => if b == a { 1 } else { 0 },
        Primitive::Ne => if b != a { 1 } else { 0 },
        Primitive::Lt => if b < a { 1 } else { 0 },
        Primitive::Gt => if b > a { 1 } else { 0 },
        Primitive::Le => if b <= a { 1 } else { 0 },
        Primitive::Ge => if b >= a { 1 } else { 0 },
        _ => 0,
    };
    if p == Primitive::Div && !divides(b, a) {
        None
    } else if i64::MIN <= r <= i64::MAX {
        Some(r as i64)
    } else {
        None
    }
}

pub fn elem_apply(p: Primitive, flipped: bool, x: i64, y: i64) -> (r: Option<i64>)
    ensures
        r == elem_op(p, flipped, x, y),
{
    let a: i128 = if flipped { y as i128 } else { x as i128 };
    let b: i128 = if flipped { x as i128 } else { y as i128 };
    proof {
        assert(-0x8000_0000_0000_0000 <= a <= 0x7fff_ffff_ffff_ffff);
        assert(-0x8000_0000_0000_0000 <= b <= 0x7fff_ffff_ffff_ffff);
        assert(-0x4000_0000_0000_0000_0000_0000_0000_0000 <= a * b <= 0x4000_0000_0000_0000_0000_0000_0000_0000)
            by (nonlinear_arith)
            requires
                -0x8000_0000_0000_0000 <= a <= 0x7fff_ffff_ffff_ffff,
                -0x8000_0000_0000_0000 <= b <= 0x7fff_ffff_ffff_ffff;
    }
    if matches!(p, Primitive::Div) {
        if b == 0 {
            return None;
        }
        let ua: u128 = if a < 0 { (-a) as u128 } else { a as u128 };
        let ub: u128 = if b < 0 { (-b) as u128 } else { b as u128 };
        if ua % ub != 0 {
            return None;
        }
        let uq: u128 = ua / ub;
        proof {
            assert(uq <= ua) by (nonlinear_arith) requires uq == ua / ub, ub >= 1;
        }
        let q: i128 = if (a < 0) != (b < 0) { -(uq as i128) } else { uq as i128 };
        return if i64::MIN as i128 <= q && q <= i64::MAX as i128 { Some(q as i64) } else { None };
    }
    let r: i128 = match p {
        Primitive::Add => a + b,
        Primitive::Sub => a - b,
        Primitive::Mul => a * b,
        Primitive::Max => if a >= b { a } else { b },
        Primitive::Min => if a <= b { a } else { b },
        Primitive::Eq => if b == a { 1 } else { 0 },
        Primitive::Ne => if b != a { 1 } else { 0 },
        Primitive::Lt => if b < a { 1 } else { 0 },
        Primitive::Gt => if b > a { 1 } else { 0 },
        Primitive::Le => if b <= a { 1 } else { 0 },
        Primitive::Ge => if b >= a { 1 } else { 0 },
        _ => 0,
    };
    if i64::MIN as i128 <= r && r <= i64::MAX as i128 {
        Some(r as i64)
    } else {
        None
    }
}

/// The shape of a left-aligned broadcast: the longer of the two shapes, when
/// the shorter is a prefix of it.
pub open spec fn pervade_shape(sa: Seq<usize>, sb: Seq<usize>) -> Option<Seq<usize>> {
    if sa.len() <= sb.len() && sb.subrange(0, sa.len() as int) == sa {
        Some(sb)
    } else if sb.len() <= sa.len() && sa.subrange(0, sb.len() as int) == sb {
        Some(sa)
    } else {
        None
    }
}

/// How many elements of the result share one element of an argument of
/// shape `s`.
pub open spec fn stride(s: Seq<usize>, out: Seq<usize>) -> nat {
    flat_len(out.subrange(s.len() as int, out.len() as int))
}

/// Element `i` of a broadcast of `a` and `b` to shape `out`.
pub open spec fn pervade_elem(
    p: Primitive,
    flipped: bool,
    a: ArrayModel<i64>,
    b: ArrayModel<i64>,
    out: Seq<usize>,
    i: int,
) -> Option<i64> {
    elem_op(
        p,
        flipped,
        a.data[i / (stride(a.shape, out) as int)],
        b.data[i / (stride(b.shape, out) as int)],
    )
}

#[verifier::opaque]
/// A primitive on two arrays of numbers, element by element, where each
/// element of the shorter-shaped array meets a block of the other.
pub open spec fn pervade_spec(p: Primitive, flipped: bool, a: ArrayModel<i64>, b: ArrayModel<i64>) -> Result<ArrayModel<i64>, Error> {
    match pervade_shape(a.shape, b.shape) {
        None => Err(Error::ShapeMismatch),
        Some(out) => if exists|i: int| 0 <= i < flat_len(out) && (#[trigger] pervade_elem(p, flipped, a, b, out, i)).is_none() {
            Err(Error::Unrepresentable)
        } else {
            Ok(ArrayModel { shape: out, data: Seq::new(flat_len(out), |i: int| pervade_elem(p, flipped, a, b, out, i).unwrap()) })
        },
    }
}

pub proof fn lemma_flat_len_append(s1: Seq<usize>, s2: Seq<usize>)
    ensures
        flat_len(s1 + s2) == flat_len(s1) * flat_len(s2),
    decreases s1.len(),
{
    if s1.len() > 0 {
        assert((s1 + s2).drop_first() =~= s1.drop_first() + s2);
        assert((s1 + s2)[0] == s1[0]);
        lemma_flat_len_append(s1.drop_first(), s2);
        let x = s1[0] as int;
        let f1 = flat_len(s1.drop_first()) as int;
        let f2 = flat_len(s2) as int;
        assert(x * (f1 * f2) == (x * f1) * f2) by (nonlinear_arith);
        assert(flat_len(s1 + s2) == x * flat_len((s1 + s2).drop_first()));
        assert(flat_len(s1) == x * f1);
    } else {
        assert(s1 + s2 =~= s2);
        assert(flat_len(s1) == 1);
    }
}

/// An argument's elements cover the result in blocks of its stride.
pub proof fn lemma_stride(s: Seq<usize>, out: Seq<usize>, len: nat)
    requires
        s.len() <= out.len(),
        out.subrange(0, s.len() as int) == s,
        len == flat_len(s),
    ensures
        flat_len(out) == len * stride(s, out),
        len > 0 ==> flat_len(out) / len == stride(s, out),
        flat_len(out) > 0 ==> len > 0 && stride(s, out) > 0,
        forall|i: int| 0 <= i < flat_len(out) ==> 0 <= #[trigger] (i / (stride(s, out) as int)) < len,
{
    let rest = out.subrange(s.len() as int, out.len() as int);
    assert(s + rest =~= out);
    lemma_flat_len_append(s, rest);
    let m = stride(s, out) as int;
    let l = len as int;
    if l > 0 {
        assert((l * m) / l == m) by (nonlinear_arith) requires l > 0;
    }
    assert(l * m > 0 ==> l > 0 && m > 0) by (nonlinear_arith) requires l >= 0, m >= 0;
    assert forall|i: int| 0 <= i < flat_len(out) implies 0 <= #[trigger] (i / (stride(s, out) as int)) < len by {
        assert(0 <= i / m < l) by (nonlinear_arith) requires 0 <= i < l * m, m >= 0;
    }
}

/// Whether `a` is a prefix of `b`.
pub fn is_prefix(a: &Vec<usize>, b: &Vec<usize>) -> (r: bool)
    ensures
        r == (a@.len() <= b@.len() && b@.subrange(0, a@.len() as int) == a@),
{
    if a.len() > b.len() {
        return false;
    }
    let mut i: usize = 0;
    while i < a.len()
        invariant
            a.len() <= b.len(),
            0 <= i <= a.len(),
            forall|k: int| 0 <= k < i ==> a@[k] == b@[k],
        decreases a.len() - i,
    {
        if a[i] != b[i] {
            proof {
                assert(b@.subrange(0, a@.len() as int)[i as int] != a@[i as int]);
            }
            return false;
        }
        i = i + 1;
    }
    proof {
        assert(b@.subrange(0, a@.len() as int) =~= a@);
    }
    true
}

/// A primitive on two arrays of numbers with left-aligned broadcasting.
pub fn pervade(p: Primitive, flipped: bool, a: &Array<i64>, b: &Array<i64>) -> (r: Result<Array<i64>, Error>)
    requires
        a@.wf(),
        b@.wf(),
    ensures
        match pervade_spec(p, flipped, a@, b@) {
            Ok(m) => r.is_ok() && r.unwrap()@ == m && m.wf(),
            Err(e) => r == Err::<Array<i64>, Error>(e),
        },
{
    proof {
        reveal(pervade_spec);
    }
    let a_short = is_prefix(&a.shape, &b.shape);
    let b_short = is_prefix(&b.shape, &a.shape);
    if !a_short && !b_short {
        return Err(Error::ShapeMismatch);
    }
    let ghost out = if a_short { b@.shape } else { a@.shape };
    let out_shape = if a_short { &b.shape } else { &a.shape };
    let n = if a_short { b.data.len() } else { a.data.len() };
    proof {
        assert(out.subrange(0, out.len() as int) =~= out);
        lemma_stride(a@.shape, out, a@.data.len());
        lemma_stride(b@.shape, out, b@.data.len());
    }
    let sa: usize = if a.data.len() > 0 { n / a.data.len() } else { 1 };
    let sb: usize = if b.data.len() > 0 { n / b.data.len() } else { 1 };
    let mut data: Vec<i64> = Vec::new();
    let mut i: usize = 0;
    while i < n
        invariant
            a@.wf(),
            b@.wf(),
            n == flat_len(out),
            pervade_shape(a@.shape, b@.shape) == Some(out),
            n > 0 ==> sa == stride(a@.shape, out) && sb == stride(b@.shape, out),
            n > 0 ==> sa > 0 && sb > 0,
            forall|k: int| 0 <= k < flat_len(out) ==> 0 <= #[trigger] (k / (stride(a@.shape, out) as int)) < a@.data.len(),
            forall|k: int| 0 <= k < flat_len(out) ==> 0 <= #[trigger] (k / (stride(b@.shape, out) as int)) < b@.data.len(),
            0 <= i <= n,
            data@.len() == i,
            forall|k: int| 0 <= k < i ==> Some(#[trigger] data@[k]) == pervade_elem(p, flipped, a@, b@, out, k),
        decreases n - i,
    {
        let x = a.data[i / sa];
        let y = b.data[i / sb];
        match elem_apply(p, flipped, x, y) {
            Some(v) => data.push(v),
            None => {
                proof {
                    reveal(pervade_spec);
                    assert(pervade_elem(p, flipped, a@, b@, out, i as int).is_none());
                }
                return Err(Error::Unrepresentable);
            }
        }
        i = i + 1;
    }
    let shape = copy_range(out_shape, 0, out_shape.len());
    let r = Array { shape, data };
    proof {
        reveal(pervade_spec);
        assert(shape@ =~= out);
        assert forall|k: int| 0 <= k < flat_len(out) implies (#[trigger] pervade_elem(p, flipped, a@, b@, out, k)).is_some() by {
            assert(Some(data@[k]) == pervade_elem(p, flipped, a@, b@, out, k));
        }
        assert(!exists|k: int| 0 <= k < flat_len(out) && (#[trigger] pervade_elem(p, flipped, a@, b@, out, k)).is_none());
        assert(r@.data =~= Seq::new(flat_len(out), |k: int| pervade_elem(p, flipped, a@, b@, out, k).unwrap()));
    }
    Ok(r)
}

pub open spec fn bytes_as_nums(a: ArrayModel<u8>) -> ArrayModel<i64> {
    ArrayModel { shape: a.shape, data: a.data.map_values(|x: u8| x as i64) }
}

pub open spec fn nums_as_bytes(a: ArrayModel<i64>) -> ArrayModel<u8> {
    ArrayModel { shape: a.shape, data: a.data.map_values(|x: i64| x as u8) }
}

/// The numbers a value holds: bytes count as numbers.
pub open spec fn numeric(v: ValueModel) -> Option<ArrayModel<i64>> {
    match v {
        ValueModel::Num(a) => Some(a),
        ValueModel::Byte(a) => Some(bytes_as_nums(a)),
        _ => None,
    }
}

pub fn bytes_to_nums(a: &Array<u8>) -> (r: Array<i64>)
    requires
        a@.wf(),
    ensures
        r@ == bytes_as_nums(a@),
        r@.wf(),
{
    let mut data: Vec<i64> = Vec::new();
    let mut i: usize = 0;
    while i < a.data.len()
        invariant
            0 <= i <= a.data.len(),
            data@ == a@.data.subrange(0, i as int).map_values(|x: u8| x as i64),
        decreases a.data.len() - i,
    {
        data.push(a.data[i] as i64);
        i = i + 1;
        proof {
            assert(data@ =~= a@.data.subrange(0, i as int).map_values(|x: u8| x as i64));
        }
    }
    proof {
        assert(a@.data.subrange(0, i as int) =~= a@.data);
    }
    let shape = copy_range(&a.shape, 0, a.shape.len());
    proof {
        assert(shape@ =~= a@.shape);
    }
    Array { shape, data }
}

pub fn nums_to_bytes(a: &Array<i64>) -> (r: Array<u8>)
    requires
        a@.wf(),
    ensures
        r@ == nums_as_bytes(a@),
        r@.wf(),
{
    let mut data: Vec<u8> = Vec::new();
    let mut i: usize = 0;
    while i < a.data.len()
        invariant
            0 <= i <= a.data.len(),
            data@ == a@.data.subrange(0, i as int).map_values(|x: i64| x as u8),
        decreases a.data.len() - i,
    {
        data.push(a.data[i] as u8);
        i = i + 1;
        proof {
            assert(data@ =~= a@.data.subrange(0, i as int).map_values(|x: i64| x as u8));
        }
    }
    proof {
        assert(a@.data.subrange(0, i as int) =~= a@.data);
    }
    let shape = copy_range(&a.shape, 0, a.shape.len());
    proof {
        assert(shape@ =~= a@.shape);
    }
    Array { shape, data }
}

pub fn to_nums(v: &Value) -> (r: Option<Array<i64>>)
    requires
        v@.wf(),
    ensures
        r.is_some() == numeric(v@).is_some(),
        r.is_some() ==> r.unwrap()@ == numeric(v@).unwrap() && r.unwrap()@.wf(),
{
    match v {
        Value::Num(a) => Some(a.copy()),
        Value::Byte(a) => Some(bytes_to_nums(a)),
        _ => None,
    }
}

/// Two arrays of one shape as the two rows of a new array.
pub open spec fn couple_spec<T>(a: ArrayModel<T>, b: ArrayModel<T>) -> Result<ArrayModel<T>, Error> {
    if a.shape != b.shape {
        Err(Error::ShapeMismatch)
    } else if a.data.len() + b.data.len() > usize::MAX {
        Err(Error::Unrepresentable)
    } else {
        Ok(ArrayModel { shape: seq![2usize] + a.shape, data: a.data + b.data })
    }
}

/// Two scalars or lists joined into one list.
pub open spec fn join_spec<T>(a: ArrayModel<T>, b: ArrayModel<T>) -> Result<ArrayModel<T>, Error> {
    if a.shape.len() > 1 || b.shape.len() > 1 {
        Err(Error::ShapeMismatch)
    } else if a.data.len() + b.data.len() > usize::MAX {
        Err(Error::Unrepresentable)
    } else {
        Ok(ArrayModel { shape: seq![(a.data.len() + b.data.len()) as usize], data: a.data + b.data })
    }
}

pub open spec fn pair_spec<T>(p: Primitive, a: ArrayModel<T>, b: ArrayModel<T>) -> Result<ArrayModel<T>, Error> {
    if p == Primitive::Couple {
        couple_spec(a, b)
    } else {
        join_spec(a, b)
    }
}

pub fn concat<T: Copy>(a: &Vec<T>, b: &Vec<T>) -> (r: Vec<T>)
    ensures
        r@ == a@ + b@,
{
    let mut r = copy_range(a, 0, a.len());
    let mut i: usize = 0;
    while i < b.len()
        invariant
            0 <= i <= b.len(),
            r@ == a@ + b@.subrange(0, i as int),
        decreases b.len() - i,
    {
        r.push(b[i]);
        i = i + 1;
        proof {
            assert(r@ =~= a@ + b@.subrange(0, i as int));
        }
    }
    proof {
        assert(b@.subrange(0, i as int) =~= b@);
        assert(a@.subrange(0, a@.len() as int) =~= a@);
    }
    r
}

/// Couples or joins two arrays of one element type.
pub fn pair_arrays<T: Copy>(p: Primitive, a: &Array<T>, b: &Array<T>) -> (r: Result<Array<T>, Error>)
    requires
        a@.wf(),
        b@.wf(),
    ensures
        match pair_spec(p, a@, b@) {
            Ok(m) => r.is_ok() && r.unwrap()@ == m && m.wf(),
            Err(e) => r == Err::<Array<T>, Error>(e),
        },
{
    if p == Primitive::Couple {
        if !crate::array::shape_eq(&a.shape, &b.shape) {
            return Err(Error::ShapeMismatch);
        }
    } else if a.shape.len() > 1 || b.shape.len() > 1 {
        return Err(Error::ShapeMismatch);
    }
    if a.data.len() > usize::MAX - b.data.len() {
        return Err(Error::Unrepresentable);
    }
    let data = concat(&a.data, &b.data);
    let mut shape: Vec<usize> = Vec::new();
    if p == Primitive::Couple {
        shape.push(2);
        let mut i: usize = 0;
        while i < a.shape.len()
            invariant
                0 <= i <= a.shape.len(),
                shape@ == seq![2usize] + a@.shape.subrange(0, i as int),
            decreases a.shape.len() - i,
        {
            shape.push(a.shape[i]);
            i = i + 1;
            proof {
                assert(shape@ =~= seq![2usize] + a@.shape.subrange(0, i as int));
            }
        }
        proof {
            assert(a@.shape.subrange(0, i as int) =~= a@.shape);
            let m = ArrayModel { shape: seq![2usize] + a@.shape, data: a@.data + b@.data };
            assert(m.shape.drop_first() =~= a@.shape);
            assert(m.shape[0] == 2);
            assert(fits(m.shape));
        }
    } else {
        shape.push(a.data.len() + b.data.len());
        proof {
            let m = ArrayModel { shape: seq![(a@.data.len() + b@.data.len()) as usize], data: a@.data + b@.data };
            assert(shape@ =~= m.shape);
            assert(m.shape.drop_first() =~= Seq::<usize>::empty());
            assert(flat_len(m.shape.drop_first()) == 1);
            assert(m.shape.len() == 1);
            assert(flat_len(m.shape) == m.shape[0] as nat * flat_len(m.shape.drop_first()));
            assert(flat_len(m.shape) == m.shape[0] as nat);
            assert(fits(m.shape.drop_first()));
            assert(fits(m.shape));
        }
    }
    Ok(Array { shape, data })
}

/// Three arrays of one shape as the three rows of a new array.
pub open spec fn triple_spec<T>(a: ArrayModel<T>, b: ArrayModel<T>, c: ArrayModel<T>) -> Result<ArrayModel<T>, Error> {
    if a.shape != b.shape || a.shape != c.shape {
        Err(Error::ShapeMismatch)
    } else if a.data.len() + b.data.len() + c.data.len() > usize::MAX {
        Err(Error::Unrepresentable)
    } else {
        Ok(ArrayModel { shape: seq![3usize] + a.shape, data: a.data + b.data + c.data })
    }
}

/// Three values of one kind and shape as the rows of a new value.
pub open spec fn triple_values(x: ValueModel, y: ValueModel, z: ValueModel) -> Result<ValueModel, Error> {
    match (x, y, z) {
        (ValueModel::Num(a), ValueModel::Num(b), ValueModel::Num(c)) => match triple_spec(a, b, c) {
            Ok(r) => Ok(ValueModel::Num(r)),
            Err(e) => Err(e),
        },
        (ValueModel::Byte(a), ValueModel::Byte(b), ValueModel::Byte(c)) => match triple_spec(a, b, c) {
            Ok(r) => Ok(ValueModel::Byte(r)),
            Err(e) => Err(e),
        },
        (ValueModel::Char(a), ValueModel::Char(b), ValueModel::Char(c)) => match triple_spec(a, b, c) {
            Ok(r) => Ok(ValueModel::Char(r)),
            Err(e) => Err(e),
        },
        (ValueModel::Func(a), ValueModel::Func(b), ValueModel::Func(c)) => match triple_spec(a, b, c) {
            Ok(r) => Ok(ValueModel::Func(r)),
            Err(e) => Err(e),
        },
        _ => Err(Error::TypeMismatch),
    }
}

pub fn triple_arrays<T: Copy>(a: &Array<T>, b: &Array<T>, c: &Array<T>) -> (r: Result<Array<T>, Error>)
    requires
        a@.wf(),
        b@.wf(),
        c@.wf(),
    ensures
        match triple_spec(a@, b@, c@) {
            Ok(m) => r.is_ok() && r.unwrap()@ == m && m.wf(),
            Err(e) => r == Err::<Array<T>, Error>(e),
        },
{
    if !crate::array::shape_eq(&a.shape, &b.shape) || !crate::array::shape_eq(&a.shape, &c.shape) {
        return Err(Error::ShapeMismatch);
    }
    if a.data.len() > usize::MAX - b.data.len() || a.data.len() + b.data.len() > usize::MAX - c.data.len() {
        return Err(Error::Unrepresentable);
    }
    let ab = concat(&a.data, &b.data);
    let data = concat(&ab, &c.data);
    let mut shape: Vec<usize> = Vec::new();
    shape.push(3);
    let mut i: usize = 0;
    while i < a.shape.len()
        invariant
            0 <= i <= a.shape.len(),
            shape@ == seq![3usize] + a@.shape.subrange(0, i as int),
        decreases a.shape.len() - i,
    {
        shape.push(a.shape[i]);
        i = i + 1;
        proof {
            assert(shape@ =~= seq![3usize] + a@.shape.subrange(0, i as int));
        }
    }
    proof {
        assert(a@.shape.subrange(0, i as int) =~= a@.shape);
        let m = ArrayModel { shape: seq![3usize] + a@.shape, data: a@.data + b@.data + c@.data };
        assert(m.shape.drop_first() =~= a@.shape);
        assert(m.shape[0] == 3);
        assert(fits(m.shape));
    }
    Ok(Array { shape, data })
}

fn triple(x: &Value, y: &Value, z: &Value) -> (r: Result<Value, Error>)
    requires
        x@.wf(),
        y@.wf(),
        z@.wf(),
    ensures
        match triple_values(x@, y@, z@) {
            Ok(v) => r.is_ok() && r.unwrap()@ == v && v.wf(),
            Err(e) => r == Err::<Value, Error>(e),
        },
{
    match (x, y, z) {
        (Value::Num(a), Value::Num(b), Value::Num(c)) => match triple_arrays(a, b, c) {
            Ok(r) => Ok(Value::Num(r)),
            Err(e) => Err(e),
        },
        (Value::Byte(a), Value::Byte(b), Value::Byte(c)) => match triple_arrays(a, b, c) {
            Ok(r) => Ok(Value::Byte(r)),
            Err(e) => Err(e),
        },
        (Value::Char(a), Value::Char(b), Value::Char(c)) => match triple_arrays(a, b, c) {
            Ok(r) => Ok(Value::Char(r)),
            Err(e) => Err(e),
        },
        (Value::Func(a), Value::Func(b), Value::Func(c)) => match triple_arrays(a, b, c) {
            Ok(r) => Ok(Value::Func(r)),
            Err(e) => Err(e),
        },
        _ => Err(Error::TypeMismatch),
    }
}

pub open spec fn scalar_num(k: i64) -> ValueModel {
    ValueModel::Num(ArrayModel { shape: Seq::empty(), data: seq![k] })
}

#[verifier::opaque]
/// A dyadic primitive on two values; `x` is the first argument.
pub open spec fn dyadic_spec(p: Primitive, flipped: bool, x: ValueModel, y: ValueModel) -> Result<ValueModel, Error> {
    if is_arith(p) || is_compare(p) {
        match (numeric(x), numeric(y)) {
            (Some(a), Some(b)) => match pervade_spec(p, flipped, a, b) {
                Ok(r) => Ok(if is_compare(p) { ValueModel::Byte(nums_as_bytes(r)) } else { ValueModel::Num(r) }),
                Err(e) => Err(e),
            },
            _ => Err(Error::TypeMismatch),
        }
    } else {
        let a = if flipped { y } else { x };
        let b = if flipped { x } else { y };
        match (a, b) {
            (ValueModel::Num(u), ValueModel::Num(v)) => match pair_spec(p, u, v) {
                Ok(r) => Ok(ValueModel::Num(r)),
                Err(e) => Err(e),
            },
            (ValueModel::Byte(u), ValueModel::Byte(v)) => match pair_spec(p, u, v) {
                Ok(r) => Ok(ValueModel::Byte(r)),
                Err(e) => Err(e),
            },
            (ValueModel::Char(u), ValueModel::Char(v)) => match pair_spec(p, u, v) {
                Ok(r) => Ok(ValueModel::Char(r)),
                Err(e) => Err(e),
            },
            (ValueModel::Func(u), ValueModel::Func(v)) => match pair_spec(p, u, v) {
                Ok(r) => Ok(ValueModel::Func(r)),
                Err(e) => Err(e),
            },
            _ => match (numeric(a), numeric(b)) {
                (Some(u), Some(v)) => match pair_spec(p, u, v) {
                    Ok(r) => Ok(ValueModel::Num(r)),
                    Err(e) => Err(e),
                },
                _ => Err(Error::TypeMismatch),
            },
        }
    }
}

/// Whether a result makes the function signal `break`.
pub open spec fn breaks(f: Function, v: ValueModel) -> bool {
    match f.until {
        None => false,
        Some(t) => match v {
            ValueModel::Num(a) => a.shape.len() == 0 && a.data[0] >= t,
            _ => false,
        },
    }
}

#[verifier::opaque]
/// What a call of `f` gives: its result (none for a function without
/// outputs) and whether it signalled `break`. `args[0]` is the top of the
/// stack.
pub open spec fn apply_spec(f: Function, args: Seq<ValueModel>) -> Result<(Option<ValueModel>, bool), Error> {
    match f.prim {
        Primitive::Identity => Ok((Some(args[0]), breaks(f, args[0]))),
        Primitive::Pop => Ok((None, false)),
        Primitive::Triple => {
            let x = match f.bound {
                Some(k) => scalar_num(k),
                None => args[0],
            };
            let y = match f.bound {
                Some(_) => args[0],
                None => args[1],
            };
            let z = match f.bound {
                Some(_) => args[1],
                None => args[2],
            };
            let r = if f.flipped { triple_values(y, x, z) } else { triple_values(x, y, z) };
            match r {
                Ok(v) => Ok((Some(v), breaks(f, v))),
                Err(e) => Err(e),
            }
        },
        _ => {
            let x = match f.bound {
                Some(k) => scalar_num(k),
                None => args[0],
            };
            let y = match f.bound {
                Some(_) => args[0],
                None => args[1],
            };
            match dyadic_spec(f.prim, f.flipped, x, y) {
                Ok(v) => Ok((Some(v), breaks(f, v))),
                Err(e) => Err(e),
            }
        },
    }
}

/// A call returns a result exactly when the function has one output.
pub proof fn lemma_apply_outputs(f: Function, args: Seq<ValueModel>)
    ensures
        apply_spec(f, args) matches Ok((out, _)) ==> out.is_some() == (f.outputs() == 1),
{
    reveal(apply_spec);
}

fn is_elementwise(p: Primitive) -> (r: bool)
    ensures
        r == (is_arith(p) || is_compare(p)),
{
    match p {
        Primitive::Identity | Primitive::Pop | Primitive::Join | Primitive::Couple | Primitive::Triple => false,
        _ => true,
    }
}

/// A dyadic primitive on two values; `x` is the first argument.
pub fn dyadic(p: Primitive, flipped: bool, x: &Value, y: &Value) -> (r: Result<Value, Error>)
    requires
        x@.wf(),
        y@.wf(),
        is_dyadic(p),
    ensures
        match dyadic_spec(p, flipped, x@, y@) {
            Ok(v) => r.is_ok() && r.unwrap()@ == v && v.wf(),
            Err(e) => r == Err::<Value, Error>(e),
        },
{
    proof {
        reveal(dyadic_spec);
    }
    if is_elementwise(p) {
        let a = match to_nums(x) {
            Some(a) => a,
            None => return Err(Error::TypeMismatch),
        };
        let b = match to_nums(y) {
            Some(b) => b,
            None => return Err(Error::TypeMismatch),
        };
        let r = match pervade(p, flipped, &a, &b) {
            Ok(r) => r,
            Err(e) => return Err(e),
        };
        if matches!(p, Primitive::Eq | Primitive::Ne | Primitive::Lt | Primitive::Gt | Primitive::Le | Primitive::Ge) {
            Ok(Value::Byte(nums_to_bytes(&r)))
        } else {
            Ok(Value::Num(r))
        }
    } else {
        let a = if flipped { y } else { x };
        let b = if flipped { x } else { y };
        match (a, b) {
            (Value::Num(u), Value::Num(v)) => match pair_arrays(p, u, v) {
                Ok(r) => Ok(Value::Num(r)),
                Err(e) => Err(e),
            },
            (Value::Byte(u), Value::Byte(v)) => match pair_arrays(p, u, v) {
                Ok(r) => Ok(Value::Byte(r)),
                Err(e) => Err(e),
            },
            (Value::Char(u), Value::Char(v)) => match pair_arrays(p, u, v) {
                Ok(r) => Ok(Value::Char(r)),
                Err(e) => Err(e),
            },
            (Value::Func(u), Value::Func(v)) => match pair_arrays(p, u, v) {
                Ok(r) => Ok(Value::Func(r)),
                Err(e) => Err(e),
            },
            _ => match (to_nums(a), to_nums(b)) {
                (Some(u), Some(v)) => match pair_arrays(p, &u, &v) {
                    Ok(r) => Ok(Value::Num(r)),
                    Err(e) => Err(e),
                },
                _ => Err(Error::TypeMismatch),
            },
        }
    }
}

fn signals_break(f: &Function, v: &Value) -> (r: bool)
    requires
        v@.wf(),
    ensures
        r == breaks(*f, v@),
{
    match f.until {
        None => false,
        Some(t) => match v {
            Value::Num(a) => a.shape.len() == 0 && a.data[0] >= t,
            _ => false,
        },
    }
}

pub open spec fn opt_view(o: Option<Value>) -> Option<ValueModel> {
    match o {
        Some(v) => Some(v@),
        None => None,
    }
}

/// Calls `f` on `args`, the first of which stands on top of the stack.
pub fn apply(f: Function, args: &Vec<Value>) -> (r: Result<(Option<Value>, bool), Error>)
    requires
        args@.len() == f.args(),
        all_wf(views(args@)),
    ensures
        match apply_spec(f, views(args@)) {
            Ok(res) => r.is_ok() && opt_view(r.unwrap().0) == res.0 && r.unwrap().1 == res.1,
            Err(e) => r == Err::<(Option<Value>, bool), Error>(e),
        },
        r.is_ok() ==> r.unwrap().0.is_some() == (f.outputs() == 1),
        r.is_ok() && r.unwrap().0.is_some() ==> r.unwrap().0.unwrap()@.wf(),
{
    proof {
        reveal(apply_spec);
        assert(views(args@)[0] == args@[0]@);
        assert(views(args@)[0].wf());
        if args@.len() > 1 {
            assert(views(args@)[1] == args@[1]@);
            assert(views(args@)[1].wf());
        }
        if args@.len() > 2 {
            assert(views(args@)[2] == args@[2]@);
            assert(views(args@)[2].wf());
        }
    }
    match f.prim {
        Primitive::Identity => {
            let v = args[0].copy();
            let b = signals_break(&f, &v);
            Ok((Some(v), b))
        },
        Primitive::Pop => Ok((None, false)),
        Primitive::Triple => {
            let r = match f.bound {
                Some(k) => {
                    let mut data: Vec<i64> = Vec::new();
                    data.push(k);
                    let shape: Vec<usize> = Vec::new();
                    proof {
                        assert(data@ =~= seq![k]);
                        assert(shape@ =~= Seq::<usize>::empty());
                    }
                    let x = Value::Num(Array { shape, data });
                    proof {
                        assert(x@ == scalar_num(k));
                        assert(flat_len(Seq::<usize>::empty()) == 1);
                        assert(fits(Seq::<usize>::empty()));
                    }
                    if f.flipped { triple(&args[0], &x, &args[1]) } else { triple(&x, &args[0], &args[1]) }
                },
                None => if f.flipped {
                    triple(&args[1], &args[0], &args[2])
                } else {
                    triple(&args[0], &args[1], &args[2])
                },
            };
            match r {
                Ok(v) => {
                    let b = signals_break(&f, &v);
                    Ok((Some(v), b))
                },
                Err(e) => Err(e),
            }
        },
        _ => {
            let r = match f.bound {
                Some(k) => {
                    let mut data: Vec<i64> = Vec::new();
                    data.push(k);
                    let shape: Vec<usize> = Vec::new();
                    proof {
                        assert(data@ =~= seq![k]);
                        assert(shape@ =~= Seq::<usize>::empty());
                    }
                    let x = Value::Num(Array { shape, data });
                    proof {
                        assert(x@ == scalar_num(k));
                        assert(flat_len(Seq::<usize>::empty()) == 1);
                        assert(fits(Seq::<usize>::empty()));
                    }
                    dyadic(f.prim, f.flipped, &x, &args[0])
                },
                None => dyadic(f.prim, f.flipped, &args[0], &args[1]),
            };
            match r {
                Ok(v) => {
                    let b = signals_break(&f, &v);
                    Ok((Some(v), b))
                },
                Err(e) => Err(e),
            }
        },
    }
}

} // verus!
