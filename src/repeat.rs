//! Repeat: calling a function a given number of times on the stack.

use vstd::prelude::*;
use crate::env::{Env, StackResult, call_spec, pop_spec, pop_fn_spec};
use crate::error::Error;
use crate::function::{Function, Primitive, numeric, to_nums};
use crate::value::ValueModel;

verus! {

/// How many calls an infinite repetition makes at most before it gives up
/// waiting for `break`.
pub const UNBOUNDED: u64 = 0xFFFF_FFFF_FFFF_FFFF;

/// The inverse of a function, where it has one: adding a number is undone by
/// subtracting it, multiplying by dividing, and the other way round; taking
/// `x` from a number, dividing a number by `x`, and the identity undo
/// themselves.
pub open spec fn inverse(f: Function) -> Option<Function> {
    match f.prim {
        Primitive::Identity => Some(f),
        Primitive::Add => if f.bound.is_some() {
            Some(Function { prim: Primitive::Sub, flipped: true, bound: f.bound, until: f.until })
        } else {
            None
        },
        Primitive::Sub => if f.bound.is_none() {
            None
        } else if f.flipped {
            Some(Function { prim: Primitive::Add, flipped: false, bound: f.bound, until: f.until })
        } else {
            Some(f)
        },
        Primitive::Mul => if f.bound.is_some() {
            Some(Function { prim: Primitive::Div, flipped: true, bound: f.bound, until: f.until })
        } else {
            None
        },
        Primitive::Div => if f.bound.is_none() {
            None
        } else if f.flipped {
            Some(Function { prim: Primitive::Mul, flipped: false, bound: f.bound, until: f.until })
        } else {
            Some(f)
        },
        _ => None,
    }
}

pub fn invert(f: Function) -> (r: Result<Function, Error>)
    ensures
        match inverse(f) {
            Some(g) => r == Ok::<Function, Error>(g),
            None => r == Err::<Function, Error>(Error::CannotInvert),
        },
{
    match f.prim {
        Primitive::Identity => Ok(f),
        Primitive::Add => if f.bound.is_some() {
            Ok(Function { prim: Primitive::Sub, flipped: true, bound: f.bound, until: f.until })
        } else {
            Err(Error::CannotInvert)
        },
        Primitive::Sub => if f.bound.is_none() {
            Err(Error::CannotInvert)
        } else if f.flipped {
            Ok(Function { prim: Primitive::Add, flipped: false, bound: f.bound, until: f.until })
        } else {
            Ok(f)
        },
        Primitive::Mul => if f.bound.is_some() {
            Ok(Function { prim: Primitive::Div, flipped: true, bound: f.bound, until: f.until })
        } else {
            Err(Error::CannotInvert)
        },
        Primitive::Div => if f.bound.is_none() {
            Err(Error::CannotInvert)
        } else if f.flipped {
            Ok(Function { prim: Primitive::Mul, flipped: false, bound: f.bound, until: f.until })
        } else {
            Ok(f)
        },
        _ => Err(Error::CannotInvert),
    }
}

/// `count` calls of `f` on the stack, stopping after one that signals `break`.
pub open spec fn repeat_stack(f: Function, s: Seq<ValueModel>, count: nat) -> StackResult
    decreases count,
{
    if count == 0 {
        Ok(s)
    } else {
        match call_spec(f, s) {
            Err(et) => Err(et),
            Ok((s2, brk)) => if brk {
                Ok(s2)
            } else {
                repeat_stack(f, s2, (count - 1) as nat)
            },
        }
    }
}

/// The number of calls that the count `n` asks for; the extreme values stand
/// for the infinities.
pub open spec fn repetitions(n: i64) -> nat {
    if n == i64::MAX || n == i64::MIN {
        UNBOUNDED as nat
    } else if n < 0 {
        (-n) as nat
    } else {
        n as nat
    }
}

/// The count a value gives: a single number.
pub open spec fn count_of(v: ValueModel) -> Option<i64> {
    match numeric(v) {
        Some(a) => if a.shape.len() == 0 { Some(a.data[0]) } else { None },
        None => None,
    }
}

/// What `repeat` does to the stack: the function and the count come off, then
/// the function (inverted for a negative count) runs that many times.
pub open spec fn repeat_outcome(s: Seq<ValueModel>) -> StackResult {
    match pop_fn_spec(s) {
        Err(e) => Err((e, s)),
        Ok((f, s1)) => match pop_spec(s1) {
            Err(e) => Err((e, s1)),
            Ok((v, s2)) => match count_of(v) {
                None => Err((Error::BadRepetitions, s2)),
                Some(n) => if n < 0 {
                    match inverse(f) {
                        None => Err((Error::CannotInvert, s2)),
                        Some(g) => repeat_stack(g, s2, repetitions(n)),
                    }
                } else {
                    repeat_stack(f, s2, repetitions(n))
                },
            },
        },
    }
}

/// Calls a function repeatedly on the stack.
pub fn repeat(env: &mut Env) -> (r: Result<(), Error>)
    requires
        old(env).wf(),
    ensures
        final(env).wf(),
        match repeat_outcome(old(env).model()) {
            Ok(s) => r.is_ok() && final(env).model() == s,
            Err((e, t)) => r == Err::<(), Error>(e) && final(env).model() == t,
        },
{
    let ghost s0 = env.model();
    let f = match env.pop_function() {
        Ok(f) => f,
        Err(e) => return Err(e),
    };
    let v = match env.pop() {
        Ok(v) => v,
        Err(e) => return Err(e),
    };
    let n = match to_nums(&v) {
        Some(a) => {
            if a.shape.len() != 0 {
                return Err(Error::BadRepetitions);
            }
            a.data[0]
        },
        None => return Err(Error::BadRepetitions),
    };
    let g = if n < 0 {
        match invert(f) {
            Ok(g) => g,
            Err(e) => return Err(e),
        }
    } else {
        f
    };
    let count: u64 = if n == i64::MAX || n == i64::MIN {
        UNBOUNDED
    } else if n < 0 {
        (-n) as u64
    } else {
        n as u64
    };
    let ghost s2 = env.model();
    let ghost whole = repeat_stack(g, s2, count as nat);
    proof {
        assert(repeat_outcome(s0) == whole);
    }
    let mut left: u64 = count;
    while left > 0
        invariant
            env.wf(),
            repeat_outcome(s0) == whole,
            s0 == old(env).model(),
            whole == repeat_stack(g, env.model(), left as nat),
        decreases left,
    {
        match env.call(g) {
            Err(e) => return Err(e),
            Ok(brk) => {
                if brk {
                    return Ok(());
                }
            },
        }
        left = left - 1;
    }
    Ok(())
}

} // verus!
