//! The evaluation stack that the modifiers take their operands from.

use vstd::prelude::*;
use crate::error::Error;
use crate::function::{Function, apply, apply_spec, opt_view};
use crate::value::{Value, ValueModel, all_wf, views};

verus! {

/// A stack of values; the last one is the top.
pub struct Env {
    pub stack: Vec<Value>,
}

/// The function that a value holds, when it is a single function.
pub open spec fn as_function(v: ValueModel) -> Option<Function> {
    match v {
        ValueModel::Func(a) => if a.shape.len() == 0 { Some(a.data[0]) } else { None },
        _ => None,
    }
}

/// Taking the top value off a stack.
pub open spec fn pop_spec(s: Seq<ValueModel>) -> Result<(ValueModel, Seq<ValueModel>), Error> {
    if s.len() == 0 {
        Err(Error::StackEmpty)
    } else {
        Ok((s.last(), s.drop_last()))
    }
}

/// Taking a function off a stack.
pub open spec fn pop_fn_spec(s: Seq<ValueModel>) -> Result<(Function, Seq<ValueModel>), Error> {
    match pop_spec(s) {
        Err(e) => Err(e),
        Ok((v, rest)) => match as_function(v) {
            Some(f) => Ok((f, rest)),
            None => Err(Error::ExpectedFunction),
        },
    }
}

pub open spec fn opt_seq(o: Option<ValueModel>) -> Seq<ValueModel> {
    match o {
        Some(v) => seq![v],
        None => Seq::empty(),
    }
}

/// The top `n` values of a stack, the top first.
pub open spec fn top_args(s: Seq<ValueModel>, n: nat) -> Seq<ValueModel> {
    Seq::new(n, |i: int| s[s.len() - 1 - i])
}

/// The outcome of an operation on the stack: the new stack, or the error with
/// the stack it leaves behind.
pub type StackResult = Result<Seq<ValueModel>, (Error, Seq<ValueModel>)>;

/// `s` followed by what an operation pushes; on its error, `s` is what is
/// left: the operands are off and nothing is pushed.
pub open spec fn finish(s: Seq<ValueModel>, r: Result<Seq<ValueModel>, Error>) -> StackResult {
    match r {
        Ok(p) => Ok(s + p),
        Err(e) => Err((e, s)),
    }
}

/// `s` with the one value an operation gives pushed; on its error, `s`.
pub open spec fn finish1(s: Seq<ValueModel>, r: Result<ValueModel, Error>) -> StackResult {
    match r {
        Ok(v) => Ok(s.push(v)),
        Err(e) => Err((e, s)),
    }
}

/// Calling `f` on a stack: it takes its arguments from the top and leaves its
/// result there. The flag tells whether it signalled `break`. When the call
/// fails, its arguments are off the stack; when there are too few, the stack
/// is left as it is.
pub open spec fn call_spec(f: Function, s: Seq<ValueModel>) -> Result<(Seq<ValueModel>, bool), (Error, Seq<ValueModel>)> {
    if s.len() < f.args() {
        Err((Error::StackEmpty, s))
    } else {
        match apply_spec(f, top_args(s, f.args())) {
            Err(e) => Err((e, s.subrange(0, s.len() - f.args()))),
            Ok((out, brk)) => Ok((s.subrange(0, s.len() - f.args()) + opt_seq(out), brk)),
        }
    }
}

/// Taking the top `n` values off a stack, the top first.
pub open spec fn pop_n_spec(s: Seq<ValueModel>, n: nat) -> Result<(Seq<ValueModel>, Seq<ValueModel>), Error> {
    if s.len() < n {
        Err(Error::StackEmpty)
    } else {
        Ok((top_args(s, n), s.subrange(0, s.len() - n)))
    }
}

impl Env {
    pub open spec fn wf(&self) -> bool {
        all_wf(views(self.stack@))
    }

    pub open spec fn model(&self) -> Seq<ValueModel> {
        views(self.stack@)
    }

    pub fn new() -> (r: Env)
        ensures
            r.wf(),
            r.model().len() == 0,
    {
        let r = Env { stack: Vec::new() };
        proof {
            assert(r.model() =~= Seq::<ValueModel>::empty());
        }
        r
    }

    pub fn push(&mut self, v: Value)
        requires
            old(self).wf(),
            v@.wf(),
        ensures
            final(self).wf(),
            final(self).model() == old(self).model().push(v@),
    {
        self.stack.push(v);
        proof {
            assert(self.model() =~= old(self).model().push(v@));
        }
    }

    pub fn pop(&mut self) -> (r: Result<Value, Error>)
        requires
            old(self).wf(),
        ensures
            final(self).wf(),
            match pop_spec(old(self).model()) {
                Ok((v, rest)) => r.is_ok() && r.unwrap()@ == v && v.wf() && final(self).model() == rest,
                Err(e) => r == Err::<Value, Error>(e) && final(self).model() == old(self).model(),
            },
    {
        match self.stack.pop() {
            Some(v) => {
                proof {
                    assert(self.model() =~= old(self).model().drop_last());
                    assert(old(self).model().last() == v@);
                    assert(old(self).model()[old(self).model().len() - 1].wf());
                }
                Ok(v)
            },
            None => Err(Error::StackEmpty),
        }
    }

    /// Pushes `vals` in order; the last ends on top.
    pub fn push_all(&mut self, vals: Vec<Value>)
        requires
            old(self).wf(),
            all_wf(views(vals@)),
        ensures
            final(self).wf(),
            final(self).model() == old(self).model() + views(vals@),
    {
        let mut i: usize = 0;
        let ghost s0 = self.model();
        while i < vals.len()
            invariant
                0 <= i <= vals@.len(),
                all_wf(views(vals@)),
                self.wf(),
                self.model() == s0 + views(vals@).subrange(0, i as int),
            decreases vals.len() - i,
        {
            proof {
                assert(views(vals@)[i as int] == vals@[i as int]@);
            }
            self.push(vals[i].copy());
            i = i + 1;
            proof {
                assert(self.model() =~= s0 + views(vals@).subrange(0, i as int));
            }
        }
        proof {
            assert(views(vals@).subrange(0, i as int) =~= views(vals@));
        }
    }

    /// Takes the top `n` values off the stack, the top first.
    pub fn pop_n(&mut self, n: usize) -> (r: Result<Vec<Value>, Error>)
        requires
            old(self).wf(),
        ensures
            final(self).wf(),
            match pop_n_spec(old(self).model(), n as nat) {
                Ok((vals, rest)) => r.is_ok() && views(r.unwrap()@) == vals && all_wf(vals) && final(self).model() == rest,
                Err(e) => r == Err::<Vec<Value>, Error>(e) && final(self).model() == old(self).model(),
            },
    {
        if self.stack.len() < n {
            return Err(Error::StackEmpty);
        }
        let ghost s = self.model();
        let mut vals: Vec<Value> = Vec::new();
        let mut i: usize = 0;
        while i < n
            invariant
                s == old(self).model(),
                s.len() >= n,
                0 <= i <= n,
                self.wf(),
                self.model() == s.subrange(0, s.len() - i),
                self.stack@.len() == s.len() - i,
                vals@.len() == i,
                views(vals@) == top_args(s, i as nat),
                all_wf(views(vals@)),
            decreases n - i,
        {
            let ghost st = self.stack@;
            let v = match self.stack.pop() {
                Some(v) => v,
                None => return Err(Error::StackEmpty),
            };
            let ghost before = vals@;
            proof {
                assert(v == st.last());
                assert(views(st)[st.len() - 1] == v@);
                assert(s[s.len() - 1 - i] == v@) by {
                    assert(views(st) == s.subrange(0, s.len() - i));
                }
                assert(s[s.len() - 1 - i].wf());
            }
            vals.push(v);
            i = i + 1;
            proof {
                assert(self.model() =~= s.subrange(0, s.len() - i));
                assert(views(vals@) =~= views(before).push(v@));
                assert(top_args(s, i as nat) =~= top_args(s, (i - 1) as nat).push(s[s.len() - 1 - (i - 1)]));
            }
        }
        Ok(vals)
    }

    /// Takes a single function off the top of the stack.
    pub fn pop_function(&mut self) -> (r: Result<Function, Error>)
        requires
            old(self).wf(),
        ensures
            final(self).wf(),
            match pop_fn_spec(old(self).model()) {
                Ok((f, rest)) => r == Ok::<Function, Error>(f) && final(self).model() == rest,
                Err(e) => r == Err::<Function, Error>(e) && final(self).model() == old(self).model(),
            },
    {
        let n = self.stack.len();
        if n == 0 {
            return Err(Error::StackEmpty);
        }
        proof {
            assert(self.model()[n - 1] == self.stack@[n - 1]@);
        }
        let f = match &self.stack[n - 1] {
            Value::Func(a) => {
                if a.shape.len() == 0 {
                    a.data[0]
                } else {
                    return Err(Error::ExpectedFunction);
                }
            },
            _ => return Err(Error::ExpectedFunction),
        };
        let _ = self.pop();
        Ok(f)
    }

    /// Runs `f` on the stack: its arguments come off the top and its result
    /// goes back on. Returns whether it signalled `break`.
    pub fn call(&mut self, f: Function) -> (r: Result<bool, Error>)
        requires
            old(self).wf(),
        ensures
            final(self).wf(),
            match call_spec(f, old(self).model()) {
                Ok((s, brk)) => r == Ok::<bool, Error>(brk) && final(self).model() == s,
                Err((e, t)) => r == Err::<bool, Error>(e) && final(self).model() == t,
            },
    {
        let (n, _) = f.signature();
        if self.stack.len() < n {
            return Err(Error::StackEmpty);
        }
        let ghost s = self.model();
        let mut args: Vec<Value> = Vec::new();
        let mut i: usize = 0;
        while i < n
            invariant
                n == f.args(),
                s == old(self).model(),
                s.len() >= n,
                0 <= i <= n,
                self.wf(),
                self.model() == s.subrange(0, s.len() - i),
                self.stack@.len() == s.len() - i,
                args@.len() == i,
                views(args@) == top_args(s, i as nat),
                all_wf(views(args@)),
            decreases n - i,
        {
            let ghost st = self.stack@;
            let v = match self.stack.pop() {
                Some(v) => v,
                None => return Err(Error::StackEmpty),
            };
            let ghost before = args@;
            proof {
                assert(v == st.last());
                assert(views(st)[st.len() - 1] == v@);
                assert(s[s.len() - 1 - i] == v@) by {
                    assert(views(st) == s.subrange(0, s.len() - i));
                }
                assert(s[s.len() - 1 - i].wf());
            }
            args.push(v);
            i = i + 1;
            proof {
                assert(self.model() =~= s.subrange(0, s.len() - i));
                assert(views(args@) =~= views(before).push(v@));
                assert(top_args(s, i as nat) =~= top_args(s, (i - 1) as nat).push(s[s.len() - 1 - (i - 1)]));
                assert(views(args@) =~= top_args(s, i as nat));
            }
        }
        match apply(f, &args) {
            Err(e) => Err(e),
            Ok((out, brk)) => {
                match out {
                    Some(v) => self.push(v),
                    None => {},
                }
                proof {
                    assert(self.model() =~= s.subrange(0, s.len() - f.args()) + opt_seq(opt_view(out)));
                }
                Ok(brk)
            },
        }
    }
}

} // verus!
