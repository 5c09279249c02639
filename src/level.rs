//! Level: a function applied at chosen depths of its arguments.

use vstd::prelude::*;
use crate::env::{Env, StackResult, call_spec, finish, finish1, pop_spec, pop_fn_spec, pop_n_spec};
use crate::error::Error;
use crate::function::{Function, apply, apply_spec, numeric, to_nums};
use crate::each::{each1_spec, each2_spec, rows1_spec, rows2_spec, each1, each2, rows1, rows2};
use crate::reduce::{prepend, combine};
use crate::value::{Value, ValueModel, all_wf, views};

verus! {

/// A rank list: integers, with the greatest `i64` standing for infinity
/// (`None`). Negative infinity is not a rank.
pub open spec fn rank_list(v: ValueModel) -> Option<Seq<Option<i64>>> {
    match numeric(v) {
        Some(a) => if a.shape.len() <= 1 && forall|i: int| 0 <= i < a.data.len() ==> #[trigger] a.data[i] != i64::MIN {
            Some(a.data.map_values(|x: i64| if x == i64::MAX { None } else { Some(x) }))
        } else {
            None
        },
        None => None,
    }
}

/// How many axes of an argument of rank `r` a rank entry descends through:
/// negative ranks count from the argument's own rank, and infinity descends
/// through none.
pub open spec fn depth(n: Option<i64>, r: nat) -> nat {
    match n {
        None => 0,
        Some(k) => {
            let kept: int = if k < 0 {
                if r + k > 0 { r + k } else { 0 }
            } else if k < r {
                k as int
            } else {
                r as int
            };
            (r - kept) as nat
        },
    }
}

/// `f` on `v` after descending `d` axes: the results for the rows are
/// combined back.
pub open spec fn mono_level(f: Function, v: ValueModel, d: nat) -> Result<ValueModel, Error>
    decreases d, 0nat,
{
    if d == 0 {
        match apply_spec(f, seq![v]) {
            Err(e) => Err(e),
            Ok((out, _)) => match out {
                Some(a) => Ok(a),
                None => Err(Error::StackEmpty),
            },
        }
    } else {
        match mono_rows(f, v.rows(), (d - 1) as nat) {
            Err(e) => Err(e),
            Ok(vs) => combine(vs),
        }
    }
}

pub open spec fn mono_rows(f: Function, rows: Seq<ValueModel>, d: nat) -> Result<Seq<ValueModel>, Error>
    decreases d, rows.len(),
{
    if rows.len() == 0 {
        Ok(Seq::empty())
    } else {
        match mono_level(f, rows[0], d) {
            Err(e) => Err(e),
            Ok(a) => prepend(seq![a], mono_rows(f, rows.drop_first(), d)),
        }
    }
}

/// Whether the first `min(dx, dy)` axes of the two shapes agree.
pub open spec fn prefixes_agree(sx: Seq<usize>, sy: Seq<usize>, dx: nat, dy: nat) -> bool {
    forall|q: int| 0 <= q < dx && q < dy ==> #[trigger] sx[q] == sy[q]
}

/// `f` on `xs` and `ys` after descending `dx` and `dy` axes, `xs` on top. An
/// argument with no axes left to descend is passed whole to each row of the
/// other.
pub open spec fn dyadic_level(f: Function, xs: ValueModel, ys: ValueModel, dx: nat, dy: nat) -> Result<ValueModel, Error>
    decreases dx + dy, 0nat,
{
    if !prefixes_agree(xs.shape(), ys.shape(), dx, dy) {
        Err(Error::ShapeMismatch)
    } else if dx == 0 && dy == 0 {
        match apply_spec(f, seq![xs, ys]) {
            Err(e) => Err(e),
            Ok((out, _)) => match out {
                Some(a) => Ok(a),
                None => Err(Error::StackEmpty),
            },
        }
    } else {
        let n = if dx == 0 { ys.row_count() } else { xs.row_count() };
        let xr = if dx == 0 { Seq::new(n, |i: int| xs) } else { xs.rows() };
        let yr = if dy == 0 { Seq::new(n, |i: int| ys) } else { ys.rows() };
        let ndx = if dx == 0 { 0 } else { (dx - 1) as nat };
        let ndy = if dy == 0 { 0 } else { (dy - 1) as nat };
        match dyadic_rows(f, xr, yr, ndx, ndy) {
            Err(e) => Err(e),
            Ok(vs) => combine(vs),
        }
    }
}

pub open spec fn dyadic_rows(f: Function, xr: Seq<ValueModel>, yr: Seq<ValueModel>, dx: nat, dy: nat) -> Result<Seq<ValueModel>, Error>
    decreases dx + dy, xr.len(),
{
    if xr.len() == 0 || yr.len() == 0 {
        Ok(Seq::empty())
    } else {
        match dyadic_level(f, xr[0], yr[0], dx, dy) {
            Err(e) => Err(e),
            Ok(a) => prepend(seq![a], dyadic_rows(f, xr.drop_first(), yr.drop_first(), dx, dy)),
        }
    }
}

fn monadic_level_recursive(f: Function, v: &Value, d: usize) -> (r: Result<Value, Error>)
    requires
        v@.wf(),
        f.args() == 1,
    ensures
        match mono_level(f, v@, d as nat) {
            Ok(a) => r.is_ok() && r.unwrap()@ == a && a.wf(),
            Err(e) => r == Err::<Value, Error>(e),
        },
    decreases d,
{
    if d == 0 {
        let mut args_v: Vec<Value> = Vec::new();
        args_v.push(v.copy());
        proof {
            assert(views(args_v@) =~= seq![v@]);
        }
        return match apply(f, &args_v) {
            Err(e) => Err(e),
            Ok((out, _)) => match out {
                Some(a) => Ok(a),
                None => Err(Error::StackEmpty),
            },
        };
    }
    let rows = v.rows();
    let n = rows.len();
    let ghost all = views(rows@);
    let ghost dd = (d - 1) as nat;
    let mut outs: Vec<Value> = Vec::new();
    proof {
        assert(all.subrange(0, n as int) =~= all);
        assert(views(outs@) =~= Seq::<ValueModel>::empty());
        match mono_rows(f, all, dd) {
            Ok(x) => assert(Seq::<ValueModel>::empty() + x =~= x),
            Err(_) => {},
        }
    }
    let mut i: usize = 0;
    while i < n
        invariant
            n == rows@.len(),
            all == views(rows@),
            all == v@.rows(),
            all_wf(all),
            f.args() == 1,
            d > 0,
            dd == d - 1,
            0 <= i <= n,
            all_wf(views(outs@)),
            mono_rows(f, all, dd) == prepend(views(outs@), mono_rows(f, all.subrange(i as int, n as int), dd)),
        decreases n - i,
    {
        let ghost rest = all.subrange(i as int, n as int);
        proof {
            assert(rest[0] == all[i as int]);
            assert(all[i as int] == rows@[i as int]@);
            assert(rest.drop_first() =~= all.subrange(i + 1, n as int));
        }
        let a = match monadic_level_recursive(f, &rows[i], d - 1) {
            Ok(a) => a,
            Err(e) => return Err(e),
        };
        let ghost before = outs@;
        let ghost av = a@;
        outs.push(a);
        proof {
            assert(views(outs@) =~= views(before).push(av));
            assert(all_wf(views(outs@))) by {
                assert forall|q: int| 0 <= q < views(outs@).len() implies (#[trigger] views(outs@)[q]).wf() by {
                    if q < views(before).len() {
                        assert(views(outs@)[q] == views(before)[q]);
                    }
                }
            }
            match mono_rows(f, all.subrange(i + 1, n as int), dd) {
                Ok(x) => {
                    assert((views(before) + seq![av]) + x =~= views(before) + (seq![av] + x));
                    assert(views(before).push(av) =~= views(before) + seq![av]);
                },
                Err(_) => {},
            }
        }
        i = i + 1;
    }
    proof {
        assert(all.subrange(n as int, n as int) =~= Seq::<ValueModel>::empty());
        assert(views(outs@) + Seq::<ValueModel>::empty() =~= views(outs@));
    }
    Value::from_row_values(&outs)
}

/// `n` copies of `v`.
fn repeated(v: &Value, n: usize) -> (r: Vec<Value>)
    requires
        v@.wf(),
    ensures
        views(r@) == Seq::new(n as nat, |i: int| v@),
        all_wf(views(r@)),
{
    let mut r: Vec<Value> = Vec::new();
    let mut i: usize = 0;
    while i < n
        invariant
            v@.wf(),
            0 <= i <= n,
            views(r@) == Seq::new(i as nat, |k: int| v@),
            all_wf(views(r@)),
        decreases n - i,
    {
        let ghost before = r@;
        r.push(v.copy());
        i = i + 1;
        proof {
            assert(views(r@) =~= views(before).push(v@));
            assert(views(r@) =~= Seq::new(i as nat, |k: int| v@));
        }
    }
    r
}

fn dyadic_level_recursive(f: Function, xs: &Value, ys: &Value, dx: usize, dy: usize) -> (r: Result<Value, Error>)
    requires
        xs@.wf(),
        ys@.wf(),
        f.args() == 2,
        dx <= xs@.rank(),
        dy <= ys@.rank(),
    ensures
        match dyadic_level(f, xs@, ys@, dx as nat, dy as nat) {
            Ok(a) => r.is_ok() && r.unwrap()@ == a && a.wf(),
            Err(e) => r == Err::<Value, Error>(e),
        },
    decreases dx + dy,
{
    let sx = xs.shape();
    let sy = ys.shape();
    let mut q: usize = 0;
    while q < dx && q < dy
        invariant
            sx@ == xs@.shape(),
            sy@ == ys@.shape(),
            dx <= sx@.len(),
            dy <= sy@.len(),
            0 <= q <= dx,
            q <= dy,
            forall|k: int| 0 <= k < q ==> #[trigger] sx@[k] == sy@[k],
        decreases dx - q,
    {
        if sx[q] != sy[q] {
            return Err(Error::ShapeMismatch);
        }
        q = q + 1;
    }
    proof {
        assert(prefixes_agree(xs@.shape(), ys@.shape(), dx as nat, dy as nat));
    }
    if dx == 0 && dy == 0 {
        let mut args_v: Vec<Value> = Vec::new();
        args_v.push(xs.copy());
        args_v.push(ys.copy());
        proof {
            assert(views(args_v@) =~= seq![xs@, ys@]);
        }
        return match apply(f, &args_v) {
            Err(e) => Err(e),
            Ok((out, _)) => match out {
                Some(a) => Ok(a),
                None => Err(Error::StackEmpty),
            },
        };
    }
    let n = if dx == 0 { ys.row_count() } else { xs.row_count() };
    let xr = if dx == 0 { repeated(xs, n) } else { xs.rows() };
    let yr = if dy == 0 { repeated(ys, n) } else { ys.rows() };
    let ndx: usize = if dx == 0 { 0 } else { dx - 1 };
    let ndy: usize = if dy == 0 { 0 } else { dy - 1 };
    let ghost ax = views(xr@);
    let ghost ay = views(yr@);
    let m = if xr.len() < yr.len() { xr.len() } else { yr.len() };
    proof {
        if dx > 0 && dy > 0 {
            assert(xs@.shape()[0] == ys@.shape()[0]);
        }
        assert(forall|k: int| 0 <= k < ax.len() ==> (#[trigger] ax[k]).rank() >= ndx) by {
            assert forall|k: int| 0 <= k < ax.len() implies (#[trigger] ax[k]).rank() >= ndx by {
                if dx > 0 {
                    assert(ax[k] == xs@.row(k));
                }
            }
        }
        assert(forall|k: int| 0 <= k < ay.len() ==> (#[trigger] ay[k]).rank() >= ndy) by {
            assert forall|k: int| 0 <= k < ay.len() implies (#[trigger] ay[k]).rank() >= ndy by {
                if dy > 0 {
                    assert(ay[k] == ys@.row(k));
                }
            }
        }
        assert(ax.subrange(0, m as int) =~= ax.subrange(0, m as int));
    }
    let ghost whole = dyadic_rows(f, ax, ay, ndx as nat, ndy as nat);
    let mut outs: Vec<Value> = Vec::new();
    proof {
        assert(ax.subrange(0, ax.len() as int) =~= ax);
        assert(ay.subrange(0, ay.len() as int) =~= ay);
        assert(views(outs@) =~= Seq::<ValueModel>::empty());
        match whole {
            Ok(x) => assert(Seq::<ValueModel>::empty() + x =~= x),
            Err(_) => {},
        }
    }
    let mut i: usize = 0;
    while i < m
        invariant
            ax == views(xr@),
            ay == views(yr@),
            all_wf(ax),
            all_wf(ay),
            m <= ax.len(),
            m <= ay.len(),
            m == ax.len() || m == ay.len(),
            f.args() == 2,
            ndx + ndy < dx + dy,
            forall|k: int| 0 <= k < ax.len() ==> (#[trigger] ax[k]).rank() >= ndx,
            forall|k: int| 0 <= k < ay.len() ==> (#[trigger] ay[k]).rank() >= ndy,
            0 <= i <= m,
            all_wf(views(outs@)),
            dyadic_level(f, xs@, ys@, dx as nat, dy as nat) == match whole {
                Ok(vs) => combine(vs),
                Err(e) => Err::<ValueModel, Error>(e),
            },
            whole == prepend(views(outs@), dyadic_rows(f, ax.subrange(i as int, ax.len() as int),
                ay.subrange(i as int, ay.len() as int), ndx as nat, ndy as nat)),
        decreases m - i,
    {
        let ghost rx = ax.subrange(i as int, ax.len() as int);
        let ghost ry = ay.subrange(i as int, ay.len() as int);
        proof {
            assert(rx[0] == ax[i as int]);
            assert(ry[0] == ay[i as int]);
            assert(ax[i as int] == xr@[i as int]@);
            assert(ay[i as int] == yr@[i as int]@);
            assert(rx.drop_first() =~= ax.subrange(i + 1, ax.len() as int));
            assert(ry.drop_first() =~= ay.subrange(i + 1, ay.len() as int));
        }
        let a = match dyadic_level_recursive(f, &xr[i], &yr[i], ndx, ndy) {
            Ok(a) => a,
            Err(e) => return Err(e),
        };
        let ghost before = outs@;
        let ghost av = a@;
        outs.push(a);
        proof {
            assert(views(outs@) =~= views(before).push(av));
            assert(all_wf(views(outs@))) by {
                assert forall|q: int| 0 <= q < views(outs@).len() implies (#[trigger] views(outs@)[q]).wf() by {
                    if q < views(before).len() {
                        assert(views(outs@)[q] == views(before)[q]);
                    }
                }
            }
            match dyadic_rows(f, ax.subrange(i + 1, ax.len() as int), ay.subrange(i + 1, ay.len() as int), ndx as nat, ndy as nat) {
                Ok(x) => {
                    assert((views(before) + seq![av]) + x =~= views(before) + (seq![av] + x));
                    assert(views(before).push(av) =~= views(before) + seq![av]);
                },
                Err(_) => {},
            }
        }
        i = i + 1;
    }
    proof {
        let rx = ax.subrange(m as int, ax.len() as int);
        let ry = ay.subrange(m as int, ay.len() as int);
        assert(rx.len() == 0 || ry.len() == 0);
        assert(dyadic_rows(f, rx, ry, ndx as nat, ndy as nat) == Ok::<Seq<ValueModel>, Error>(Seq::empty()));
        assert(views(outs@) + Seq::<ValueModel>::empty() =~= views(outs@));
    }
    Value::from_row_values(&outs)
}

/// Each depth one less, stopping at zero.
pub open spec fn dec(ns: Seq<nat>) -> Seq<nat> {
    Seq::new(ns.len(), |j: int| if ns[j] > 0 { (ns[j] - 1) as nat } else { 0 })
}

/// The greatest depth, 0 for none.
pub open spec fn max_depth(ns: Seq<nat>) -> nat
    decreases ns.len(),
{
    if ns.len() == 0 {
        0
    } else {
        let m = max_depth(ns.drop_last());
        if ns.last() > m { ns.last() } else { m }
    }
}

/// Whether argument `j` rather than `m` drives the iteration: `j` descends,
/// and `m` does not, or `j` descends further, or as far with at least as many
/// rows.
pub open spec fn drives_over(args: Seq<ValueModel>, ns: Seq<nat>, j: int, m: int) -> bool {
    ns[j] > 0 && (ns[m] == 0 || ns[j] > ns[m] || (ns[j] == ns[m] && args[j].row_count() >= args[m].row_count()))
}

/// Among the first `k` arguments, the last one with the greatest remaining
/// descent and, among those, the longest leading axis; the first argument
/// when none descends.
pub open spec fn driver(args: Seq<ValueModel>, ns: Seq<nat>, k: nat) -> int
    decreases k,
{
    if k <= 1 {
        0
    } else {
        let m = driver(args, ns, (k - 1) as nat);
        if drives_over(args, ns, k - 1, m) { k - 1 } else { m }
    }
}

/// The arguments for row `i`: a descending argument gives its row, the
/// others come whole.
pub open spec fn row_args(args: Seq<ValueModel>, ns: Seq<nat>, i: int) -> Seq<ValueModel> {
    Seq::new(args.len(), |j: int| if ns[j] == 0 { args[j] } else { args[j].row(i) })
}

/// Whether each argument's descending axes agree with the driver's, as far as
/// both descend, and each descending argument has `rc` rows.
pub open spec fn multi_compatible(args: Seq<ValueModel>, ns: Seq<nat>, m: int, rc: nat) -> bool {
    forall|j: int| 0 <= j < args.len() ==> {
        &&& forall|q: int| 0 <= q < ns[j] && q < ns[m] ==> #[trigger] args[j].shape()[q] == args[m].shape()[q]
        &&& (ns[j] > 0 ==> (#[trigger] args[j]).row_count() == rc)
    }
}

/// `f` on several arguments, each after descending its own depth; `d` is the
/// greatest depth left.
pub open spec fn multi_level(f: Function, args: Seq<ValueModel>, ns: Seq<nat>, d: nat) -> Result<ValueModel, Error>
    decreases d, 1nat, 0nat,
{
    if d == 0 {
        match apply_spec(f, args) {
            Err(e) => Err(e),
            Ok((out, _)) => match out {
                Some(a) => Ok(a),
                None => Err(Error::StackEmpty),
            },
        }
    } else {
        let m = driver(args, ns, args.len());
        let rc = if ns[m] == 0 { 1 } else { args[m].row_count() };
        if !multi_compatible(args, ns, m, rc) {
            Err(Error::ShapeMismatch)
        } else {
            match multi_rows(f, args, ns, rc, 0, d) {
                Err(e) => Err(e),
                Ok(vs) => combine(vs),
            }
        }
    }
}

pub open spec fn multi_rows(f: Function, args: Seq<ValueModel>, ns: Seq<nat>, rc: nat, i: nat, d: nat) -> Result<Seq<ValueModel>, Error>
    decreases d, 0nat, rc - i,
{
    if i >= rc || d == 0 {
        Ok(Seq::empty())
    } else {
        match multi_level(f, row_args(args, ns, i as int), dec(ns), (d - 1) as nat) {
            Err(e) => Err(e),
            Ok(a) => prepend(seq![a], multi_rows(f, args, ns, rc, i + 1, d)),
        }
    }
}

pub proof fn lemma_max_depth(ns: Seq<nat>)
    ensures
        forall|j: int| 0 <= j < ns.len() ==> #[trigger] ns[j] <= max_depth(ns),
        max_depth(ns) > 0 ==> exists|j: int| 0 <= j < ns.len() && #[trigger] ns[j] == max_depth(ns),
        max_depth(ns) > 0 ==> max_depth(dec(ns)) == max_depth(ns) - 1,
        max_depth(ns) == 0 ==> max_depth(dec(ns)) == 0,
    decreases ns.len(),
{
    if ns.len() > 0 {
        let init = ns.drop_last();
        lemma_max_depth(init);
        assert(dec(ns).drop_last() =~= dec(init));
        assert forall|j: int| 0 <= j < ns.len() implies #[trigger] ns[j] <= max_depth(ns) by {
            if j < ns.len() - 1 {
                assert(ns[j] == init[j]);
            }
        }
        if max_depth(ns) > 0 {
            if ns.last() > max_depth(init) {
                assert(ns[ns.len() - 1] == max_depth(ns));
            } else {
                let j = choose|j: int| 0 <= j < init.len() && #[trigger] init[j] == max_depth(init);
                assert(ns[j] == init[j]);
            }
        }
    }
}

/// The driver is one of the arguments.
proof fn lemma_driver_in_range(args: Seq<ValueModel>, ns: Seq<nat>, k: nat)
    requires
        k >= 1,
    ensures
        0 <= driver(args, ns, k) < k,
    decreases k,
{
    if k > 1 {
        lemma_driver_in_range(args, ns, (k - 1) as nat);
    }
}

fn multi_level_recursive(f: Function, args: &Vec<Value>, ns: &Vec<usize>, d: usize) -> (r: Result<Value, Error>)
    requires
        args@.len() == ns@.len(),
        args@.len() == f.args(),
        args@.len() >= 1,
        all_wf(views(args@)),
        forall|j: int| 0 <= j < ns@.len() ==> ns@[j] <= (#[trigger] views(args@)[j]).rank(),
        d == max_depth(ns@.map_values(|n: usize| n as nat)),
    ensures
        match multi_level(f, views(args@), ns@.map_values(|n: usize| n as nat), d as nat) {
            Ok(a) => r.is_ok() && r.unwrap()@ == a && a.wf(),
            Err(e) => r == Err::<Value, Error>(e),
        },
    decreases d,
{
    let ghost va = views(args@);
    let ghost nn = ns@.map_values(|n: usize| n as nat);
    if d == 0 {
        return match apply(f, args) {
            Err(e) => Err(e),
            Ok((out, _)) => match out {
                Some(a) => Ok(a),
                None => Err(Error::StackEmpty),
            },
        };
    }
    let k = args.len();
    let mut m: usize = 0;
    let mut j: usize = 1;
    proof {
        assert(va[0] == args@[0]@);
    }
    while j < k
        invariant
            k == args@.len(),
            k == ns@.len(),
            va == views(args@),
            nn == ns@.map_values(|n: usize| n as nat),
            all_wf(va),
            forall|q: int| 0 <= q < ns@.len() ==> ns@[q] <= (#[trigger] va[q]).rank(),
            1 <= j <= k,
            m == driver(va, nn, j as nat),
            0 <= m < j,
        decreases k - j,
    {
        proof {
            assert(va[j as int] == args@[j as int]@);
            assert(va[m as int] == args@[m as int]@);
            assert(va[j as int].wf());
            assert(va[m as int].wf());
        }
        let better = ns[j] > 0 && (ns[m] == 0 || ns[j] > ns[m]
            || (ns[j] == ns[m] && args[j].row_count() >= args[m].row_count()));
        if better {
            m = j;
        }
        j = j + 1;
    }
    proof {
        assert(va[m as int] == args@[m as int]@);
        assert(va[m as int].wf());
    }
    let rc: usize = if ns[m] == 0 { 1 } else { args[m].row_count() };
    let sm = args[m].shape();
    let mut j: usize = 0;
    while j < k
        invariant
            k == args@.len(),
            k == ns@.len(),
            va == views(args@),
            nn == ns@.map_values(|n: usize| n as nat),
            all_wf(va),
            forall|q: int| 0 <= q < ns@.len() ==> ns@[q] <= (#[trigger] va[q]).rank(),
            0 <= m < k,
            d > 0,
            va.len() == k,
            m == driver(va, nn, k as nat),
            sm@ == va[m as int].shape(),
            rc == (if nn[m as int] == 0 { 1 } else { va[m as int].row_count() }),
            0 <= j <= k,
            forall|p: int| 0 <= p < j ==> {
                &&& forall|q: int| 0 <= q < nn[p] && q < nn[m as int] ==> #[trigger] va[p].shape()[q] == va[m as int].shape()[q]
                &&& (nn[p] > 0 ==> (#[trigger] va[p]).row_count() == rc)
            },
        decreases k - j,
    {
        proof {
            assert(nn[j as int] == ns@[j as int]);
            assert(nn[m as int] == ns@[m as int]);
        }
        proof {
            assert(va[j as int] == args@[j as int]@);
            assert(va[j as int].wf());
        }
        let sj = args[j].shape();
        let lim = if ns[j] < ns[m] { ns[j] } else { ns[m] };
        let mut q: usize = 0;
        while q < lim
            invariant
                k == args@.len(),
                k == ns@.len(),
                va == views(args@),
                nn == ns@.map_values(|n: usize| n as nat),
                all_wf(va),
                forall|q: int| 0 <= q < ns@.len() ==> ns@[q] <= (#[trigger] va[q]).rank(),
                0 <= m < k,
                0 <= j < k,
                d > 0,
                va.len() == k,
                m == driver(va, nn, k as nat),
                rc == (if nn[m as int] == 0 { 1 } else { va[m as int].row_count() }),
                forall|p: int| 0 <= p < j ==> {
                    &&& forall|q: int| 0 <= q < nn[p] && q < nn[m as int] ==> #[trigger] va[p].shape()[q] == va[m as int].shape()[q]
                    &&& (nn[p] > 0 ==> (#[trigger] va[p]).row_count() == rc)
                },
                sj@ == va[j as int].shape(),
                sm@ == va[m as int].shape(),
                lim <= ns@[j as int] <= sj@.len(),
                lim <= ns@[m as int] <= sm@.len(),
                lim == (if ns@[j as int] < ns@[m as int] { ns@[j as int] } else { ns@[m as int] }),
                0 <= q <= lim,
                forall|p: int| 0 <= p < q ==> #[trigger] sj@[p] == sm@[p],
            decreases lim - q,
        {
            if sj[q] != sm[q] {
                proof {
                    assert(nn[j as int] == ns@[j as int]);
                    assert(nn[m as int] == ns@[m as int]);
                    assert(va[j as int].shape()[q as int] != va[m as int].shape()[q as int]);
                    assert(!multi_compatible(va, nn, m as int, rc as nat));
                }
                return Err(Error::ShapeMismatch);
            }
            q = q + 1;
        }
        if ns[j] > 0 && args[j].row_count() != rc {
            proof {
                assert(nn[j as int] == ns@[j as int]);
                assert(va[j as int].row_count() != rc);
                assert(!multi_compatible(va, nn, m as int, rc as nat));
            }
            return Err(Error::ShapeMismatch);
        }
        j = j + 1;
    }
    proof {
        lemma_driver_in_range(va, nn, k as nat);
        assert(multi_compatible(va, nn, m as int, rc as nat));
        lemma_max_depth(nn);
    }
    let mut dec_ns: Vec<usize> = Vec::new();
    let mut j: usize = 0;
    while j < k
        invariant
            k == ns@.len(),
            0 <= j <= k,
            dec_ns@.len() == j,
            forall|p: int| 0 <= p < j ==> #[trigger] dec_ns@[p] == (if ns@[p] > 0 { ns@[p] - 1 } else { 0 }),
        decreases k - j,
    {
        dec_ns.push(if ns[j] > 0 { ns[j] - 1 } else { 0 });
        j = j + 1;
    }
    proof {
        assert(dec_ns@.map_values(|n: usize| n as nat) =~= dec(nn));
    }
    let ghost whole = multi_rows(f, va, nn, rc as nat, 0, d as nat);
    let mut outs: Vec<Value> = Vec::new();
    proof {
        assert(views(outs@) =~= Seq::<ValueModel>::empty());
        match whole {
            Ok(x) => assert(Seq::<ValueModel>::empty() + x =~= x),
            Err(_) => {},
        }
    }
    let mut i: usize = 0;
    while i < rc
        invariant
            k == args@.len(),
            k == ns@.len(),
            k == dec_ns@.len(),
            k == f.args(),
            k >= 1,
            va == views(args@),
            nn == ns@.map_values(|n: usize| n as nat),
            dec_ns@.map_values(|n: usize| n as nat) == dec(nn),
            forall|p: int| 0 <= p < k ==> #[trigger] dec_ns@[p] == (if ns@[p] > 0 { ns@[p] - 1 } else { 0 }),
            all_wf(va),
            forall|q: int| 0 <= q < ns@.len() ==> ns@[q] <= (#[trigger] va[q]).rank(),
            multi_compatible(va, nn, m as int, rc as nat),
            d > 0,
            d == max_depth(nn),
            (d - 1) as nat == max_depth(dec(nn)),
            0 <= i <= rc,
            all_wf(views(outs@)),
            multi_level(f, va, nn, d as nat) == match whole {
                Ok(vs) => combine(vs),
                Err(e) => Err::<ValueModel, Error>(e),
            },
            whole == prepend(views(outs@), multi_rows(f, va, nn, rc as nat, i as nat, d as nat)),
        decreases rc - i,
    {
        let mut ra: Vec<Value> = Vec::new();
        let mut j: usize = 0;
        while j < k
            invariant
                k == args@.len(),
                k == ns@.len(),
                va == views(args@),
                nn == ns@.map_values(|n: usize| n as nat),
                all_wf(va),
                forall|q: int| 0 <= q < ns@.len() ==> ns@[q] <= (#[trigger] va[q]).rank(),
                multi_compatible(va, nn, m as int, rc as nat),
                0 <= i < rc,
                0 <= j <= k,
                views(ra@) == row_args(va, nn, i as int).subrange(0, j as int),
                all_wf(views(ra@)),
                forall|p: int| 0 <= p < j ==> (if ns@[p] > 0 { ns@[p] - 1 } else { 0 }) <= (#[trigger] views(ra@)[p]).rank(),
            decreases k - j,
        {
            let ghost before = ra@;
            proof {
                assert(va[j as int] == args@[j as int]@);
                assert(va[j as int].wf());
            }
            let v = if ns[j] == 0 { args[j].copy() } else { args[j].row(i) };
            proof {
                if ns@[j as int] > 0 {
                    assert(va[j as int].row_count() == rc);
                    assert(va[j as int].rank() >= 1);
                }
            }
            ra.push(v);
            j = j + 1;
            proof {
                assert(views(ra@) =~= views(before).push(v@));
                assert(views(ra@) =~= row_args(va, nn, i as int).subrange(0, j as int));
            }
        }
        proof {
            assert(row_args(va, nn, i as int).subrange(0, k as int) =~= row_args(va, nn, i as int));
            assert(forall|p: int| 0 <= p < dec_ns@.len() ==> dec_ns@[p] <= (#[trigger] views(ra@)[p]).rank());
        }
        let a = match multi_level_recursive(f, &ra, &dec_ns, d - 1) {
            Ok(a) => a,
            Err(e) => return Err(e),
        };
        let ghost before = outs@;
        let ghost av = a@;
        outs.push(a);
        proof {
            assert(views(outs@) =~= views(before).push(av));
            assert(all_wf(views(outs@))) by {
                assert forall|q: int| 0 <= q < views(outs@).len() implies (#[trigger] views(outs@)[q]).wf() by {
                    if q < views(before).len() {
                        assert(views(outs@)[q] == views(before)[q]);
                    }
                }
            }
            match multi_rows(f, va, nn, rc as nat, (i + 1) as nat, d as nat) {
                Ok(x) => {
                    assert((views(before) + seq![av]) + x =~= views(before) + (seq![av] + x));
                    assert(views(before).push(av) =~= views(before) + seq![av]);
                },
                Err(_) => {},
            }
        }
        i = i + 1;
    }
    proof {
        assert(views(outs@) + Seq::<ValueModel>::empty() =~= views(outs@));
    }
    Value::from_row_values(&outs)
}

/// The descent with one argument: the function must take one argument and
/// return one value.
pub open spec fn level1(f: Function, n: Option<i64>, s: Seq<ValueModel>) -> StackResult {
    if f.args() != 1 {
        Err((Error::BadArity(f.args() as usize), s))
    } else if f.outputs() != 1 {
        Err((Error::BadOutputs(f.outputs() as usize), s))
    } else {
        match pop_spec(s) {
            Err(e) => Err((e, s)),
            Ok((xs, s1)) => finish1(s1, mono_level(f, xs, depth(n, xs.rank()))),
        }
    }
}

/// The descent with two arguments, `xs` on top: the function must take two
/// arguments and return one value.
pub open spec fn level2(f: Function, nx: Option<i64>, ny: Option<i64>, s: Seq<ValueModel>) -> StackResult {
    if f.args() != 2 {
        Err((Error::BadArity(f.args() as usize), s))
    } else if f.outputs() != 1 {
        Err((Error::BadOutputs(f.outputs() as usize), s))
    } else {
        match pop_spec(s) {
            Err(e) => Err((e, s)),
            Ok((xs, s1)) => match pop_spec(s1) {
                Err(e) => Err((e, s1)),
                Ok((ys, s2)) => finish1(s2, dyadic_level(f, xs, ys, depth(nx, xs.rank()), depth(ny, ys.rank()))),
            },
        }
    }
}

/// The descent with three or more arguments: the function must take one per
/// rank and return one value.
pub open spec fn level_many(f: Function, ns: Seq<Option<i64>>, s: Seq<ValueModel>) -> StackResult {
    if f.args() != ns.len() {
        Err((Error::BadArity(f.args() as usize), s))
    } else if f.outputs() != 1 {
        Err((Error::BadOutputs(f.outputs() as usize), s))
    } else {
        match pop_n_spec(s, ns.len()) {
            Err(e) => Err((e, s)),
            Ok((args, s1)) => {
                let ds = Seq::new(ns.len(), |j: int| depth(ns[j], args[j].rank()));
                finish1(s1, multi_level(f, args, ds, max_depth(ds)))
            },
        }
    }
}

/// Level once the rank list and the function are off the stack: no ranks do
/// nothing; one rank of 0 is `each`, of -1 is `rows`, of infinity one call of
/// the function; two ranks both 0, both -1 or both infinity likewise; any
/// other list descends.
pub open spec fn level_dispatch(f: Function, ns: Seq<Option<i64>>, s: Seq<ValueModel>) -> StackResult {
    if ns.len() == 0 {
        Ok(s)
    } else if ns.len() == 1 {
        if ns[0] == Some(0i64) {
            crate::each::each_with(f, s)
        } else if ns[0] == Some(-1i64) {
            crate::each::rows_with(f, s)
        } else if ns[0].is_none() {
            match call_spec(f, s) {
                Ok((s2, _)) => Ok(s2),
                Err(et) => Err(et),
            }
        } else {
            level1(f, ns[0], s)
        }
    } else if ns.len() == 2 {
        if ns[0] == Some(0i64) && ns[1] == Some(0i64) {
            crate::each::each_with(f, s)
        } else if ns[0] == Some(-1i64) && ns[1] == Some(-1i64) {
            crate::each::rows_with(f, s)
        } else if ns[0].is_none() && ns[1].is_none() {
            match call_spec(f, s) {
                Ok((s2, _)) => Ok(s2),
                Err(et) => Err(et),
            }
        } else {
            level2(f, ns[0], ns[1], s)
        }
    } else {
        level_many(f, ns, s)
    }
}

/// What `level` does to the stack: the function that makes the rank list
/// runs first, then the rank list and the function come off.
pub open spec fn level_outcome(s: Seq<ValueModel>) -> StackResult {
    match pop_fn_spec(s) {
        Err(e) => Err((e, s)),
        Ok((g, s1)) => match call_spec(g, s1) {
            Err(et) => Err(et),
            Ok((s2, brk)) => if brk {
                Err((Error::BreakNotAllowed, s2))
            } else {
                match pop_spec(s2) {
                    Err(e) => Err((e, s2)),
                    Ok((rv, s3)) => match rank_list(rv) {
                        None => Err((Error::BadRankList, s3)),
                        Some(ns) => match pop_fn_spec(s3) {
                            Err(e) => Err((e, s3)),
                            Ok((f, s4)) => level_dispatch(f, ns, s4),
                        },
                    },
                }
            },
        },
    }
}

fn as_rank_list(v: &Value) -> (r: Result<Vec<Option<i64>>, Error>)
    requires
        v@.wf(),
    ensures
        match rank_list(v@) {
            Some(ns) => r.is_ok() && r.unwrap()@ == ns,
            None => r == Err::<Vec<Option<i64>>, Error>(Error::BadRankList),
        },
{
    let a = match to_nums(v) {
        Some(a) => a,
        None => return Err(Error::BadRankList),
    };
    if a.shape.len() > 1 {
        return Err(Error::BadRankList);
    }
    let mut r: Vec<Option<i64>> = Vec::new();
    let mut i: usize = 0;
    while i < a.data.len()
        invariant
            0 <= i <= a@.data.len(),
            numeric(v@) == Some(a@),
            a@.shape.len() <= 1,
            forall|k: int| 0 <= k < i ==> #[trigger] a@.data[k] != i64::MIN,
            r@ == a@.data.subrange(0, i as int).map_values(|x: i64| if x == i64::MAX { None } else { Some(x) }),
        decreases a.data.len() - i,
    {
        let x = a.data[i];
        if x == i64::MIN {
            return Err(Error::BadRankList);
        }
        r.push(if x == i64::MAX { None } else { Some(x) });
        i = i + 1;
        proof {
            assert(r@ =~= a@.data.subrange(0, i as int).map_values(|x: i64| if x == i64::MAX { None } else { Some(x) }));
        }
    }
    proof {
        assert(a@.data.subrange(0, i as int) =~= a@.data);
    }
    Ok(r)
}

fn depth_of(n: Option<i64>, r: usize) -> (d: usize)
    ensures
        d == depth(n, r as nat),
{
    match n {
        None => 0,
        Some(k) => {
            let kept: usize = if k < 0 {
                if (r as i128) + (k as i128) > 0 { ((r as i128) + (k as i128)) as usize } else { 0 }
            } else if (k as u64 as u128) < (r as u128) {
                k as usize
            } else {
                r
            };
            r - kept
        },
    }
}

/// Runs a function at chosen depths of its arguments.
pub fn level(env: &mut Env) -> (r: Result<(), Error>)
    requires
        old(env).wf(),
    ensures
        final(env).wf(),
        match level_outcome(old(env).model()) {
            Ok(s) => r.is_ok() && final(env).model() == s,
            Err((e, t)) => r == Err::<(), Error>(e) && final(env).model() == t,
        },
{
    let g = match env.pop_function() {
        Ok(g) => g,
        Err(e) => return Err(e),
    };
    match env.call(g) {
        Err(e) => return Err(e),
        Ok(brk) => if brk {
            return Err(Error::BreakNotAllowed);
        },
    }
    let rv = match env.pop() {
        Ok(v) => v,
        Err(e) => return Err(e),
    };
    let ns = match as_rank_list(&rv) {
        Ok(ns) => ns,
        Err(e) => return Err(e),
    };
    let f = match env.pop_function() {
        Ok(f) => f,
        Err(e) => return Err(e),
    };
    if ns.len() == 0 {
        return Ok(());
    }
    if ns.len() == 1 {
        let n = ns[0];
        if n == Some(0i64) {
            return crate::each::each_with_fn(env, f);
        }
        if n == Some(-1i64) {
            return crate::each::rows_with_fn(env, f);
        }
        if n.is_none() {
            return match env.call(f) {
                Ok(_) => Ok(()),
                Err(e) => Err(e),
            };
        }
        let (args, outputs) = f.signature();
        if args != 1 {
            return Err(Error::BadArity(args));
        }
        if outputs != 1 {
            return Err(Error::BadOutputs(outputs));
        }
        let xs = match env.pop() {
            Ok(v) => v,
            Err(e) => return Err(e),
        };
        let d = depth_of(n, xs.rank());
        return match monadic_level_recursive(f, &xs, d) {
            Ok(v) => {
                env.push(v);
                Ok(())
            },
            Err(e) => Err(e),
        };
    }
    if ns.len() == 2 {
        let nx = ns[0];
        let ny = ns[1];
        if nx == Some(0i64) && ny == Some(0i64) {
            return crate::each::each_with_fn(env, f);
        }
        if nx == Some(-1i64) && ny == Some(-1i64) {
            return crate::each::rows_with_fn(env, f);
        }
        if nx.is_none() && ny.is_none() {
            return match env.call(f) {
                Ok(_) => Ok(()),
                Err(e) => Err(e),
            };
        }
        let (args, outputs) = f.signature();
        if args != 2 {
            return Err(Error::BadArity(args));
        }
        if outputs != 1 {
            return Err(Error::BadOutputs(outputs));
        }
        let xs = match env.pop() {
            Ok(v) => v,
            Err(e) => return Err(e),
        };
        let ys = match env.pop() {
            Ok(v) => v,
            Err(e) => return Err(e),
        };
        let dx = depth_of(nx, xs.rank());
        let dy = depth_of(ny, ys.rank());
        return match dyadic_level_recursive(f, &xs, &ys, dx, dy) {
            Ok(v) => {
                env.push(v);
                Ok(())
            },
            Err(e) => Err(e),
        };
    }
    let (args, outputs) = f.signature();
    if args != ns.len() {
        return Err(Error::BadArity(args));
    }
    if outputs != 1 {
        return Err(Error::BadOutputs(outputs));
    }
        let args_v = match env.pop_n(ns.len()) {
        Ok(v) => v,
        Err(e) => return Err(e),
    };
    let ghost va = views(args_v@);
    let mut ds: Vec<usize> = Vec::new();
    let mut j: usize = 0;
    while j < ns.len()
        invariant
            ns@.len() == args_v@.len(),
            va == views(args_v@),
            0 <= j <= ns@.len(),
            ds@.len() == j,
            forall|p: int| 0 <= p < j ==> #[trigger] ds@[p] == depth(ns@[p], va[p].rank()),
        decreases ns.len() - j,
    {
        proof {
            assert(va[j as int] == args_v@[j as int]@);
        }
        ds.push(depth_of(ns[j], args_v[j].rank()));
        j = j + 1;
    }
    let mut d: usize = 0;
    let mut j: usize = 0;
    while j < ds.len()
        invariant
            0 <= j <= ds@.len(),
            d == max_depth(ds@.map_values(|n: usize| n as nat).subrange(0, j as int)),
        decreases ds.len() - j,
    {
        proof {
            let p = ds@.map_values(|n: usize| n as nat).subrange(0, j + 1);
            assert(p.drop_last() =~= ds@.map_values(|n: usize| n as nat).subrange(0, j as int));
        }
        if ds[j] > d {
            d = ds[j];
        }
        j = j + 1;
    }
    proof {
        let dn = ds@.map_values(|n: usize| n as nat);
        assert(dn.subrange(0, dn.len() as int) =~= dn);
        assert(dn =~= Seq::new(ns@.len(), |j: int| depth(ns@[j], va[j].rank())));
        assert forall|p: int| 0 <= p < ds@.len() implies ds@[p] <= (#[trigger] va[p]).rank() by {
            assert(ds@[p] == depth(ns@[p], va[p].rank()));
        }
    }
    return match multi_level_recursive(f, &args_v, &ds, d) {
        Ok(v) => {
            env.push(v);
            Ok(())
        },
        Err(e) => Err(e),
    };
}

} // verus!
