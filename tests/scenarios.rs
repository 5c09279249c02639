use looping::array::Array;
use looping::env::Env;
use looping::error::Error;
use looping::function::{Function, Primitive};
use looping::reduce::reduce;
use looping::repeat::repeat;
use looping::scan::scan;
use looping::table::table;
use looping::value::Value;

fn nums(shape: Vec<usize>, data: Vec<i64>) -> Value {
    Value::Num(Array { shape, data })
}

fn num(x: i64) -> Value {
    nums(vec![], vec![x])
}

fn prim(p: Primitive) -> Function {
    Function { prim: p, flipped: false, bound: None, until: None }
}

fn func(f: Function) -> Value {
    Value::Func(Array { shape: vec![], data: vec![f] })
}

/// A stack holding `vals`, the last on top.
fn stack(vals: Vec<Value>) -> Env {
    Env { stack: vals }
}

fn num_parts(v: &Value) -> (Vec<usize>, Vec<i64>) {
    match v {
        Value::Num(a) => (a.shape.clone(), a.data.clone()),
        _ => panic!("expected numbers"),
    }
}

fn top(env: &Env) -> &Value {
    env.stack.last().expect("empty stack")
}

#[test]
fn reduce_sum() {
    let mut env = stack(vec![nums(vec![4], vec![1, 2, 3, 4]), func(prim(Primitive::Add))]);
    reduce(&mut env).unwrap();
    assert_eq!(env.stack.len(), 1);
    assert_eq!(num_parts(top(&env)), (vec![], vec![10]));
}

#[test]
fn reduce_subtract_both_ways() {
    let mut env = stack(vec![nums(vec![3], vec![10, 1, 2]), func(prim(Primitive::Sub))]);
    reduce(&mut env).unwrap();
    assert_eq!(num_parts(top(&env)), (vec![], vec![7]));
    let flipped = Function { prim: Primitive::Sub, flipped: true, bound: None, until: None };
    let mut env = stack(vec![nums(vec![3], vec![10, 1, 2]), func(flipped)]);
    reduce(&mut env).unwrap();
    assert_eq!(num_parts(top(&env)), (vec![], vec![11]));
}

#[test]
fn scan_sum() {
    let mut env = stack(vec![nums(vec![4], vec![1, 2, 3, 4]), func(prim(Primitive::Add))]);
    scan(&mut env).unwrap();
    assert_eq!(num_parts(top(&env)), (vec![4], vec![1, 3, 6, 10]));
}

#[test]
fn table_sum() {
    let mut env = stack(vec![
        nums(vec![3], vec![10, 20, 30]),
        nums(vec![2], vec![1, 2]),
        func(prim(Primitive::Add)),
    ]);
    table(&mut env).unwrap();
    assert_eq!(num_parts(top(&env)), (vec![2, 3], vec![11, 21, 31, 12, 22, 32]));
}

#[test]
fn table_couple() {
    let mut env = stack(vec![
        nums(vec![2], vec![3, 4]),
        nums(vec![2], vec![1, 2]),
        func(prim(Primitive::Couple)),
    ]);
    table(&mut env).unwrap();
    assert_eq!(num_parts(top(&env)), (vec![2, 2, 2], vec![1, 3, 1, 4, 2, 3, 2, 4]));
}

#[test]
fn repeat_double() {
    let double = Function { prim: Primitive::Mul, flipped: false, bound: Some(2), until: None };
    let mut env = stack(vec![num(1), num(3), func(double)]);
    repeat(&mut env).unwrap();
    assert_eq!(env.stack.len(), 1);
    assert_eq!(num_parts(top(&env)), (vec![], vec![8]));
}

#[test]
fn reduce_empty_is_an_error() {
    let mut env = stack(vec![Value::Char(Array { shape: vec![0], data: vec![] }), func(prim(Primitive::Join))]);
    assert_eq!(reduce(&mut env), Err(Error::EmptyReduce));
}
