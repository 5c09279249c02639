use looping::array::Array;
use looping::each::{each, rows};
use looping::env::Env;
use looping::error::Error;
use looping::function::{Function, Primitive};
use looping::level::level;
use looping::table::table;
use looping::value::Value;

fn nums(shape: Vec<usize>, data: Vec<i64>) -> Value {
    Value::Num(Array { shape, data })
}

fn func(p: Primitive) -> Value {
    Value::Func(Array { shape: vec![], data: vec![Function { prim: p, flipped: false, bound: None, until: None }] })
}

fn num_parts(v: &Value) -> (Vec<usize>, Vec<i64>) {
    match v {
        Value::Num(a) => (a.shape.clone(), a.data.clone()),
        _ => panic!("expected numbers"),
    }
}

#[test]
fn each_with_three_arguments() {
    let mut env = Env { stack: vec![nums(vec![2], vec![5, 6]), nums(vec![2], vec![3, 4]), nums(vec![2], vec![1, 2]), func(Primitive::Triple)] };
    each(&mut env).unwrap();
    assert_eq!(env.stack.len(), 1);
    assert_eq!(num_parts(&env.stack[0]), (vec![2, 3], vec![1, 3, 5, 2, 4, 6]));
}

#[test]
fn each_with_three_arguments_needs_one_shape() {
    let mut env = Env { stack: vec![nums(vec![3], vec![5, 6, 7]), nums(vec![2], vec![3, 4]), nums(vec![2], vec![1, 2]), func(Primitive::Triple)] };
    assert_eq!(each(&mut env), Err(Error::ShapeMismatch));
}

#[test]
fn rows_with_three_arguments() {
    let mut env = Env {
        stack: vec![
            nums(vec![2, 2], vec![9, 10, 11, 12]),
            nums(vec![2, 2], vec![5, 6, 7, 8]),
            nums(vec![2, 2], vec![1, 2, 3, 4]),
            func(Primitive::Triple),
        ],
    };
    rows(&mut env).unwrap();
    assert_eq!(num_parts(&env.stack[0]), (vec![2, 3, 2], vec![1, 2, 5, 6, 9, 10, 3, 4, 7, 8, 11, 12]));
}

#[test]
fn rows_with_three_arguments_needs_one_row_count() {
    let mut env = Env { stack: vec![nums(vec![3], vec![5, 6, 7]), nums(vec![2], vec![3, 4]), nums(vec![2], vec![1, 2]), func(Primitive::Triple)] };
    assert_eq!(rows(&mut env), Err(Error::RowCountMismatch));
}

#[test]
fn level_with_three_ranks() {
    let mut env = Env {
        stack: vec![
            nums(vec![2], vec![5, 6]),
            nums(vec![], vec![7]),
            nums(vec![2], vec![1, 2]),
            func(Primitive::Triple),
            nums(vec![3], vec![0, i64::MAX, 0]),
            func(Primitive::Identity),
        ],
    };
    level(&mut env).unwrap();
    assert_eq!(env.stack.len(), 1);
    assert_eq!(num_parts(&env.stack[0]), (vec![2, 3], vec![1, 7, 5, 2, 7, 6]));
}

#[test]
fn level_with_three_ranks_checks_prefixes() {
    let mut env = Env {
        stack: vec![
            nums(vec![3], vec![5, 6, 7]),
            nums(vec![2], vec![3, 4]),
            nums(vec![2], vec![1, 2]),
            func(Primitive::Triple),
            nums(vec![3], vec![0, 0, 0]),
            func(Primitive::Identity),
        ],
    };
    assert_eq!(level(&mut env), Err(Error::ShapeMismatch));
}

#[test]
fn table_needs_two_arguments() {
    let mut env = Env { stack: vec![nums(vec![1], vec![1]), nums(vec![1], vec![2]), func(Primitive::Triple)] };
    assert_eq!(table(&mut env), Err(Error::BadArity(3)));
}

#[test]
fn level_with_three_ranks_iterates_an_empty_axis() {
    let mut env = Env {
        stack: vec![
            nums(vec![], vec![5]),
            nums(vec![], vec![7]),
            nums(vec![0], vec![]),
            func(Primitive::Triple),
            nums(vec![3], vec![0, i64::MAX, i64::MAX]),
            func(Primitive::Identity),
        ],
    };
    level(&mut env).unwrap();
    assert_eq!(env.stack.len(), 1);
    assert_eq!(num_parts(&env.stack[0]), (vec![0], vec![]));
}
