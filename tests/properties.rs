use looping::array::Array;
use looping::each::{distribute, each, rows};
use looping::env::Env;
use looping::error::Error;
use looping::function::{Function, Primitive};
use looping::groups::{group, partition};
use looping::level::level;
use looping::reduce::{fast_reduce, fold, reduce};
use looping::repeat::repeat;
use looping::scan::scan;
use looping::table::{cross, table};
use looping::value::Value;

fn nums(shape: Vec<usize>, data: Vec<i64>) -> Value {
    Value::Num(Array { shape, data })
}

fn num(x: i64) -> Value {
    nums(vec![], vec![x])
}

fn chars(s: &str) -> Value {
    let data: Vec<char> = s.chars().collect();
    Value::Char(Array { shape: vec![data.len()], data })
}

fn prim(p: Primitive) -> Function {
    Function { prim: p, flipped: false, bound: None, until: None }
}

fn flipped(p: Primitive) -> Function {
    Function { prim: p, flipped: true, bound: None, until: None }
}

fn bound(p: Primitive, k: i64) -> Function {
    Function { prim: p, flipped: false, bound: Some(k), until: None }
}

/// The same primitive, but not recognised as a bare primitive, so the
/// generic path runs.
fn generic(p: Primitive) -> Function {
    Function { prim: p, flipped: false, bound: None, until: Some(i64::MAX) }
}

fn func(f: Function) -> Value {
    Value::Func(Array { shape: vec![], data: vec![f] })
}

fn stack(vals: Vec<Value>) -> Env {
    Env { stack: vals }
}

fn num_parts(v: &Value) -> (Vec<usize>, Vec<i64>) {
    match v {
        Value::Num(a) => (a.shape.clone(), a.data.clone()),
        _ => panic!("expected numbers"),
    }
}

fn char_parts(v: &Value) -> (Vec<usize>, String) {
    match v {
        Value::Char(a) => (a.shape.clone(), a.data.iter().collect()),
        _ => panic!("expected characters"),
    }
}

fn top(env: &Env) -> &Value {
    env.stack.last().expect("empty stack")
}

fn shape_and_len(v: &Value) -> (Vec<usize>, usize) {
    match v {
        Value::Num(a) => (a.shape.clone(), a.data.len()),
        Value::Byte(a) => (a.shape.clone(), a.data.len()),
        Value::Char(a) => (a.shape.clone(), a.data.len()),
        Value::Func(a) => (a.shape.clone(), a.data.len()),
    }
}

fn run(op: fn(&mut Env) -> Result<(), Error>, vals: Vec<Value>) -> Env {
    let mut env = stack(vals);
    op(&mut env).unwrap();
    env
}

#[test]
fn group_reduce_visits_buckets_last_first() {
    let mut env = stack(vec![chars("abcde"), nums(vec![5], vec![0, 1, 0, 1, 2]), func(flipped(Primitive::Join))]);
    group(&mut env).unwrap();
    assert_eq!(env.stack.len(), 1);
    assert_eq!(char_parts(top(&env)), (vec![5], "ebdac".to_string()));
}

#[test]
fn group_buckets_come_back_reversed() {
    let a = Array { shape: vec![5], data: "abcde".chars().collect::<Vec<char>>() };
    let groups = a.group_groups(&vec![0, 1, 0, 1, 2]).unwrap();
    let got: Vec<String> = groups.iter().map(|g| g.data.iter().collect()).collect();
    assert_eq!(got, vec!["e".to_string(), "bd".to_string(), "ac".to_string()]);
}

#[test]
fn partition_groups_come_back_reversed() {
    let a = Array { shape: vec![5], data: "abcde".chars().collect::<Vec<char>>() };
    let groups = a.partition_groups(&vec![1, 1, 2, 2, 1]).unwrap();
    let got: Vec<String> = groups.iter().map(|g| g.data.iter().collect()).collect();
    assert_eq!(got, vec!["e".to_string(), "cd".to_string(), "ab".to_string()]);
    let v = chars("abcde");
    let values = v.partition_groups(&vec![1, 1, 2, 2, 1]).unwrap();
    assert_eq!(values.len(), 3);
    assert_eq!(char_parts(&values[1]), (vec![2], "cd".to_string()));
}

#[test]
fn partition_drops_nonpositive_markers() {
    let a = Array { shape: vec![6], data: vec![1i64, 2, 3, 4, 5, 6] };
    let groups = a.partition_groups(&vec![0, 3, 3, -1, 3, 2]).unwrap();
    let got: Vec<Vec<i64>> = groups.iter().map(|g| g.data.clone()).collect();
    assert_eq!(got, vec![vec![6], vec![5], vec![2, 3]]);
}

#[test]
fn partition_folds_runs_last_first() {
    let mut env = stack(vec![chars("abcde"), nums(vec![5], vec![1, 1, 2, 2, 1]), func(flipped(Primitive::Join))]);
    partition(&mut env).unwrap();
    assert_eq!(char_parts(top(&env)), (vec![5], "ecdab".to_string()));
}

#[test]
fn results_hold_as_many_elements_as_their_shape() {
    let env = run(table, vec![nums(vec![3], vec![1, 2, 3]), nums(vec![2, 2], vec![1, 2, 3, 4]), func(prim(Primitive::Couple))]);
    let (shape, len) = shape_and_len(top(&env));
    assert_eq!(shape, vec![2, 2, 3, 2]);
    assert_eq!(len, shape.iter().product::<usize>());
    let env = run(each, vec![nums(vec![2, 2], vec![1, 2, 3, 4]), func(bound(Primitive::Couple, 0))]);
    let (shape, len) = shape_and_len(top(&env));
    assert_eq!(shape, vec![2, 2, 2]);
    assert_eq!(len, shape.iter().product::<usize>());
}

#[test]
fn generic_reduce_is_left_fold_of_rows() {
    let env = run(reduce, vec![nums(vec![3, 2], vec![1, 2, 3, 4, 5, 6]), func(generic(Primitive::Sub))]);
    // ((row0 - row1) - row2), the accumulator on top
    assert_eq!(num_parts(top(&env)), (vec![2], vec![1 - 3 - 5, 2 - 4 - 6]));
    let env = run(reduce, vec![nums(vec![3, 2], vec![1, 2, 3, 4, 5, 6]), func(prim(Primitive::Sub))]);
    assert_eq!(num_parts(top(&env)), (vec![2], vec![-7, -8]));
}

#[test]
fn fast_reduce_agrees_with_generic() {
    for p in [Primitive::Add, Primitive::Sub, Primitive::Mul, Primitive::Max, Primitive::Min] {
        let fast = run(reduce, vec![nums(vec![4], vec![10, 1, 2, -3]), func(prim(p))]);
        let slow = run(reduce, vec![nums(vec![4], vec![10, 1, 2, -3]), func(generic(p))]);
        assert_eq!(num_parts(top(&fast)), num_parts(top(&slow)));
    }
}

#[test]
fn fast_reduce_identities_and_columns() {
    let empty = Array { shape: vec![0], data: vec![] };
    assert_eq!(fast_reduce(Primitive::Add, false, &empty).unwrap().data, vec![0]);
    assert_eq!(fast_reduce(Primitive::Mul, false, &empty).unwrap().data, vec![1]);
    assert_eq!(fast_reduce(Primitive::Max, false, &empty).unwrap().data, vec![i64::MIN]);
    assert_eq!(fast_reduce(Primitive::Min, false, &empty).unwrap().data, vec![i64::MAX]);
    let no_rows = Array { shape: vec![0, 3], data: vec![] };
    let r = fast_reduce(Primitive::Mul, false, &no_rows).unwrap();
    assert_eq!((r.shape, r.data), (vec![3], vec![1, 1, 1]));
    let grid = Array { shape: vec![2, 3], data: vec![1, 2, 3, 4, 5, 6] };
    let r = fast_reduce(Primitive::Add, false, &grid).unwrap();
    assert_eq!((r.shape, r.data), (vec![3], vec![5, 7, 9]));
    let unit = Array { shape: vec![], data: vec![42] };
    assert_eq!(fast_reduce(Primitive::Add, false, &unit).unwrap().data, vec![42]);
}

#[test]
fn scan_rows_are_prefix_reductions() {
    let data = vec![1, 2, 3, 4, 5, 6];
    let env = run(scan, vec![nums(vec![3, 2], data.clone()), func(generic(Primitive::Add))]);
    let (shape, scanned) = num_parts(top(&env));
    assert_eq!(shape, vec![3, 2]);
    for i in 0..3 {
        let prefix = nums(vec![i + 1, 2], data[..(i + 1) * 2].to_vec());
        let env = run(reduce, vec![prefix, func(generic(Primitive::Add))]);
        assert_eq!(num_parts(top(&env)).1, scanned[i * 2..i * 2 + 2].to_vec());
    }
    let fast = run(scan, vec![nums(vec![3, 2], data), func(prim(Primitive::Add))]);
    assert_eq!(num_parts(top(&fast)).1, scanned);
}

#[test]
fn scan_of_empty_keeps_the_array() {
    let env = run(scan, vec![nums(vec![0, 2], vec![]), func(prim(Primitive::Add))]);
    assert_eq!(num_parts(top(&env)), (vec![0, 2], vec![]));
    let env = run(scan, vec![Value::Char(Array { shape: vec![0], data: vec![] }), func(prim(Primitive::Join))]);
    assert_eq!(char_parts(top(&env)), (vec![0], String::new()));
}

#[test]
fn each_keeps_shape_for_scalar_results() {
    let env = run(each, vec![nums(vec![2, 3], vec![1, 2, 3, 4, 5, 6]), func(bound(Primitive::Mul, 10))]);
    assert_eq!(num_parts(top(&env)), (vec![2, 3], vec![10, 20, 30, 40, 50, 60]));
}

#[test]
fn each_with_two_arguments_broadcasts_from_the_left() {
    let env = run(each, vec![nums(vec![2, 2], vec![10, 20, 30, 40]), nums(vec![2], vec![1, 2]), func(prim(Primitive::Sub))]);
    // each element of the top array is the first argument: x - y
    assert_eq!(num_parts(top(&env)), (vec![2, 2], vec![1 - 10, 1 - 20, 2 - 30, 2 - 40]));
}

#[test]
fn each_break_keeps_remaining_elements() {
    let f = Function { prim: Primitive::Add, flipped: false, bound: Some(10), until: Some(12) };
    let env = run(each, vec![nums(vec![4], vec![1, 2, 3, 4]), func(f)]);
    assert_eq!(num_parts(top(&env)), (vec![4], vec![11, 12, 3, 4]));
}

#[test]
fn table_shape_is_both_shapes_then_the_cell() {
    let env = run(table, vec![nums(vec![2], vec![3, 4]), nums(vec![2], vec![1, 2]), func(generic(Primitive::Couple))]);
    assert_eq!(num_parts(top(&env)), (vec![2, 2, 2], vec![1, 3, 1, 4, 2, 3, 2, 4]));
    let env = run(table, vec![nums(vec![3], vec![1, 2, 3]), nums(vec![1], vec![2]), func(prim(Primitive::Lt))]);
    match top(&env) {
        Value::Byte(a) => {
            assert_eq!(a.shape, vec![1, 3]);
            // whether the second argument is below the first
            assert_eq!(a.data, vec![1, 0, 0]);
        },
        _ => panic!("comparisons give bytes"),
    }
}

#[test]
fn cross_shape_is_row_counts_then_the_cell() {
    let env = run(cross, vec![nums(vec![3, 2], vec![1, 2, 3, 4, 5, 6]), nums(vec![2, 2], vec![10, 20, 30, 40]), func(prim(Primitive::Add))]);
    assert_eq!(num_parts(top(&env)), (vec![2, 3, 2], vec![11, 22, 13, 24, 15, 26, 31, 42, 33, 44, 35, 46]));
}

#[test]
fn group_then_identity_reassembles_buckets_in_order() {
    let env = run(group, vec![nums(vec![4], vec![1, 2, 3, 4]), nums(vec![4], vec![1, 0, 1, 0]), func(prim(Primitive::Identity))]);
    assert_eq!(num_parts(top(&env)), (vec![2, 2], vec![2, 4, 1, 3]));
}

#[test]
fn repeat_counts_zero_positive_negative() {
    let env = run(repeat, vec![num(5), num(0), func(bound(Primitive::Mul, 2))]);
    assert_eq!(env.stack.len(), 1);
    assert_eq!(num_parts(top(&env)), (vec![], vec![5]));
    let env = run(repeat, vec![num(5), num(-2), func(bound(Primitive::Add, 3))]);
    assert_eq!(num_parts(top(&env)), (vec![], vec![-1]));
    let env = run(repeat, vec![num(5), num(-3), func(Function { prim: Primitive::Sub, flipped: true, bound: Some(1), until: None })]);
    assert_eq!(num_parts(top(&env)), (vec![], vec![8]));
}

#[test]
fn repeat_forever_stops_at_break() {
    let f = Function { prim: Primitive::Add, flipped: false, bound: Some(1), until: Some(5) };
    let env = run(repeat, vec![num(0), num(i64::MAX), func(f)]);
    assert_eq!(num_parts(top(&env)), (vec![], vec![5]));
}

#[test]
fn level_special_ranks_match_each_rows_and_call() {
    let xs = || nums(vec![2, 2], vec![1, 2, 3, 4]);
    let id = || func(prim(Primitive::Identity));
    let f1 = || func(bound(Primitive::Add, 10));
    let by_level = run(level, vec![xs(), f1(), nums(vec![1], vec![0]), id()]);
    let by_each = run(each, vec![xs(), f1()]);
    assert_eq!(num_parts(top(&by_level)), num_parts(top(&by_each)));
    let by_level = run(level, vec![xs(), f1(), nums(vec![1], vec![-1]), id()]);
    let by_rows = run(rows, vec![xs(), f1()]);
    assert_eq!(num_parts(top(&by_level)), num_parts(top(&by_rows)));
    let by_level = run(level, vec![xs(), f1(), nums(vec![1], vec![i64::MAX]), id()]);
    assert_eq!(num_parts(top(&by_level)), (vec![2, 2], vec![11, 12, 13, 14]));
    assert_eq!(num_parts(top(&by_each)), (vec![2, 2], vec![11, 12, 13, 14]));
    // a single number takes the same paths; its one row comes back as a list
    let by_each = run(each, vec![num(5), f1()]);
    assert_eq!(num_parts(top(&by_each)), (vec![], vec![15]));
    let by_rows = run(rows, vec![num(5), f1()]);
    assert_eq!(num_parts(top(&by_rows)), (vec![1], vec![15]));
    for (rank, want) in [(0, (vec![], vec![15])), (-1, (vec![1], vec![15])), (i64::MAX, (vec![], vec![15]))] {
        let by_level = run(level, vec![num(5), f1(), nums(vec![1], vec![rank]), id()]);
        assert_eq!(by_level.stack.len(), 1);
        assert_eq!(num_parts(top(&by_level)), want);
    }
    // a function that fails on the element fails under level too
    let letter = || Value::Char(Array { shape: vec![], data: vec!['a'] });
    for rank in [0, -1, i64::MAX] {
        let err = fails(level, vec![letter(), f1(), nums(vec![1], vec![rank]), id()]);
        assert_eq!(err, Error::TypeMismatch);
    }
    assert_eq!(fails(each, vec![letter(), f1()]), Error::TypeMismatch);
    // two scalars are passed to the function, not left alone
    let env = run(level, vec![num(3), num(4), func(prim(Primitive::Sub)), nums(vec![2], vec![0, 0]), id()]);
    assert_eq!(env.stack.len(), 1);
    assert_eq!(num_parts(top(&env)), (vec![], vec![1]));
}

#[test]
fn level_descends_two_arguments() {
    // ranks 1 and 0: each row of xs with each element of ys
    let env = run(level, vec![
        nums(vec![2], vec![10, 20]),
        nums(vec![2, 2], vec![1, 2, 3, 4]),
        func(prim(Primitive::Add)),
        nums(vec![2], vec![1, 0]),
        func(prim(Primitive::Identity)),
    ]);
    assert_eq!(num_parts(top(&env)), (vec![2, 2], vec![11, 12, 23, 24]));
}

#[test]
fn monadic_reduce_pushes_each_result() {
    let env = run(reduce, vec![nums(vec![3], vec![1, 2, 3]), func(prim(Primitive::Identity))]);
    assert_eq!(env.stack.len(), 3);
    assert_eq!(num_parts(&env.stack[0]), (vec![], vec![1]));
    assert_eq!(num_parts(&env.stack[2]), (vec![], vec![3]));
}

#[test]
fn reduce_break_joins_the_rest() {
    let f = Function { prim: Primitive::Add, flipped: false, bound: None, until: Some(6) };
    let env = run(reduce, vec![nums(vec![4], vec![1, 2, 3, 4]), func(f)]);
    assert_eq!(num_parts(top(&env)), (vec![2], vec![6, 4]));
}

#[test]
fn fold_starts_from_the_initial_value() {
    let env = run(fold, vec![nums(vec![3], vec![1, 2, 3]), num(100), func(prim(Primitive::Add))]);
    assert_eq!(num_parts(top(&env)), (vec![], vec![106]));
    let env = run(fold, vec![nums(vec![0], vec![]), num(100), func(prim(Primitive::Add))]);
    assert_eq!(num_parts(top(&env)), (vec![], vec![100]));
}

#[test]
fn distribute_passes_the_second_whole() {
    let env = run(distribute, vec![nums(vec![2], vec![1, 2]), nums(vec![3], vec![10, 20, 30]), func(prim(Primitive::Join))]);
    assert_eq!(num_parts(top(&env)), (vec![3, 3], vec![10, 1, 2, 20, 1, 2, 30, 1, 2]));
}

#[test]
fn rows_pairs_rows() {
    let env = run(rows, vec![nums(vec![2, 2], vec![1, 2, 3, 4]), nums(vec![2], vec![10, 20]), func(prim(Primitive::Join))]);
    assert_eq!(num_parts(top(&env)), (vec![2, 3], vec![10, 1, 2, 20, 3, 4]));
}

#[test]
fn byte_rows_reduce_like_numbers() {
    let bytes = || Value::Byte(Array { shape: vec![2, 2], data: vec![9, 8, 1, 2] });
    let fast = run(reduce, vec![bytes(), func(prim(Primitive::Sub))]);
    let slow = run(reduce, vec![bytes(), func(generic(Primitive::Sub))]);
    assert_eq!(num_parts(top(&fast)), (vec![2], vec![8, 6]));
    assert_eq!(num_parts(top(&fast)), num_parts(top(&slow)));
}

#[test]
fn bytes_reduce_as_numbers() {
    let env = run(reduce, vec![Value::Byte(Array { shape: vec![3], data: vec![200, 100, 50] }), func(prim(Primitive::Add))]);
    assert_eq!(num_parts(top(&env)), (vec![], vec![350]));
}

fn fails(op: fn(&mut Env) -> Result<(), Error>, vals: Vec<Value>) -> Error {
    let mut env = stack(vals);
    op(&mut env).unwrap_err()
}

#[test]
fn each_error_variant_arises() {
    assert_eq!(fails(reduce, vec![func(prim(Primitive::Add))]), Error::StackEmpty);
    assert_eq!(fails(reduce, vec![num(1), num(2)]), Error::ExpectedFunction);
    assert_eq!(fails(reduce, vec![nums(vec![0], vec![]), func(generic(Primitive::Add))]), Error::EmptyReduce);
    assert_eq!(fails(scan, vec![num(3), func(prim(Primitive::Add))]), Error::ScanRankZero);
    assert_eq!(fails(scan, vec![nums(vec![2], vec![1, 2]), func(prim(Primitive::Identity))]), Error::BadArity(1));
    assert_eq!(fails(each, vec![nums(vec![3], vec![1, 2, 3]), nums(vec![2], vec![1, 2]), func(prim(Primitive::Add))]), Error::ShapeMismatch);
    assert_eq!(fails(rows, vec![nums(vec![3], vec![1, 2, 3]), nums(vec![2], vec![1, 2]), func(prim(Primitive::Add))]), Error::RowCountMismatch);
    assert_eq!(fails(group, vec![nums(vec![3], vec![1, 2, 3]), nums(vec![3], vec![0, 0, 1]), func(prim(Primitive::Identity))]), Error::CombineMismatch);
    let stop = Function { prim: Primitive::Add, flipped: false, bound: None, until: Some(0) };
    assert_eq!(fails(table, vec![nums(vec![1], vec![1]), nums(vec![1], vec![1]), func(stop)]), Error::BreakNotAllowed);
    assert_eq!(fails(repeat, vec![num(1), nums(vec![2], vec![1, 2]), func(prim(Primitive::Identity))]), Error::BadRepetitions);
    assert_eq!(fails(repeat, vec![num(1), num(-1), func(bound(Primitive::Max, 2))]), Error::CannotInvert);
    assert_eq!(fails(level, vec![num(1), func(prim(Primitive::Identity)), nums(vec![1], vec![i64::MIN]), func(prim(Primitive::Identity))]), Error::BadRankList);
    assert_eq!(fails(level, vec![nums(vec![1], vec![1]), func(prim(Primitive::Pop)), nums(vec![1], vec![1]), func(prim(Primitive::Identity))]), Error::BadOutputs(0));
    assert_eq!(fails(partition, vec![nums(vec![2], vec![1, 2]), chars("ab"), func(prim(Primitive::Identity))]), Error::BadIndices);
    assert_eq!(fails(partition, vec![nums(vec![2], vec![1, 2]), nums(vec![1], vec![1]), func(prim(Primitive::Identity))]), Error::LengthMismatch);
    assert_eq!(fails(partition, vec![nums(vec![2], vec![1, 2]), nums(vec![2], vec![0, 0]), func(prim(Primitive::Add))]), Error::EmptyGroups);
    assert_eq!(fails(each, vec![chars("ab"), chars("cd"), func(prim(Primitive::Add))]), Error::TypeMismatch);
    assert_eq!(fails(reduce, vec![nums(vec![2], vec![i64::MAX - 1, 2]), func(prim(Primitive::Add))]), Error::Unrepresentable);
    assert_eq!(fails(distribute, vec![num(1), nums(vec![1], vec![1]), func(prim(Primitive::Identity))]), Error::BadArity(1));
}

#[test]
fn level_rejects_mismatched_prefixes() {
    let err = fails(level, vec![
        nums(vec![3], vec![1, 2, 3]),
        nums(vec![2], vec![1, 2]),
        func(prim(Primitive::Add)),
        nums(vec![2], vec![0, 0]),
        func(prim(Primitive::Identity)),
    ]);
    assert_eq!(err, Error::ShapeMismatch);
    let err = fails(level, vec![
        nums(vec![3], vec![1, 2, 3]),
        nums(vec![2, 2], vec![1, 2, 3, 4]),
        func(prim(Primitive::Add)),
        nums(vec![2], vec![1, 0]),
        func(prim(Primitive::Identity)),
    ]);
    assert_eq!(err, Error::ShapeMismatch);
}

#[test]
fn grouping_nothing_gives_one_empty_bucket() {
    let a = Array { shape: vec![0], data: Vec::<i64>::new() };
    let groups = a.group_groups(&vec![]).unwrap();
    assert_eq!(groups.len(), 1);
    assert_eq!(groups[0].data.len(), 0);
    let b = Array { shape: vec![2], data: vec![1i64, 2] };
    let groups = b.group_groups(&vec![-1, -3]).unwrap();
    assert_eq!(groups.len(), 1);
    assert_eq!(groups[0].data.len(), 0);
    let env = run(group, vec![nums(vec![0], vec![]), nums(vec![0], vec![]), func(prim(Primitive::Add))]);
    assert_eq!(env.stack.len(), 1);
}

#[test]
fn division_is_exact() {
    let env = run(reduce, vec![nums(vec![3], vec![100, 5, 2]), func(prim(Primitive::Div))]);
    assert_eq!(num_parts(top(&env)), (vec![], vec![10]));
    let env = run(reduce, vec![nums(vec![3], vec![2, 4, 8]), func(flipped(Primitive::Div))]);
    assert_eq!(num_parts(top(&env)), (vec![], vec![4]));
    let env = run(reduce, vec![nums(vec![3], vec![100, 5, 2]), func(generic(Primitive::Div))]);
    assert_eq!(num_parts(top(&env)), (vec![], vec![10]));
    let env = run(reduce, vec![nums(vec![2], vec![-12, 4]), func(prim(Primitive::Div))]);
    assert_eq!(num_parts(top(&env)), (vec![], vec![-3]));
    let env = run(reduce, vec![nums(vec![0], vec![]), func(prim(Primitive::Div))]);
    assert_eq!(num_parts(top(&env)), (vec![], vec![1]));
    assert_eq!(fails(reduce, vec![nums(vec![2], vec![3, 2]), func(prim(Primitive::Div))]), Error::Unrepresentable);
    assert_eq!(fails(reduce, vec![nums(vec![2], vec![3, 0]), func(prim(Primitive::Div))]), Error::Unrepresentable);
    assert_eq!(fails(reduce, vec![nums(vec![2], vec![i64::MIN, -1]), func(prim(Primitive::Div))]), Error::Unrepresentable);
    let env = run(scan, vec![nums(vec![3], vec![64, 4, 2]), func(prim(Primitive::Div))]);
    assert_eq!(num_parts(top(&env)), (vec![3], vec![64, 16, 8]));
    let env = run(table, vec![nums(vec![2], vec![1, 2]), nums(vec![2], vec![6, 8]), func(prim(Primitive::Div))]);
    assert_eq!(num_parts(top(&env)), (vec![2, 2], vec![6, 3, 8, 4]));
    let env = run(repeat, vec![num(8), num(-2), func(bound(Primitive::Mul, 2))]);
    assert_eq!(num_parts(top(&env)), (vec![], vec![2]));
}

#[test]
fn errors_leave_operands_off_and_push_nothing() {
    let base = || num(99);
    let mut env = stack(vec![base(), nums(vec![0], vec![]), func(generic(Primitive::Add))]);
    assert_eq!(reduce(&mut env), Err(Error::EmptyReduce));
    assert_eq!(env.stack.len(), 1);
    assert_eq!(num_parts(top(&env)), (vec![], vec![99]));
    let mut env = stack(vec![base(), num(3), func(prim(Primitive::Add))]);
    assert_eq!(scan(&mut env), Err(Error::ScanRankZero));
    assert_eq!(env.stack.len(), 1);
    let mut env = stack(vec![base(), num(1), nums(vec![2], vec![1, 2]), func(prim(Primitive::Identity))]);
    assert_eq!(repeat(&mut env), Err(Error::BadRepetitions));
    assert_eq!(env.stack.len(), 2);
    let stop = Function { prim: Primitive::Add, flipped: false, bound: None, until: Some(0) };
    let mut env = stack(vec![base(), nums(vec![1], vec![1]), nums(vec![1], vec![1]), func(stop)]);
    assert_eq!(table(&mut env), Err(Error::BreakNotAllowed));
    assert_eq!(env.stack.len(), 1);
    let mut env = stack(vec![base(), num(1), num(2)]);
    assert_eq!(reduce(&mut env), Err(Error::ExpectedFunction));
    assert_eq!(env.stack.len(), 3);
}

#[test]
fn level_shortcuts_take_any_function() {
    // infinity: one call, with as many arguments as the function takes
    let env = run(level, vec![num(10), num(3), func(prim(Primitive::Sub)), nums(vec![1], vec![i64::MAX]), func(prim(Primitive::Identity))]);
    assert_eq!(env.stack.len(), 1);
    assert_eq!(num_parts(top(&env)), (vec![], vec![-7]));
    // rank 0 with a function that returns nothing: each consumes the array
    let env = run(level, vec![nums(vec![2], vec![1, 2]), func(prim(Primitive::Pop)), nums(vec![1], vec![0]), func(prim(Primitive::Identity))]);
    assert_eq!(env.stack.len(), 0);
    // rank 0 with a two-argument function: each pairs the two arrays
    let env = run(level, vec![nums(vec![2], vec![10, 20]), nums(vec![2], vec![1, 2]), func(prim(Primitive::Add)), nums(vec![1], vec![0]), func(prim(Primitive::Identity))]);
    assert_eq!(num_parts(top(&env)), (vec![2], vec![11, 22]));
}
