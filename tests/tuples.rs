use interactive::datum::{
    Expression, Value, default_keys, evaluate_all, join_output, key_value_split, project_columns, value_columns,
};

fn u(x: usize) -> Value {
    Value::Usize(x)
}

fn same(a: &[Value], b: &[Value]) -> bool {
    a.len() == b.len() && a.iter().zip(b.iter()).all(|(x, y)| x.equals(y))
}

#[test]
fn subject_to_reads_a_column() {
    let t = vec![u(7), u(8), Value::Bool(true)];
    assert!(Value::subject_to(&t, &Value::projection(2)).equals(&Value::Bool(true)));
    assert!(Value::subject_to(&t, &Expression::Projection(0)).equals(&u(7)));
}

#[test]
fn evaluate_all_reorders_columns() {
    let t = vec![u(0), u(1), u(2)];
    let r = evaluate_all(&t, &vec![Expression::Projection(2), Expression::Projection(0)]);
    assert!(same(&r, &[u(2), u(0)]));
}

#[test]
fn project_identity_on_three_columns() {
    let t = vec![u(4), Value::String("x".to_string()), Value::Isize(-3)];
    let r = project_columns(&t, &[0, 1, 2]);
    assert!(same(&r, &t));
}

#[test]
fn value_columns_skip_keys() {
    assert_eq!(value_columns(4, &[2, 0]), vec![1, 3]);
    assert_eq!(value_columns(3, &[]), vec![0, 1, 2]);
    assert_eq!(value_columns(2, &[0, 1]), Vec::<usize>::new());
    assert_eq!(value_columns(0, &[]), Vec::<usize>::new());
}

#[test]
fn default_keys_are_all_columns() {
    assert_eq!(default_keys(3), vec![0, 1, 2]);
    assert_eq!(default_keys(0), Vec::<usize>::new());
}

#[test]
fn key_value_split_and_join_output() {
    let t = vec![u(1), u(2), u(3)];
    let (k, v) = key_value_split(&t, &[1], &[0, 2]);
    assert!(same(&k, &[u(2)]));
    assert!(same(&v, &[u(1), u(3)]));
    let out = join_output(&k, &v, &[u(9)]);
    assert!(same(&out, &[u(2), u(1), u(3), u(9)]));
}

#[test]
fn values_compare_by_content() {
    assert!(Value::String("ab".to_string()).equals(&Value::String("ab".to_string())));
    assert!(!Value::String("ab".to_string()).equals(&Value::String("b".to_string())));
    assert!(!u(1).equals(&Value::Isize(1)));
    assert!(Value::Bool(false).duplicate().equals(&Value::Bool(false)));
}

#[test]
fn projecting_three_columns_in_order_is_identity() {
    let t = vec![u(9), Value::Bool(false), Value::String("z".to_string())];
    let exprs = vec![Value::projection(0), Value::projection(1), Value::projection(2)];
    assert!(same(&evaluate_all(&t, &exprs), &t));
}

#[test]
fn join_outputs_differ_only_in_column_order() {
    // A(x, a) joined with B(b, x) on A.0 = B.1, and the other way round.
    let a = vec![u(1), u(10)];
    let b = vec![u(20), u(1)];
    let (ka, va) = key_value_split(&a, &[0], &value_columns(2, &[0]));
    let (kb, vb) = key_value_split(&b, &[1], &value_columns(2, &[1]));
    assert!(same(&ka, &kb));
    let ab = join_output(&ka, &va, &vb);
    let ba = join_output(&kb, &vb, &va);
    assert!(same(&ab, &[u(1), u(10), u(20)]));
    assert!(same(&ba, &[u(1), u(20), u(10)]));
}

#[test]
fn bytes_compare_by_content() {
    let a = Value::Bytes(vec![1, 2, 3]);
    assert!(a.equals(&Value::Bytes(vec![1, 2, 3])));
    assert!(!a.equals(&Value::Bytes(vec![1, 2])));
    assert!(!a.equals(&Value::String("abc".to_string())));
    assert!(a.duplicate().equals(&a));
}
