//! The values carried by tuples, and the expressions evaluated against tuples.
use vstd::prelude::*;

verus! {

/// A single datum of a tuple.
#[derive(Debug)]
pub enum Value {
    Bool(bool),
    Usize(usize),
    Isize(isize),
    String(String),
    Bytes(Vec<u8>),
}

/// The mathematical content of a [`Value`].
pub enum ValueModel {
    Bool(bool),
    Usize(usize),
    Isize(isize),
    String(Seq<char>),
    Bytes(Seq<u8>),
}

impl View for Value {
    type V = ValueModel;

    open spec fn view(&self) -> ValueModel {
        match self {
            Value::Bool(b) => ValueModel::Bool(*b),
            Value::Usize(u) => ValueModel::Usize(*u),
            Value::Isize(i) => ValueModel::Isize(*i),
            Value::String(s) => ValueModel::String(s@),
            Value::Bytes(b) => ValueModel::Bytes(b@),
        }
    }
}

impl Clone for Value {
    fn clone(&self) -> (r: Value)
        ensures
            r@ == self@,
    {
        self.duplicate()
    }
}

fn bytes_equal(a: &Vec<u8>, b: &Vec<u8>) -> (r: bool)
    ensures
        r == (a@ == b@),
{
    if a.len() != b.len() {
        return false;
    }
    let mut k: usize = 0;
    while k < a.len()
        invariant
            k <= a@.len(),
            a@.len() == b@.len(),
            forall|j: int| 0 <= j < k ==> a@[j] == b@[j],
        decreases a@.len() - k,
    {
        if a[k] != b[k] {
            return false;
        }
        k = k + 1;
    }
    assert(a@ =~= b@);
    true
}

fn copy_bytes(a: &Vec<u8>) -> (r: Vec<u8>)
    ensures
        r@ == a@,
{
    let mut r: Vec<u8> = Vec::new();
    let mut k: usize = 0;
    while k < a.len()
        invariant
            k <= a@.len(),
            r@ == a@.subrange(0, k as int),
        decreases a@.len() - k,
    {
        r.push(a[k]);
        k = k + 1;
        assert(r@ =~= a@.subrange(0, k as int));
    }
    assert(a@.subrange(0, k as int) =~= a@);
    r
}

/// The content of a tuple of values.
pub open spec fn tuple_view(t: Seq<Value>) -> Seq<ValueModel> {
    t.map_values(|v: Value| v@)
}

impl Value {
    /// Structural equality of two values.
    pub fn equals(&self, other: &Value) -> (r: bool)
        ensures
            r == (self@ == other@),
    {
        match (self, other) {
            (Value::Bool(a), Value::Bool(b)) => *a == *b,
            (Value::Usize(a), Value::Usize(b)) => *a == *b,
            (Value::Isize(a), Value::Isize(b)) => *a == *b,
            (Value::String(a), Value::String(b)) => *a == *b,
            (Value::Bytes(a), Value::Bytes(b)) => bytes_equal(a, b),
            _ => false,
        }
    }

    /// A copy of the value with the same content.
    pub fn duplicate(&self) -> (r: Value)
        ensures
            r@ == self@,
    {
        match self {
            Value::Bool(b) => Value::Bool(*b),
            Value::Usize(u) => Value::Usize(*u),
            Value::Isize(i) => Value::Isize(*i),
            Value::String(s) => Value::String(s.clone()),
            Value::Bytes(b) => Value::Bytes(copy_bytes(b)),
        }
    }
}

/// An expression evaluated against a tuple to produce a value.
#[derive(Clone, Copy, Debug, PartialEq, Eq, Structural)]
pub enum Expression {
    /// The value of the column at this index.
    Projection(usize),
}

impl Expression {
    /// The largest column index the expression reads, plus one.
    pub open spec fn reads_below(self, n: nat) -> bool {
        match self {
            Expression::Projection(i) => i < n,
        }
    }
}

/// What an expression evaluates to on a tuple whose columns it reads.
pub open spec fn eval_expr(t: Seq<ValueModel>, e: Expression) -> ValueModel {
    match e {
        Expression::Projection(i) => t[i as int],
    }
}

/// Evaluates each expression in turn against one tuple.
pub open spec fn eval_exprs(t: Seq<ValueModel>, es: Seq<Expression>) -> Seq<ValueModel> {
    es.map_values(|e: Expression| eval_expr(t, e))
}

/// The columns of `t` at the positions `idx`, in that order.
pub open spec fn select(t: Seq<ValueModel>, idx: Seq<usize>) -> Seq<ValueModel> {
    idx.map_values(|i: usize| t[i as int])
}

/// Every index in `idx` is a column of a tuple of `n` columns.
pub open spec fn indices_below(idx: Seq<usize>, n: nat) -> bool {
    forall|k: int| 0 <= k < idx.len() ==> (#[trigger] idx[k]) < n
}

/// The ascending positions below `n` that do not occur in `keys`.
pub open spec fn complement(n: nat, keys: Seq<usize>) -> Seq<usize>
    decreases n,
{
    if n == 0 {
        Seq::empty()
    } else if keys.contains((n - 1) as usize) {
        complement((n - 1) as nat, keys)
    } else {
        complement((n - 1) as nat, keys).push((n - 1) as usize)
    }
}

/// The positions `0, 1, ..., n - 1`.
pub open spec fn all_columns(n: nat) -> Seq<usize> {
    Seq::new(n, |i: int| i as usize)
}

impl Value {
    /// Evaluates an expression against a tuple.
    pub fn subject_to(tuple: &[Value], expr: &Expression) -> (r: Value)
        requires
            expr.reads_below(tuple@.len()),
        ensures
            r@ == eval_expr(tuple_view(tuple@), *expr),
    {
        match expr {
            Expression::Projection(i) => tuple[*i].duplicate(),
        }
    }

    /// The expression that reads column `index`.
    pub fn projection(index: usize) -> (r: Expression)
        ensures
            r == Expression::Projection(index),
    {
        Expression::Projection(index)
    }
}

/// Evaluates each expression against one tuple, giving the new tuple.
pub fn evaluate_all(tuple: &[Value], exprs: &Vec<Expression>) -> (r: Vec<Value>)
    requires
        forall|k: int| 0 <= k < exprs@.len() ==> (#[trigger] exprs@[k]).reads_below(tuple@.len()),
    ensures
        tuple_view(r@) == eval_exprs(tuple_view(tuple@), exprs@),
{
    let mut r: Vec<Value> = Vec::new();
    let mut k: usize = 0;
    while k < exprs.len()
        invariant
            k <= exprs@.len(),
            forall|j: int| 0 <= j < exprs@.len() ==> (#[trigger] exprs@[j]).reads_below(tuple@.len()),
            r@.len() == k,
            forall|j: int| 0 <= j < k ==> (#[trigger] r@[j])@ == eval_expr(tuple_view(tuple@), exprs@[j]),
        decreases exprs@.len() - k,
    {
        let v = Value::subject_to(tuple, &exprs[k]);
        r.push(v);
        k = k + 1;
    }
    assert(tuple_view(r@) =~= eval_exprs(tuple_view(tuple@), exprs@));
    r
}

/// The columns of a tuple at the given positions, in that order.
pub fn project_columns(tuple: &[Value], indices: &[usize]) -> (r: Vec<Value>)
    requires
        indices_below(indices@, tuple@.len()),
    ensures
        tuple_view(r@) == select(tuple_view(tuple@), indices@),
{
    let mut r: Vec<Value> = Vec::new();
    let mut k: usize = 0;
    while k < indices.len()
        invariant
            k <= indices@.len(),
            indices_below(indices@, tuple@.len()),
            r@.len() == k,
            forall|j: int| 0 <= j < k ==> (#[trigger] r@[j])@ == tuple@[indices@[j] as int]@,
        decreases indices@.len() - k,
    {
        let v = tuple[indices[k]].duplicate();
        r.push(v);
        k = k + 1;
    }
    assert(tuple_view(r@) =~= select(tuple_view(tuple@), indices@));
    r
}

/// The columns below `arity` that are not keys, ascending: the value side of an
/// arrangement keyed by `keys`.
pub fn value_columns(arity: usize, keys: &[usize]) -> (r: Vec<usize>)
    ensures
        r@ == complement(arity as nat, keys@),
{
    let mut r: Vec<usize> = Vec::new();
    let mut i: usize = 0;
    while i < arity
        invariant
            i <= arity,
            r@ == complement(i as nat, keys@),
        decreases arity - i,
    {
        let mut found = false;
        let mut k: usize = 0;
        while k < keys.len()
            invariant
                k <= keys@.len(),
                found == (exists|j: int| 0 <= j < k && keys@[j] == i),
            decreases keys@.len() - k,
        {
            if keys[k] == i {
                found = true;
            }
            k = k + 1;
        }
        if !found {
            r.push(i);
        }
        i = i + 1;
    }
    r
}

/// The key columns `0, 1, ..., arity - 1` used when no key is named.
pub fn default_keys(arity: usize) -> (r: Vec<usize>)
    ensures
        r@ == all_columns(arity as nat),
{
    let mut r: Vec<usize> = Vec::new();
    let mut i: usize = 0;
    while i < arity
        invariant
            i <= arity,
            r@ =~= all_columns(i as nat),
        decreases arity - i,
    {
        r.push(i);
        i = i + 1;
    }
    r
}

/// A copy of a list of column indices.
pub fn copy_indices(a: &[usize]) -> (r: Vec<usize>)
    ensures
        r@ == a@,
{
    let mut r: Vec<usize> = Vec::new();
    let mut k: usize = 0;
    while k < a.len()
        invariant
            k <= a@.len(),
            r@ == a@.subrange(0, k as int),
        decreases a@.len() - k,
    {
        r.push(a[k]);
        k = k + 1;
        assert(r@ =~= a@.subrange(0, k as int));
    }
    assert(a@.subrange(0, k as int) =~= a@);
    r
}

/// Splits a tuple into its key and value parts for an arrangement.
pub fn key_value_split(tuple: &[Value], keys: &[usize], vals: &[usize]) -> (r: (Vec<Value>, Vec<Value>))
    requires
        indices_below(keys@, tuple@.len()),
        indices_below(vals@, tuple@.len()),
    ensures
        tuple_view(r.0@) == select(tuple_view(tuple@), keys@),
        tuple_view(r.1@) == select(tuple_view(tuple@), vals@),
{
    (project_columns(tuple, keys), project_columns(tuple, vals))
}

/// Joins a key with the values of two matched records: `key ++ vals1 ++ vals2`.
pub fn join_output(key: &[Value], vals1: &[Value], vals2: &[Value]) -> (r: Vec<Value>)
    ensures
        tuple_view(r@) == tuple_view(key@) + tuple_view(vals1@) + tuple_view(vals2@),
{
    let mut r: Vec<Value> = Vec::new();
    append_values(&mut r, key);
    append_values(&mut r, vals1);
    append_values(&mut r, vals2);
    r
}

/// Appends copies of `more` to `out`.
fn append_values(out: &mut Vec<Value>, more: &[Value])
    ensures
        tuple_view(final(out)@) == tuple_view(old(out)@) + tuple_view(more@),
{
    let ghost start = out@;
    let mut k: usize = 0;
    while k < more.len()
        invariant
            k <= more@.len(),
            out@.len() == start.len() + k,
            forall|j: int| 0 <= j < start.len() ==> (#[trigger] out@[j])@ == start[j]@,
            forall|j: int| 0 <= j < k ==> (#[trigger] out@[start.len() + j])@ == more@[j]@,
        decreases more@.len() - k,
    {
        out.push(more[k].duplicate());
        k = k + 1;
    }
    assert forall|j: int| start.len() <= j < out@.len() implies (#[trigger] out@[j])@ == more@[j - start.len()]@ by {
        let jj = j - start.len();
        assert(out@[start.len() + jj] == out@[j]);
    }
    assert(tuple_view(out@) =~= tuple_view(start) + tuple_view(more@));
}

} // verus!
