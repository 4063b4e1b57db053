//! The declarative meaning of a plan: the relation it denotes at one time,
//! given the relations its leaves name.
use vstd::prelude::*;
use crate::datum::{Value, ValueModel, eval_exprs, select, complement, tuple_view};
use crate::plan::{PlanModel, NodeModel, Predicate, left_keys, right_keys};

verus! {

/// A snapshot of a relation: updates `(tuple, diff)` whose diffs sum per tuple.
pub type Rel = Seq<(Seq<ValueModel>, int)>;

/// The multiplicity of `t` in `r`: the sum of the diffs of its updates.
pub open spec fn count(r: Rel, t: Seq<ValueModel>) -> int
    decreases r.len(),
{
    if r.len() == 0 {
        0
    } else {
        count(r.drop_last(), t) + if r.last().0 == t {
            r.last().1
        } else {
            0
        }
    }
}

/// Every update in `r` has a tuple of `n` columns.
pub open spec fn has_arity(r: Rel, n: nat) -> bool {
    forall|k: int| 0 <= k < r.len() ==> (#[trigger] r[k]).0.len() == n
}

/// The updates of `r` with their diffs negated.
pub open spec fn negate_rel(r: Rel) -> Rel {
    r.map_values(|u: (Seq<ValueModel>, int)| (u.0, -u.1))
}

/// The updates of `r` with each tuple re-computed from `es`.
pub open spec fn remap_rel(r: Rel, es: Seq<crate::datum::Expression>) -> Rel {
    r.map_values(|u: (Seq<ValueModel>, int)| (eval_exprs(u.0, es), u.1))
}

/// Whether a tuple satisfies a predicate.
pub open spec fn holds(p: Predicate, t: Seq<ValueModel>) -> bool {
    match p {
        Predicate::Equal(i, j) => t[i as int] == t[j as int],
        Predicate::NotEqual(i, j) => t[i as int] != t[j as int],
        Predicate::LessThan(i, j) => match (t[i as int], t[j as int]) {
            (ValueModel::Usize(a), ValueModel::Usize(b)) => a < b,
            (ValueModel::Isize(a), ValueModel::Isize(b)) => a < b,
            _ => false,
        },
        Predicate::LessEqual(i, j) => match (t[i as int], t[j as int]) {
            (ValueModel::Usize(a), ValueModel::Usize(b)) => a <= b,
            (ValueModel::Isize(a), ValueModel::Isize(b)) => a <= b,
            _ => false,
        },
    }
}

/// The updates of `r` whose tuples satisfy `p`.
pub open spec fn filter_rel(r: Rel, p: Predicate) -> Rel
    decreases r.len(),
{
    if r.len() == 0 {
        r
    } else if holds(p, r.last().0) {
        filter_rel(r.drop_last(), p).push(r.last())
    } else {
        filter_rel(r.drop_last(), p)
    }
}

/// The tuples of `r`, each once, in order of first appearance.
pub open spec fn support(r: Rel) -> Seq<Seq<ValueModel>>
    decreases r.len(),
{
    if r.len() == 0 {
        Seq::empty()
    } else if support(r.drop_last()).contains(r.last().0) {
        support(r.drop_last())
    } else {
        support(r.drop_last()).push(r.last().0)
    }
}

/// Each tuple of `ts` whose multiplicity in `r` is positive, with diff one.
pub open spec fn positive_of(ts: Seq<Seq<ValueModel>>, r: Rel) -> Rel
    decreases ts.len(),
{
    if ts.len() == 0 {
        Seq::empty()
    } else if count(r, ts.last()) > 0 {
        positive_of(ts.drop_last(), r).push((ts.last(), 1int))
    } else {
        positive_of(ts.drop_last(), r)
    }
}

/// Each tuple of `ts` whose multiplicity in `r` is not zero, with that multiplicity.
pub open spec fn nonzero_of(ts: Seq<Seq<ValueModel>>, r: Rel) -> Rel
    decreases ts.len(),
{
    if ts.len() == 0 {
        Seq::empty()
    } else if count(r, ts.last()) != 0 {
        nonzero_of(ts.drop_last(), r).push((ts.last(), count(r, ts.last())))
    } else {
        nonzero_of(ts.drop_last(), r)
    }
}

/// The set of tuples with positive multiplicity, each with diff one.
pub open spec fn distinct_rel(r: Rel) -> Rel {
    positive_of(support(r), r)
}

/// The tuples with a non-zero multiplicity, each once with that multiplicity.
pub open spec fn consolidate_rel(r: Rel) -> Rel {
    nonzero_of(support(r), r)
}

/// Key and value columns of a join's left and right inputs.
pub open spec fn join_out(
    keys: Seq<(usize, usize)>,
    arity1: nat,
    arity2: nat,
    t1: Seq<ValueModel>,
    t2: Seq<ValueModel>,
) -> Seq<ValueModel> {
    select(t1, left_keys(keys)) + select(t1, complement(arity1, left_keys(keys)))
        + select(t2, complement(arity2, right_keys(keys)))
}

/// Whether two tuples agree on the join keys.
pub open spec fn join_match(keys: Seq<(usize, usize)>, t1: Seq<ValueModel>, t2: Seq<ValueModel>) -> bool {
    select(t1, left_keys(keys)) == select(t2, right_keys(keys))
}

/// The joined updates of one left update with every right update.
pub open spec fn join_one(
    keys: Seq<(usize, usize)>,
    arity1: nat,
    arity2: nat,
    u: (Seq<ValueModel>, int),
    b: Rel,
) -> Rel
    decreases b.len(),
{
    if b.len() == 0 {
        Seq::empty()
    } else if join_match(keys, u.0, b.last().0) {
        join_one(keys, arity1, arity2, u, b.drop_last()).push(
            (join_out(keys, arity1, arity2, u.0, b.last().0), u.1 * b.last().1),
        )
    } else {
        join_one(keys, arity1, arity2, u, b.drop_last())
    }
}

/// The equijoin of two relations; diffs multiply.
pub open spec fn join_rel(keys: Seq<(usize, usize)>, arity1: nat, arity2: nat, a: Rel, b: Rel) -> Rel
    decreases a.len(),
{
    if a.len() == 0 {
        Seq::empty()
    } else {
        join_rel(keys, arity1, arity2, a.drop_last(), b) + join_one(keys, arity1, arity2, a.last(), b)
    }
}

/// The number of columns of all plans together.
pub open spec fn total_arity(ps: Seq<PlanModel>) -> nat
    decreases ps.len(),
{
    if ps.len() == 0 {
        0
    } else {
        total_arity(ps.drop_last()) + ps.last().arity
    }
}

/// Where the columns of source `s` start in a concatenation of one tuple from
/// each source.
pub open spec fn offset(ms: Seq<PlanModel>, s: int) -> nat {
    total_arity(ms.subrange(0, s))
}

/// The column of a concatenated tuple that holds position `(source, column)`.
pub open spec fn position(ms: Seq<PlanModel>, pos: (usize, usize)) -> usize {
    (offset(ms, pos.0 as int) + pos.1) as usize
}

/// The pairs of columns that the first `j` positions of one equality class
/// make equal: its first position with each later one.
pub open spec fn class_prefix_pairs(ms: Seq<PlanModel>, class: Seq<(usize, usize)>, j: nat) -> Seq<(usize, usize)>
    decreases j,
{
    if j <= 1 {
        Seq::empty()
    } else {
        class_prefix_pairs(ms, class, (j - 1) as nat).push(
            (position(ms, class[0]), position(ms, class[j - 1])),
        )
    }
}

/// The pairs of columns that all equality classes make equal, class by class.
pub open spec fn class_pairs(ms: Seq<PlanModel>, classes: Seq<Seq<(usize, usize)>>) -> Seq<(usize, usize)>
    decreases classes.len(),
{
    if classes.len() == 0 {
        Seq::empty()
    } else {
        class_pairs(ms, classes.drop_last()) + class_prefix_pairs(ms, classes.last(), classes.last().len())
    }
}

/// The updates whose tuples hold equal values at each pair of columns.
pub open spec fn filter_pairs(r: Rel, pairs: Seq<(usize, usize)>) -> Rel
    decreases pairs.len(),
{
    if pairs.len() == 0 {
        r
    } else {
        filter_rel(filter_pairs(r, pairs.drop_last()), Predicate::Equal(pairs.last().0, pairs.last().1))
    }
}

/// The expressions that read the result positions of a multiway join.
pub open spec fn result_exprs(ms: Seq<PlanModel>, results: Seq<(usize, usize)>) -> Seq<crate::datum::Expression> {
    results.map_values(|pos: (usize, usize)| crate::datum::Expression::Projection(position(ms, pos)))
}

/// One update concatenated with every update of `b`; diffs multiply.
pub open spec fn cross_one(u: (Seq<ValueModel>, int), b: Rel) -> Rel
    decreases b.len(),
{
    if b.len() == 0 {
        Seq::empty()
    } else {
        cross_one(u, b.drop_last()).push((u.0 + b.last().0, u.1 * b.last().1))
    }
}

/// Every update of `a` concatenated with every update of `b`.
pub open spec fn cross(a: Rel, b: Rel) -> Rel
    decreases a.len(),
{
    if a.len() == 0 {
        Seq::empty()
    } else {
        cross(a.drop_last(), b) + cross_one(a.last(), b)
    }
}

/// One update from each relation, concatenated in order.
pub open spec fn cross_all(rs: Seq<Rel>) -> Rel
    decreases rs.len(),
{
    if rs.len() == 0 {
        Seq::empty()
    } else if rs.len() == 1 {
        rs[0]
    } else {
        cross(cross_all(rs.drop_last()), rs.last())
    }
}

/// The relation a plan denotes, given what each leaf plan holds. A multiway
/// join concatenates one tuple from each source, keeps the tuples in which
/// every position of each equality class holds the value of the class's first
/// position, and reports the result positions.
pub open spec fn denote(p: PlanModel, env: spec_fn(PlanModel) -> Rel) -> Rel
    decreases p,
{
    match p.node {
        NodeModel::Remap(es, c) => remap_rel(denote(*c, env), es),
        NodeModel::Distinct(c) => distinct_rel(denote(*c, env)),
        NodeModel::Concat(cs) => concat_all(denote_each(cs, env)),
        NodeModel::Consolidate(c) => consolidate_rel(denote(*c, env)),
        NodeModel::Join(keys, a, b) => join_rel(keys, a.arity, b.arity, denote(*a, env), denote(*b, env)),
        NodeModel::MultiwayJoin(results, sources, classes) => remap_rel(
            filter_pairs(cross_all(denote_each(sources, env)), class_pairs(sources, classes)),
            result_exprs(sources, results),
        ),
        NodeModel::Negate(c) => negate_rel(denote(*c, env)),
        NodeModel::Filter(pred, c) => filter_rel(denote(*c, env), pred),
        NodeModel::Source(_) => env(p),
        NodeModel::Local(_) => env(p),
        NodeModel::Inspect(_, c) => denote(*c, env),
    }
}

/// The relations denoted by each plan of a sequence.
pub open spec fn denote_each(ps: Seq<PlanModel>, env: spec_fn(PlanModel) -> Rel) -> Seq<Rel>
    decreases ps,
{
    if ps.len() == 0 {
        Seq::empty()
    } else {
        denote_each(ps.drop_last(), env).push(denote(ps.last(), env))
    }
}

/// All updates of the relations, in order.
pub open spec fn concat_all(rs: Seq<Rel>) -> Rel
    decreases rs.len(),
{
    if rs.len() == 0 {
        Seq::empty()
    } else {
        concat_all(rs.drop_last()) + rs.last()
    }
}


impl Predicate {
    /// The columns the predicate reads are columns of a tuple of `n` columns.
    pub open spec fn reads_below(self, n: nat) -> bool {
        match self {
            Predicate::Equal(i, j) => i < n && j < n,
            Predicate::NotEqual(i, j) => i < n && j < n,
            Predicate::LessThan(i, j) => i < n && j < n,
            Predicate::LessEqual(i, j) => i < n && j < n,
        }
    }

    /// Whether a tuple satisfies the predicate.
    pub fn satisfied(&self, tuple: &[Value]) -> (r: bool)
        requires
            self.reads_below(tuple@.len()),
        ensures
            r == holds(*self, tuple_view(tuple@)),
    {
        match *self {
            Predicate::Equal(i, j) => tuple[i].equals(&tuple[j]),
            Predicate::NotEqual(i, j) => !tuple[i].equals(&tuple[j]),
            Predicate::LessThan(i, j) => match (&tuple[i], &tuple[j]) {
                (Value::Usize(a), Value::Usize(b)) => *a < *b,
                (Value::Isize(a), Value::Isize(b)) => *a < *b,
                _ => false,
            },
            Predicate::LessEqual(i, j) => match (&tuple[i], &tuple[j]) {
                (Value::Usize(a), Value::Usize(b)) => *a <= *b,
                (Value::Isize(a), Value::Isize(b)) => *a <= *b,
                _ => false,
            },
        }
    }
}

} // verus!
