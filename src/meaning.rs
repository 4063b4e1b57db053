//! What a program of steps computes at one time, given what its imports and
//! variables hold, and the theorem that a step realizing a plan computes the
//! relation the plan denotes.
use vstd::prelude::*;
use crate::cache::ArrangementKey;
use crate::datum::{ValueModel, all_columns, complement, select, indices_below};
use crate::plan::{NodeModel, Plan, PlanModel, PlanNode, keys_fit, left_keys, lemma_models, models, right_keys};
use crate::render::{
    RenderError, Stash, Step, consistent, program_model, rendered, StepModel, all_implement, all_well_formed, all_well_formed_any, arranges, chain, filtered, implements,
    multiway_ok, program_wf, step_ok, well_formed,
};
use crate::semantics::{
    Rel, class_pairs, cross, cross_all, cross_one, filter_pairs, offset, result_exprs, total_arity, concat_all, consolidate_rel, denote, denote_each, distinct_rel, filter_rel, has_arity, join_match,
    join_one, join_out, join_rel, negate_rel, nonzero_of, positive_of, remap_rel, support,
};

verus! {

/// An arrangement at one time: records `((key, value), diff)`.
pub type Arr = Seq<((Seq<ValueModel>, Seq<ValueModel>), int)>;

/// Each update's tuple split into the `keys` columns and the `vals` columns.
pub open spec fn arrange_rel(r: Rel, keys: Seq<usize>, vals: Seq<usize>) -> Arr {
    r.map_values(|u: (Seq<ValueModel>, int)| ((select(u.0, keys), select(u.0, vals)), u.1))
}

/// The key of each record, with its diff.
pub open spec fn keys_rel(a: Arr) -> Rel {
    a.map_values(|u: ((Seq<ValueModel>, Seq<ValueModel>), int)| (u.0.0, u.1))
}

/// One record joined with every record of `b` that has its key.
pub open spec fn join_arr_one(x: ((Seq<ValueModel>, Seq<ValueModel>), int), b: Arr) -> Rel
    decreases b.len(),
{
    if b.len() == 0 {
        Seq::empty()
    } else if x.0.0 == b.last().0.0 {
        join_arr_one(x, b.drop_last()).push((x.0.0 + x.0.1 + b.last().0.1, x.1 * b.last().1))
    } else {
        join_arr_one(x, b.drop_last())
    }
}

/// Every pair of records with equal keys: key, left value, right value.
pub open spec fn join_arr(a: Arr, b: Arr) -> Rel
    decreases a.len(),
{
    if a.len() == 0 {
        Seq::empty()
    } else {
        join_arr(a.drop_last(), b) + join_arr_one(a.last(), b)
    }
}

/// Each key of positive multiplicity, once, with no value and diff one.
pub open spec fn distinct_arr(a: Arr) -> Arr {
    positive_of(support(keys_rel(a)), keys_rel(a)).map_values(
        |u: (Seq<ValueModel>, int)| ((u.0, Seq::<ValueModel>::empty()), u.1),
    )
}

/// The collection step `i` computes, given the imported arrangements and the
/// variables' contents.
pub open spec fn eval(p: Seq<StepModel>, imp: spec_fn(nat) -> Arr, var: spec_fn(nat) -> Rel, i: nat) -> Rel
    decreases i, 1nat, 0nat,
{
    if i >= p.len() {
        Seq::empty()
    } else {
        match p[i as int] {
            StepModel::Variable(r, _) => var(r),
            StepModel::Keys(a) => if a < i { keys_rel(eval_arr(p, imp, var, a)) } else { Seq::empty() },
            StepModel::Remap(c, es) => if c < i { remap_rel(eval(p, imp, var, c), es) } else { Seq::empty() },
            StepModel::Filter(c, pred) => if c < i { filter_rel(eval(p, imp, var, c), pred) } else { Seq::empty() },
            StepModel::Concat(cs) => concat_all(eval_list(p, imp, var, cs, i)),
            StepModel::Consolidate(c) => if c < i { consolidate_rel(eval(p, imp, var, c)) } else { Seq::empty() },
            StepModel::Negate(c) => if c < i { negate_rel(eval(p, imp, var, c)) } else { Seq::empty() },
            StepModel::Inspect(c, _) => if c < i { eval(p, imp, var, c) } else { Seq::empty() },
            StepModel::JoinCore(a, b) => if a < i && b < i {
                join_arr(eval_arr(p, imp, var, a), eval_arr(p, imp, var, b))
            } else {
                Seq::empty()
            },
            _ => Seq::empty(),
        }
    }
}

/// The arrangement step `a` computes.
pub open spec fn eval_arr(p: Seq<StepModel>, imp: spec_fn(nat) -> Arr, var: spec_fn(nat) -> Rel, a: nat) -> Arr
    decreases a, 1nat, 0nat,
{
    if a >= p.len() {
        Seq::empty()
    } else {
        match p[a as int] {
            StepModel::Import(j) => imp(j),
            StepModel::Arrange(c, keys, vals) => if c < a {
                arrange_rel(eval(p, imp, var, c), keys, vals)
            } else {
                Seq::empty()
            },
            StepModel::Distinct(b) => if b < a { distinct_arr(eval_arr(p, imp, var, b)) } else { Seq::empty() },
            _ => Seq::empty(),
        }
    }
}

/// The collections the steps `ids` compute, each below `bound`.
pub open spec fn eval_list(
    p: Seq<StepModel>,
    imp: spec_fn(nat) -> Arr,
    var: spec_fn(nat) -> Rel,
    ids: Seq<usize>,
    bound: nat,
) -> Seq<Rel>
    decreases bound, 0nat, ids.len(),
{
    if ids.len() == 0 {
        Seq::empty()
    } else {
        eval_list(p, imp, var, ids.drop_last(), bound).push(
            if (ids.last() as nat) < bound { eval(p, imp, var, ids.last() as nat) } else { Seq::empty() },
        )
    }
}

/// Every arity in the plan can be counted by an index, as the arity of any
/// plan built by the library can.
pub open spec fn arities_fit(q: PlanModel) -> bool
    decreases q,
{
    q.arity <= usize::MAX && match q.node {
        NodeModel::Remap(_, c) => arities_fit(*c),
        NodeModel::Distinct(c) => arities_fit(*c),
        NodeModel::Concat(cs) => all_arities_fit(cs),
        NodeModel::Consolidate(c) => arities_fit(*c),
        NodeModel::Join(_, a, b) => arities_fit(*a) && arities_fit(*b),
        NodeModel::MultiwayJoin(_, srcs, _) => all_arities_fit(srcs),
        NodeModel::Negate(c) => arities_fit(*c),
        NodeModel::Filter(_, c) => arities_fit(*c),
        NodeModel::Source(_) => true,
        NodeModel::Local(_) => true,
        NodeModel::Inspect(_, c) => arities_fit(*c),
    }
}

/// Every arity in every plan of the sequence can be counted by an index.
pub open spec fn all_arities_fit(qs: Seq<PlanModel>) -> bool
    decreases qs,
{
    if qs.len() == 0 {
        true
    } else {
        all_arities_fit(qs.drop_last()) && arities_fit(qs.last())
    }
}

/// Each source or local relation has tuples of its plan's arity.
pub open spec fn env_fits(env: spec_fn(PlanModel) -> Rel) -> bool {
    forall|q: PlanModel| (#[trigger] q.node) is Source || q.node is Local ==> has_arity(env(q), q.arity)
}

/// Each variable step holds what its local relation holds.
pub open spec fn variables_hold(p: Seq<StepModel>, var: spec_fn(nat) -> Rel, env: spec_fn(PlanModel) -> Rel) -> bool {
    forall|i: int| 0 <= i < p.len() ==> match #[trigger] p[i] {
        StepModel::Variable(r, q) => var(r) == env(q),
        _ => true,
    }
}

/// Each imported arrangement holds its plan's relation, split by its keys.
pub open spec fn imports_hold(
    p: Seq<StepModel>,
    t: Map<ArrangementKey, usize>,
    imp: spec_fn(nat) -> Arr,
    var: spec_fn(nat) -> Rel,
    env: spec_fn(PlanModel) -> Rel,
) -> bool {
    forall|k: ArrangementKey| #[trigger] t.contains_key(k) ==> eval_arr(p, imp, var, t[k] as nat)
        == arrange_rel(denote(k.0, env), k.1, complement(k.0.arity, k.1))
}

proof fn lemma_join_arr_one(
    keys: Seq<(usize, usize)>,
    na: nat,
    nb: nat,
    u: (Seq<ValueModel>, int),
    b: Rel,
)
    ensures
        join_arr_one(
            ((select(u.0, left_keys(keys)), select(u.0, complement(na, left_keys(keys)))), u.1),
            arrange_rel(b, right_keys(keys), complement(nb, right_keys(keys))),
        ) == join_one(keys, na, nb, u, b),
    decreases b.len(),
{
    let rk = right_keys(keys);
    let cb = complement(nb, rk);
    if b.len() > 0 {
        assert(arrange_rel(b, rk, cb).drop_last() =~= arrange_rel(b.drop_last(), rk, cb));
        lemma_join_arr_one(keys, na, nb, u, b.drop_last());
    } else {
        assert(arrange_rel(b, rk, cb) =~= Seq::empty());
    }
}

/// Joining two arrangements split by the join's keys gives the declarative join.
pub proof fn lemma_join_arr(keys: Seq<(usize, usize)>, na: nat, nb: nat, a: Rel, b: Rel)
    ensures
        join_arr(
            arrange_rel(a, left_keys(keys), complement(na, left_keys(keys))),
            arrange_rel(b, right_keys(keys), complement(nb, right_keys(keys))),
        ) == join_rel(keys, na, nb, a, b),
    decreases a.len(),
{
    let lk = left_keys(keys);
    let ca = complement(na, lk);
    if a.len() > 0 {
        assert(arrange_rel(a, lk, ca).drop_last() =~= arrange_rel(a.drop_last(), lk, ca));
        lemma_join_arr(keys, na, nb, a.drop_last(), b);
        lemma_join_arr_one(keys, na, nb, a.last(), b);
    } else {
        assert(arrange_rel(a, lk, ca) =~= Seq::empty());
    }
}

/// Splitting tuples of `n` columns by all columns and taking the keys gives
/// the tuples back.
proof fn lemma_keys_all(r: Rel, n: nat, vals: Seq<usize>)
    requires
        has_arity(r, n),
        n <= usize::MAX,
    ensures
        keys_rel(arrange_rel(r, all_columns(n), vals)) == r,
{
    assert forall|k: int| 0 <= k < r.len() implies #[trigger] select(r[k].0, all_columns(n)) == r[k].0 by {
        assert(select(r[k].0, all_columns(n)) =~= r[k].0);
    }
    assert(keys_rel(arrange_rel(r, all_columns(n), vals)) =~= r);
}

proof fn lemma_positive_of_from(ts: Seq<Seq<ValueModel>>, r: Rel)
    ensures
        forall|k: int| 0 <= k < positive_of(ts, r).len() ==> ts.contains(#[trigger] positive_of(ts, r)[k].0),
    decreases ts.len(),
{
    if ts.len() > 0 {
        let q = ts.drop_last();
        lemma_positive_of_from(q, r);
        assert forall|k: int| 0 <= k < positive_of(ts, r).len() implies ts.contains(#[trigger] positive_of(ts, r)[k].0) by {
            let t = positive_of(ts, r)[k].0;
            if k < positive_of(q, r).len() {
                assert(positive_of(ts, r)[k] == positive_of(q, r)[k]);
                let j = choose|j: int| 0 <= j < q.len() && q[j] == t;
                assert(ts[j] == q[j]);
            } else {
                assert(ts[ts.len() - 1] == t);
            }
        }
    }
}

proof fn lemma_nonzero_of_from(ts: Seq<Seq<ValueModel>>, r: Rel)
    ensures
        forall|k: int| 0 <= k < nonzero_of(ts, r).len() ==> ts.contains(#[trigger] nonzero_of(ts, r)[k].0),
    decreases ts.len(),
{
    if ts.len() > 0 {
        let q = ts.drop_last();
        lemma_nonzero_of_from(q, r);
        assert forall|k: int| 0 <= k < nonzero_of(ts, r).len() implies ts.contains(#[trigger] nonzero_of(ts, r)[k].0) by {
            let t = nonzero_of(ts, r)[k].0;
            if k < nonzero_of(q, r).len() {
                assert(nonzero_of(ts, r)[k] == nonzero_of(q, r)[k]);
                let j = choose|j: int| 0 <= j < q.len() && q[j] == t;
                assert(ts[j] == q[j]);
            } else {
                assert(ts[ts.len() - 1] == t);
            }
        }
    }
}

/// The tuples of the support have the relation's arity.
proof fn lemma_support_arity(r: Rel, n: nat)
    requires
        has_arity(r, n),
    ensures
        forall|t: Seq<ValueModel>| #[trigger] support(r).contains(t) ==> t.len() == n,
{
    crate::laws::lemma_support(r);
    assert forall|t: Seq<ValueModel>| #[trigger] support(r).contains(t) implies t.len() == n by {
        let k = choose|k: int| 0 <= k < r.len() && r[k].0 == t;
    }
}

proof fn lemma_filter_arity(r: Rel, pred: crate::plan::Predicate, n: nat)
    requires
        has_arity(r, n),
    ensures
        has_arity(filter_rel(r, pred), n),
    decreases r.len(),
{
    if r.len() > 0 {
        assert(has_arity(r.drop_last(), n)) by {
            assert forall|k: int| 0 <= k < r.drop_last().len() implies (#[trigger] r.drop_last()[k]).0.len() == n by {
                assert(r.drop_last()[k] == r[k]);
            }
        }
        lemma_filter_arity(r.drop_last(), pred, n);
        assert(r.last() == r[r.len() - 1]);
    }
}

proof fn lemma_concat_arity(rs: Seq<Rel>, n: nat)
    requires
        forall|k: int| 0 <= k < rs.len() ==> has_arity(#[trigger] rs[k], n),
    ensures
        has_arity(concat_all(rs), n),
    decreases rs.len(),
{
    if rs.len() > 0 {
        assert forall|k: int| 0 <= k < rs.drop_last().len() implies has_arity(#[trigger] rs.drop_last()[k], n) by {
            assert(rs.drop_last()[k] == rs[k]);
        }
        lemma_concat_arity(rs.drop_last(), n);
        assert(has_arity(rs[rs.len() - 1], n));
        let a = concat_all(rs.drop_last());
        let b = rs.last();
        assert forall|k: int| 0 <= k < (a + b).len() implies (#[trigger] (a + b)[k]).0.len() == n by {
            if k >= a.len() {
                assert((a + b)[k] == b[k - a.len()]);
            }
        }
    }
}

/// Leaving out `keys`, distinct columns below `n`, leaves `n - keys.len()` columns.
pub proof fn lemma_complement_len(n: nat, keys: Seq<usize>)
    requires
        keys.no_duplicates(),
        indices_below(keys, n),
        n <= usize::MAX,
    ensures
        complement(n, keys).len() + keys.len() == n,
    decreases n,
{
    if n == 0 {
        if keys.len() > 0 {
            assert(keys[0] < 0);
        }
    } else {
        let m = (n - 1) as nat;
        let top = m as usize;
        if keys.contains(top) {
            let j = choose|j: int| 0 <= j < keys.len() && keys[j] == top;
            let rest = keys.remove(j);
            assert forall|a: int, b: int| 0 <= a < rest.len() && 0 <= b < rest.len() && a != b
                implies rest[a] != rest[b] by {
                let ia = if a < j { a } else { a + 1 };
                let ib = if b < j { b } else { b + 1 };
                assert(rest[a] == keys[ia]);
                assert(rest[b] == keys[ib]);
            }
            assert forall|k: int| 0 <= k < rest.len() implies (#[trigger] rest[k]) < m by {
                let ik = if k < j { k } else { k + 1 };
                assert(rest[k] == keys[ik]);
                assert(ik != j);
            }
            lemma_complement_len(m, rest);
            lemma_complement_agree(m, keys, rest, j);
        } else {
            assert forall|k: int| 0 <= k < keys.len() implies (#[trigger] keys[k]) < m by {
                assert(keys[k] != top);
            }
            lemma_complement_len(m, keys);
        }
    }
}

proof fn lemma_complement_agree(m: nat, keys: Seq<usize>, rest: Seq<usize>, j: int)
    requires
        0 <= j < keys.len(),
        rest == keys.remove(j),
        keys[j] as nat >= m,
    ensures
        complement(m, keys) == complement(m, rest),
    decreases m,
{
    if m > 0 {
        let x = (m - 1) as usize;
        assert(keys.contains(x) == rest.contains(x)) by {
            if keys.contains(x) {
                let k = choose|k: int| 0 <= k < keys.len() && keys[k] == x;
                assert(k != j);
                let rk = if k < j { k } else { k - 1 };
                assert(rest[rk] == keys[k]);
            }
            if rest.contains(x) {
                let k = choose|k: int| 0 <= k < rest.len() && rest[k] == x;
                let ik = if k < j { k } else { k + 1 };
                assert(keys[ik] == rest[k]);
            }
        }
        lemma_complement_agree((m - 1) as nat, keys, rest, j);
    }
}

proof fn lemma_join_one_arity(keys: Seq<(usize, usize)>, na: nat, nb: nat, u: (Seq<ValueModel>, int), b: Rel, n: nat)
    requires
        n == left_keys(keys).len() + complement(na, left_keys(keys)).len() + complement(nb, right_keys(keys)).len(),
    ensures
        has_arity(join_one(keys, na, nb, u, b), n),
    decreases b.len(),
{
    if b.len() > 0 {
        lemma_join_one_arity(keys, na, nb, u, b.drop_last(), n);
        let r = join_one(keys, na, nb, u, b.drop_last());
        if join_match(keys, u.0, b.last().0) {
            let o = join_out(keys, na, nb, u.0, b.last().0);
            assert forall|k: int| 0 <= k < r.push((o, u.1 * b.last().1)).len()
                implies (#[trigger] r.push((o, u.1 * b.last().1))[k]).0.len() == n by {
                if k < r.len() {
                    assert(r.push((o, u.1 * b.last().1))[k] == r[k]);
                }
            }
        }
    }
}

proof fn lemma_join_arity(keys: Seq<(usize, usize)>, na: nat, nb: nat, a: Rel, b: Rel, n: nat)
    requires
        n == left_keys(keys).len() + complement(na, left_keys(keys)).len() + complement(nb, right_keys(keys)).len(),
    ensures
        has_arity(join_rel(keys, na, nb, a, b), n),
    decreases a.len(),
{
    if a.len() > 0 {
        lemma_join_arity(keys, na, nb, a.drop_last(), b, n);
        lemma_join_one_arity(keys, na, nb, a.last(), b, n);
        let x = join_rel(keys, na, nb, a.drop_last(), b);
        let y = join_one(keys, na, nb, a.last(), b);
        assert forall|k: int| 0 <= k < (x + y).len() implies (#[trigger] (x + y)[k]).0.len() == n by {
            if k >= x.len() {
                assert((x + y)[k] == y[k - x.len()]);
            }
        }
    }
}

/// The relation a well formed plan denotes has tuples of the plan's
/// arity, when every source does.
pub proof fn lemma_denote_arity(q: PlanModel, env: spec_fn(PlanModel) -> Rel)
    requires
        well_formed(q),
        arities_fit(q),
        env_fits(env),
    ensures
        has_arity(denote(q, env), q.arity),
    decreases q, 1nat,
{
    match q.node {
        NodeModel::Remap(es, c) => {
            lemma_denote_arity(*c, env);
        },
        NodeModel::Distinct(c) => {
            let r = denote(*c, env);
            lemma_denote_arity(*c, env);
            lemma_support_arity(r, c.arity);
            lemma_positive_of_from(support(r), r);
        },
        NodeModel::Concat(cs) => {
            lemma_each_arity(cs, env, q.arity);
            lemma_concat_arity(denote_each(cs, env), q.arity);
        },
        NodeModel::Consolidate(c) => {
            let r = denote(*c, env);
            lemma_denote_arity(*c, env);
            lemma_support_arity(r, c.arity);
            lemma_nonzero_of_from(support(r), r);
        },
        NodeModel::Join(keys, a, b) => {
            assert(left_keys(keys).len() == keys.len());
            assert(right_keys(keys).len() == keys.len());
            assert(arities_fit(*a) && arities_fit(*b));
            assert(a.arity <= usize::MAX && b.arity <= usize::MAX);
            lemma_complement_len(a.arity, left_keys(keys));
            lemma_complement_len(b.arity, right_keys(keys));
            lemma_join_arity(keys, a.arity, b.arity, denote(*a, env), denote(*b, env), q.arity);
        },
        NodeModel::Negate(c) => {
            lemma_denote_arity(*c, env);
        },
        NodeModel::Filter(pred, c) => {
            lemma_denote_arity(*c, env);
            lemma_filter_arity(denote(*c, env), pred, c.arity);
        },
        NodeModel::MultiwayJoin(results, srcs, classes) => {
            let es = result_exprs(srcs, results);
            let r = filter_pairs(cross_all(denote_each(srcs, env)), class_pairs(srcs, classes));
            assert forall|k: int| 0 <= k < remap_rel(r, es).len() implies (#[trigger] remap_rel(r, es)[k]).0.len() == q.arity by {
                assert(remap_rel(r, es)[k].0 == crate::datum::eval_exprs(r[k].0, es));
            }
        },
        NodeModel::Source(_) => {},
        NodeModel::Local(_) => {},
        NodeModel::Inspect(_, c) => {
            lemma_denote_arity(*c, env);
        },
    }
}

proof fn lemma_each_arity(cs: Seq<PlanModel>, env: spec_fn(PlanModel) -> Rel, n: nat)
    requires
        all_well_formed(cs, n),
        all_arities_fit(cs),
        env_fits(env),
    ensures
        denote_each(cs, env).len() == cs.len(),
        forall|k: int| 0 <= k < cs.len() ==> has_arity(#[trigger] denote_each(cs, env)[k], n),
    decreases cs, 0nat,
{
    if cs.len() > 0 {
        lemma_each_arity(cs.drop_last(), env, n);
        lemma_denote_arity(cs.last(), env);
        let d = denote_each(cs.drop_last(), env);
        assert forall|k: int| 0 <= k < cs.len() implies has_arity(#[trigger] denote_each(cs, env)[k], n) by {
            if k < cs.len() - 1 {
                assert(denote_each(cs, env)[k] == d[k]);
            }
        }
    }
}

/// A step that realizes a well formed plan computes the relation the
/// plan denotes, when each imported arrangement holds its plan's relation,
/// each variable holds its local relation, and every source or local relation
/// has its plan's arity.
pub proof fn lemma_realized_meaning(
    p: Seq<StepModel>,
    t: Map<ArrangementKey, usize>,
    imp: spec_fn(nat) -> Arr,
    var: spec_fn(nat) -> Rel,
    env: spec_fn(PlanModel) -> Rel,
    i: nat,
    q: PlanModel,
)
    requires
        program_wf(p),
        implements(p, t, i as int, q),
        well_formed(q),
        arities_fit(q),
        env_fits(env),
        imports_hold(p, t, imp, var, env),
        variables_hold(p, var, env),
    ensures
        eval(p, imp, var, i) == denote(q, env),
    decreases q, 0nat, 0nat,
{
    assert(step_ok(p, i as int));
    match q.node {
        NodeModel::Remap(_, c) => {
            if let StepModel::Remap(j, _) = p[i as int] {
                lemma_realized_meaning(p, t, imp, var, env, j as nat, *c);
            }
        },
        NodeModel::Distinct(c) => {
            if let StepModel::Keys(d) = p[i as int] {
                assert(step_ok(p, d as int));
                if let StepModel::Distinct(a) = p[d as int] {
                    let n = c.arity;
                    let r = denote(*c, env);
                    lemma_arranged_meaning(p, t, imp, var, env, a as nat, *c, all_columns(n));
                    lemma_denote_arity(*c, env);
                    lemma_keys_all(r, n, complement(n, all_columns(n)));
                    let x = eval_arr(p, imp, var, a as nat);
                    assert(keys_rel(distinct_arr(x)) =~= positive_of(support(r), r));
                    assert(a < d && d < i);
                    assert(eval_arr(p, imp, var, d as nat) == distinct_arr(x));
                    assert(eval(p, imp, var, i) == keys_rel(eval_arr(p, imp, var, d as nat)));
                    assert(denote(q, env) == distinct_rel(r));
                }
            }
        },
        NodeModel::Concat(cs) => {
            if let StepModel::Concat(ids) = p[i as int] {
                lemma_list_meaning(p, t, imp, var, env, ids, cs, i, q.arity);
            }
        },
        NodeModel::Consolidate(c) => {
            if let StepModel::Consolidate(j) = p[i as int] {
                lemma_realized_meaning(p, t, imp, var, env, j as nat, *c);
            }
        },
        NodeModel::Join(keys, a, b) => {
            if let StepModel::JoinCore(x, y) = p[i as int] {
                lemma_arranged_meaning(p, t, imp, var, env, x as nat, *a, left_keys(keys));
                lemma_arranged_meaning(p, t, imp, var, env, y as nat, *b, right_keys(keys));
                lemma_join_arr(keys, a.arity, b.arity, denote(*a, env), denote(*b, env));
            }
        },
        NodeModel::Negate(c) => {
            if let StepModel::Negate(j) = p[i as int] {
                lemma_realized_meaning(p, t, imp, var, env, j as nat, *c);
            }
        },
        NodeModel::Filter(_, c) => {
            if let StepModel::Filter(j, _) = p[i as int] {
                lemma_realized_meaning(p, t, imp, var, env, j as nat, *c);
            }
        },
        NodeModel::Source(_) | NodeModel::Local(_) => {
            if let StepModel::Keys(a) = p[i as int] {
                let k = (q, all_columns(q.arity));
                assert(t.contains_key(k));
                assert(has_arity(env(q), q.arity));
                lemma_keys_all(env(q), q.arity, complement(q.arity, all_columns(q.arity)));
            }
        },
        NodeModel::Inspect(_, c) => {
            if let StepModel::Inspect(j, _) = p[i as int] {
                lemma_realized_meaning(p, t, imp, var, env, j as nat, *c);
            }
        },
        NodeModel::MultiwayJoin(_, srcs, classes) => {
            if let StepModel::Remap(f, _) = p[i as int] {
                lemma_all_well_formed_any_each(srcs);
                lemma_all_arities_fit_each(srcs);
                lemma_filtered_meaning(p, t, imp, var, env, f as int, srcs, class_pairs(srcs, classes));
            }
        },
    }
}

proof fn lemma_all_well_formed_any_each(qs: Seq<PlanModel>)
    requires
        all_well_formed_any(qs),
    ensures
        forall|k: int| 0 <= k < qs.len() ==> well_formed(#[trigger] qs[k]),
    decreases qs.len(),
{
    if qs.len() > 0 {
        lemma_all_well_formed_any_each(qs.drop_last());
        assert forall|k: int| 0 <= k < qs.len() implies well_formed(#[trigger] qs[k]) by {
            if k < qs.len() - 1 {
                assert(qs.drop_last()[k] == qs[k]);
            }
        }
    }
}

proof fn lemma_all_arities_fit_each(qs: Seq<PlanModel>)
    requires
        all_arities_fit(qs),
    ensures
        forall|k: int| 0 <= k < qs.len() ==> arities_fit(#[trigger] qs[k]),
    decreases qs.len(),
{
    if qs.len() > 0 {
        lemma_all_arities_fit_each(qs.drop_last());
        assert forall|k: int| 0 <= k < qs.len() implies arities_fit(#[trigger] qs[k]) by {
            if k < qs.len() - 1 {
                assert(qs.drop_last()[k] == qs[k]);
            }
        }
    }
}

proof fn lemma_cross_one_arr(x: (Seq<ValueModel>, int), y: Rel, kl: Seq<usize>, w: nat, kr: Seq<usize>, a: nat)
    requires
        kl.len() == 0,
        kr.len() == 0,
        x.0.len() == w,
        w <= usize::MAX,
        has_arity(y, a),
        a <= usize::MAX,
    ensures
        join_arr_one(((select(x.0, kl), select(x.0, all_columns(w))), x.1), arrange_rel(y, kr, all_columns(a)))
            == cross_one(x, y),
    decreases y.len(),
{
    let ar = arrange_rel(y, kr, all_columns(a));
    if y.len() > 0 {
        assert(ar.drop_last() =~= arrange_rel(y.drop_last(), kr, all_columns(a)));
        assert(has_arity(y.drop_last(), a)) by {
            assert forall|k: int| 0 <= k < y.drop_last().len() implies (#[trigger] y.drop_last()[k]).0.len() == a by {
                assert(y.drop_last()[k] == y[k]);
            }
        }
        lemma_cross_one_arr(x, y.drop_last(), kl, w, kr, a);
        let u = y.last();
        assert(u == y[y.len() - 1]);
        assert(select(x.0, kl) =~= Seq::<ValueModel>::empty());
        assert(select(u.0, kr) =~= Seq::<ValueModel>::empty());
        assert(select(x.0, all_columns(w)) =~= x.0);
        assert(select(u.0, all_columns(a)) =~= u.0);
        assert(select(x.0, kl) + select(x.0, all_columns(w)) + select(u.0, all_columns(a)) =~= x.0 + u.0);
    } else {
        assert(ar =~= Seq::empty());
    }
}

/// Joining two arrangements with no key columns concatenates every pair.
proof fn lemma_cross_arr(xs: Rel, y: Rel, kl: Seq<usize>, w: nat, kr: Seq<usize>, a: nat)
    requires
        kl.len() == 0,
        kr.len() == 0,
        has_arity(xs, w),
        w <= usize::MAX,
        has_arity(y, a),
        a <= usize::MAX,
    ensures
        join_arr(arrange_rel(xs, kl, all_columns(w)), arrange_rel(y, kr, all_columns(a))) == cross(xs, y),
    decreases xs.len(),
{
    let al = arrange_rel(xs, kl, all_columns(w));
    if xs.len() > 0 {
        assert(al.drop_last() =~= arrange_rel(xs.drop_last(), kl, all_columns(w)));
        assert(has_arity(xs.drop_last(), w)) by {
            assert forall|k: int| 0 <= k < xs.drop_last().len() implies (#[trigger] xs.drop_last()[k]).0.len() == w by {
                assert(xs.drop_last()[k] == xs[k]);
            }
        }
        lemma_cross_arr(xs.drop_last(), y, kl, w, kr, a);
        assert(xs.last() == xs[xs.len() - 1]);
        lemma_cross_one_arr(xs.last(), y, kl, w, kr, a);
    } else {
        assert(al =~= Seq::empty());
    }
}

proof fn lemma_cross_one_arity(x: (Seq<ValueModel>, int), y: Rel, n: nat)
    requires
        forall|k: int| 0 <= k < y.len() ==> x.0.len() + (#[trigger] y[k]).0.len() == n,
    ensures
        has_arity(cross_one(x, y), n),
    decreases y.len(),
{
    if y.len() > 0 {
        assert forall|k: int| 0 <= k < y.drop_last().len() implies x.0.len() + (#[trigger] y.drop_last()[k]).0.len() == n by {
            assert(y.drop_last()[k] == y[k]);
        }
        lemma_cross_one_arity(x, y.drop_last(), n);
        assert(y.last() == y[y.len() - 1]);
        let r = cross_one(x, y.drop_last());
        let u = (x.0 + y.last().0, x.1 * y.last().1);
        assert forall|k: int| 0 <= k < r.push(u).len() implies (#[trigger] r.push(u)[k]).0.len() == n by {
            if k < r.len() {
                assert(r.push(u)[k] == r[k]);
            }
        }
    }
}

/// Concatenations of tuples of `w` and of `a` columns have `w + a` columns.
proof fn lemma_cross_arity(xs: Rel, y: Rel, w: nat, a: nat)
    requires
        has_arity(xs, w),
        has_arity(y, a),
    ensures
        has_arity(cross(xs, y), w + a),
    decreases xs.len(),
{
    if xs.len() > 0 {
        assert(has_arity(xs.drop_last(), w)) by {
            assert forall|k: int| 0 <= k < xs.drop_last().len() implies (#[trigger] xs.drop_last()[k]).0.len() == w by {
                assert(xs.drop_last()[k] == xs[k]);
            }
        }
        lemma_cross_arity(xs.drop_last(), y, w, a);
        assert(xs.last() == xs[xs.len() - 1]);
        lemma_cross_one_arity(xs.last(), y, w + a);
        let l = cross(xs.drop_last(), y);
        let r = cross_one(xs.last(), y);
        assert forall|k: int| 0 <= k < (l + r).len() implies (#[trigger] (l + r)[k]).0.len() == w + a by {
            if k >= l.len() {
                assert((l + r)[k] == r[k - l.len()]);
            }
        }
    }
}

proof fn lemma_denote_each_len(qs: Seq<PlanModel>, env: spec_fn(PlanModel) -> Rel)
    ensures
        denote_each(qs, env).len() == qs.len(),
    decreases qs.len(),
{
    if qs.len() > 0 {
        lemma_denote_each_len(qs.drop_last(), env);
    }
}

/// A chain over the first `k` sources computes their concatenations, which
/// have as many columns as those sources together.
pub proof fn lemma_chain_meaning(
    p: Seq<StepModel>,
    t: Map<ArrangementKey, usize>,
    imp: spec_fn(nat) -> Arr,
    var: spec_fn(nat) -> Rel,
    env: spec_fn(PlanModel) -> Rel,
    acc: int,
    ms: Seq<PlanModel>,
    k: nat,
)
    requires
        program_wf(p),
        chain(p, t, acc, ms, k),
        forall|j: int| 0 <= j < ms.len() ==> well_formed(#[trigger] ms[j]) && arities_fit(ms[j]),
        total_arity(ms) <= usize::MAX,
        env_fits(env),
        imports_hold(p, t, imp, var, env),
        variables_hold(p, var, env),
    ensures
        eval(p, imp, var, acc as nat) == cross_all(denote_each(ms.subrange(0, k as int), env)),
        has_arity(cross_all(denote_each(ms.subrange(0, k as int), env)), offset(ms, k as int)),
    decreases ms, 1nat, k,
{
    let pre = ms.subrange(0, k as int);
    assert(pre.drop_last() =~= ms.subrange(0, k - 1));
    assert(pre.last() == ms[k - 1]);
    assert(offset(ms, k as int) == offset(ms, k - 1) + ms[k - 1].arity);
    lemma_denote_arity(ms[k - 1], env);
    if k == 1 {
        lemma_realized_meaning(p, t, imp, var, env, acc as nat, ms[0]);
        assert(pre.len() == 1);
        assert(pre.drop_last() =~= Seq::<PlanModel>::empty());
        assert(pre.last() == ms[0]);
        assert(denote_each(Seq::<PlanModel>::empty(), env) =~= Seq::<Rel>::empty());
        assert(denote_each(pre, env) == Seq::<Rel>::empty().push(denote(ms[0], env)));
        assert(denote_each(pre, env) =~= seq![denote(ms[0], env)]);
    } else {
        assert(step_ok(p, acc));
        if let StepModel::JoinCore(l, r) = p[acc] {
            assert(step_ok(p, l as int));
            assert(step_ok(p, r as int));
            if let (StepModel::Arrange(prev, kl, vl), StepModel::Arrange(c, kr, vr)) = (p[l as int], p[r as int]) {
                lemma_chain_meaning(p, t, imp, var, env, prev as int, ms, (k - 1) as nat);
                lemma_realized_meaning(p, t, imp, var, env, c as nat, ms[k - 1]);
                crate::render::lemma_total_arity_prefix(ms, k - 1);
                let xs = cross_all(denote_each(ms.subrange(0, k - 1), env));
                let y = denote(ms[k - 1], env);
                lemma_cross_arr(xs, y, kl, offset(ms, k - 1), kr, ms[k - 1].arity);
                lemma_cross_arity(xs, y, offset(ms, k - 1), ms[k - 1].arity);
                assert(denote_each(pre, env) == denote_each(ms.subrange(0, k - 1), env).push(y));
                assert(denote_each(pre, env).drop_last() =~= denote_each(ms.subrange(0, k - 1), env));
                assert(denote_each(pre, env).len() == k) by {
                    assert(denote_each(ms.subrange(0, k - 1), env).len() == k - 1) by {
                        lemma_denote_each_len(ms.subrange(0, k - 1), env);
                    }
                }
                assert(cross_all(denote_each(pre, env)) == cross(xs, y));
                assert(eval_arr(p, imp, var, l) == arrange_rel(eval(p, imp, var, prev), kl, vl));
                assert(eval_arr(p, imp, var, r) == arrange_rel(eval(p, imp, var, c), kr, vr));
                assert(eval(p, imp, var, acc as nat) == join_arr(eval_arr(p, imp, var, l), eval_arr(p, imp, var, r)));
            }
        }
    }
}

/// Filters over a chain keep the concatenations equal at each pair of columns.
pub proof fn lemma_filtered_meaning(
    p: Seq<StepModel>,
    t: Map<ArrangementKey, usize>,
    imp: spec_fn(nat) -> Arr,
    var: spec_fn(nat) -> Rel,
    env: spec_fn(PlanModel) -> Rel,
    f: int,
    ms: Seq<PlanModel>,
    pairs: Seq<(usize, usize)>,
)
    requires
        program_wf(p),
        filtered(p, t, f, ms, pairs),
        forall|j: int| 0 <= j < ms.len() ==> well_formed(#[trigger] ms[j]) && arities_fit(ms[j]),
        total_arity(ms) <= usize::MAX,
        env_fits(env),
        imports_hold(p, t, imp, var, env),
        variables_hold(p, var, env),
    ensures
        eval(p, imp, var, f as nat) == filter_pairs(cross_all(denote_each(ms, env)), pairs),
    decreases ms, 2nat, pairs.len(),
{
    if pairs.len() == 0 {
        lemma_chain_meaning(p, t, imp, var, env, f, ms, ms.len());
        assert(ms.subrange(0, ms.len() as int) =~= ms);
    } else {
        assert(step_ok(p, f));
        if let StepModel::Filter(g, _) = p[f] {
            lemma_filtered_meaning(p, t, imp, var, env, g as int, ms, pairs.drop_last());
        }
    }
}

/// A step that arranges a well formed plan by some keys computes the
/// plan's relation split by those keys.
pub proof fn lemma_arranged_meaning(
    p: Seq<StepModel>,
    t: Map<ArrangementKey, usize>,
    imp: spec_fn(nat) -> Arr,
    var: spec_fn(nat) -> Rel,
    env: spec_fn(PlanModel) -> Rel,
    a: nat,
    q: PlanModel,
    keys: Seq<usize>,
)
    requires
        program_wf(p),
        arranges(p, t, a as int, q, keys),
        well_formed(q),
        arities_fit(q),
        env_fits(env),
        imports_hold(p, t, imp, var, env),
        variables_hold(p, var, env),
    ensures
        eval_arr(p, imp, var, a) == arrange_rel(denote(q, env), keys, complement(q.arity, keys)),
    decreases q, 1nat, 0nat,
{
    assert(step_ok(p, a as int));
    match p[a as int] {
        StepModel::Arrange(c, _, _) => {
            lemma_realized_meaning(p, t, imp, var, env, c as nat, q);
        },
        StepModel::Import(_) => {
            assert(t.contains_key((q, keys)));
        },
        StepModel::Distinct(b) => {
            if let NodeModel::Distinct(c) = q.node {
                let n = c.arity;
                let r = denote(*c, env);
                lemma_arranged_meaning(p, t, imp, var, env, b as nat, *c, all_columns(n));
                lemma_denote_arity(*c, env);
                lemma_keys_all(r, n, complement(n, all_columns(n)));
                crate::render::lemma_complement_all(n);
                assert(complement(n, all_columns(n)) =~= Seq::<usize>::empty());
                lemma_support_arity(r, n);
                lemma_positive_of_from(support(r), r);
                let ps = positive_of(support(r), r);
                assert forall|k: int| 0 <= k < ps.len() implies #[trigger] select(ps[k].0, all_columns(n)) == ps[k].0
                    && select(ps[k].0, Seq::<usize>::empty()) == Seq::<ValueModel>::empty() by {
                    assert(support(r).contains(ps[k].0));
                    assert(select(ps[k].0, all_columns(n)) =~= ps[k].0);
                    assert(select(ps[k].0, Seq::<usize>::empty()) =~= Seq::<ValueModel>::empty());
                }
                assert(distinct_arr(eval_arr(p, imp, var, b as nat))
                    =~= arrange_rel(distinct_rel(r), all_columns(n), complement(n, all_columns(n))));
            }
        },
        _ => {},
    }
}

/// Steps that realize a sequence of plans compute the relations they denote.
pub proof fn lemma_list_meaning(
    p: Seq<StepModel>,
    t: Map<ArrangementKey, usize>,
    imp: spec_fn(nat) -> Arr,
    var: spec_fn(nat) -> Rel,
    env: spec_fn(PlanModel) -> Rel,
    ids: Seq<usize>,
    qs: Seq<PlanModel>,
    bound: nat,
    n: nat,
)
    requires
        program_wf(p),
        all_implement(p, t, ids, qs),
        forall|k: int| 0 <= k < ids.len() ==> (#[trigger] ids[k] as nat) < bound,
        all_well_formed(qs, n),
        all_arities_fit(qs),
        env_fits(env),
        imports_hold(p, t, imp, var, env),
        variables_hold(p, var, env),
    ensures
        eval_list(p, imp, var, ids, bound) == denote_each(qs, env),
    decreases qs, 0nat, 0nat,
{
    if qs.len() > 0 {
        assert forall|k: int| 0 <= k < ids.drop_last().len() implies (#[trigger] ids.drop_last()[k] as nat) < bound by {
            assert(ids.drop_last()[k] == ids[k]);
        }
        lemma_list_meaning(p, t, imp, var, env, ids.drop_last(), qs.drop_last(), bound, n);
        assert(ids.last() == ids[ids.len() - 1]);
        lemma_realized_meaning(p, t, imp, var, env, ids.last() as nat, qs.last());
    } else {
        assert(ids.len() == 0);
    }
}

/// What `Plan::render` returns computes the relation the plan denotes: for a
/// well formed plan, when every source or local relation has its plan's
/// arity, and, in the program handed to `render`, each imported arrangement
/// holds its plan's relation and each variable its local relation.
pub proof fn lemma_render_meaning(
    q: PlanModel,
    r: Result<usize, RenderError>,
    s0: Stash,
    s1: Stash,
    p0: Seq<Step>,
    p1: Seq<Step>,
    imp: spec_fn(nat) -> Arr,
    var: spec_fn(nat) -> Rel,
    env: spec_fn(PlanModel) -> Rel,
)
    requires
        consistent(s0, p0),
        rendered(q, r, s0, s1, p0, p1),
        r is Ok,
        well_formed(q),
        arities_fit(q),
        env_fits(env),
        imports_hold(program_model(p0), s0.trace(), imp, var, env),
        variables_hold(program_model(p0), var, env),
    ensures
        eval(program_model(p1), imp, var, r->Ok_0 as nat) == denote(q, env),
{
    let (m0, m1) = (program_model(p0), program_model(p1));
    let t = s0.trace();
    assert(s1.trace() == t);
    assert forall|i: int| 0 <= i < m1.len() implies match #[trigger] m1[i] {
        StepModel::Variable(rr, vq) => var(rr) == env(vq),
        _ => true,
    } by {
        if i < m0.len() {
            assert(m1[i] == m0[i]);
        }
    }
    assert forall|k: ArrangementKey| #[trigger] t.contains_key(k) implies eval_arr(m1, imp, var, t[k] as nat)
        == arrange_rel(denote(k.0, env), k.1, complement(k.0.arity, k.1)) by {
        assert(m0[t[k] as int] is Import);
        assert(m1[t[k] as int] == m0[t[k] as int]);
    }
    lemma_realized_meaning(m1, t, imp, var, env, r->Ok_0 as nat, q);
}

/// The arities of any plan the library builds can be counted by an index.
pub proof fn lemma_plan_arities_fit(plan: &Plan)
    ensures
        arities_fit(plan.model()),
    decreases plan, 1nat,
{
    match &plan.node {
        PlanNode::Remap(m) => lemma_plan_arities_fit(&m.plan),
        PlanNode::Distinct(c) => lemma_plan_arities_fit(c),
        PlanNode::Concat(ps) => lemma_plans_arities_fit(ps@),
        PlanNode::Consolidate(c) => lemma_plan_arities_fit(c),
        PlanNode::Join(j) => {
            lemma_plan_arities_fit(&j.plan1);
            lemma_plan_arities_fit(&j.plan2);
        },
        PlanNode::MultiwayJoin(m) => lemma_plans_arities_fit(m.sources@),
        PlanNode::Negate(c) => lemma_plan_arities_fit(c),
        PlanNode::Filter(f) => lemma_plan_arities_fit(&f.plan),
        PlanNode::Source(_) => {},
        PlanNode::Local(_) => {},
        PlanNode::Inspect(_, c) => lemma_plan_arities_fit(c),
    }
}

proof fn lemma_plans_arities_fit(ps: Seq<Plan>)
    ensures
        all_arities_fit(models(ps)),
    decreases ps, 0nat,
{
    lemma_models(ps);
    if ps.len() > 0 {
        let q = ps.drop_last();
        lemma_plans_arities_fit(q);
        lemma_models(q);
        assert(models(ps).drop_last() =~= models(q)) by {
            assert forall|i: int| 0 <= i < q.len() implies #[trigger] models(ps)[i] == models(q)[i] by {
                assert(q[i] == ps[i]);
            }
        }
        assert(ps.last() == ps[ps.len() - 1]);
        lemma_plan_arities_fit(&ps.last());
    }
}

/// `render` returned a collection for the well formed plan `q`, handed a
/// program whose imported arrangements hold their plans' relations and whose
/// variables hold their local relations, with every source or local relation
/// of its plan's arity.
pub open spec fn rendered_in(
    q: PlanModel,
    r: Result<usize, RenderError>,
    s0: Stash,
    s1: Stash,
    p0: Seq<Step>,
    p1: Seq<Step>,
    imp: spec_fn(nat) -> Arr,
    var: spec_fn(nat) -> Rel,
    env: spec_fn(PlanModel) -> Rel,
) -> bool {
    &&& consistent(s0, p0)
    &&& rendered(q, r, s0, s1, p0, p1)
    &&& r is Ok
    &&& well_formed(q)
    &&& arities_fit(q)
    &&& env_fits(env)
    &&& imports_hold(program_model(p0), s0.trace(), imp, var, env)
    &&& variables_hold(program_model(p0), var, env)
}

/// The collection that `render` returned, as computed by the program.
pub open spec fn result_of(r: Result<usize, RenderError>, p1: Seq<Step>, imp: spec_fn(nat) -> Arr, var: spec_fn(nat) -> Rel) -> Rel {
    eval(program_model(p1), imp, var, r->Ok_0 as nat)
}

} // verus!
