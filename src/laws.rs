//! Algebraic laws of the plan operators, stated over the relations plans denote.
use vstd::prelude::*;
use crate::datum::{ValueModel, complement, eval_exprs, select};
use crate::plan::{left_keys as left_keys_of, right_keys as right_keys_of};
use crate::plan::{PlanModel, NodeModel, projections};
use crate::meaning::{Arr, arities_fit, env_fits, lemma_denote_arity, lemma_render_meaning, rendered_in, result_of};
use crate::render::{RenderError, Stash, Step};
use crate::render::well_formed;
use crate::semantics::{
    Rel, count, denote, denote_each, negate_rel, remap_rel, concat_all, support, positive_of, nonzero_of,
    distinct_rel, consolidate_rel, has_arity, join_rel, join_one, join_match, join_out,
};

verus! {

/// Multiplicities add over concatenation of updates.
pub proof fn lemma_count_append(r1: Rel, r2: Rel, t: Seq<ValueModel>)
    ensures
        count(r1 + r2, t) == count(r1, t) + count(r2, t),
    decreases r2.len(),
{
    if r2.len() > 0 {
        lemma_count_append(r1, r2.drop_last(), t);
        assert((r1 + r2).drop_last() =~= r1 + r2.drop_last());
    }
}

/// The multiplicity after one more update.
pub proof fn lemma_count_push(r: Rel, u: (Seq<ValueModel>, int), t: Seq<ValueModel>)
    ensures
        count(r.push(u), t) == count(r, t) + if u.0 == t { u.1 } else { 0 },
{
    assert(r.push(u).drop_last() =~= r);
}

/// Negating every diff negates every multiplicity.
pub proof fn lemma_count_negate(r: Rel, t: Seq<ValueModel>)
    ensures
        count(negate_rel(r), t) == -count(r, t),
    decreases r.len(),
{
    if r.len() > 0 {
        lemma_count_negate(r.drop_last(), t);
        assert(negate_rel(r).drop_last() =~= negate_rel(r.drop_last()));
    }
}

/// A tuple with no update has multiplicity zero.
pub proof fn lemma_count_absent(r: Rel, t: Seq<ValueModel>)
    requires
        forall|k: int| 0 <= k < r.len() ==> (#[trigger] r[k]).0 != t,
    ensures
        count(r, t) == 0,
    decreases r.len(),
{
    if r.len() > 0 {
        assert(r.last() == r[r.len() - 1]);
        lemma_count_absent(r.drop_last(), t);
    }
}

/// The support lists each tuple of the relation once.
pub proof fn lemma_support(r: Rel)
    ensures
        support(r).no_duplicates(),
        forall|t: Seq<ValueModel>| #[trigger] support(r).contains(t) <==> exists|k: int| 0 <= k < r.len() && r[k].0 == t,
    decreases r.len(),
{
    if r.len() > 0 {
        let p = r.drop_last();
        let last = r.last().0;
        lemma_support(p);
        assert forall|k: int| 0 <= k < p.len() implies r[k] == #[trigger] p[k] by {}
        if support(p).contains(last) {
            assert(support(r) == support(p));
        } else {
            let sp = support(p);
            assert(support(r) == sp.push(last));
            assert forall|i: int, j: int| 0 <= i < sp.push(last).len() && 0 <= j < sp.push(last).len() && i != j
                implies sp.push(last)[i] != sp.push(last)[j] by {
                if i == sp.len() as int {
                    assert(!sp.contains(last));
                    assert(sp[j] == sp.push(last)[j]);
                } else if j == sp.len() as int {
                    assert(sp[i] == sp.push(last)[i]);
                }
            }
            assert forall|t: Seq<ValueModel>| #[trigger] sp.push(last).contains(t) <==> (sp.contains(t) || t == last) by {
                if sp.push(last).contains(t) {
                    let i = choose|i: int| 0 <= i < sp.push(last).len() && sp.push(last)[i] == t;
                    if i < sp.len() {
                        assert(sp[i] == t);
                    }
                }
                if sp.contains(t) {
                    let i = choose|i: int| 0 <= i < sp.len() && sp[i] == t;
                    assert(sp.push(last)[i] == t);
                }
                if t == last {
                    assert(sp.push(last)[sp.len() as int] == t);
                }
            }
        }
        assert forall|t: Seq<ValueModel>| #[trigger] support(r).contains(t) <==> exists|k: int| 0 <= k < r.len() && r[k].0 == t by {
            if exists|k: int| 0 <= k < r.len() && r[k].0 == t {
                let k = choose|k: int| 0 <= k < r.len() && r[k].0 == t;
                if k < r.len() - 1 {
                    assert(p[k].0 == t);
                } else {
                    assert(t == last);
                }
            }
            if support(p).contains(t) {
                let k = choose|k: int| 0 <= k < p.len() && p[k].0 == t;
                assert(r[k].0 == t);
            }
            if t == last {
                assert(r[r.len() - 1].0 == t);
            }
        }
    }
}

proof fn lemma_count_positive_of(ts: Seq<Seq<ValueModel>>, r: Rel, t: Seq<ValueModel>)
    requires
        ts.no_duplicates(),
    ensures
        count(positive_of(ts, r), t) == if ts.contains(t) && count(r, t) > 0 { 1int } else { 0int },
    decreases ts.len(),
{
    if ts.len() > 0 {
        let p = ts.drop_last();
        assert(p.no_duplicates());
        lemma_count_positive_of(p, r, t);
        if count(r, ts.last()) > 0 {
            lemma_count_push(positive_of(p, r), (ts.last(), 1int), t);
        }
        assert(ts.contains(t) <==> (p.contains(t) || ts.last() == t)) by {
            if ts.contains(t) {
                let k = choose|k: int| 0 <= k < ts.len() && ts[k] == t;
                if k < ts.len() - 1 {
                    assert(p[k] == ts[k]);
                }
            }
            if p.contains(t) {
                let k = choose|k: int| 0 <= k < p.len() && p[k] == t;
                assert(ts[k] == p[k]);
            }
        }
        if ts.last() == t {
            assert(!p.contains(t)) by {
                if p.contains(t) {
                    let k = choose|k: int| 0 <= k < p.len() && p[k] == t;
                    assert(ts[k] == ts[ts.len() - 1]);
                }
            }
        }
    }
}

proof fn lemma_count_nonzero_of(ts: Seq<Seq<ValueModel>>, r: Rel, t: Seq<ValueModel>)
    requires
        ts.no_duplicates(),
    ensures
        count(nonzero_of(ts, r), t) == if ts.contains(t) { count(r, t) } else { 0int },
    decreases ts.len(),
{
    if ts.len() > 0 {
        let p = ts.drop_last();
        assert(p.no_duplicates());
        lemma_count_nonzero_of(p, r, t);
        if count(r, ts.last()) != 0 {
            lemma_count_push(nonzero_of(p, r), (ts.last(), count(r, ts.last())), t);
        }
        assert(ts.contains(t) <==> (p.contains(t) || ts.last() == t)) by {
            if ts.contains(t) {
                let k = choose|k: int| 0 <= k < ts.len() && ts[k] == t;
                if k < ts.len() - 1 {
                    assert(p[k] == ts[k]);
                }
            }
            if p.contains(t) {
                let k = choose|k: int| 0 <= k < p.len() && p[k] == t;
                assert(ts[k] == p[k]);
            }
        }
        if ts.last() == t {
            assert(!p.contains(t)) by {
                if p.contains(t) {
                    let k = choose|k: int| 0 <= k < p.len() && p[k] == t;
                    assert(ts[k] == ts[ts.len() - 1]);
                }
            }
        }
    }
}

/// A tuple is in the distinct relation, once, exactly when its multiplicity is positive.
pub proof fn lemma_count_distinct(r: Rel, t: Seq<ValueModel>)
    ensures
        count(distinct_rel(r), t) == if count(r, t) > 0 { 1int } else { 0int },
{
    lemma_support(r);
    lemma_count_positive_of(support(r), r, t);
    if !support(r).contains(t) {
        lemma_count_absent(r, t);
    }
}

/// Consolidation keeps every multiplicity.
pub proof fn lemma_count_consolidate(r: Rel, t: Seq<ValueModel>)
    ensures
        count(consolidate_rel(r), t) == count(r, t),
{
    lemma_support(r);
    lemma_count_nonzero_of(support(r), r, t);
    if !support(r).contains(t) {
        lemma_count_absent(r, t);
    }
}

/// The model of `x.distinct()`.
pub open spec fn distinct_of(x: PlanModel) -> PlanModel {
    PlanModel { arity: x.arity, node: NodeModel::Distinct(Box::new(x)) }
}

/// The model of `x.negate()`.
pub open spec fn negate_of(x: PlanModel) -> PlanModel {
    PlanModel { arity: x.arity, node: NodeModel::Negate(Box::new(x)) }
}

/// The model of `x.consolidate()`.
pub open spec fn consolidate_of(x: PlanModel) -> PlanModel {
    PlanModel { arity: x.arity, node: NodeModel::Consolidate(Box::new(x)) }
}

/// The model of `a.concat(b)`.
pub open spec fn concat_of(a: PlanModel, b: PlanModel) -> PlanModel {
    PlanModel { arity: a.arity, node: NodeModel::Concat(seq![a, b]) }
}

/// The model of `x.project(indices)`.
pub open spec fn project_of(x: PlanModel, indices: Seq<usize>) -> PlanModel {
    PlanModel { arity: indices.len(), node: NodeModel::Remap(projections(indices), Box::new(x)) }
}

/// The output of a distinct plan is a set: every tuple has multiplicity zero
/// or one, and one exactly when its multiplicity in the input is positive.
pub proof fn lemma_distinct_is_set(x: PlanModel, env: spec_fn(PlanModel) -> Rel, t: Seq<ValueModel>)
    ensures
        count(denote(distinct_of(x), env), t) == 0 || count(denote(distinct_of(x), env), t) == 1,
        count(denote(distinct_of(x), env), t) == 1 <==> count(denote(x, env), t) > 0,
{
    lemma_count_distinct(denote(x, env), t);
}

/// A relation concatenated with its negation consolidates to nothing: every
/// tuple has multiplicity zero, and the consolidated updates are empty.
pub proof fn lemma_negation_cancels(x: PlanModel, env: spec_fn(PlanModel) -> Rel, t: Seq<ValueModel>)
    ensures
        count(denote(consolidate_of(concat_of(negate_of(x), x)), env), t) == 0,
        denote(consolidate_of(concat_of(negate_of(x), x)), env).len() == 0,
{
    let r = denote(x, env);
    let both = denote(concat_of(negate_of(x), x), env);
    let pair = seq![negate_of(x), x];
    assert(pair.drop_last() =~= seq![negate_of(x)]);
    assert(seq![negate_of(x)].drop_last() =~= Seq::<PlanModel>::empty());
    assert(denote(negate_of(x), env) == negate_rel(r));
    assert(seq![negate_of(x)].last() == negate_of(x));
    assert(denote_each(Seq::<PlanModel>::empty(), env) =~= Seq::<Rel>::empty());
    assert(denote_each(seq![negate_of(x)], env) =~= seq![negate_rel(r)]);
    assert(denote_each(pair, env) =~= seq![negate_rel(r), r]);
    assert(seq![negate_rel(r), r].drop_last() =~= seq![negate_rel(r)]);
    assert(seq![negate_rel(r)].drop_last() =~= Seq::<Rel>::empty());
    assert(seq![negate_rel(r)].last() == negate_rel(r));
    assert(concat_all(Seq::<Rel>::empty()) =~= Seq::<(Seq<ValueModel>, int)>::empty());
    assert(concat_all(seq![negate_rel(r)]) =~= Seq::<(Seq<ValueModel>, int)>::empty() + negate_rel(r));
    assert(both =~= Seq::<(Seq<ValueModel>, int)>::empty() + negate_rel(r) + r);
    assert forall|u: Seq<ValueModel>| count(both, u) == 0 by {
        lemma_count_append(Seq::<(Seq<ValueModel>, int)>::empty() + negate_rel(r), r, u);
        lemma_count_append(Seq::<(Seq<ValueModel>, int)>::empty(), negate_rel(r), u);
        lemma_count_negate(r, u);
    }
    lemma_count_consolidate(both, t);
    lemma_nonzero_of_empty(support(both), both);
}

proof fn lemma_nonzero_of_empty(ts: Seq<Seq<ValueModel>>, r: Rel)
    requires
        forall|u: Seq<ValueModel>| count(r, u) == 0,
    ensures
        nonzero_of(ts, r).len() == 0,
    decreases ts.len(),
{
    if ts.len() > 0 {
        assert(count(r, ts.last()) == 0);
        lemma_nonzero_of_empty(ts.drop_last(), r);
    }
}

/// Negating twice gives back the same updates.
pub proof fn lemma_double_negation(x: PlanModel, env: spec_fn(PlanModel) -> Rel)
    ensures
        denote(negate_of(negate_of(x)), env) == denote(x, env),
{
    assert(denote(negate_of(x), env) == negate_rel(denote(x, env)));
    assert(negate_rel(negate_rel(denote(x, env))) =~= denote(x, env));
}

/// Consolidating twice has the multiplicities of consolidating once, which are
/// those of the input; taking distinct tuples twice is taking them once.
pub proof fn lemma_idempotence(x: PlanModel, env: spec_fn(PlanModel) -> Rel, t: Seq<ValueModel>)
    ensures
        count(denote(consolidate_of(consolidate_of(x)), env), t)
            == count(denote(consolidate_of(x), env), t),
        count(denote(consolidate_of(x), env), t) == count(denote(x, env), t),
        count(denote(distinct_of(distinct_of(x)), env), t) == count(denote(distinct_of(x), env), t),
{
    let r = denote(x, env);
    lemma_count_consolidate(r, t);
    lemma_count_consolidate(consolidate_rel(r), t);
    lemma_count_distinct(r, t);
    lemma_count_distinct(distinct_rel(r), t);
}

/// Projecting a well formed plan of three columns onto columns `0, 1, 2`
/// changes nothing, when every source or local relation has its plan's arity.
pub proof fn lemma_project_identity(x: PlanModel, env: spec_fn(PlanModel) -> Rel)
    requires
        well_formed(x),
        arities_fit(x),
        x.arity == 3,
        env_fits(env),
    ensures
        denote(project_of(x, seq![0usize, 1usize, 2usize]), env) == denote(x, env),
{
    lemma_denote_arity(x, env);
    let r = denote(x, env);
    let es = projections(seq![0usize, 1usize, 2usize]);
    assert forall|k: int| 0 <= k < r.len() implies #[trigger] eval_exprs(r[k].0, es) == r[k].0 by {
        assert(eval_exprs(r[k].0, es) =~= r[k].0);
    }
    assert(remap_rel(r, es) =~= r);
}

/// The model of `a.join(b, keys)`.
pub open spec fn join_of(a: PlanModel, b: PlanModel, keys: Seq<(usize, usize)>) -> PlanModel {
    PlanModel {
        arity: (a.arity + b.arity - keys.len()) as nat,
        node: NodeModel::Join(keys, Box::new(a), Box::new(b)),
    }
}

/// Moves the `left` columns after the first to the end: `[k] ++ l ++ r` becomes
/// `[k] ++ r ++ l` when `l` has `left` columns.
pub open spec fn swap_sides(t: Seq<ValueModel>, left: nat) -> Seq<ValueModel> {
    t.subrange(0, 1) + t.subrange(1 + left as int, t.len() as int) + t.subrange(1, 1 + left as int)
}

/// Each tuple of a relation re-computed by `f`.
pub open spec fn map_tuples(r: Rel, f: spec_fn(Seq<ValueModel>) -> Seq<ValueModel>) -> Rel {
    r.map_values(|u: (Seq<ValueModel>, int)| (f(u.0), u.1))
}

/// The sum of `g` over every pair of an update of `a` and an update of `b`.
pub open spec fn pair_sum(a: Rel, b: Rel, g: spec_fn((Seq<ValueModel>, int), (Seq<ValueModel>, int)) -> int) -> int
    decreases a.len(),
{
    if a.len() == 0 {
        0
    } else {
        pair_sum(a.drop_last(), b, g) + row_sum(a.last(), b, g)
    }
}

/// The sum of `g` over the pairs of one update `x` with every update of `b`.
pub open spec fn row_sum(x: (Seq<ValueModel>, int), b: Rel, g: spec_fn((Seq<ValueModel>, int), (Seq<ValueModel>, int)) -> int) -> int
    decreases b.len(),
{
    if b.len() == 0 {
        0
    } else {
        row_sum(x, b.drop_last(), g) + g(x, b.last())
    }
}

/// The summand with its two arguments exchanged.
pub open spec fn transpose(
    g: spec_fn((Seq<ValueModel>, int), (Seq<ValueModel>, int)) -> int,
) -> spec_fn((Seq<ValueModel>, int), (Seq<ValueModel>, int)) -> int {
    |q: (Seq<ValueModel>, int), p: (Seq<ValueModel>, int)| g(p, q)
}

proof fn lemma_pair_sum_push_right(
    a: Rel,
    b: Rel,
    y: (Seq<ValueModel>, int),
    g: spec_fn((Seq<ValueModel>, int), (Seq<ValueModel>, int)) -> int,
)
    ensures
        pair_sum(a, b.push(y), g) == pair_sum(a, b, g) + row_sum(y, a, transpose(g)),
    decreases a.len(),
{
    assert(b.push(y).drop_last() =~= b);
    if a.len() > 0 {
        lemma_pair_sum_push_right(a.drop_last(), b, y, g);
    }
}

/// Summing over pairs does not depend on which relation comes first.
proof fn lemma_pair_sum_swap(a: Rel, b: Rel, g: spec_fn((Seq<ValueModel>, int), (Seq<ValueModel>, int)) -> int)
    ensures
        pair_sum(a, b, g) == pair_sum(b, a, transpose(g)),
    decreases b.len(),
{
    if b.len() == 0 {
        assert(b =~= Seq::<(Seq<ValueModel>, int)>::empty());
        lemma_pair_sum_empty_right(a, g);
    } else {
        lemma_pair_sum_swap(a, b.drop_last(), g);
        assert(b.drop_last().push(b.last()) =~= b);
        lemma_pair_sum_push_right(a, b.drop_last(), b.last(), g);
    }
}

proof fn lemma_pair_sum_empty_right(a: Rel, g: spec_fn((Seq<ValueModel>, int), (Seq<ValueModel>, int)) -> int)
    ensures
        pair_sum(a, Seq::empty(), g) == 0,
    decreases a.len(),
{
    if a.len() > 0 {
        lemma_pair_sum_empty_right(a.drop_last(), g);
    }
}

/// Sums over pairs agree when the summands agree on every pair.
proof fn lemma_pair_sum_ext(
    a: Rel,
    b: Rel,
    g1: spec_fn((Seq<ValueModel>, int), (Seq<ValueModel>, int)) -> int,
    g2: spec_fn((Seq<ValueModel>, int), (Seq<ValueModel>, int)) -> int,
)
    requires
        forall|x: (Seq<ValueModel>, int), y: (Seq<ValueModel>, int)| #[trigger] g1(x, y) == g2(x, y),
    ensures
        pair_sum(a, b, g1) == pair_sum(a, b, g2),
    decreases a.len(),
{
    if a.len() > 0 {
        lemma_pair_sum_ext(a.drop_last(), b, g1, g2);
        lemma_row_sum_ext(a.last(), b, g1, g2);
    }
}

proof fn lemma_row_sum_ext(
    x: (Seq<ValueModel>, int),
    b: Rel,
    g1: spec_fn((Seq<ValueModel>, int), (Seq<ValueModel>, int)) -> int,
    g2: spec_fn((Seq<ValueModel>, int), (Seq<ValueModel>, int)) -> int,
)
    requires
        forall|x: (Seq<ValueModel>, int), y: (Seq<ValueModel>, int)| #[trigger] g1(x, y) == g2(x, y),
    ensures
        row_sum(x, b, g1) == row_sum(x, b, g2),
    decreases b.len(),
{
    if b.len() > 0 {
        lemma_row_sum_ext(x, b.drop_last(), g1, g2);
    }
}

/// The summand that counts the joined tuples re-computed by `f` that equal `t`.
pub open spec fn join_summand(
    keys: Seq<(usize, usize)>,
    na: nat,
    nb: nat,
    f: spec_fn(Seq<ValueModel>) -> Seq<ValueModel>,
    t: Seq<ValueModel>,
) -> spec_fn((Seq<ValueModel>, int), (Seq<ValueModel>, int)) -> int {
    |x: (Seq<ValueModel>, int), y: (Seq<ValueModel>, int)|
        if join_match(keys, x.0, y.0) && f(join_out(keys, na, nb, x.0, y.0)) == t {
            x.1 * y.1
        } else {
            0
        }
}

proof fn lemma_count_join_one(
    keys: Seq<(usize, usize)>,
    na: nat,
    nb: nat,
    x: (Seq<ValueModel>, int),
    b: Rel,
    f: spec_fn(Seq<ValueModel>) -> Seq<ValueModel>,
    t: Seq<ValueModel>,
)
    ensures
        count(map_tuples(join_one(keys, na, nb, x, b), f), t) == row_sum(x, b, join_summand(keys, na, nb, f, t)),
    decreases b.len(),
{
    if b.len() > 0 {
        lemma_count_join_one(keys, na, nb, x, b.drop_last(), f, t);
        let rest = join_one(keys, na, nb, x, b.drop_last());
        if join_match(keys, x.0, b.last().0) {
            let u = (join_out(keys, na, nb, x.0, b.last().0), x.1 * b.last().1);
            assert(map_tuples(rest.push(u), f) =~= map_tuples(rest, f).push((f(u.0), u.1)));
            lemma_count_push(map_tuples(rest, f), (f(u.0), u.1), t);
        }
    }
}

proof fn lemma_count_join(
    keys: Seq<(usize, usize)>,
    na: nat,
    nb: nat,
    a: Rel,
    b: Rel,
    f: spec_fn(Seq<ValueModel>) -> Seq<ValueModel>,
    t: Seq<ValueModel>,
)
    ensures
        count(map_tuples(join_rel(keys, na, nb, a, b), f), t) == pair_sum(a, b, join_summand(keys, na, nb, f, t)),
    decreases a.len(),
{
    if a.len() > 0 {
        lemma_count_join(keys, na, nb, a.drop_last(), b, f, t);
        lemma_count_join_one(keys, na, nb, a.last(), b, f, t);
        let r1 = join_rel(keys, na, nb, a.drop_last(), b);
        let r2 = join_one(keys, na, nb, a.last(), b);
        assert(map_tuples(r1 + r2, f) =~= map_tuples(r1, f) + map_tuples(r2, f));
        lemma_count_append(map_tuples(r1, f), map_tuples(r2, f), t);
    }
}

/// Leaving out one column below `n` leaves `n - 1` columns.
proof fn lemma_complement_one(n: nat, i: usize)
    requires
        i < n,
        n <= usize::MAX,
    ensures
        complement(n, seq![i]).len() == n - 1,
    decreases n,
{
    if n > 0 {
        let m = (n - 1) as nat;
        if m == i as nat {
            assert(seq![i][0] == i);
            assert(seq![i].contains((n - 1) as usize));
            assert(complement(n, seq![i]) == complement(m, seq![i]));
            lemma_complement_none(m, i);
        } else {
            assert(!seq![i].contains(m as usize)) by {
                if seq![i].contains(m as usize) {
                    let k = choose|k: int| 0 <= k < 1 && seq![i][k] == m as usize;
                }
            }
            lemma_complement_one(m, i);
            assert(complement(n, seq![i]) == complement(m, seq![i]).push(m as usize));
        }
    }
}

proof fn lemma_complement_none(n: nat, i: usize)
    requires
        n <= i,
    ensures
        complement(n, seq![i]).len() == n,
    decreases n,
{
    if n > 0 {
        let m = (n - 1) as nat;
        assert(!seq![i].contains(m as usize)) by {
            if seq![i].contains(m as usize) {
                let k = choose|k: int| 0 <= k < 1 && seq![i][k] == m as usize;
            }
        }
        lemma_complement_none(m, i);
    }
}

/// A join on one pair of columns gives, up to column order, what the join
/// with the inputs exchanged gives: each tuple `[k] ++ l ++ r` of one is the
/// tuple `[k] ++ r ++ l` of the other, with the same multiplicity.
pub proof fn lemma_join_commutes(
    a: PlanModel,
    b: PlanModel,
    i: usize,
    j: usize,
    env: spec_fn(PlanModel) -> Rel,
    t: Seq<ValueModel>,
)
    requires
        i < a.arity <= usize::MAX,
        j < b.arity <= usize::MAX,
    ensures
        count(denote(join_of(b, a, seq![(j, i)]), env), t)
            == count(map_tuples(denote(join_of(a, b, seq![(i, j)]), env), |s: Seq<ValueModel>| swap_sides(s, (a.arity - 1) as nat)), t),
{
    let ra = denote(a, env);
    let rb = denote(b, env);
    let na = a.arity;
    let nb = b.arity;
    let k1 = seq![(i, j)];
    let k2 = seq![(j, i)];
    let sw = |s: Seq<ValueModel>| swap_sides(s, (na - 1) as nat);
    let id = |s: Seq<ValueModel>| s;
    assert(left_keys_of(k1) =~= seq![i]);
    assert(right_keys_of(k1) =~= seq![j]);
    assert(left_keys_of(k2) =~= seq![j]);
    assert(right_keys_of(k2) =~= seq![i]);
    lemma_complement_one(na, i);
    lemma_complement_one(nb, j);
    lemma_count_join(k1, na, nb, ra, rb, sw, t);
    lemma_count_join(k2, nb, na, rb, ra, id, t);
    assert(map_tuples(join_rel(k2, nb, na, rb, ra), id) =~= join_rel(k2, nb, na, rb, ra));
    let g = join_summand(k1, na, nb, sw, t);
    let h = join_summand(k2, nb, na, id, t);
    lemma_pair_sum_swap(ra, rb, g);
    let gt = transpose(g);
    assert forall|y: (Seq<ValueModel>, int), x: (Seq<ValueModel>, int)| #[trigger] gt(y, x) == h(y, x) by {
        let ca = complement(na, seq![i]);
        let cb = complement(nb, seq![j]);
        let o1 = join_out(k1, na, nb, x.0, y.0);
        let o2 = join_out(k2, nb, na, y.0, x.0);
        assert(join_match(k1, x.0, y.0) == join_match(k2, y.0, x.0));
        if join_match(k1, x.0, y.0) {
            assert(o1 =~= select(x.0, seq![i]) + select(x.0, ca) + select(y.0, cb));
            assert(o2 =~= select(y.0, seq![j]) + select(y.0, cb) + select(x.0, ca));
            assert(o1.subrange(0, 1) =~= select(x.0, seq![i]));
            assert(o1.subrange(1 + (na - 1), o1.len() as int) =~= select(y.0, cb));
            assert(o1.subrange(1, 1 + (na - 1)) =~= select(x.0, ca));
            assert(swap_sides(o1, (na - 1) as nat) =~= o2);
        }
        assert(x.1 * y.1 == y.1 * x.1) by (nonlinear_arith);
    }
    lemma_pair_sum_ext(rb, ra, gt, h);
}

/// What `render` returns for a distinct plan is a set: each tuple has
/// multiplicity zero or one, and one exactly when its multiplicity in the
/// input is positive.
pub proof fn lemma_render_distinct_is_set(
    x: PlanModel, r: Result<usize, RenderError>, s0: Stash, s1: Stash, p0: Seq<Step>, p1: Seq<Step>,
    imp: spec_fn(nat) -> Arr, var: spec_fn(nat) -> Rel, env: spec_fn(PlanModel) -> Rel, t: Seq<ValueModel>,
)
    requires
        rendered_in(distinct_of(x), r, s0, s1, p0, p1, imp, var, env),
    ensures
        count(result_of(r, p1, imp, var), t) == 0 || count(result_of(r, p1, imp, var), t) == 1,
        count(result_of(r, p1, imp, var), t) == 1 <==> count(denote(x, env), t) > 0,
{
    lemma_render_meaning(distinct_of(x), r, s0, s1, p0, p1, imp, var, env);
    lemma_distinct_is_set(x, env, t);
}

/// What `render` returns for a relation concatenated with its negation and
/// consolidated is empty.
pub proof fn lemma_render_negation_cancels(
    x: PlanModel, r: Result<usize, RenderError>, s0: Stash, s1: Stash, p0: Seq<Step>, p1: Seq<Step>,
    imp: spec_fn(nat) -> Arr, var: spec_fn(nat) -> Rel, env: spec_fn(PlanModel) -> Rel, t: Seq<ValueModel>,
)
    requires
        rendered_in(consolidate_of(concat_of(negate_of(x), x)), r, s0, s1, p0, p1, imp, var, env),
    ensures
        count(result_of(r, p1, imp, var), t) == 0,
        result_of(r, p1, imp, var).len() == 0,
{
    lemma_render_meaning(consolidate_of(concat_of(negate_of(x), x)), r, s0, s1, p0, p1, imp, var, env);
    lemma_negation_cancels(x, env, t);
}

/// What `render` returns for a plan negated twice holds the plan's relation.
pub proof fn lemma_render_double_negation(
    x: PlanModel, r: Result<usize, RenderError>, s0: Stash, s1: Stash, p0: Seq<Step>, p1: Seq<Step>,
    imp: spec_fn(nat) -> Arr, var: spec_fn(nat) -> Rel, env: spec_fn(PlanModel) -> Rel,
)
    requires
        rendered_in(negate_of(negate_of(x)), r, s0, s1, p0, p1, imp, var, env),
    ensures
        result_of(r, p1, imp, var) == denote(x, env),
{
    lemma_render_meaning(negate_of(negate_of(x)), r, s0, s1, p0, p1, imp, var, env);
    lemma_double_negation(x, env);
}

/// What `render` returns for a plan consolidated twice has the plan's
/// multiplicities.
pub proof fn lemma_render_consolidate_idempotent(
    x: PlanModel, r: Result<usize, RenderError>, s0: Stash, s1: Stash, p0: Seq<Step>, p1: Seq<Step>,
    imp: spec_fn(nat) -> Arr, var: spec_fn(nat) -> Rel, env: spec_fn(PlanModel) -> Rel, t: Seq<ValueModel>,
)
    requires
        rendered_in(consolidate_of(consolidate_of(x)), r, s0, s1, p0, p1, imp, var, env),
    ensures
        count(result_of(r, p1, imp, var), t) == count(denote(consolidate_of(x), env), t),
        count(result_of(r, p1, imp, var), t) == count(denote(x, env), t),
{
    lemma_render_meaning(consolidate_of(consolidate_of(x)), r, s0, s1, p0, p1, imp, var, env);
    lemma_idempotence(x, env, t);
}

/// What `render` returns for a plan made distinct twice has the multiplicities
/// of making it distinct once.
pub proof fn lemma_render_distinct_idempotent(
    x: PlanModel, r: Result<usize, RenderError>, s0: Stash, s1: Stash, p0: Seq<Step>, p1: Seq<Step>,
    imp: spec_fn(nat) -> Arr, var: spec_fn(nat) -> Rel, env: spec_fn(PlanModel) -> Rel, t: Seq<ValueModel>,
)
    requires
        rendered_in(distinct_of(distinct_of(x)), r, s0, s1, p0, p1, imp, var, env),
    ensures
        count(result_of(r, p1, imp, var), t) == count(denote(distinct_of(x), env), t),
{
    lemma_render_meaning(distinct_of(distinct_of(x)), r, s0, s1, p0, p1, imp, var, env);
    lemma_idempotence(x, env, t);
}

/// What `render` returns for `b` joined with `a` on one pair of columns is,
/// up to column order, the join of `a` with `b`.
pub proof fn lemma_render_join_commutes(
    a: PlanModel, b: PlanModel, i: usize, j: usize, r: Result<usize, RenderError>, s0: Stash, s1: Stash,
    p0: Seq<Step>, p1: Seq<Step>, imp: spec_fn(nat) -> Arr, var: spec_fn(nat) -> Rel,
    env: spec_fn(PlanModel) -> Rel, t: Seq<ValueModel>,
)
    requires
        rendered_in(join_of(b, a, seq![(j, i)]), r, s0, s1, p0, p1, imp, var, env),
        i < a.arity <= usize::MAX,
        j < b.arity <= usize::MAX,
    ensures
        count(result_of(r, p1, imp, var), t)
            == count(map_tuples(denote(join_of(a, b, seq![(i, j)]), env), |s: Seq<ValueModel>| swap_sides(s, (a.arity - 1) as nat)), t),
{
    lemma_render_meaning(join_of(b, a, seq![(j, i)]), r, s0, s1, p0, p1, imp, var, env);
    lemma_join_commutes(a, b, i, j, env, t);
}

/// What `render` returns for a three-column plan projected onto columns
/// `0, 1, 2` holds the plan's relation.
pub proof fn lemma_render_project_identity(
    x: PlanModel, r: Result<usize, RenderError>, s0: Stash, s1: Stash, p0: Seq<Step>, p1: Seq<Step>,
    imp: spec_fn(nat) -> Arr, var: spec_fn(nat) -> Rel, env: spec_fn(PlanModel) -> Rel,
)
    requires
        rendered_in(project_of(x, seq![0usize, 1usize, 2usize]), r, s0, s1, p0, p1, imp, var, env),
        x.arity == 3,
    ensures
        result_of(r, p1, imp, var) == denote(x, env),
{
    lemma_render_meaning(project_of(x, seq![0usize, 1usize, 2usize]), r, s0, s1, p0, p1, imp, var, env);
    lemma_project_identity(x, env);
}

} // verus!
