//! Lowering of plans into dataflow steps, sharing collections and
//! arrangements already built for the same plan.
use vstd::prelude::*;
use crate::cache::{ArrangementCache, ArrangementKey};
use crate::semantics::{class_pairs, class_prefix_pairs, offset, position, result_exprs, total_arity};
use crate::datum::{Expression, all_columns, copy_indices, default_keys, value_columns};
use crate::plan::copy_expressions;
use crate::plan::{
    Join, MultiwayJoin, NodeModel, Plan, PlanModel, PlanNode, Predicate, keys_fit, left_keys,
    lemma_models, models, right_keys,
};

verus! {

/// One operator of a dataflow. Each step builds a collection or an arrangement
/// from steps before it, which it names by position.
#[derive(Debug)]
pub enum Step {
    /// The arrangement imported as the query's import of this position.
    Import(usize),
    /// The recursive variable bound by the query's rule of this position,
    /// read through the local plan of the rule's name and arity.
    Variable(usize, Plan),
    /// The key of each record of an arrangement, as a collection.
    Keys(usize),
    /// Each tuple of a collection re-computed from expressions.
    Remap(usize, Vec<Expression>),
    /// The tuples of a collection that satisfy a predicate.
    Filter(usize, Predicate),
    /// The union of collections.
    Concat(Vec<usize>),
    /// A collection with its changes accumulated at each time.
    Consolidate(usize),
    /// A collection with negated multiplicities.
    Negate(usize),
    /// A collection passed through, reported under a tag.
    Inspect(usize, String),
    /// A collection arranged by key columns, with the value columns beside them.
    Arrange(usize, Vec<usize>, Vec<usize>),
    /// Each key of an arrangement with positive multiplicity, once, with no value.
    Distinct(usize),
    /// For records of two arrangements with equal keys: key, left value, right value.
    JoinCore(usize, usize),
}

/// The mathematical content of a [`Step`].
pub enum StepModel {
    Import(nat),
    Variable(nat, PlanModel),
    Keys(nat),
    Remap(nat, Seq<Expression>),
    Filter(nat, Predicate),
    Concat(Seq<usize>),
    Consolidate(nat),
    Negate(nat),
    Inspect(nat, Seq<char>),
    Arrange(nat, Seq<usize>, Seq<usize>),
    Distinct(nat),
    JoinCore(nat, nat),
}

impl View for Step {
    type V = StepModel;

    open spec fn view(&self) -> StepModel {
        match self {
            Step::Import(i) => StepModel::Import(*i as nat),
            Step::Variable(i, q) => StepModel::Variable(*i as nat, q.model()),
            Step::Keys(a) => StepModel::Keys(*a as nat),
            Step::Remap(c, es) => StepModel::Remap(*c as nat, es@),
            Step::Filter(c, p) => StepModel::Filter(*c as nat, *p),
            Step::Concat(cs) => StepModel::Concat(cs@),
            Step::Consolidate(c) => StepModel::Consolidate(*c as nat),
            Step::Negate(c) => StepModel::Negate(*c as nat),
            Step::Inspect(c, s) => StepModel::Inspect(*c as nat, s@),
            Step::Arrange(c, k, v) => StepModel::Arrange(*c as nat, k@, v@),
            Step::Distinct(a) => StepModel::Distinct(*a as nat),
            Step::JoinCore(a, b) => StepModel::JoinCore(*a as nat, *b as nat),
        }
    }
}

/// The model of a program of steps.
pub open spec fn program_model(p: Seq<Step>) -> Seq<StepModel> {
    p.map_values(|s: Step| s@)
}

/// The step builds an arrangement rather than a collection.
pub open spec fn is_arrangement(s: StepModel) -> bool {
    s is Import || s is Arrange || s is Distinct
}

/// Position `j` names a step before `i` that builds a collection.
pub open spec fn collection_before(p: Seq<StepModel>, j: nat, i: int) -> bool {
    j < i && !is_arrangement(p[j as int])
}

/// Position `j` names a step before `i` that builds an arrangement.
pub open spec fn arrangement_before(p: Seq<StepModel>, j: nat, i: int) -> bool {
    j < i && is_arrangement(p[j as int])
}

/// Step `i` reads only earlier steps, each of the kind it needs.
pub open spec fn step_ok(p: Seq<StepModel>, i: int) -> bool {
    match p[i] {
        StepModel::Import(_) => true,
        StepModel::Variable(_, _) => true,
        StepModel::Keys(a) => arrangement_before(p, a, i),
        StepModel::Remap(c, _) => collection_before(p, c, i),
        StepModel::Filter(c, _) => collection_before(p, c, i),
        StepModel::Concat(cs) => forall|k: int| 0 <= k < cs.len() ==> collection_before(p, #[trigger] cs[k] as nat, i),
        StepModel::Consolidate(c) => collection_before(p, c, i),
        StepModel::Negate(c) => collection_before(p, c, i),
        StepModel::Inspect(c, _) => collection_before(p, c, i),
        StepModel::Arrange(c, _, _) => collection_before(p, c, i),
        StepModel::Distinct(a) => arrangement_before(p, a, i),
        StepModel::JoinCore(a, b) => arrangement_before(p, a, i) && arrangement_before(p, b, i),
    }
}

/// Every step reads only earlier steps of the right kind.
pub open spec fn program_wf(p: Seq<StepModel>) -> bool {
    forall|i: int| 0 <= i < p.len() ==> #[trigger] step_ok(p, i)
}

/// `new` keeps the steps of `old` and may add more after them.
pub open spec fn extends(new: Seq<StepModel>, old: Seq<StepModel>) -> bool {
    new.len() >= old.len() && forall|i: int| 0 <= i < old.len() ==> #[trigger] new[i] == old[i]
}

/// Step `i` of `p` builds the collection of plan `q`: its operator is the one
/// of `q`'s node, applied to steps that build the collections (or the
/// arrangements) of `q`'s children. A multiway join is realized by a chain
/// that ends in re-computing its result columns; a source or local relation by
/// the keys of an imported arrangement or by a rule's variable.
pub open spec fn implements(p: Seq<StepModel>, t: Map<ArrangementKey, usize>, i: int, q: PlanModel) -> bool
    decreases q, 0nat, 0nat,
{
    0 <= i < p.len() && match q.node {
        NodeModel::Remap(es, c) => match p[i] {
            StepModel::Remap(j, es2) => es2 == es && implements(p, t, j as int, *c),
            _ => false,
        },
        NodeModel::Distinct(c) => match p[i] {
            StepModel::Keys(d) => 0 <= d < p.len() && match p[d as int] {
                StepModel::Distinct(a) => arranges(p, t, a as int, *c, all_columns(c.arity)),
                _ => false,
            },
            _ => false,
        },
        NodeModel::Concat(cs) => match p[i] {
            StepModel::Concat(ids) => all_implement(p, t, ids, cs),
            _ => false,
        },
        NodeModel::Consolidate(c) => match p[i] {
            StepModel::Consolidate(j) => implements(p, t, j as int, *c),
            _ => false,
        },
        NodeModel::Join(keys, a, b) => match p[i] {
            StepModel::JoinCore(x, y) => arranges(p, t, x as int, *a, left_keys(keys))
                && arranges(p, t, y as int, *b, right_keys(keys)),
            _ => false,
        },
        NodeModel::MultiwayJoin(results, srcs, classes) => match p[i] {
            StepModel::Remap(f, es) => es == result_exprs(srcs, results)
                && filtered(p, t, f as int, srcs, class_pairs(srcs, classes)),
            _ => false,
        },
        NodeModel::Negate(c) => match p[i] {
            StepModel::Negate(j) => implements(p, t, j as int, *c),
            _ => false,
        },
        NodeModel::Filter(pred, c) => match p[i] {
            StepModel::Filter(j, pred2) => pred2 == pred && implements(p, t, j as int, *c),
            _ => false,
        },
        NodeModel::Source(_) => leaf_step(p, t, i, q),
        NodeModel::Local(_) => leaf_step(p, t, i, q),
        NodeModel::Inspect(text, c) => match p[i] {
            StepModel::Inspect(j, text2) => text2 == text && implements(p, t, j as int, *c),
            _ => false,
        },
    }
}

/// Step `acc` builds the concatenations of one tuple from each of the first `k`
/// plans of `ms`: for one plan a step that realizes it; for more, every pair of
/// the concatenations for `k - 1` plans and the tuples of plan `k`, each side
/// arranged with no key columns.
pub open spec fn chain(p: Seq<StepModel>, t: Map<ArrangementKey, usize>, acc: int, ms: Seq<PlanModel>, k: nat) -> bool
    decreases ms, 1nat, k,
{
    0 <= acc < p.len() && 1 <= k <= ms.len() && if k == 1 {
        implements(p, t, acc, ms[0])
    } else {
        match p[acc] {
            StepModel::JoinCore(l, r) => 0 <= l < p.len() && 0 <= r < p.len() && match p[l as int] {
                StepModel::Arrange(prev, kl, vl) => kl.len() == 0 && vl == all_columns(offset(ms, k - 1))
                    && chain(p, t, prev as int, ms, (k - 1) as nat),
                _ => false,
            } && match p[r as int] {
                StepModel::Arrange(c, kr, vr) => kr.len() == 0 && vr == all_columns(ms[k - 1].arity)
                    && implements(p, t, c as int, ms[k - 1]),
                _ => false,
            },
            _ => false,
        }
    }
}

/// Step `f` keeps, of the concatenations of one tuple from each plan of `ms`,
/// those with equal values at each pair of columns, one filter per pair.
pub open spec fn filtered(
    p: Seq<StepModel>,
    t: Map<ArrangementKey, usize>,
    f: int,
    ms: Seq<PlanModel>,
    pairs: Seq<(usize, usize)>,
) -> bool
    decreases ms, 2nat, pairs.len(),
{
    0 <= f < p.len() && if pairs.len() == 0 {
        chain(p, t, f, ms, ms.len())
    } else {
        match p[f] {
            StepModel::Filter(g, pred) => pred == Predicate::Equal(pairs.last().0, pairs.last().1)
                && filtered(p, t, g as int, ms, pairs.drop_last()),
            _ => false,
        }
    }
}

/// A chain survives the growth of the program.
pub proof fn lemma_chain_extends(p: Seq<StepModel>, p2: Seq<StepModel>, t: Map<ArrangementKey, usize>, acc: int, ms: Seq<PlanModel>, k: nat)
    requires
        chain(p, t, acc, ms, k),
        extends(p2, p),
    ensures
        chain(p2, t, acc, ms, k),
    decreases ms, 1nat, k,
{
    assert(p2[acc] == p[acc]);
    if k == 1 {
        lemma_implements_extends(p, p2, t, acc, ms[0]);
    } else if let StepModel::JoinCore(l, r) = p[acc] {
        assert(p2[l as int] == p[l as int]);
        assert(p2[r as int] == p[r as int]);
        if let StepModel::Arrange(prev, _, _) = p[l as int] {
            lemma_chain_extends(p, p2, t, prev as int, ms, (k - 1) as nat);
        }
        if let StepModel::Arrange(c, _, _) = p[r as int] {
            lemma_implements_extends(p, p2, t, c as int, ms[k - 1]);
        }
    }
}

/// Filters survive the growth of the program.
pub proof fn lemma_filtered_extends(
    p: Seq<StepModel>,
    p2: Seq<StepModel>,
    t: Map<ArrangementKey, usize>,
    f: int,
    ms: Seq<PlanModel>,
    pairs: Seq<(usize, usize)>,
)
    requires
        filtered(p, t, f, ms, pairs),
        extends(p2, p),
    ensures
        filtered(p2, t, f, ms, pairs),
    decreases ms, 2nat, pairs.len(),
{
    assert(p2[f] == p[f]);
    if pairs.len() == 0 {
        lemma_chain_extends(p, p2, t, f, ms, ms.len());
    } else if let StepModel::Filter(g, _) = p[f] {
        lemma_filtered_extends(p, p2, t, g as int, ms, pairs.drop_last());
    }
}

/// Step `i` reads the relation `q` names from outside the plan: the keys of
/// its imported arrangement by all columns, or, for a local relation, a rule's
/// variable.
pub open spec fn leaf_step(p: Seq<StepModel>, t: Map<ArrangementKey, usize>, i: int, q: PlanModel) -> bool {
    match p[i] {
        StepModel::Keys(a) => 0 <= a < p.len() && p[a as int] is Import
            && t.contains_key((q, all_columns(q.arity))) && t[(q, all_columns(q.arity))] == a,
        StepModel::Variable(_, vq) => q.node is Local && vq == q,
        _ => false,
    }
}

/// Step `a` of `p` arranges the collection of `q` by `keys`, with the other
/// columns as values: it arranges a step that builds that collection, or it is
/// an imported arrangement, or `q` is a distinct plan and the step is its
/// reduction.
pub open spec fn arranges(p: Seq<StepModel>, t: Map<ArrangementKey, usize>, a: int, q: PlanModel, keys: Seq<usize>) -> bool
    decreases q, 1nat, 0nat,
{
    0 <= a < p.len() && match p[a] {
        StepModel::Arrange(c, k, v) => k == keys && v == crate::datum::complement(q.arity, keys)
            && implements(p, t, c as int, q),
        StepModel::Import(_) => t.contains_key((q, keys)) && t[(q, keys)] == a,
        StepModel::Distinct(b) => match q.node {
            NodeModel::Distinct(c) => keys == all_columns(q.arity) && arranges(p, t, b as int, *c, all_columns(c.arity)),
            _ => false,
        },
        _ => false,
    }
}

/// Each step of `ids` builds the collection of the plan at the same position.
pub open spec fn all_implement(p: Seq<StepModel>, t: Map<ArrangementKey, usize>, ids: Seq<usize>, qs: Seq<PlanModel>) -> bool
    decreases qs, 0nat, 0nat,
{
    ids.len() == qs.len() && if qs.len() == 0 {
        true
    } else {
        all_implement(p, t, ids.drop_last(), qs.drop_last()) && implements(p, t, ids.last() as int, qs.last())
    }
}

/// Realization survives the growth of the program.
pub proof fn lemma_implements_extends(p: Seq<StepModel>, p2: Seq<StepModel>, t: Map<ArrangementKey, usize>, i: int, q: PlanModel)
    requires
        implements(p, t, i, q),
        extends(p2, p),
    ensures
        implements(p2, t, i, q),
    decreases q, 0nat, 0nat,
{
    assert(p2[i] == p[i]);
    match q.node {
        NodeModel::Remap(_, c) => {
            if let StepModel::Remap(j, _) = p[i] {
                lemma_implements_extends(p, p2, t, j as int, *c);
            }
        },
        NodeModel::Distinct(c) => {
            if let StepModel::Keys(d) = p[i] {
                assert(p2[d as int] == p[d as int]);
                if let StepModel::Distinct(a) = p[d as int] {
                    lemma_arranges_extends(p, p2, t, a as int, *c, all_columns(c.arity));
                }
            }
        },
        NodeModel::Concat(cs) => {
            if let StepModel::Concat(ids) = p[i] {
                lemma_all_implement_extends(p, p2, t, ids, cs);
            }
        },
        NodeModel::Consolidate(c) => {
            if let StepModel::Consolidate(j) = p[i] {
                lemma_implements_extends(p, p2, t, j as int, *c);
            }
        },
        NodeModel::Join(keys, a, b) => {
            if let StepModel::JoinCore(x, y) = p[i] {
                lemma_arranges_extends(p, p2, t, x as int, *a, left_keys(keys));
                lemma_arranges_extends(p, p2, t, y as int, *b, right_keys(keys));
            }
        },
        NodeModel::MultiwayJoin(_, srcs, classes) => {
            if let StepModel::Remap(f, _) = p[i] {
                lemma_filtered_extends(p, p2, t, f as int, srcs, class_pairs(srcs, classes));
            }
        },
        NodeModel::Negate(c) => {
            if let StepModel::Negate(j) = p[i] {
                lemma_implements_extends(p, p2, t, j as int, *c);
            }
        },
        NodeModel::Filter(_, c) => {
            if let StepModel::Filter(j, _) = p[i] {
                lemma_implements_extends(p, p2, t, j as int, *c);
            }
        },
        NodeModel::Source(_) | NodeModel::Local(_) => {
            if let StepModel::Keys(a) = p[i] {
                assert(p2[a as int] == p[a as int]);
            }
        },
        NodeModel::Inspect(_, c) => {
            if let StepModel::Inspect(j, _) = p[i] {
                lemma_implements_extends(p, p2, t, j as int, *c);
            }
        },
    }
}

/// An arrangement's realization survives the growth of the program.
pub proof fn lemma_arranges_extends(p: Seq<StepModel>, p2: Seq<StepModel>, t: Map<ArrangementKey, usize>, a: int, q: PlanModel, keys: Seq<usize>)
    requires
        arranges(p, t, a, q, keys),
        extends(p2, p),
    ensures
        arranges(p2, t, a, q, keys),
    decreases q, 1nat, 0nat,
{
    assert(p2[a] == p[a]);
    match p[a] {
        StepModel::Arrange(c, _, _) => lemma_implements_extends(p, p2, t, c as int, q),
        StepModel::Distinct(b) => {
            if let NodeModel::Distinct(c) = q.node {
                lemma_arranges_extends(p, p2, t, b as int, *c, all_columns(c.arity));
            }
        },
        _ => {},
    }
}

/// Realization of each plan of a sequence survives the growth of the program.
pub proof fn lemma_all_implement_extends(p: Seq<StepModel>, p2: Seq<StepModel>, t: Map<ArrangementKey, usize>, ids: Seq<usize>, qs: Seq<PlanModel>)
    requires
        all_implement(p, t, ids, qs),
        extends(p2, p),
    ensures
        all_implement(p2, t, ids, qs),
    decreases qs, 0nat, 0nat,
{
    if qs.len() > 0 {
        lemma_all_implement_extends(p, p2, t, ids.drop_last(), qs.drop_last());
        lemma_implements_extends(p, p2, t, ids.last() as int, qs.last());
    }
}

/// Why a plan could not be lowered.
#[derive(Clone, Copy, Debug, PartialEq, Eq, Structural)]
pub enum RenderError {
    /// A source or local relation is neither imported nor bound.
    MissingRelation,
    /// A multiway join has no sources, names a position outside its sources,
    /// or has more columns in all than an index can count.
    MalformedJoin,
}

/// Collections and arrangements built so far while lowering one query, by plan.
pub struct Stash {
    /// Collections by plan (with no key columns).
    collections: ArrangementCache<usize>,
    /// Arrangements built within the query.
    local: ArrangementCache<usize>,
    /// Arrangements imported into the query.
    trace: ArrangementCache<usize>,
}

impl Stash {
    /// The three caches are well formed.
    pub closed spec fn wf(&self) -> bool {
        self.collections.wf() && self.local.wf() && self.trace.wf()
    }

    /// The step of each collection, by plan.
    pub closed spec fn collections(&self) -> Map<PlanModel, usize> {
        Map::new(
            |p: PlanModel| self.collections@.contains_key((p, Seq::empty())),
            |p: PlanModel| self.collections@[(p, Seq::empty())],
        )
    }

    /// The step of each arrangement built within the query.
    pub closed spec fn local(&self) -> Map<ArrangementKey, usize> {
        self.local@
    }

    /// The step of each imported arrangement.
    pub closed spec fn trace(&self) -> Map<ArrangementKey, usize> {
        self.trace@
    }

    /// Every recorded step exists in `p` and is of the recorded kind.
    pub open spec fn fits(&self, p: Seq<StepModel>) -> bool {
        &&& forall|q: PlanModel| #[trigger] self.collections().contains_key(q)
            ==> self.collections()[q] < p.len() && !is_arrangement(p[self.collections()[q] as int])
        &&& forall|k: ArrangementKey| #[trigger] self.local().contains_key(k)
            ==> self.local()[k] < p.len() && is_arrangement(p[self.local()[k] as int])
        &&& forall|k: ArrangementKey| #[trigger] self.trace().contains_key(k)
            ==> self.trace()[k] < p.len() && is_arrangement(p[self.trace()[k] as int])
    }

    /// Every recorded step builds what it is recorded for: a collection step
    /// realizes its plan, a local arrangement step arranges its plan by its
    /// keys, and an imported arrangement is an import step.
    pub open spec fn realizes(&self, p: Seq<StepModel>) -> bool {
        &&& forall|q: PlanModel| #[trigger] self.collections().contains_key(q)
            ==> implements(p, self.trace(), self.collections()[q] as int, q)
        &&& forall|k: ArrangementKey| #[trigger] self.local().contains_key(k)
            ==> arranges(p, self.trace(), self.local()[k] as int, k.0, k.1)
        &&& forall|k: ArrangementKey| #[trigger] self.trace().contains_key(k)
            ==> p[self.trace()[k] as int] is Import
    }

    /// An empty stash.
    pub fn new() -> (r: Stash)
        ensures
            r.wf(),
            r.collections() == Map::<PlanModel, usize>::empty(),
            r.local() == Map::<ArrangementKey, usize>::empty(),
            r.trace() == Map::<ArrangementKey, usize>::empty(),
    {
        let r = Stash { collections: ArrangementCache::new(), local: ArrangementCache::new(), trace: ArrangementCache::new() };
        assert(r.collections() =~= Map::<PlanModel, usize>::empty());
        r
    }

    /// The collection built for `plan`, if any.
    pub fn get_collection(&self, plan: &Plan) -> (r: Option<usize>)
        requires
            self.wf(),
        ensures
            match r {
                Some(i) => self.collections().contains_key(plan.model()) && i == self.collections()[plan.model()],
                None => !self.collections().contains_key(plan.model()),
            },
    {
        let none: [usize; 0] = [];
        match self.collections.get(plan, Some(none.as_slice())) {
            Some(i) => {
                assert(none@ =~= Seq::<usize>::empty());
                Some(*i)
            },
            None => {
                assert(none@ =~= Seq::<usize>::empty());
                None
            },
        }
    }

    /// Records the collection built for `plan`.
    pub fn set_collection(&mut self, plan: Plan, step: usize)
        requires
            old(self).wf(),
        ensures
            final(self).wf(),
            final(self).collections() == old(self).collections().insert(plan.model(), step),
            final(self).local() == old(self).local(),
            final(self).trace() == old(self).trace(),
    {
        let ghost pm = plan.model();
        let none: [usize; 0] = [];
        self.collections.set(plan, Some(none.as_slice()), step);
        assert(none@ =~= Seq::<usize>::empty());
        assert(self.collections() =~= old(self).collections().insert(pm, step));
    }

    /// The arrangement of `plan` by `keys` built within the query; with no keys
    /// named, by all columns.
    pub fn get_local(&self, plan: &Plan, keys: Option<&[usize]>) -> (r: Option<usize>)
        requires
            self.wf(),
        ensures
            ({
                let k = (plan.model(), crate::cache::normalized_keys(plan.model(), crate::cache::key_columns(keys)));
                match r {
                    Some(i) => self.local().contains_key(k) && i == self.local()[k],
                    None => !self.local().contains_key(k),
                }
            }),
    {
        match self.local.get(plan, keys) {
            Some(i) => Some(*i),
            None => None,
        }
    }

    /// Records an arrangement of `plan` by `keys` built within the query.
    pub fn set_local(&mut self, plan: Plan, keys: Option<&[usize]>, step: usize)
        requires
            old(self).wf(),
        ensures
            final(self).wf(),
            final(self).local() == old(self).local().insert(
                (plan.model(), crate::cache::normalized_keys(plan.model(), crate::cache::key_columns(keys))),
                step,
            ),
            final(self).collections() == old(self).collections(),
            final(self).trace() == old(self).trace(),
    {
        self.local.set(plan, keys, step);
    }

    /// The imported arrangement of `plan` by `keys`; with no keys named, by all
    /// columns.
    pub fn get_trace(&self, plan: &Plan, keys: Option<&[usize]>) -> (r: Option<usize>)
        requires
            self.wf(),
        ensures
            ({
                let k = (plan.model(), crate::cache::normalized_keys(plan.model(), crate::cache::key_columns(keys)));
                match r {
                    Some(i) => self.trace().contains_key(k) && i == self.trace()[k],
                    None => !self.trace().contains_key(k),
                }
            }),
    {
        match self.trace.get(plan, keys) {
            Some(i) => Some(*i),
            None => None,
        }
    }

    /// Records an imported arrangement of `plan` by `keys`.
    pub fn set_trace(&mut self, plan: Plan, keys: Option<&[usize]>, step: usize)
        requires
            old(self).wf(),
        ensures
            final(self).wf(),
            final(self).trace() == old(self).trace().insert(
                (plan.model(), crate::cache::normalized_keys(plan.model(), crate::cache::key_columns(keys))),
                step,
            ),
            final(self).collections() == old(self).collections(),
            final(self).local() == old(self).local(),
    {
        self.trace.set(plan, keys, step);
    }
}


/// `new` has an entry for every plan and key that `old` has, and the same imports.
pub open spec fn grows(new: Stash, old: Stash) -> bool {
    &&& forall|q: PlanModel| #[trigger] old.collections().contains_key(q) ==> new.collections().contains_key(q)
    &&& forall|k: ArrangementKey| #[trigger] old.local().contains_key(k) ==> new.local().contains_key(k)
    &&& new.trace() == old.trace()
}

/// The stash and the program agree, and the program is well formed.
pub open spec fn consistent(stash: Stash, program: Seq<Step>) -> bool {
    stash.wf() && stash.fits(program_model(program)) && program_wf(program_model(program))
        && stash.realizes(program_model(program))
}

/// What lowering leaves behind in every case: the stash and the program still
/// agree, the program only grew, and the stash only gained entries.
pub open spec fn lowered(s0: Stash, s1: Stash, p0: Seq<Step>, p1: Seq<Step>) -> bool {
    &&& consistent(s1, p1)
    &&& extends(program_model(p1), program_model(p0))
    &&& derived(program_model(p1), program_model(p0))
    &&& grows(s1, s0)
}

/// The steps `new` adds after `old` compute from other steps: none of them is
/// an import or a variable.
pub open spec fn derived(new: Seq<StepModel>, old: Seq<StepModel>) -> bool {
    forall|i: int| old.len() <= i < new.len() ==> !(#[trigger] new[i] is Import) && !(new[i] is Variable)
}

/// The outcome of lowering a plan: success whenever the plan is resolvable (so
/// an error means it is not); on success the plan's collection is recorded and
/// its step realizes the plan; a plan already lowered is reused as it is.
pub open spec fn rendered(p: PlanModel, r: Result<usize, RenderError>, s0: Stash, s1: Stash, p0: Seq<Step>, p1: Seq<Step>) -> bool {
    &&& lowered(s0, s1, p0, p1)
    &&& (resolvable(p, s0.collections(), s0.local(), s0.trace()) ==> r is Ok)
    &&& match r {
        Ok(i) => s1.collections().contains_key(p) && s1.collections()[p] == i
            && implements(program_model(p1), s1.trace(), i as int, p),
        Err(_) => !resolvable(p, s0.collections(), s0.local(), s0.trace()),
    }
    &&& (s0.collections().contains_key(p) ==> r == Ok::<usize, RenderError>(s0.collections()[p]) && p1 == p0
        && s1 == s0)
    &&& (r is Ok && !s0.collections().contains_key(p) ==> installed(p, r->Ok_0, s1, program_model(p1)))
}

/// What lowering a plan not yet lowered leaves behind beyond its collection: a
/// source or local relation is the keys of its imported arrangement by all
/// columns; a join has both inputs arranged by their key columns among the
/// local arrangements.
pub open spec fn installed(p: PlanModel, i: usize, s1: Stash, p1: Seq<StepModel>) -> bool {
    match p.node {
        NodeModel::Source(_) | NodeModel::Local(_) => s1.trace().contains_key((p, all_columns(p.arity)))
            && p1[i as int] == StepModel::Keys(s1.trace()[(p, all_columns(p.arity))] as nat),
        NodeModel::Join(keys, a, b) => s1.local().contains_key((*a, left_keys(keys)))
            && s1.local().contains_key((*b, right_keys(keys))),
        _ => true,
    }
}

/// A position `(source, column)` names a column of one of the sources.
pub open spec fn position_ok(ps: Seq<PlanModel>, pos: (usize, usize)) -> bool {
    pos.0 < ps.len() && pos.1 < ps[pos.0 as int].arity
}

/// A multiway join has sources, all its positions are columns of them, and the
/// columns of all sources together can be counted by an index.
pub open spec fn multiway_ok(
    results: Seq<(usize, usize)>,
    ps: Seq<PlanModel>,
    classes: Seq<Seq<(usize, usize)>>,
) -> bool {
    &&& ps.len() > 0
    &&& total_arity(ps) <= usize::MAX
    &&& forall|k: int| 0 <= k < results.len() ==> position_ok(ps, #[trigger] results[k])
    &&& forall|c: int, k: int| 0 <= c < classes.len() && 0 <= k < classes[c].len()
        ==> position_ok(ps, #[trigger] classes[c][k])
}

/// The arity recorded at every node is the number of columns the node
/// produces, and every column a node reads exists: the renderer splits tuples
/// into keys and values by these arities.
pub open spec fn well_formed(p: PlanModel) -> bool
    decreases p,
{
    match p.node {
        NodeModel::Remap(es, c) => p.arity == es.len()
            && (forall|k: int| 0 <= k < es.len() ==> (#[trigger] es[k]).reads_below(c.arity))
            && well_formed(*c),
        NodeModel::Distinct(c) => p.arity == c.arity && well_formed(*c),
        NodeModel::Concat(cs) => cs.len() > 0 && all_well_formed(cs, p.arity),
        NodeModel::Consolidate(c) => p.arity == c.arity && well_formed(*c),
        NodeModel::Join(keys, a, b) => keys_fit(keys, a.arity, b.arity)
            && p.arity + keys.len() == a.arity + b.arity && well_formed(*a) && well_formed(*b),
        NodeModel::MultiwayJoin(results, srcs, classes) => p.arity == results.len()
            && multiway_ok(results, srcs, classes) && all_well_formed_any(srcs),
        NodeModel::Negate(c) => p.arity == c.arity && well_formed(*c),
        NodeModel::Filter(pred, c) => p.arity == c.arity && pred.reads_below(c.arity) && well_formed(*c),
        NodeModel::Source(_) => true,
        NodeModel::Local(_) => true,
        NodeModel::Inspect(_, c) => p.arity == c.arity && well_formed(*c),
    }
}

/// Every plan of the sequence is well formed and has `arity` columns.
pub open spec fn all_well_formed(ps: Seq<PlanModel>, arity: nat) -> bool
    decreases ps,
{
    if ps.len() == 0 {
        true
    } else {
        all_well_formed(ps.drop_last(), arity) && ps.last().arity == arity && well_formed(ps.last())
    }
}

/// Every plan of the sequence is well formed.
pub open spec fn all_well_formed_any(ps: Seq<PlanModel>) -> bool
    decreases ps,
{
    if ps.len() == 0 {
        true
    } else {
        all_well_formed_any(ps.drop_last()) && well_formed(ps.last())
    }
}

/// Lowering `p` with these collections, local arrangements and imports finds
/// every relation it names.
pub open spec fn resolvable(
    p: PlanModel,
    cols: Map<PlanModel, usize>,
    local: Map<ArrangementKey, usize>,
    trace: Map<ArrangementKey, usize>,
) -> bool
    decreases p,
{
    if cols.contains_key(p) {
        true
    } else {
        match p.node {
            NodeModel::Remap(_, c) => resolvable(*c, cols, local, trace),
            NodeModel::Distinct(c) => local.contains_key((*c, all_columns(c.arity)))
                || trace.contains_key((*c, all_columns(c.arity))) || resolvable(*c, cols, local, trace),
            NodeModel::Concat(cs) => all_resolvable(cs, cols, local, trace),
            NodeModel::Consolidate(c) => resolvable(*c, cols, local, trace),
            NodeModel::Join(keys, a, b) =>
                (local.contains_key((*a, left_keys(keys))) || resolvable(*a, cols, local, trace))
                && (local.contains_key((*b, right_keys(keys))) || resolvable(*b, cols, local, trace)),
            NodeModel::MultiwayJoin(results, srcs, classes) =>
                multiway_ok(results, srcs, classes) && all_resolvable(srcs, cols, local, trace),
            NodeModel::Negate(c) => resolvable(*c, cols, local, trace),
            NodeModel::Filter(_, c) => resolvable(*c, cols, local, trace),
            NodeModel::Source(_) => trace.contains_key((p, all_columns(p.arity))),
            NodeModel::Local(_) => trace.contains_key((p, all_columns(p.arity))),
            NodeModel::Inspect(_, c) => resolvable(*c, cols, local, trace),
        }
    }
}

/// Every plan of the sequence is resolvable.
pub open spec fn all_resolvable(
    ps: Seq<PlanModel>,
    cols: Map<PlanModel, usize>,
    local: Map<ArrangementKey, usize>,
    trace: Map<ArrangementKey, usize>,
) -> bool
    decreases ps,
{
    if ps.len() == 0 {
        true
    } else {
        all_resolvable(ps.drop_last(), cols, local, trace) && resolvable(ps.last(), cols, local, trace)
    }
}

/// Resolvability survives the growth of the stash.
pub proof fn lemma_resolvable_grows(p: PlanModel, new: Stash, old: Stash)
    requires
        grows(new, old),
        resolvable(p, old.collections(), old.local(), old.trace()),
    ensures
        resolvable(p, new.collections(), new.local(), new.trace()),
    decreases p,
{
    if !old.collections().contains_key(p) {
        match p.node {
            NodeModel::Remap(_, c) => lemma_resolvable_grows(*c, new, old),
            NodeModel::Distinct(c) => {
                if !old.local().contains_key((*c, all_columns(c.arity)))
                    && !old.trace().contains_key((*c, all_columns(c.arity))) {
                    lemma_resolvable_grows(*c, new, old);
                }
            },
            NodeModel::Concat(cs) => lemma_all_resolvable_grows(cs, new, old),
            NodeModel::Consolidate(c) => lemma_resolvable_grows(*c, new, old),
            NodeModel::Join(keys, a, b) => {
                if !old.local().contains_key((*a, left_keys(keys))) {
                    lemma_resolvable_grows(*a, new, old);
                }
                if !old.local().contains_key((*b, right_keys(keys))) {
                    lemma_resolvable_grows(*b, new, old);
                }
            },
            NodeModel::MultiwayJoin(_, srcs, _) => lemma_all_resolvable_grows(srcs, new, old),
            NodeModel::Negate(c) => lemma_resolvable_grows(*c, new, old),
            NodeModel::Filter(_, c) => lemma_resolvable_grows(*c, new, old),
            NodeModel::Source(_) => {},
            NodeModel::Local(_) => {},
            NodeModel::Inspect(_, c) => lemma_resolvable_grows(*c, new, old),
        }
    }
}

/// Resolvability of every plan of a sequence survives the growth of the stash.
pub proof fn lemma_all_resolvable_grows(ps: Seq<PlanModel>, new: Stash, old: Stash)
    requires
        grows(new, old),
        all_resolvable(ps, old.collections(), old.local(), old.trace()),
    ensures
        all_resolvable(ps, new.collections(), new.local(), new.trace()),
    decreases ps,
{
    if ps.len() > 0 {
        lemma_all_resolvable_grows(ps.drop_last(), new, old);
        lemma_resolvable_grows(ps.last(), new, old);
    }
}

/// Each plan of a resolvable sequence is resolvable.
pub proof fn lemma_all_resolvable_each(
    ps: Seq<PlanModel>,
    cols: Map<PlanModel, usize>,
    local: Map<ArrangementKey, usize>,
    trace: Map<ArrangementKey, usize>,
)
    ensures
        all_resolvable(ps, cols, local, trace) <==> forall|i: int| 0 <= i < ps.len()
            ==> resolvable(#[trigger] ps[i], cols, local, trace),
    decreases ps.len(),
{
    if ps.len() > 0 {
        let q = ps.drop_last();
        lemma_all_resolvable_each(q, cols, local, trace);
        assert forall|i: int| 0 <= i < q.len() implies #[trigger] q[i] == ps[i] by {}
        assert(ps.last() == ps[ps.len() - 1]);
        if all_resolvable(ps, cols, local, trace) {
            assert forall|i: int| 0 <= i < ps.len() implies resolvable(#[trigger] ps[i], cols, local, trace) by {
                if i < q.len() {
                    assert(resolvable(q[i], cols, local, trace));
                }
            }
        }
        if forall|i: int| 0 <= i < ps.len() ==> resolvable(#[trigger] ps[i], cols, local, trace) {
            assert forall|i: int| 0 <= i < q.len() implies resolvable(#[trigger] q[i], cols, local, trace) by {
                assert(resolvable(ps[i], cols, local, trace));
            }
            assert(resolvable(ps[ps.len() - 1], cols, local, trace));
        }
    }
}

/// Recorded steps stay valid when the program grows.
pub proof fn lemma_fits_extends(stash: Stash, new: Seq<StepModel>, old: Seq<StepModel>)
    requires
        stash.fits(old),
        stash.realizes(old),
        extends(new, old),
    ensures
        stash.fits(new),
        stash.realizes(new),
{
    assert forall|q: PlanModel| #[trigger] stash.collections().contains_key(q)
        implies implements(new, stash.trace(), stash.collections()[q] as int, q) by {
        lemma_implements_extends(old, new, stash.trace(), stash.collections()[q] as int, q);
    }
    assert forall|k: ArrangementKey| #[trigger] stash.local().contains_key(k)
        implies arranges(new, stash.trace(), stash.local()[k] as int, k.0, k.1) by {
        lemma_arranges_extends(old, new, stash.trace(), stash.local()[k] as int, k.0, k.1);
    }
    assert forall|k: ArrangementKey| #[trigger] stash.trace().contains_key(k)
        implies new[stash.trace()[k] as int] is Import by {
        assert(new[stash.trace()[k] as int] == old[stash.trace()[k] as int]);
    }
}

proof fn lemma_child_after_push(p: Seq<StepModel>, x: StepModel, t: Map<ArrangementKey, usize>, c: int, q: PlanModel)
    requires
        implements(p, t, c, q),
    ensures
        implements(p.push(x), t, c, q),
{
    lemma_push_extends(p, x);
    lemma_implements_extends(p, p.push(x), t, c, q);
}

proof fn lemma_arranges_after_push(p: Seq<StepModel>, x: StepModel, t: Map<ArrangementKey, usize>, a: int, q: PlanModel, keys: Seq<usize>)
    requires
        arranges(p, t, a, q, keys),
    ensures
        arranges(p.push(x), t, a, q, keys),
{
    lemma_push_extends(p, x);
    lemma_arranges_extends(p, p.push(x), t, a, q, keys);
}

/// No column below `n` is left out by the key list of all columns.
pub proof fn lemma_complement_all(n: nat)
    ensures
        crate::datum::complement(n, all_columns(n)).len() == 0,
    decreases n,
{
    if n > 0 {
        let m = (n - 1) as nat;
        assert(all_columns(n)[m as int] == (n - 1) as usize);
        assert(all_columns(n).contains((n - 1) as usize));
        lemma_complement_all_prefix(m, n);
    }
}

proof fn lemma_complement_all_prefix(m: nat, n: nat)
    requires
        m <= n,
    ensures
        crate::datum::complement(m, all_columns(n)).len() == 0,
    decreases m,
{
    if m > 0 {
        assert(all_columns(n)[(m - 1) as int] == (m - 1) as usize);
        assert(all_columns(n).contains((m - 1) as usize));
        lemma_complement_all_prefix((m - 1) as nat, n);
    }
}

/// A program with one more step extends the program.
pub proof fn lemma_push_extends(p: Seq<StepModel>, x: StepModel)
    ensures
        extends(p.push(x), p),
{
    assert forall|i: int| 0 <= i < p.len() implies #[trigger] p.push(x)[i] == p[i] by {}
}

proof fn lemma_grows_trans(a: Stash, b: Stash, c: Stash)
    requires
        grows(b, a),
        grows(c, b),
    ensures
        grows(c, a),
{
}

proof fn lemma_lowered_trans(s0: Stash, s1: Stash, s2: Stash, p0: Seq<Step>, p1: Seq<Step>, p2: Seq<Step>)
    requires
        lowered(s0, s1, p0, p1),
        lowered(s1, s2, p1, p2),
    ensures
        lowered(s0, s2, p0, p2),
{
    let (m0, m1, m2) = (program_model(p0), program_model(p1), program_model(p2));
    assert forall|i: int| 0 <= i < m0.len() implies #[trigger] m2[i] == m0[i] by {
        assert(m2[i] == m1[i]);
    }
    lemma_derived_trans(m0, m1, m2);
}

/// Each step of a list realizes the plan at the same position.
pub proof fn lemma_all_implement_each(p: Seq<StepModel>, t: Map<ArrangementKey, usize>, ids: Seq<usize>, qs: Seq<PlanModel>)
    requires
        all_implement(p, t, ids, qs),
    ensures
        ids.len() == qs.len(),
        forall|k: int| 0 <= k < qs.len() ==> implements(p, t, #[trigger] ids[k] as int, qs[k]),
    decreases qs.len(),
{
    if qs.len() > 0 {
        lemma_all_implement_each(p, t, ids.drop_last(), qs.drop_last());
        assert forall|k: int| 0 <= k < qs.len() implies implements(p, t, #[trigger] ids[k] as int, qs[k]) by {
            if k < qs.len() - 1 {
                assert(ids.drop_last()[k] == ids[k]);
                assert(qs.drop_last()[k] == qs[k]);
            }
        }
    }
}

proof fn lemma_derived_trans(m0: Seq<StepModel>, m1: Seq<StepModel>, m2: Seq<StepModel>)
    requires
        extends(m1, m0),
        extends(m2, m1),
        derived(m1, m0),
        derived(m2, m1),
    ensures
        derived(m2, m0),
{
    assert forall|i: int| m0.len() <= i < m2.len() implies !(#[trigger] m2[i] is Import) && !(m2[i] is Variable) by {
        if i < m1.len() {
            assert(m2[i] == m1[i]);
        }
    }
}

/// Appends a step that reads only earlier steps of the right kind.
fn push_step(program: &mut Vec<Step>, step: Step) -> (r: usize)
    requires
        program_wf(program_model(old(program)@)),
        step_ok(program_model(old(program)@).push(step@), old(program)@.len() as int),
        !(step@ is Import) && !(step@ is Variable),
    ensures
        program_model(final(program)@) == program_model(old(program)@).push(step@),
        program_wf(program_model(final(program)@)),
        extends(program_model(final(program)@), program_model(old(program)@)),
        derived(program_model(final(program)@), program_model(old(program)@)),
        r == old(program)@.len(),
{
    let ghost before = program_model(program@);
    let ghost s = step@;
    let r = program.len();
    program.push(step);
    proof {
        let after = program_model(program@);
        assert(after =~= before.push(s));
        assert forall|i: int| 0 <= i < after.len() implies #[trigger] step_ok(after, i) by {
            if i < before.len() {
                assert(step_ok(before, i));
                assert(after[i] == before[i]);
                match after[i] {
                    StepModel::Concat(cs) => {
                        assert forall|k: int| 0 <= k < cs.len() implies collection_before(after, #[trigger] cs[k] as nat, i) by {
                            assert(collection_before(before, cs[k] as nat, i));
                        }
                    },
                    _ => {},
                }
            }
        }
    }
    r
}

/// Appends a step building a collection and records it as the collection of `plan`.
fn record_collection(plan: &Plan, step: Step, stash: &mut Stash, program: &mut Vec<Step>) -> (r: usize)
    requires
        consistent(*old(stash), old(program)@),
        step_ok(program_model(old(program)@).push(step@), old(program)@.len() as int),
        !is_arrangement(step@),
        !(step@ is Variable),
        implements(program_model(old(program)@).push(step@), old(stash).trace(), old(program)@.len() as int, plan.model()),
    ensures
        lowered(*old(stash), *final(stash), old(program)@, final(program)@),
        program_model(final(program)@) == program_model(old(program)@).push(step@),
        r == old(program)@.len(),
        final(stash).collections() == old(stash).collections().insert(plan.model(), r),
        final(stash).local() == old(stash).local(),
        final(stash).trace() == old(stash).trace(),
{
    let ghost s = step@;
    let i = push_step(program, step);
    proof {
        lemma_fits_extends(*stash, program_model(program@), program_model(old(program)@));
    }
    stash.set_collection(plan.duplicate(), i);
    proof {
        assert(program_model(program@)[i as int] == s);
    }
    i
}

/// Appends a step building an arrangement and records it as the arrangement of
/// `plan` by `keys`.
fn record_arrangement(plan: &Plan, keys: Option<&[usize]>, step: Step, stash: &mut Stash, program: &mut Vec<Step>) -> (r: usize)
    requires
        consistent(*old(stash), old(program)@),
        step_ok(program_model(old(program)@).push(step@), old(program)@.len() as int),
        is_arrangement(step@),
        arranges(
            program_model(old(program)@).push(step@), old(stash).trace(),
            old(program)@.len() as int,
            plan.model(),
            crate::cache::normalized_keys(plan.model(), crate::cache::key_columns(keys)),
        ),
    ensures
        lowered(*old(stash), *final(stash), old(program)@, final(program)@),
        program_model(final(program)@) == program_model(old(program)@).push(step@),
        r == old(program)@.len(),
        final(stash).local() == old(stash).local().insert(
            (plan.model(), crate::cache::normalized_keys(plan.model(), crate::cache::key_columns(keys))),
            r,
        ),
        final(stash).collections() == old(stash).collections(),
        final(stash).trace() == old(stash).trace(),
{
    let ghost s = step@;
    let i = push_step(program, step);
    proof {
        lemma_fits_extends(*stash, program_model(program@), program_model(old(program)@));
    }
    stash.set_local(plan.duplicate(), keys, i);
    proof {
        assert(program_model(program@)[i as int] == s);
    }
    i
}

/// Whether a multiway join's positions are columns of its sources and the
/// columns of all its sources can be counted; if so, where each source starts.
fn multiway_offsets(join: &MultiwayJoin) -> (r: Option<Vec<usize>>)
    ensures
        r.is_some() == multiway_ok(join.results@, models(join.sources@), join.equalities@.map_values(|c: Vec<(usize, usize)>| c@)),
        match r {
            Some(offsets) => offsets@.len() == join.sources@.len()
                && forall|s: int| 0 <= s < offsets@.len() ==> #[trigger] offsets@[s] + join.sources@[s].arity <= total_arity(models(join.sources@))
                && total_arity(models(join.sources@)) <= usize::MAX
                && forall|s: int| 0 <= s < offsets@.len() ==> #[trigger] offsets@[s] == offset(models(join.sources@), s),
            None => true,
        },
{
    let ghost ms = models(join.sources@);
    let ghost classes = join.equalities@.map_values(|c: Vec<(usize, usize)>| c@);
    proof {
        lemma_models(join.sources@);
    }
    if join.sources.len() == 0 {
        return None;
    }
    let mut offsets: Vec<usize> = Vec::new();
    let mut total: usize = 0;
    let mut s: usize = 0;
    while s < join.sources.len()
        invariant
            s <= join.sources@.len(),
            ms == models(join.sources@),
            ms.len() == join.sources@.len(),
            forall|i: int| 0 <= i < join.sources@.len() ==> #[trigger] ms[i] == join.sources@[i].model(),
            total == total_arity(ms.subrange(0, s as int)),
            offsets@.len() == s,
            forall|i: int| 0 <= i < s ==> #[trigger] offsets@[i] + ms[i].arity <= total,
            forall|i: int| 0 <= i < s ==> #[trigger] offsets@[i] == offset(ms, i),
        decreases join.sources@.len() - s,
    {
        assert(ms.subrange(0, s + 1).drop_last() =~= ms.subrange(0, s as int));
        offsets.push(total);
        let arity = join.sources[s].arity;
        if total > usize::MAX - arity {
            proof {
                lemma_total_arity_prefix(ms, s + 1);
            }
            return None;
        }
        total = total + arity;
        s = s + 1;
    }
    assert(ms.subrange(0, s as int) =~= ms);
    let mut k: usize = 0;
    while k < join.results.len()
        invariant
            k <= join.results@.len(),
            ms == models(join.sources@),
            ms.len() == join.sources@.len(),
            forall|i: int| 0 <= i < join.sources@.len() ==> #[trigger] ms[i] == join.sources@[i].model(),
            forall|j: int| 0 <= j < k ==> position_ok(ms, #[trigger] join.results@[j]),
        decreases join.results@.len() - k,
    {
        let (src, col) = join.results[k];
        if src >= join.sources.len() || col >= join.sources[src].arity {
            return None;
        }
        k = k + 1;
    }
    let mut c: usize = 0;
    while c < join.equalities.len()
        invariant
            c <= join.equalities@.len(),
            ms == models(join.sources@),
            classes == join.equalities@.map_values(|c: Vec<(usize, usize)>| c@),
            ms.len() == join.sources@.len(),
            forall|i: int| 0 <= i < join.sources@.len() ==> #[trigger] ms[i] == join.sources@[i].model(),
            forall|a: int, j: int| 0 <= a < c && 0 <= j < classes[a].len() ==> position_ok(ms, #[trigger] classes[a][j]),
        decreases join.equalities@.len() - c,
    {
        let class = &join.equalities[c];
        let mut j: usize = 0;
        while j < class.len()
            invariant
                j <= class@.len(),
                c < join.equalities@.len(),
                class == join.equalities@[c as int],
                ms == models(join.sources@),
                classes == join.equalities@.map_values(|c: Vec<(usize, usize)>| c@),
                ms.len() == join.sources@.len(),
                forall|i: int| 0 <= i < join.sources@.len() ==> #[trigger] ms[i] == join.sources@[i].model(),
                forall|l: int| 0 <= l < j ==> position_ok(ms, #[trigger] classes[c as int][l]),
            decreases class@.len() - j,
        {
            let (src, col) = class[j];
            if src >= join.sources.len() || col >= join.sources[src].arity {
                assert(classes[c as int][j as int] == (src, col));
                return None;
            }
            j = j + 1;
        }
        c = c + 1;
    }
    Some(offsets)
}

pub proof fn lemma_total_arity_prefix(ms: Seq<PlanModel>, n: int)
    requires
        0 <= n <= ms.len(),
    ensures
        total_arity(ms.subrange(0, n)) <= total_arity(ms),
    decreases ms.len() - n,
{
    if n < ms.len() {
        lemma_total_arity_prefix(ms, n + 1);
        assert(ms.subrange(0, n + 1).drop_last() =~= ms.subrange(0, n));
    } else {
        assert(ms.subrange(0, n) =~= ms);
    }
}


/// Both inputs of a join can be arranged by their key columns.
pub open spec fn join_resolvable(
    keys: Seq<(usize, usize)>,
    a: PlanModel,
    b: PlanModel,
    cols: Map<PlanModel, usize>,
    local: Map<ArrangementKey, usize>,
    trace: Map<ArrangementKey, usize>,
) -> bool {
    (local.contains_key((a, left_keys(keys))) || resolvable(a, cols, local, trace))
        && (local.contains_key((b, right_keys(keys))) || resolvable(b, cols, local, trace))
}

/// Lowers each plan of a sequence, returning the steps of their collections.
fn render_all(ps: &Vec<Plan>, stash: &mut Stash, program: &mut Vec<Step>) -> (r: Result<Vec<usize>, RenderError>)
    requires
        consistent(*old(stash), old(program)@),
    ensures
        lowered(*old(stash), *final(stash), old(program)@, final(program)@),
        all_resolvable(models(ps@), old(stash).collections(), old(stash).local(), old(stash).trace()) ==> r is Ok,
        match r {
            Ok(cs) => cs@.len() == ps@.len() && (forall|k: int| 0 <= k < cs@.len()
                ==> collection_before(program_model(final(program)@), #[trigger] cs@[k] as nat, final(program)@.len() as int))
                && all_implement(program_model(final(program)@), final(stash).trace(), cs@, models(ps@)),
            Err(_) => !all_resolvable(models(ps@), old(stash).collections(), old(stash).local(), old(stash).trace()),
        },
    decreases ps, 1nat,
{
    let ghost s0 = *stash;
    let ghost p0 = program@;
    proof {
        lemma_models(ps@);
        lemma_all_resolvable_each(models(ps@), s0.collections(), s0.local(), s0.trace());
    }
    let mut cs: Vec<usize> = Vec::new();
    let mut k: usize = 0;
    while k < ps.len()
        invariant
            k <= ps@.len(),
            models(ps@).len() == ps@.len(),
            forall|i: int| 0 <= i < ps@.len() ==> #[trigger] models(ps@)[i] == ps@[i].model(),
            all_resolvable(models(ps@), s0.collections(), s0.local(), s0.trace()) <==> forall|i: int| 0 <= i < ps@.len()
                ==> resolvable(#[trigger] models(ps@)[i], s0.collections(), s0.local(), s0.trace()),
            lowered(s0, *stash, p0, program@),
            s0 == *old(stash),
            p0 == old(program)@,
            cs@.len() == k,
            forall|i: int| 0 <= i < k
                ==> collection_before(program_model(program@), #[trigger] cs@[i] as nat, program@.len() as int),
            all_implement(program_model(program@), stash.trace(), cs@, models(ps@).subrange(0, k as int)),
        decreases ps@.len() - k,
    {
        proof {
            assert(decreases_to!(ps => ps[k as int]));
        }
        let ghost s1 = *stash;
        let ghost p1 = program@;
        match ps[k].render(stash, program) {
            Ok(c) => {
                proof {
                    lemma_lowered_trans(s0, s1, *stash, p0, p1, program@);
                    assert forall|i: int| 0 <= i < k implies
                        collection_before(program_model(program@), #[trigger] cs@[i] as nat, program@.len() as int) by {
                        assert(collection_before(program_model(p1), cs@[i] as nat, p1.len() as int));
                        assert(program_model(program@)[cs@[i] as int] == program_model(p1)[cs@[i] as int]);
                    }
                }
                proof {
                    lemma_all_implement_extends(program_model(p1), program_model(program@), stash.trace(), cs@, models(ps@).subrange(0, k as int));
                }
                let ghost before = cs@;
                cs.push(c);
                proof {
                    let ms = models(ps@);
                    assert(ms.subrange(0, k + 1).drop_last() =~= ms.subrange(0, k as int));
                    assert(ms.subrange(0, k + 1).last() == ps@[k as int].model());
                    assert(cs@.drop_last() =~= before);
                }
            },
            Err(e) => {
                proof {
                    assert(lowered(s0, s1, p0, p1));
                    assert(lowered(s1, *stash, p1, program@));
                    lemma_lowered_trans(s0, s1, *stash, p0, p1, program@);
                    assert(models(ps@)[k as int] == ps@[k as int].model());
                    if resolvable(ps@[k as int].model(), s0.collections(), s0.local(), s0.trace()) {
                        lemma_resolvable_grows(ps@[k as int].model(), s1, s0);
                    }
                }
                return Err(e);
            },
        }
        k = k + 1;
    }
    assert(models(ps@).subrange(0, k as int) =~= models(ps@));
    Ok(cs)
}

/// Finds or builds the arrangement of `plan` by `keys`, with the other columns
/// as values, and returns its step.
fn arrange_local(plan: &Plan, keys: &Vec<usize>, stash: &mut Stash, program: &mut Vec<Step>) -> (r: Result<usize, RenderError>)
    requires
        consistent(*old(stash), old(program)@),
    ensures
        lowered(*old(stash), *final(stash), old(program)@, final(program)@),
        old(stash).local().contains_key((plan.model(), keys@))
            || resolvable(plan.model(), old(stash).collections(), old(stash).local(), old(stash).trace()) ==> r is Ok,
        match r {
            Ok(a) => final(stash).local().contains_key((plan.model(), keys@))
                && final(stash).local()[(plan.model(), keys@)] == a
                && arrangement_before(program_model(final(program)@), a as nat, final(program)@.len() as int)
                && arranges(program_model(final(program)@), final(stash).trace(), a as int, plan.model(), keys@),
            Err(_) => !old(stash).local().contains_key((plan.model(), keys@))
                && !resolvable(plan.model(), old(stash).collections(), old(stash).local(), old(stash).trace()),
        },
    decreases plan, 1nat,
{
    if let Some(a) = stash.get_local(plan, Some(keys.as_slice())) {
        assert(stash.local().contains_key((plan.model(), keys@)));
        return Ok(a);
    }
    let ghost s0 = *stash;
    let ghost p0 = program@;
    match plan.render(stash, program) {
        Ok(c) => {
            let ghost s1 = *stash;
            let vals = value_columns(plan.arity, keys.as_slice());
            let step = Step::Arrange(c, copy_indices(keys.as_slice()), vals);
            proof {
                lemma_child_after_push(program_model(program@), step@, stash.trace(), c as int, plan.model());
            }
            let a = record_arrangement(plan, Some(keys.as_slice()), step, stash, program);
            proof {
                lemma_grows_trans(s0, s1, *stash);
                assert(program_model(program@)[a as int] is Arrange);
            }
            Ok(a)
        },
        Err(e) => Err(e),
    }
}

/// Arranges both inputs of a join by their key columns, and returns the steps
/// of the two arrangements.
fn render_join(join: &Join, stash: &mut Stash, program: &mut Vec<Step>) -> (r: Result<(usize, usize), RenderError>)
    requires
        consistent(*old(stash), old(program)@),
    ensures
        lowered(*old(stash), *final(stash), old(program)@, final(program)@),
        join_resolvable(join.keys@, join.plan1.model(), join.plan2.model(), old(stash).collections(), old(stash).local(), old(stash).trace())
            ==> r is Ok,
        match r {
            Ok((a, b)) => arrangement_before(program_model(final(program)@), a as nat, final(program)@.len() as int)
                && arrangement_before(program_model(final(program)@), b as nat, final(program)@.len() as int)
                && final(stash).local().contains_key((join.plan1.model(), left_keys(join.keys@)))
                && final(stash).local().contains_key((join.plan2.model(), right_keys(join.keys@)))
                && arranges(program_model(final(program)@), final(stash).trace(), a as int, join.plan1.model(), left_keys(join.keys@))
                && arranges(program_model(final(program)@), final(stash).trace(), b as int, join.plan2.model(), right_keys(join.keys@)),
            Err(_) => !join_resolvable(join.keys@, join.plan1.model(), join.plan2.model(), old(stash).collections(), old(stash).local(), old(stash).trace()),
        },
    decreases join, 1nat,
{
    let ghost s0 = *stash;
    let ghost p0 = program@;
    let mut keys1: Vec<usize> = Vec::new();
    let mut keys2: Vec<usize> = Vec::new();
    let mut k: usize = 0;
    while k < join.keys.len()
        invariant
            k <= join.keys@.len(),
            keys1@ == left_keys(join.keys@).subrange(0, k as int),
            keys2@ == right_keys(join.keys@).subrange(0, k as int),
        decreases join.keys@.len() - k,
    {
        keys1.push(join.keys[k].0);
        keys2.push(join.keys[k].1);
        k = k + 1;
        assert(keys1@ =~= left_keys(join.keys@).subrange(0, k as int));
        assert(keys2@ =~= right_keys(join.keys@).subrange(0, k as int));
    }
    assert(keys1@ =~= left_keys(join.keys@));
    assert(keys2@ =~= right_keys(join.keys@));
    let a = match arrange_local(&join.plan1, &keys1, stash, program) {
        Ok(a) => a,
        Err(e) => return Err(e),
    };
    let ghost s1 = *stash;
    let ghost p1 = program@;
    proof {
        let (c0, l0, t0) = (s0.collections(), s0.local(), s0.trace());
        if join_resolvable(join.keys@, join.plan1.model(), join.plan2.model(), c0, l0, t0)
            && !l0.contains_key((join.plan2.model(), keys2@)) {
            lemma_resolvable_grows(join.plan2.model(), s1, s0);
        }
    }
    let b = match arrange_local(&join.plan2, &keys2, stash, program) {
        Ok(b) => b,
        Err(e) => {
            proof {
                assert(!s0.local().contains_key((join.plan2.model(), keys2@)));
                if resolvable(join.plan2.model(), s0.collections(), s0.local(), s0.trace()) {
                    lemma_resolvable_grows(join.plan2.model(), s1, s0);
                }
            }
            return Err(e);
        },
    };
    proof {
        lemma_grows_trans(s0, s1, *stash);
        assert(program_model(program@)[a as int] == program_model(p1)[a as int]);
        lemma_arranges_extends(program_model(p1), program_model(program@), stash.trace(), a as int, join.plan1.model(), keys1@);
    }
    Ok((a, b))
}

/// Lowers a multiway join to a chain of cross products of its sources, one
/// filter per equality, and returns the step of the chain with the
/// expressions that read the result positions from it.
fn render_multiway(join: &MultiwayJoin, stash: &mut Stash, program: &mut Vec<Step>)
    -> (r: Result<(usize, Vec<Expression>), RenderError>)
    requires
        consistent(*old(stash), old(program)@),
    ensures
        lowered(*old(stash), *final(stash), old(program)@, final(program)@),
        multiway_ok(join.results@, models(join.sources@), join.equalities@.map_values(|c: Vec<(usize, usize)>| c@))
            && all_resolvable(models(join.sources@), old(stash).collections(), old(stash).local(), old(stash).trace())
            ==> r is Ok,
        match r {
            Ok((c, es)) => collection_before(program_model(final(program)@), c as nat, final(program)@.len() as int)
                && es@ == result_exprs(models(join.sources@), join.results@)
                && filtered(
                    program_model(final(program)@),
                    final(stash).trace(),
                    c as int,
                    models(join.sources@),
                    class_pairs(models(join.sources@), join.equalities@.map_values(|c: Vec<(usize, usize)>| c@)),
                ),
            Err(_) => !(multiway_ok(join.results@, models(join.sources@), join.equalities@.map_values(|c: Vec<(usize, usize)>| c@))
                && all_resolvable(models(join.sources@), old(stash).collections(), old(stash).local(), old(stash).trace())),
        },
    decreases join, 1nat,
{
    let ghost s0 = *stash;
    let ghost p0 = program@;
    let ghost ms = models(join.sources@);
    let ghost classes = join.equalities@.map_values(|c: Vec<(usize, usize)>| c@);
    proof {
        lemma_models(join.sources@);
    }
    let offsets = match multiway_offsets(join) {
        Some(o) => o,
        None => return Err(RenderError::MalformedJoin),
    };
    let cs = match render_all(&join.sources, stash, program) {
        Ok(cs) => cs,
        Err(e) => return Err(e),
    };
    let ghost s1 = *stash;
    let ghost t = s1.trace();
    proof {
        lemma_all_implement_each(program_model(program@), t, cs@, ms);
    }
    let mut acc = cs[0];
    let mut k: usize = 1;
    while k < cs.len()
        invariant
            1 <= k <= cs@.len(),
            cs@.len() == join.sources@.len(),
            ms == models(join.sources@),
            ms.len() == join.sources@.len(),
            forall|i: int| 0 <= i < join.sources@.len() ==> #[trigger] ms[i] == join.sources@[i].model(),
            offsets@.len() == join.sources@.len(),
            forall|s: int| 0 <= s < offsets@.len() ==> #[trigger] offsets@[s] == offset(ms, s),
            consistent(*stash, program@),
            *stash == s1,
            t == s1.trace(),
            extends(program_model(program@), program_model(p0)),
            derived(program_model(program@), program_model(p0)),
            collection_before(program_model(program@), acc as nat, program@.len() as int),
            chain(program_model(program@), t, acc as int, ms, k as nat),
            forall|i: int| 0 <= i < cs@.len()
                ==> collection_before(program_model(program@), #[trigger] cs@[i] as nat, program@.len() as int)
                    && implements(program_model(program@), t, cs@[i] as int, ms[i]),
        decreases cs@.len() - k,
    {
        let ghost q0 = program@;
        let ghost a0 = acc;
        let none: Vec<usize> = Vec::new();
        let left = push_step(program, Step::Arrange(acc, none, default_keys(offsets[k])));
        proof {
            lemma_fits_extends(*stash, program_model(program@), program_model(q0));
            assert(program_model(program@)[cs@[k as int] as int] == program_model(q0)[cs@[k as int] as int]);
        }
        let none: Vec<usize> = Vec::new();
        let ghost q1 = program@;
        let right = push_step(program, Step::Arrange(cs[k], none, default_keys(join.sources[k].arity)));
        proof {
            lemma_fits_extends(*stash, program_model(program@), program_model(q1));
            assert(program_model(program@)[left as int] == program_model(q1)[left as int]);
        }
        let ghost q2 = program@;
        acc = push_step(program, Step::JoinCore(left, right));
        proof {
            lemma_fits_extends(*stash, program_model(program@), program_model(q2));
            let p3 = program_model(program@);
            lemma_derived_trans(program_model(q0), program_model(q1), program_model(q2));
            lemma_derived_trans(program_model(q0), program_model(q2), p3);
            assert(extends(p3, program_model(q0)));
            lemma_derived_trans(program_model(p0), program_model(q0), p3);
            assert forall|i: int| 0 <= i < cs@.len() implies
                collection_before(p3, #[trigger] cs@[i] as nat, program@.len() as int)
                && implements(p3, t, cs@[i] as int, ms[i]) by {
                assert(p3[cs@[i] as int] == program_model(q0)[cs@[i] as int]);
                lemma_implements_extends(program_model(q0), p3, t, cs@[i] as int, ms[i]);
            }
            lemma_chain_extends(program_model(q0), p3, t, a0 as int, ms, k as nat);
            assert(p3[left as int] == program_model(q1)[left as int]);
            assert(p3[right as int] == program_model(q2)[right as int]);
            assert(chain(p3, t, acc as int, ms, (k + 1) as nat));
        }
        k = k + 1;
    }
    assert(ms.len() == k);
    let ghost base = acc;
    let mut c: usize = 0;
    while c < join.equalities.len()
        invariant
            c <= join.equalities@.len(),
            classes == join.equalities@.map_values(|c: Vec<(usize, usize)>| c@),
            ms == models(join.sources@),
            ms.len() == join.sources@.len(),
            forall|i: int| 0 <= i < join.sources@.len() ==> #[trigger] ms[i] == join.sources@[i].model(),
            multiway_ok(join.results@, ms, classes),
            offsets@.len() == join.sources@.len(),
            forall|s: int| 0 <= s < offsets@.len() ==> #[trigger] offsets@[s] + join.sources@[s].arity <= total_arity(ms),
            forall|s: int| 0 <= s < offsets@.len() ==> #[trigger] offsets@[s] == offset(ms, s),
            total_arity(ms) <= usize::MAX,
            consistent(*stash, program@),
            *stash == s1,
            t == s1.trace(),
            extends(program_model(program@), program_model(p0)),
            derived(program_model(program@), program_model(p0)),
            collection_before(program_model(program@), acc as nat, program@.len() as int),
            filtered(program_model(program@), t, acc as int, ms, class_pairs(ms, classes.subrange(0, c as int))),
        decreases join.equalities@.len() - c,
    {
        let class = &join.equalities[c];
        let ghost cl = classes[c as int];
        assert(cl == class@);
        proof {
            assert(classes.subrange(0, c + 1).drop_last() =~= classes.subrange(0, c as int));
            assert(classes.subrange(0, c + 1).last() == cl);
            assert(class_pairs(ms, classes.subrange(0, c as int)) + class_prefix_pairs(ms, cl, 1)
                =~= class_pairs(ms, classes.subrange(0, c as int)));
        }
        if class.len() > 1 {
            let (s_first, c_first) = class[0];
            assert(position_ok(ms, classes[c as int][0]));
            let first = offsets[s_first] + c_first;
            assert(first == position(ms, cl[0]));
            let mut j: usize = 1;
            while j < class.len()
                invariant
                    1 <= j <= class@.len(),
                    c < join.equalities@.len(),
                    class == join.equalities@[c as int],
                    cl == class@,
                    classes == join.equalities@.map_values(|c: Vec<(usize, usize)>| c@),
                    ms == models(join.sources@),
                    ms.len() == join.sources@.len(),
                    forall|i: int| 0 <= i < join.sources@.len() ==> #[trigger] ms[i] == join.sources@[i].model(),
                    multiway_ok(join.results@, ms, classes),
                    offsets@.len() == join.sources@.len(),
                    forall|s: int| 0 <= s < offsets@.len() ==> #[trigger] offsets@[s] + join.sources@[s].arity <= total_arity(ms),
                    forall|s: int| 0 <= s < offsets@.len() ==> #[trigger] offsets@[s] == offset(ms, s),
                    total_arity(ms) <= usize::MAX,
                    first == position(ms, cl[0]),
                    consistent(*stash, program@),
                    *stash == s1,
                    t == s1.trace(),
                    extends(program_model(program@), program_model(p0)),
                    derived(program_model(program@), program_model(p0)),
                    collection_before(program_model(program@), acc as nat, program@.len() as int),
                    filtered(
                        program_model(program@),
                        t,
                        acc as int,
                        ms,
                        class_pairs(ms, classes.subrange(0, c as int)) + class_prefix_pairs(ms, cl, j as nat),
                    ),
                decreases class@.len() - j,
            {
                let (s_j, c_j) = class[j];
                assert(position_ok(ms, classes[c as int][j as int]));
                let ghost q0 = program@;
                let ghost prev = acc;
                let ghost before = class_pairs(ms, classes.subrange(0, c as int)) + class_prefix_pairs(ms, cl, j as nat);
                let second = offsets[s_j] + c_j;
                assert(second == position(ms, cl[j as int]));
                acc = push_step(program, Step::Filter(acc, Predicate::Equal(first, second)));
                proof {
                    lemma_fits_extends(*stash, program_model(program@), program_model(q0));
                    lemma_derived_trans(program_model(p0), program_model(q0), program_model(program@));
                    lemma_filtered_extends(program_model(q0), program_model(program@), t, prev as int, ms, before);
                    let after = class_pairs(ms, classes.subrange(0, c as int)) + class_prefix_pairs(ms, cl, (j + 1) as nat);
                    assert(after =~= before.push((first, second)));
                    assert(after.drop_last() =~= before);
                }
                j = j + 1;
            }
        }
        proof {
            assert(class_pairs(ms, classes.subrange(0, c + 1))
                =~= class_pairs(ms, classes.subrange(0, c as int)) + class_prefix_pairs(ms, cl, cl.len()));
        }
        c = c + 1;
    }
    assert(classes.subrange(0, c as int) =~= classes);
    let mut es: Vec<Expression> = Vec::new();
    let mut k: usize = 0;
    while k < join.results.len()
        invariant
            k <= join.results@.len(),
            ms == models(join.sources@),
            ms.len() == join.sources@.len(),
            forall|i: int| 0 <= i < join.sources@.len() ==> #[trigger] ms[i] == join.sources@[i].model(),
            multiway_ok(join.results@, ms, classes),
            offsets@.len() == join.sources@.len(),
            forall|s: int| 0 <= s < offsets@.len() ==> #[trigger] offsets@[s] + join.sources@[s].arity <= total_arity(ms),
            forall|s: int| 0 <= s < offsets@.len() ==> #[trigger] offsets@[s] == offset(ms, s),
            total_arity(ms) <= usize::MAX,
            es@.len() == k,
            forall|i: int| 0 <= i < k ==> #[trigger] es@[i] == Expression::Projection(position(ms, join.results@[i])),
        decreases join.results@.len() - k,
    {
        let (s, col) = join.results[k];
        assert(position_ok(ms, join.results@[k as int]));
        es.push(Expression::Projection(offsets[s] + col));
        k = k + 1;
    }
    assert(es@ =~= result_exprs(ms, join.results@));
    proof {
        lemma_grows_trans(s0, s1, *stash);
    }
    Ok((acc, es))
}

/// Whether a sequence of columns repeats none.
fn no_repeats(v: &Vec<usize>) -> (r: bool)
    ensures
        r == v@.no_duplicates(),
{
    let mut i: usize = 0;
    while i < v.len()
        invariant
            i <= v@.len(),
            forall|a: int, b: int| 0 <= a < i && 0 <= b < v@.len() && a != b ==> v@[a] != v@[b],
        decreases v@.len() - i,
    {
        let mut j: usize = 0;
        while j < v.len()
            invariant
                i < v@.len(),
                j <= v@.len(),
                forall|a: int, b: int| 0 <= a < i && 0 <= b < v@.len() && a != b ==> v@[a] != v@[b],
                forall|b: int| 0 <= b < j && b != i ==> v@[i as int] != v@[b],
            decreases v@.len() - j,
        {
            if j != i && v[i] == v[j] {
                return false;
            }
            j = j + 1;
        }
        i = i + 1;
    }
    true
}

/// Whether every column is below `n`.
fn all_below(v: &Vec<usize>, n: usize) -> (r: bool)
    ensures
        r == crate::datum::indices_below(v@, n as nat),
{
    let mut i: usize = 0;
    while i < v.len()
        invariant
            i <= v@.len(),
            forall|k: int| 0 <= k < i ==> (#[trigger] v@[k]) < n,
        decreases v@.len() - i,
    {
        if v[i] >= n {
            return false;
        }
        i = i + 1;
    }
    true
}

/// Whether each plan of a sequence is well formed and, if `arity` is given,
/// has that many columns.
fn plans_well_formed(ps: &Vec<Plan>, arity: Option<usize>) -> (r: bool)
    ensures
        r == match arity {
            Some(n) => all_well_formed(models(ps@), n as nat),
            None => all_well_formed_any(models(ps@)),
        },
    decreases ps, 0nat,
{
    proof {
        lemma_models(ps@);
    }
    let ghost ms = models(ps@);
    let mut k: usize = 0;
    while k < ps.len()
        invariant
            k <= ps@.len(),
            ms == models(ps@),
            ms.len() == ps@.len(),
            forall|i: int| 0 <= i < ps@.len() ==> #[trigger] ms[i] == ps@[i].model(),
            match arity {
                Some(n) => all_well_formed(ms.subrange(0, k as int), n as nat),
                None => all_well_formed_any(ms.subrange(0, k as int)),
            },
        decreases ps@.len() - k,
    {
        proof {
            assert(decreases_to!(ps => ps[k as int]));
            assert(ms.subrange(0, k + 1).drop_last() =~= ms.subrange(0, k as int));
            assert(ms.subrange(0, k + 1).last() == ms[k as int]);
        }
        let ok = match arity {
            Some(n) => ps[k].arity == n && ps[k].well_formed(),
            None => ps[k].well_formed(),
        };
        if !ok {
            proof {
                let good = match arity {
                    Some(n) => all_well_formed(ms, n as nat),
                    None => all_well_formed_any(ms),
                };
                if good {
                    lemma_all_well_formed_prefix(ms, k as int + 1, arity);
                }
            }
            return false;
        }
        k = k + 1;
    }
    assert(ms.subrange(0, k as int) =~= ms);
    true
}

proof fn lemma_all_well_formed_prefix(ms: Seq<PlanModel>, n: int, arity: Option<usize>)
    requires
        0 <= n <= ms.len(),
        match arity {
            Some(a) => all_well_formed(ms, a as nat),
            None => all_well_formed_any(ms),
        },
    ensures
        match arity {
            Some(a) => all_well_formed(ms.subrange(0, n), a as nat),
            None => all_well_formed_any(ms.subrange(0, n)),
        },
    decreases ms.len() - n,
{
    if n < ms.len() {
        lemma_all_well_formed_prefix(ms, n + 1, arity);
        assert(ms.subrange(0, n + 1).drop_last() =~= ms.subrange(0, n));
    } else {
        assert(ms.subrange(0, n) =~= ms);
    }
}

impl Plan {
    /// Whether every node's arity is the number of columns it produces and
    /// every column a node reads exists.
    pub fn well_formed(&self) -> (r: bool)
        ensures
            r == well_formed(self.model()),
        decreases self, 1nat,
    {
        match &self.node {
            PlanNode::Remap(m) => {
                let ghost es = m.expressions@;
                assert(self.model().node == NodeModel::Remap(es, Box::new(m.plan.model())));
                if m.expressions.len() != self.arity {
                    return false;
                }
                let mut k: usize = 0;
                while k < m.expressions.len()
                    invariant
                        es == m.expressions@,
                        self.model().node == NodeModel::Remap(es, Box::new(m.plan.model())),
                        k <= m.expressions@.len(),
                        forall|i: int| 0 <= i < k ==> (#[trigger] m.expressions@[i]).reads_below(m.plan.arity as nat),
                    decreases m.expressions@.len() - k,
                {
                    match m.expressions[k] {
                        Expression::Projection(i) => {
                            if i >= m.plan.arity {
                                assert(!m.expressions@[k as int].reads_below(m.plan.arity as nat));
                                return false;
                            }
                        },
                    }
                    k = k + 1;
                }
                m.plan.well_formed()
            },
            PlanNode::Distinct(c) => self.arity == c.arity && c.well_formed(),
            PlanNode::Concat(ps) => {
                proof {
                    lemma_models(ps@);
                }
                ps.len() > 0 && plans_well_formed(ps, Some(self.arity))
            },
            PlanNode::Consolidate(c) => self.arity == c.arity && c.well_formed(),
            PlanNode::Join(j) => {
                assert(self.model().node == NodeModel::Join(j.keys@, Box::new(j.plan1.model()), Box::new(j.plan2.model())));
                let mut keys1: Vec<usize> = Vec::new();
                let mut keys2: Vec<usize> = Vec::new();
                let mut k: usize = 0;
                while k < j.keys.len()
                    invariant
                        k <= j.keys@.len(),
                        keys1@ == left_keys(j.keys@).subrange(0, k as int),
                        keys2@ == right_keys(j.keys@).subrange(0, k as int),
                    decreases j.keys@.len() - k,
                {
                    keys1.push(j.keys[k].0);
                    keys2.push(j.keys[k].1);
                    k = k + 1;
                    assert(keys1@ =~= left_keys(j.keys@).subrange(0, k as int));
                    assert(keys2@ =~= right_keys(j.keys@).subrange(0, k as int));
                }
                assert(keys1@ =~= left_keys(j.keys@));
                assert(keys2@ =~= right_keys(j.keys@));
                all_below(&keys1, j.plan1.arity) && all_below(&keys2, j.plan2.arity)
                    && no_repeats(&keys1) && no_repeats(&keys2)
                    && (self.arity as u128) + (j.keys.len() as u128) == (j.plan1.arity as u128) + (j.plan2.arity as u128)
                    && j.plan1.well_formed() && j.plan2.well_formed()
            },
            PlanNode::MultiwayJoin(m) => {
                assert(self.model().node == NodeModel::MultiwayJoin(
                    m.results@,
                    models(m.sources@),
                    m.equalities@.map_values(|c: Vec<(usize, usize)>| c@),
                ));
                self.arity == m.results.len() && multiway_offsets(m).is_some() && plans_well_formed(&m.sources, None)
            },
            PlanNode::Negate(c) => self.arity == c.arity && c.well_formed(),
            PlanNode::Filter(f) => {
                assert(self.model().node == NodeModel::Filter(f.predicate, Box::new(f.plan.model())));
                let reads = match f.predicate {
                    Predicate::Equal(a, b) => a < f.plan.arity && b < f.plan.arity,
                    Predicate::NotEqual(a, b) => a < f.plan.arity && b < f.plan.arity,
                    Predicate::LessThan(a, b) => a < f.plan.arity && b < f.plan.arity,
                    Predicate::LessEqual(a, b) => a < f.plan.arity && b < f.plan.arity,
                };
                self.arity == f.plan.arity && reads && f.plan.well_formed()
            },
            PlanNode::Source(_) => true,
            PlanNode::Local(_) => true,
            PlanNode::Inspect(_, c) => self.arity == c.arity && c.well_formed(),
        }
    }

    /// Lowers the plan to steps that build its collection, reusing the
    /// collections and arrangements the stash records, and returns the step of
    /// the collection, which realizes the plan. A relation that is neither
    /// imported nor bound, or a malformed multiway join, is an error.
    #[verifier::rlimit(80)]
    pub fn render(&self, stash: &mut Stash, program: &mut Vec<Step>) -> (r: Result<usize, RenderError>)
        requires
            consistent(*old(stash), old(program)@),
        ensures
            rendered(self.model(), r, *old(stash), *final(stash), old(program)@, final(program)@),
        decreases self, 0nat,
    {
        if let Some(i) = stash.get_collection(self) {
            return Ok(i);
        }
        let ghost s0 = *stash;
        let ghost p0 = program@;
        let r = match &self.node {
            PlanNode::Remap(m) => match m.plan.render(stash, program) {
                Ok(c) => {
                    let step = Step::Remap(c, copy_expressions(&m.expressions));
                    proof {
                        lemma_child_after_push(program_model(program@), step@, stash.trace(), c as int, m.plan.model());
                    }
                    Ok(record_collection(self, step, stash, program))
                },
                Err(e) => Err(e),
            },
            PlanNode::Distinct(input) => {
                let ghost cm = input.model();
                let ghost dk = (cm, all_columns(cm.arity));
                let arranged = if let Some(a) = stash.get_local(input, None) {
                    assert(stash.local().contains_key(dk));
                    assert(arranges(program_model(program@), stash.trace(), a as int, cm, all_columns(cm.arity)));
                    Ok(a)
                } else if let Some(a) = stash.get_trace(input, None) {
                    assert(stash.trace().contains_key(dk));
                    assert(program_model(program@)[a as int] is Import);
                    assert(arranges(program_model(program@), stash.trace(), a as int, cm, all_columns(cm.arity)));
                    Ok(a)
                } else {
                    match input.render(stash, program) {
                        Ok(c) => {
                            let keys = default_keys(input.arity);
                            let vals: Vec<usize> = Vec::new();
                            let ghost sm = *stash;
                            let step = Step::Arrange(c, keys, vals);
                            proof {
                                lemma_complement_all(cm.arity);
                                assert(vals@ =~= crate::datum::complement(cm.arity, all_columns(cm.arity)));
                                lemma_child_after_push(program_model(program@), step@, stash.trace(), c as int, cm);
                            }
                            let a = record_arrangement(input, None, step, stash, program);
                            proof {
                                lemma_grows_trans(s0, sm, *stash);
                                assert(program_model(program@)[a as int] is Arrange);
                                assert(stash.local().contains_key(dk));
                                assert(arranges(program_model(program@), stash.trace(), a as int, cm, all_columns(cm.arity)));
                            }
                            Ok(a)
                        },
                        Err(e) => Err(e),
                    }
                };
                match arranged {
                    Ok(a) => {
                        assert(arrangement_before(program_model(program@), a as nat, program@.len() as int));
                        assert(arranges(program_model(program@), stash.trace(), a as int, cm, all_columns(cm.arity)));
                        let ghost s1 = *stash;
                        let ghost p1 = program@;
                        let step = Step::Distinct(a);
                        proof {
                            lemma_arranges_after_push(program_model(program@), step@, stash.trace(), a as int, cm, all_columns(cm.arity));
                        }
                        let out = record_arrangement(self, None, step, stash, program);
                        proof {
                            lemma_grows_trans(s0, s1, *stash);
                            assert(program_model(program@)[out as int] is Distinct);
                            lemma_arranges_after_push(program_model(p1), step@, stash.trace(), a as int, cm, all_columns(cm.arity));
                        }
                        let step = Step::Keys(out);
                        proof {
                            lemma_arranges_after_push(program_model(program@), step@, stash.trace(), a as int, cm, all_columns(cm.arity));
                        }
                        Ok(record_collection(self, step, stash, program))
                    },
                    Err(e) => Err(e),
                }
            },
            PlanNode::Concat(ps) => match render_all(ps, stash, program) {
                Ok(cs) => {
                    let ghost ids = cs@;
                    let step = Step::Concat(cs);
                    proof {
                        lemma_push_extends(program_model(program@), step@);
                        lemma_all_implement_extends(program_model(program@), program_model(program@).push(step@), stash.trace(), ids, models(ps@));
                    }
                    Ok(record_collection(self, step, stash, program))
                },
                Err(e) => Err(e),
            },
            PlanNode::Consolidate(c) => match c.render(stash, program) {
                Ok(i) => {
                    let step = Step::Consolidate(i);
                    proof {
                        lemma_child_after_push(program_model(program@), step@, stash.trace(), i as int, c.model());
                    }
                    Ok(record_collection(self, step, stash, program))
                },
                Err(e) => Err(e),
            },
            PlanNode::Join(j) => match render_join(j, stash, program) {
                Ok((a, b)) => {
                    let step = Step::JoinCore(a, b);
                    proof {
                        lemma_arranges_after_push(program_model(program@), step@, stash.trace(), a as int, j.plan1.model(), left_keys(j.keys@));
                        lemma_arranges_after_push(program_model(program@), step@, stash.trace(), b as int, j.plan2.model(), right_keys(j.keys@));
                    }
                    Ok(record_collection(self, step, stash, program))
                },
                Err(e) => Err(e),
            },
            PlanNode::MultiwayJoin(m) => match render_multiway(m, stash, program) {
                Ok((c, es)) => {
                    let ghost ms = models(m.sources@);
                    let ghost classes = m.equalities@.map_values(|c: Vec<(usize, usize)>| c@);
                    assert(self.model().node == NodeModel::MultiwayJoin(m.results@, ms, classes));
                    let step = Step::Remap(c, es);
                    proof {
                        lemma_push_extends(program_model(program@), step@);
                        lemma_filtered_extends(
                            program_model(program@),
                            program_model(program@).push(step@),
                            stash.trace(),
                            c as int,
                            ms,
                            class_pairs(ms, classes),
                        );
                    }
                    Ok(record_collection(self, step, stash, program))
                },
                Err(e) => Err(e),
            },
            PlanNode::Negate(c) => match c.render(stash, program) {
                Ok(i) => {
                    let step = Step::Negate(i);
                    proof {
                        lemma_child_after_push(program_model(program@), step@, stash.trace(), i as int, c.model());
                    }
                    Ok(record_collection(self, step, stash, program))
                },
                Err(e) => Err(e),
            },
            PlanNode::Filter(f) => match f.plan.render(stash, program) {
                Ok(i) => {
                    let step = Step::Filter(i, f.predicate);
                    proof {
                        lemma_child_after_push(program_model(program@), step@, stash.trace(), i as int, f.plan.model());
                    }
                    Ok(record_collection(self, step, stash, program))
                },
                Err(e) => Err(e),
            },
            PlanNode::Source(_) | PlanNode::Local(_) => match stash.get_trace(self, None) {
                Some(a) => {
                    let step = Step::Keys(a);
                    proof {
                        let k = (self.model(), all_columns(self.arity as nat));
                        assert(stash.trace().contains_key(k));
                        assert(program_model(program@)[a as int] is Import);
                        assert(program_model(program@).push(step@)[a as int] == program_model(program@)[a as int]);
                    }
                    Ok(record_collection(self, step, stash, program))
                },
                None => Err(RenderError::MissingRelation),
            },
            PlanNode::Inspect(text, c) => match c.render(stash, program) {
                Ok(i) => {
                    let step = Step::Inspect(i, text.clone());
                    proof {
                        lemma_child_after_push(program_model(program@), step@, stash.trace(), i as int, c.model());
                    }
                    Ok(record_collection(self, step, stash, program))
                },
                Err(e) => Err(e),
            },
        };
        r
    }
}

} // verus!
