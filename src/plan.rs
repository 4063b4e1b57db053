//! Query plans: an immutable tree describing how a relation is derived.
use vstd::prelude::*;
use crate::datum::{Expression, Value, indices_below};

verus! {

/// A description of a relation together with its number of columns.
#[derive(Debug)]
pub struct Plan {
    /// Number of columns of the described relation.
    pub arity: usize,
    /// How the relation is derived.
    pub node: PlanNode,
}

/// The ways a relation can be derived.
#[derive(Debug)]
pub enum PlanNode {
    /// Re-computes the columns of each tuple.
    Remap(MapPlan),
    /// Reduces a multiset to a set.
    Distinct(Box<Plan>),
    /// Multiset union.
    Concat(Vec<Plan>),
    /// Accumulates and coalesces the changes at each time.
    Consolidate(Box<Plan>),
    /// Equijoin of two relations.
    Join(Join),
    /// Equijoin of many relations on classes of equal columns.
    MultiwayJoin(MultiwayJoin),
    /// Negates multiplicities.
    Negate(Box<Plan>),
    /// Retains the tuples that satisfy a predicate.
    Filter(Filter),
    /// A relation managed outside the query.
    Source(String),
    /// A relation bound by a rule of the enclosing query.
    Local(String),
    /// Passes a relation through, reporting its changes under a tag.
    Inspect(String, Box<Plan>),
}

/// Re-computes each tuple of `plan` from `expressions`.
#[derive(Debug)]
pub struct MapPlan {
    /// One expression per output column.
    pub expressions: Vec<Expression>,
    /// Plan for the data source.
    pub plan: Box<Plan>,
}

/// Joins two relations on pairs of columns that must be equal.
#[derive(Debug)]
pub struct Join {
    /// Pairs `(i, j)`: column `i` of `plan1` equals column `j` of `plan2`.
    pub keys: Vec<(usize, usize)>,
    /// Plan for the left input.
    pub plan1: Box<Plan>,
    /// Plan for the right input.
    pub plan2: Box<Plan>,
}

/// Joins many relations; each equality class lists `(source, column)` positions
/// that must hold equal values, and `results` lists the positions reported.
#[derive(Debug)]
pub struct MultiwayJoin {
    /// Output columns, each as `(source, column)`.
    pub results: Vec<(usize, usize)>,
    /// The joined relations.
    pub sources: Vec<Plan>,
    /// Classes of `(source, column)` positions with equal values.
    pub equalities: Vec<Vec<(usize, usize)>>,
}

/// Retains the tuples of `plan` that satisfy `predicate`.
#[derive(Debug)]
pub struct Filter {
    /// The condition on each tuple.
    pub predicate: Predicate,
    /// Plan for the data source.
    pub plan: Box<Plan>,
}

/// Conditions on two columns of a tuple.
#[derive(Clone, Copy, Debug, PartialEq, Eq, Structural, Hash)]
pub enum Predicate {
    /// The two columns hold equal values.
    Equal(usize, usize),
    /// The two columns hold different values.
    NotEqual(usize, usize),
    /// Both columns hold numbers of one kind, the first smaller.
    LessThan(usize, usize),
    /// Both columns hold numbers of one kind, the first no larger.
    LessEqual(usize, usize),
}

/// The mathematical content of a [`Plan`].
pub struct PlanModel {
    pub arity: nat,
    pub node: NodeModel,
}

/// The mathematical content of a [`PlanNode`].
pub enum NodeModel {
    Remap(Seq<Expression>, Box<PlanModel>),
    Distinct(Box<PlanModel>),
    Concat(Seq<PlanModel>),
    Consolidate(Box<PlanModel>),
    Join(Seq<(usize, usize)>, Box<PlanModel>, Box<PlanModel>),
    MultiwayJoin(Seq<(usize, usize)>, Seq<PlanModel>, Seq<Seq<(usize, usize)>>),
    Negate(Box<PlanModel>),
    Filter(Predicate, Box<PlanModel>),
    Source(Seq<char>),
    Local(Seq<char>),
    Inspect(Seq<char>, Box<PlanModel>),
}

impl Plan {
    /// The content of the plan as a mathematical tree.
    pub open spec fn model(&self) -> PlanModel
        decreases self,
    {
        PlanModel {
            arity: self.arity as nat,
            node: match &self.node {
                PlanNode::Remap(m) => NodeModel::Remap(m.expressions@, Box::new(m.plan.model())),
                PlanNode::Distinct(p) => NodeModel::Distinct(Box::new(p.model())),
                PlanNode::Concat(ps) => NodeModel::Concat(models(ps@)),
                PlanNode::Consolidate(p) => NodeModel::Consolidate(Box::new(p.model())),
                PlanNode::Join(j) => NodeModel::Join(
                    j.keys@,
                    Box::new(j.plan1.model()),
                    Box::new(j.plan2.model()),
                ),
                PlanNode::MultiwayJoin(m) => NodeModel::MultiwayJoin(
                    m.results@,
                    models(m.sources@),
                    m.equalities@.map_values(|c: Vec<(usize, usize)>| c@),
                ),
                PlanNode::Negate(p) => NodeModel::Negate(Box::new(p.model())),
                PlanNode::Filter(f) => NodeModel::Filter(f.predicate, Box::new(f.plan.model())),
                PlanNode::Source(s) => NodeModel::Source(s@),
                PlanNode::Local(s) => NodeModel::Local(s@),
                PlanNode::Inspect(s, p) => NodeModel::Inspect(s@, Box::new(p.model())),
            },
        }
    }
}

fn pairs_equal(a: &Vec<(usize, usize)>, b: &Vec<(usize, usize)>) -> (r: bool)
    ensures
        r == (a@ == b@),
{
    if a.len() != b.len() {
        return false;
    }
    let mut k: usize = 0;
    while k < a.len()
        invariant
            k <= a@.len(),
            a@.len() == b@.len(),
            forall|j: int| 0 <= j < k ==> a@[j] == b@[j],
        decreases a@.len() - k,
    {
        if a[k].0 != b[k].0 || a[k].1 != b[k].1 {
            return false;
        }
        k = k + 1;
    }
    assert(a@ =~= b@);
    true
}

fn classes_equal(a: &Vec<Vec<(usize, usize)>>, b: &Vec<Vec<(usize, usize)>>) -> (r: bool)
    ensures
        r == (a@.map_values(|c: Vec<(usize, usize)>| c@) == b@.map_values(|c: Vec<(usize, usize)>| c@)),
{
    let ghost av = a@.map_values(|c: Vec<(usize, usize)>| c@);
    let ghost bv = b@.map_values(|c: Vec<(usize, usize)>| c@);
    if a.len() != b.len() {
        assert(av.len() != bv.len());
        return false;
    }
    let mut k: usize = 0;
    while k < a.len()
        invariant
            k <= a@.len(),
            a@.len() == b@.len(),
            av == a@.map_values(|c: Vec<(usize, usize)>| c@),
            bv == b@.map_values(|c: Vec<(usize, usize)>| c@),
            forall|j: int| 0 <= j < k ==> av[j] == bv[j],
        decreases a@.len() - k,
    {
        if !pairs_equal(&a[k], &b[k]) {
            assert(av[k as int] != bv[k as int]);
            return false;
        }
        k = k + 1;
    }
    assert(av =~= bv);
    true
}

fn expressions_equal(a: &Vec<Expression>, b: &Vec<Expression>) -> (r: bool)
    ensures
        r == (a@ == b@),
{
    if a.len() != b.len() {
        return false;
    }
    let mut k: usize = 0;
    while k < a.len()
        invariant
            k <= a@.len(),
            a@.len() == b@.len(),
            forall|j: int| 0 <= j < k ==> a@[j] == b@[j],
        decreases a@.len() - k,
    {
        if a[k] != b[k] {
            return false;
        }
        k = k + 1;
    }
    assert(a@ =~= b@);
    true
}

fn plans_equal(a: &Vec<Plan>, b: &Vec<Plan>) -> (r: bool)
    ensures
        r == (models(a@) == models(b@)),
    decreases a, 0nat,
{
    proof {
        lemma_models(a@);
        lemma_models(b@);
    }
    if a.len() != b.len() {
        return false;
    }
    let mut k: usize = 0;
    while k < a.len()
        invariant
            k <= a@.len(),
            a@.len() == b@.len(),
            models(a@).len() == a@.len(),
            models(b@).len() == b@.len(),
            forall|i: int| 0 <= i < a@.len() ==> #[trigger] models(a@)[i] == a@[i].model(),
            forall|i: int| 0 <= i < b@.len() ==> #[trigger] models(b@)[i] == b@[i].model(),
            forall|j: int| 0 <= j < k ==> models(a@)[j] == models(b@)[j],
        decreases a@.len() - k,
    {
        proof {
            assert(decreases_to!(a => a[k as int]));
        }
        if !a[k].equals(&b[k]) {
            assert(models(a@)[k as int] != models(b@)[k as int]);
            return false;
        }
        k = k + 1;
    }
    assert(models(a@) =~= models(b@));
    true
}

impl Plan {
    /// Structural equality: the two plans are the same tree.
    pub fn equals(&self, other: &Plan) -> (r: bool)
        ensures
            r == (self.model() == other.model()),
        decreases self, 1nat,
    {
        if self.arity != other.arity {
            return false;
        }
        match (&self.node, &other.node) {
            (PlanNode::Remap(a), PlanNode::Remap(b)) =>
                expressions_equal(&a.expressions, &b.expressions) && a.plan.equals(&b.plan),
            (PlanNode::Distinct(a), PlanNode::Distinct(b)) => a.equals(b),
            (PlanNode::Concat(a), PlanNode::Concat(b)) => plans_equal(a, b),
            (PlanNode::Consolidate(a), PlanNode::Consolidate(b)) => a.equals(b),
            (PlanNode::Join(a), PlanNode::Join(b)) =>
                pairs_equal(&a.keys, &b.keys) && a.plan1.equals(&b.plan1) && a.plan2.equals(&b.plan2),
            (PlanNode::MultiwayJoin(a), PlanNode::MultiwayJoin(b)) =>
                pairs_equal(&a.results, &b.results) && classes_equal(&a.equalities, &b.equalities)
                    && plans_equal(&a.sources, &b.sources),
            (PlanNode::Negate(a), PlanNode::Negate(b)) => a.equals(b),
            (PlanNode::Filter(a), PlanNode::Filter(b)) =>
                a.predicate == b.predicate && a.plan.equals(&b.plan),
            (PlanNode::Source(a), PlanNode::Source(b)) => *a == *b,
            (PlanNode::Local(a), PlanNode::Local(b)) => *a == *b,
            (PlanNode::Inspect(s, a), PlanNode::Inspect(t, b)) => *s == *t && a.equals(b),
            _ => false,
        }
    }
}

pub(crate) fn copy_pairs(a: &Vec<(usize, usize)>) -> (r: Vec<(usize, usize)>)
    ensures
        r@ == a@,
{
    let mut r: Vec<(usize, usize)> = Vec::new();
    let mut k: usize = 0;
    while k < a.len()
        invariant
            k <= a@.len(),
            r@ == a@.subrange(0, k as int),
        decreases a@.len() - k,
    {
        r.push((a[k].0, a[k].1));
        k = k + 1;
        assert(r@ =~= a@.subrange(0, k as int));
    }
    assert(a@.subrange(0, k as int) =~= a@);
    r
}

pub(crate) fn copy_classes(a: &Vec<Vec<(usize, usize)>>) -> (r: Vec<Vec<(usize, usize)>>)
    ensures
        r@.map_values(|c: Vec<(usize, usize)>| c@) == a@.map_values(|c: Vec<(usize, usize)>| c@),
{
    let mut r: Vec<Vec<(usize, usize)>> = Vec::new();
    let mut k: usize = 0;
    while k < a.len()
        invariant
            k <= a@.len(),
            r@.len() == k,
            forall|j: int| 0 <= j < k ==> (#[trigger] r@[j])@ == a@[j]@,
        decreases a@.len() - k,
    {
        r.push(copy_pairs(&a[k]));
        k = k + 1;
    }
    assert(r@.map_values(|c: Vec<(usize, usize)>| c@) =~= a@.map_values(|c: Vec<(usize, usize)>| c@));
    r
}

pub(crate) fn copy_expressions(a: &Vec<Expression>) -> (r: Vec<Expression>)
    ensures
        r@ == a@,
{
    let mut r: Vec<Expression> = Vec::new();
    let mut k: usize = 0;
    while k < a.len()
        invariant
            k <= a@.len(),
            r@ == a@.subrange(0, k as int),
        decreases a@.len() - k,
    {
        r.push(a[k]);
        k = k + 1;
        assert(r@ =~= a@.subrange(0, k as int));
    }
    assert(a@.subrange(0, k as int) =~= a@);
    r
}

fn copy_plans(a: &Vec<Plan>) -> (r: Vec<Plan>)
    ensures
        models(r@) == models(a@),
    decreases a, 0nat,
{
    proof {
        lemma_models(a@);
    }
    let mut r: Vec<Plan> = Vec::new();
    let mut k: usize = 0;
    while k < a.len()
        invariant
            k <= a@.len(),
            r@.len() == k,
            models(a@).len() == a@.len(),
            forall|i: int| 0 <= i < a@.len() ==> #[trigger] models(a@)[i] == a@[i].model(),
            forall|j: int| 0 <= j < k ==> (#[trigger] r@[j]).model() == a@[j].model(),
        decreases a@.len() - k,
    {
        proof {
            assert(decreases_to!(a => a[k as int]));
        }
        r.push(a[k].duplicate());
        k = k + 1;
    }
    proof {
        lemma_models(r@);
    }
    assert(models(r@) =~= models(a@));
    r
}

impl Plan {
    /// A deep copy of the plan.
    pub fn duplicate(&self) -> (r: Plan)
        ensures
            r.model() == self.model(),
        decreases self, 1nat,
    {
        let node = match &self.node {
            PlanNode::Remap(m) => PlanNode::Remap(MapPlan {
                expressions: copy_expressions(&m.expressions),
                plan: Box::new(m.plan.duplicate()),
            }),
            PlanNode::Distinct(p) => PlanNode::Distinct(Box::new(p.duplicate())),
            PlanNode::Concat(ps) => PlanNode::Concat(copy_plans(ps)),
            PlanNode::Consolidate(p) => PlanNode::Consolidate(Box::new(p.duplicate())),
            PlanNode::Join(j) => PlanNode::Join(Join {
                keys: copy_pairs(&j.keys),
                plan1: Box::new(j.plan1.duplicate()),
                plan2: Box::new(j.plan2.duplicate()),
            }),
            PlanNode::MultiwayJoin(m) => PlanNode::MultiwayJoin(MultiwayJoin {
                results: copy_pairs(&m.results),
                sources: copy_plans(&m.sources),
                equalities: copy_classes(&m.equalities),
            }),
            PlanNode::Negate(p) => PlanNode::Negate(Box::new(p.duplicate())),
            PlanNode::Filter(f) => PlanNode::Filter(Filter {
                predicate: f.predicate,
                plan: Box::new(f.plan.duplicate()),
            }),
            PlanNode::Source(s) => PlanNode::Source(s.clone()),
            PlanNode::Local(s) => PlanNode::Local(s.clone()),
            PlanNode::Inspect(s, p) => PlanNode::Inspect(s.clone(), Box::new(p.duplicate())),
        };
        Plan { arity: self.arity, node }
    }
}

impl Plan {
    /// Retains only the values at the indicated indices.
    pub fn project(self, indices: Vec<usize>) -> (r: Plan)
        ensures
            r.model() == (PlanModel {
                arity: indices@.len(),
                node: NodeModel::Remap(projections(indices@), Box::new(self.model())),
            }),
    {
        let mut expressions: Vec<Expression> = Vec::new();
        let mut k: usize = 0;
        while k < indices.len()
            invariant
                k <= indices@.len(),
                expressions@ == projections(indices@.subrange(0, k as int)),
            decreases indices@.len() - k,
        {
            expressions.push(Value::projection(indices[k]));
            k = k + 1;
            assert(expressions@ =~= projections(indices@.subrange(0, k as int)));
        }
        assert(indices@.subrange(0, k as int) =~= indices@);
        Plan {
            arity: indices.len(),
            node: PlanNode::Remap(MapPlan { expressions, plan: Box::new(self) }),
        }
    }

    /// Reduces a collection to distinct tuples.
    pub fn distinct(self) -> (r: Plan)
        ensures
            r.model() == (PlanModel {
                arity: self.arity as nat,
                node: NodeModel::Distinct(Box::new(self.model())),
            }),
    {
        Plan { arity: self.arity, node: PlanNode::Distinct(Box::new(self)) }
    }

    /// Merges two collections of one arity.
    pub fn concat(self, other: Plan) -> (r: Plan)
        requires
            self.arity == other.arity,
        ensures
            r.model() == (PlanModel {
                arity: self.arity as nat,
                node: NodeModel::Concat(seq![self.model(), other.model()]),
            }),
    {
        let arity = self.arity;
        let ghost a = self.model();
        let ghost b = other.model();
        let mut plans: Vec<Plan> = Vec::new();
        plans.push(self);
        plans.push(other);
        proof {
            lemma_models(plans@);
            assert(models(plans@) =~= seq![a, b]);
        }
        Plan { arity, node: PlanNode::Concat(plans) }
    }

    /// Merges several collections of one arity.
    pub fn concatenate(plans: Vec<Plan>) -> (r: Plan)
        requires
            plans@.len() > 0,
            forall|i: int| 0 <= i < plans@.len() ==> (#[trigger] plans@[i]).arity == plans@[0].arity,
        ensures
            r.model() == (PlanModel {
                arity: plans@[0].arity as nat,
                node: NodeModel::Concat(models(plans@)),
            }),
    {
        Plan { arity: plans[0].arity, node: PlanNode::Concat(plans) }
    }

    /// Accumulates and coalesces the changes of a collection.
    pub fn consolidate(self) -> (r: Plan)
        ensures
            r.model() == (PlanModel {
                arity: self.arity as nat,
                node: NodeModel::Consolidate(Box::new(self.model())),
            }),
    {
        Plan { arity: self.arity, node: PlanNode::Consolidate(Box::new(self)) }
    }

    /// Equi-joins two collections on the given pairs of columns.
    ///
    /// The output holds the key columns in the order of `keys`, then the other
    /// columns of `self`, then the other columns of `other`.
    pub fn join(self, other: Plan, keys: Vec<(usize, usize)>) -> (r: Plan)
        requires
            keys_fit(keys@, self.arity as nat, other.arity as nat),
            self.arity + other.arity <= usize::MAX,
        ensures
            r.model() == (PlanModel {
                arity: (self.arity + other.arity - keys@.len()) as nat,
                node: NodeModel::Join(keys@, Box::new(self.model()), Box::new(other.model())),
            }),
    {
        proof {
            lemma_distinct_below_len(left_keys(keys@), self.arity as nat);
        }
        Plan {
            arity: self.arity + other.arity - keys.len(),
            node: PlanNode::Join(Join { keys, plan1: Box::new(self), plan2: Box::new(other) }),
        }
    }

    /// Equi-joins several collections by classes of equal `(source, column)`
    /// positions, reporting the positions in `results`.
    pub fn multiway_join(
        sources: Vec<Plan>,
        equalities: Vec<Vec<(usize, usize)>>,
        results: Vec<(usize, usize)>,
    ) -> (r: Plan)
        ensures
            r.model() == (PlanModel {
                arity: results@.len(),
                node: NodeModel::MultiwayJoin(
                    results@,
                    models(sources@),
                    equalities@.map_values(|c: Vec<(usize, usize)>| c@),
                ),
            }),
    {
        Plan {
            arity: results.len(),
            node: PlanNode::MultiwayJoin(MultiwayJoin { results, sources, equalities }),
        }
    }

    /// Negates a collection (negating multiplicities).
    pub fn negate(self) -> (r: Plan)
        ensures
            r.model() == (PlanModel {
                arity: self.arity as nat,
                node: NodeModel::Negate(Box::new(self.model())),
            }),
    {
        Plan { arity: self.arity, node: PlanNode::Negate(Box::new(self)) }
    }

    /// Restricts a collection to the tuples satisfying the predicate.
    pub fn filter(self, predicate: Predicate) -> (r: Plan)
        ensures
            r.model() == (PlanModel {
                arity: self.arity as nat,
                node: NodeModel::Filter(predicate, Box::new(self.model())),
            }),
    {
        Plan { arity: self.arity, node: PlanNode::Filter(Filter { predicate, plan: Box::new(self) }) }
    }

    /// A relation managed outside the query, by name.
    pub fn source(name: &str, arity: usize) -> (r: Plan)
        ensures
            r.model() == source_model(name@, arity as nat),
    {
        Plan { arity, node: PlanNode::Source(name.to_owned()) }
    }

    /// A relation bound by a rule of the enclosing query, by name.
    pub fn local(name: &str, arity: usize) -> (r: Plan)
        ensures
            r.model() == local_model(name@, arity as nat),
    {
        Plan { arity, node: PlanNode::Local(name.to_owned()) }
    }

    /// Reports each change of the collection under the tag `text`.
    pub fn inspect(self, text: &str) -> (r: Plan)
        ensures
            r.model() == (PlanModel {
                arity: self.arity as nat,
                node: NodeModel::Inspect(text@, Box::new(self.model())),
            }),
    {
        Plan { arity: self.arity, node: PlanNode::Inspect(text.to_owned(), Box::new(self)) }
    }
}

/// Join key pairs are columns of the two inputs, and neither side repeats a column.
pub open spec fn keys_fit(keys: Seq<(usize, usize)>, arity1: nat, arity2: nat) -> bool {
    &&& indices_below(left_keys(keys), arity1)
    &&& indices_below(right_keys(keys), arity2)
    &&& left_keys(keys).no_duplicates()
    &&& right_keys(keys).no_duplicates()
}

/// A sequence of distinct columns below `n` has at most `n` entries.
pub proof fn lemma_distinct_below_len(s: Seq<usize>, n: nat)
    requires
        indices_below(s, n),
        s.no_duplicates(),
    ensures
        s.len() <= n,
{
    let set = s.to_set();
    s.unique_seq_to_set();
    let range = Set::new(|i: usize| (i as nat) < n);
    assert(set.subset_of(range));
    lemma_usize_range_finite(n);
    vstd::set_lib::lemma_len_subset(set, range);
}

proof fn lemma_usize_range_finite(n: nat)
    ensures
        Set::new(|i: usize| (i as nat) < n).finite(),
        Set::new(|i: usize| (i as nat) < n).len() <= n,
    decreases n,
{
    let s = Set::new(|i: usize| (i as nat) < n);
    if n == 0 {
        assert(s =~= Set::empty());
    } else {
        let m = (n - 1) as nat;
        let t = Set::new(|i: usize| (i as nat) < m);
        lemma_usize_range_finite(m);
        if m <= usize::MAX {
            assert(s =~= t.insert(m as usize));
        } else {
            assert(s =~= t);
        }
    }
}

impl Clone for Plan {
    fn clone(&self) -> (r: Plan)
        ensures
            r.model() == self.model(),
    {
        self.duplicate()
    }
}

impl PartialEq for Plan {
    fn eq(&self, other: &Plan) -> (r: bool) {
        self.equals(other)
    }
}

impl vstd::std_specs::cmp::PartialEqSpecImpl for Plan {
    open spec fn obeys_eq_spec() -> bool {
        true
    }

    open spec fn eq_spec(&self, other: &Plan) -> bool {
        self.model() == other.model()
    }
}

impl Eq for Plan {
}

/// The models of a sequence of plans.
pub open spec fn models(ps: Seq<Plan>) -> Seq<PlanModel>
    decreases ps,
{
    if ps.len() == 0 {
        Seq::empty()
    } else {
        seq![ps[0].model()] + models(ps.subrange(1, ps.len() as int))
    }
}

/// The models of a sequence of plans are the models of its plans, in order.
pub proof fn lemma_models(ps: Seq<Plan>)
    ensures
        models(ps).len() == ps.len(),
        forall|i: int| 0 <= i < ps.len() ==> #[trigger] models(ps)[i] == ps[i].model(),
    decreases ps.len(),
{
    if ps.len() > 0 {
        let rest = ps.subrange(1, ps.len() as int);
        lemma_models(rest);
        assert forall|i: int| 0 <= i < ps.len() implies #[trigger] models(ps)[i] == ps[i].model() by {
            if i > 0 {
                assert(rest[i - 1] == ps[i]);
            }
        }
    }
}

/// The model of a leaf plan naming a relation managed outside the query.
pub open spec fn source_model(name: Seq<char>, arity: nat) -> PlanModel {
    PlanModel { arity, node: NodeModel::Source(name) }
}

/// The model of a leaf plan naming a relation bound by a rule.
pub open spec fn local_model(name: Seq<char>, arity: nat) -> PlanModel {
    PlanModel { arity, node: NodeModel::Local(name) }
}

/// The expressions that read the given columns in order.
pub open spec fn projections(indices: Seq<usize>) -> Seq<Expression> {
    indices.map_values(|i: usize| Expression::Projection(i))
}

/// The left columns of join key pairs.
pub open spec fn left_keys(keys: Seq<(usize, usize)>) -> Seq<usize> {
    keys.map_values(|k: (usize, usize)| k.0)
}

/// The right columns of join key pairs.
pub open spec fn right_keys(keys: Seq<(usize, usize)>) -> Seq<usize> {
    keys.map_values(|k: (usize, usize)| k.1)
}

} // verus!
