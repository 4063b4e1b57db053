//! Installing a query: checking its imports, binding a recursive variable per
//! rule, and lowering its rules and publications into one program of steps.
use vstd::prelude::*;
use crate::cache::ArrangementKey;
use crate::datum::{complement, copy_indices, value_columns};
use crate::manager::TraceManager;
use crate::plan::{Plan, PlanModel, local_model};
use crate::query::Query;
use crate::render::{
    RenderError, Stash, Step, StepModel, collection_before, consistent, extends, grows, lemma_resolvable_grows,
    implements, program_model, program_wf, resolvable, well_formed,
};

verus! {

/// An arrangement to maintain once the query is built.
#[derive(Debug)]
pub struct Publication {
    /// The plan whose collection is arranged.
    pub plan: Plan,
    /// The key columns.
    pub keys: Vec<usize>,
    /// The other columns, ascending: the values.
    pub vals: Vec<usize>,
    /// The step that builds the plan's collection.
    pub step: usize,
}

/// A query lowered to steps.
#[derive(Debug)]
pub struct QueryProgram {
    /// The steps, each reading only earlier ones.
    pub steps: Vec<Step>,
    /// For each rule, the step whose collection defines the rule's variable.
    pub bindings: Vec<usize>,
    /// The arrangements to publish.
    pub publish: Vec<Publication>,
}

/// Why a query could not be installed.
#[derive(Clone, Copy, Debug, PartialEq, Eq, Structural)]
pub enum QueryError {
    /// The import at this position is not a maintained arrangement.
    MissingImport(usize),
    /// The plan of the rule at this position is not well formed.
    MalformedRule(usize),
    /// The plan published at this position is not well formed.
    MalformedPublish(usize),
    /// A rule or a publication could not be lowered.
    Render(RenderError),
}

/// The imported arrangements as steps: import `i` is step `i`.
pub open spec fn import_map(imports: Seq<(PlanModel, Seq<usize>)>) -> Map<ArrangementKey, usize>
    decreases imports.len(),
{
    if imports.len() == 0 {
        Map::empty()
    } else {
        import_map(imports.drop_last()).insert(imports.last(), (imports.len() - 1) as usize)
    }
}

/// The variables of the rules as collections: rule `i` is step `base + i`,
/// under the local plan of its name and arity.
pub open spec fn variable_map(rules: Seq<(Seq<char>, PlanModel)>, base: nat) -> Map<PlanModel, usize>
    decreases rules.len(),
{
    if rules.len() == 0 {
        Map::empty()
    } else {
        variable_map(rules.drop_last(), base).insert(
            local_model(rules.last().0, rules.last().1.arity),
            (base + rules.len() - 1) as usize,
        )
    }
}

/// The first import that is not maintained, if any.
pub open spec fn first_missing<H>(imports: Seq<(PlanModel, Seq<usize>)>, traces: Map<ArrangementKey, H>, i: int) -> bool {
    0 <= i < imports.len() && !traces.contains_key(imports[i])
        && forall|j: int| 0 <= j < i ==> traces.contains_key(#[trigger] imports[j])
}

/// Every rule and publication of the query can be lowered once its imports and
/// variables are in place.
pub open spec fn query_resolvable(q: Query) -> bool {
    let imports = crate::query::pairs_model(q.imports@);
    let rules = crate::query::rules_model(q.rules@);
    let cols = variable_map(rules, imports.len());
    let trace = import_map(imports);
    &&& forall|i: int| 0 <= i < rules.len()
        ==> resolvable((#[trigger] rules[i]).1, cols, Map::empty(), trace)
    &&& forall|i: int| 0 <= i < q.publish@.len()
        ==> resolvable((#[trigger] q.publish@[i]).0.model(), cols, Map::empty(), trace)
}

/// Every import of the query is a maintained arrangement.
pub open spec fn imports_present<H>(q: Query, traces: Map<ArrangementKey, H>) -> bool {
    forall|j: int| 0 <= j < q.imports@.len() ==> traces.contains_key(#[trigger] crate::query::pairs_model(q.imports@)[j])
}

/// The plans of the rules before position `n` are well formed.
pub open spec fn rules_well_formed(q: Query, n: int) -> bool {
    forall|i: int| 0 <= i < n ==> well_formed((#[trigger] q.rules@[i]).plan.model())
}

/// The published plans before position `n` are well formed.
pub open spec fn publish_well_formed(q: Query, n: int) -> bool {
    forall|i: int| 0 <= i < n ==> well_formed((#[trigger] q.publish@[i]).0.model())
}

/// Every plan of the query is well formed.
pub open spec fn query_well_formed(q: Query) -> bool {
    rules_well_formed(q, q.rules@.len() as int) && publish_well_formed(q, q.publish@.len() as int)
}

/// The program computes what the query asks: its first steps are the imports,
/// then one variable per rule; every binding and publication names a
/// collection step; each publication arranges its plan by its keys, with the
/// other columns as values.
pub open spec fn program_for(q: Query, p: QueryProgram) -> bool {
    let n = q.imports@.len();
    let steps = program_model(p.steps@);
    &&& program_wf(steps)
    &&& steps.len() >= n + q.rules@.len()
    &&& forall|i: int| 0 <= i < n ==> #[trigger] steps[i] == StepModel::Import(i as nat)
    &&& forall|i: int| 0 <= i < q.rules@.len() ==> #[trigger] steps[n + i] == StepModel::Variable(
        i as nat,
        local_model(q.rules@[i].name@, q.rules@[i].plan.arity as nat),
    )
    &&& p.bindings@.len() == q.rules@.len()
    &&& forall|i: int| 0 <= i < p.bindings@.len()
        ==> collection_before(steps, #[trigger] p.bindings@[i] as nat, steps.len() as int)
            && implements(steps, import_map(crate::query::pairs_model(q.imports@)), p.bindings@[i] as int, q.rules@[i].plan.model())
    &&& p.publish@.len() == q.publish@.len()
    &&& forall|i: int| 0 <= i < p.publish@.len() ==> {
        let pb = #[trigger] p.publish@[i];
        &&& pb.plan.model() == q.publish@[i].0.model()
        &&& pb.keys@ == q.publish@[i].1@
        &&& pb.vals@ == complement(pb.plan.arity as nat, pb.keys@)
        &&& collection_before(steps, pb.step as nat, steps.len() as int)
        &&& implements(steps, import_map(crate::query::pairs_model(q.imports@)), pb.step as int, pb.plan.model())
    }
}

/// Lowers a query against the maintained arrangements: checks that each import
/// is maintained and each plan well formed, binds a variable per rule under the
/// local plan of its name and arity, and lowers each rule and each publication.
pub fn build_query<H>(query: &Query, traces: &TraceManager<H>) -> (r: Result<QueryProgram, QueryError>)
    requires
        traces.wf(),
    ensures
        imports_present(*query, traces@) && query_well_formed(*query) && query_resolvable(*query) ==> r is Ok,
        match r {
            Ok(p) => imports_present(*query, traces@) && query_well_formed(*query) && program_for(*query, p),
            Err(QueryError::MissingImport(i)) => first_missing(crate::query::pairs_model(query.imports@), traces@, i as int),
            Err(QueryError::MalformedRule(i)) => imports_present(*query, traces@) && i < query.rules@.len()
                && rules_well_formed(*query, i as int) && !well_formed(query.rules@[i as int].plan.model()),
            Err(QueryError::MalformedPublish(i)) => imports_present(*query, traces@)
                && rules_well_formed(*query, query.rules@.len() as int) && i < query.publish@.len()
                && publish_well_formed(*query, i as int) && !well_formed(query.publish@[i as int].0.model()),
            Err(QueryError::Render(_)) => imports_present(*query, traces@) && query_well_formed(*query)
                && !query_resolvable(*query),
        },
{
    let ghost imports = crate::query::pairs_model(query.imports@);
    let ghost rules = crate::query::rules_model(query.rules@);
    let n = query.imports.len();
    let mut stash = Stash::new();
    let mut steps: Vec<Step> = Vec::new();
    let mut i: usize = 0;
    while i < n
        invariant
            n == query.imports@.len(),
            imports == crate::query::pairs_model(query.imports@),
            traces.wf(),
            i <= n,
            forall|j: int| 0 <= j < i ==> traces@.contains_key(#[trigger] imports[j]),
            consistent(stash, steps@),
            steps@.len() == i,
            forall|j: int| 0 <= j < i ==> #[trigger] program_model(steps@)[j] == StepModel::Import(j as nat),
            stash.trace() == import_map(imports.subrange(0, i as int)),
            stash.collections() == Map::<PlanModel, usize>::empty(),
            stash.local() == Map::<ArrangementKey, usize>::empty(),
        decreases n - i,
    {
        let (plan, keys) = &query.imports[i];
        assert(imports[i as int] == (plan.model(), keys@));
        if traces.get(plan, Some(keys.as_slice())).is_none() {
            return Err(QueryError::MissingImport(i));
        }
        let ghost before = program_model(steps@);
        steps.push(Step::Import(i));
        proof {
            let after = program_model(steps@);
            assert(after =~= before.push(StepModel::Import(i as nat)));
            assert forall|j: int| 0 <= j < after.len() implies #[trigger] crate::render::step_ok(after, j) by {
                if j < before.len() {
                    assert(crate::render::step_ok(before, j));
                }
            }
        }
        stash.set_trace(plan.duplicate(), Some(keys.as_slice()), i);
        proof {
            assert(imports.subrange(0, i + 1).drop_last() =~= imports.subrange(0, i as int));
            assert(imports.subrange(0, i + 1).last() == imports[i as int]);
        }
        i = i + 1;
    }
    assert(imports.subrange(0, n as int) =~= imports);
    assert(imports_present(*query, traces@));
    let mut k: usize = 0;
    while k < query.rules.len()
        invariant
            k <= query.rules@.len(),
            imports_present(*query, traces@),
            rules_well_formed(*query, k as int),
        decreases query.rules@.len() - k,
    {
        if !query.rules[k].plan.well_formed() {
            return Err(QueryError::MalformedRule(k));
        }
        k = k + 1;
    }
    let mut k: usize = 0;
    while k < query.publish.len()
        invariant
            k <= query.publish@.len(),
            imports_present(*query, traces@),
            rules_well_formed(*query, query.rules@.len() as int),
            publish_well_formed(*query, k as int),
        decreases query.publish@.len() - k,
    {
        if !query.publish[k].0.well_formed() {
            return Err(QueryError::MalformedPublish(k));
        }
        k = k + 1;
    }
    assert(query_well_formed(*query));
    let mut k: usize = 0;
    while k < query.rules.len()
        invariant
            n == query.imports@.len(),
            imports == crate::query::pairs_model(query.imports@),
            rules == crate::query::rules_model(query.rules@),
            consistent(stash, steps@),
            imports_present(*query, traces@),
            query_well_formed(*query),
            k <= query.rules@.len(),
            steps@.len() == n + k,
            forall|j: int| 0 <= j < n ==> #[trigger] program_model(steps@)[j] == StepModel::Import(j as nat),
            forall|j: int| 0 <= j < k ==> #[trigger] program_model(steps@)[n + j] == StepModel::Variable(j as nat, local_model(rules[j].0, rules[j].1.arity)),
            stash.trace() == import_map(imports),
            stash.collections() == variable_map(rules.subrange(0, k as int), n as nat),
            stash.local() == Map::<ArrangementKey, usize>::empty(),
        decreases query.rules@.len() - k,
    {
        let rule = &query.rules[k];
        assert(rules[k as int] == (rule.name@, rule.plan.model()));
        let ghost before = program_model(steps@);
        let id = steps.len();
        steps.push(Step::Variable(k, Plan::local(rule.name.as_str(), rule.plan.arity)));
        proof {
            let after = program_model(steps@);
            assert(after =~= before.push(StepModel::Variable(k as nat, local_model(rules[k as int].0, rules[k as int].1.arity))));
            assert forall|j: int| 0 <= j < after.len() implies #[trigger] crate::render::step_ok(after, j) by {
                if j < before.len() {
                    assert(crate::render::step_ok(before, j));
                }
            }
            assert forall|j: int| 0 <= j < k + 1 implies #[trigger] after[n + j] == StepModel::Variable(j as nat, local_model(rules[j].0, rules[j].1.arity)) by {
                if j < k {
                    assert(after[n + j] == before[n + j]);
                }
            }
            crate::render::lemma_fits_extends(stash, after, before);
        }
        stash.set_collection(Plan::local(rule.name.as_str(), rule.plan.arity), id);
        proof {
            assert(rules.subrange(0, k + 1).drop_last() =~= rules.subrange(0, k as int));
            assert(rules.subrange(0, k + 1).last() == rules[k as int]);
        }
        k = k + 1;
    }
    assert(rules.subrange(0, k as int) =~= rules);
    let ghost s_init = stash;
    let ghost p_init = steps@;
    let mut bindings: Vec<usize> = Vec::new();
    let mut k: usize = 0;
    while k < query.rules.len()
        invariant
            n == query.imports@.len(),
            imports == crate::query::pairs_model(query.imports@),
            rules == crate::query::rules_model(query.rules@),
            s_init.collections() == variable_map(rules, n as nat),
            s_init.local() == Map::<ArrangementKey, usize>::empty(),
            s_init.trace() == import_map(imports),
            imports_present(*query, traces@),
            query_well_formed(*query),
            consistent(stash, steps@),
            grows(stash, s_init),
            extends(program_model(steps@), program_model(p_init)),
            p_init.len() == n + query.rules@.len(),
            forall|j: int| 0 <= j < n ==> #[trigger] program_model(p_init)[j] == StepModel::Import(j as nat),
            forall|j: int| 0 <= j < query.rules@.len() ==> #[trigger] program_model(p_init)[n + j] == StepModel::Variable(j as nat, local_model(rules[j].0, rules[j].1.arity)),
            k <= query.rules@.len(),
            bindings@.len() == k,
            forall|j: int| 0 <= j < k
                ==> collection_before(program_model(steps@), #[trigger] bindings@[j] as nat, steps@.len() as int)
                    && implements(program_model(steps@), import_map(imports), bindings@[j] as int, query.rules@[j].plan.model()),
        decreases query.rules@.len() - k,
    {
        let ghost s1 = stash;
        let ghost p1 = steps@;
        assert(rules[k as int].1 == query.rules@[k as int].plan.model());
        match query.rules[k].plan.render(&mut stash, &mut steps) {
            Ok(c) => {
                proof {
                    assert forall|j: int| 0 <= j < k implies
                        collection_before(program_model(steps@), #[trigger] bindings@[j] as nat, steps@.len() as int)
                        && implements(program_model(steps@), import_map(imports), bindings@[j] as int, query.rules@[j].plan.model()) by {
                        assert(program_model(steps@)[bindings@[j] as int] == program_model(p1)[bindings@[j] as int]);
                        crate::render::lemma_implements_extends(program_model(p1), program_model(steps@), import_map(imports), bindings@[j] as int, query.rules@[j].plan.model());
                    }
                    assert forall|j: int| 0 <= j < p_init.len() implies
                        #[trigger] program_model(steps@)[j] == program_model(p_init)[j] by {
                        assert(program_model(steps@)[j] == program_model(p1)[j]);
                    }
                }
                bindings.push(c);
            },
            Err(e) => {
                proof {
                    if resolvable(rules[k as int].1, s_init.collections(), s_init.local(), s_init.trace()) {
                        lemma_resolvable_grows(rules[k as int].1, s1, s_init);
                    }
                    assert(!resolvable(rules[k as int].1, variable_map(rules, n as nat), Map::empty(), import_map(imports)));
                }
                return Err(QueryError::Render(e));
            },
        }
        k = k + 1;
    }
    let mut publish: Vec<Publication> = Vec::new();
    let mut k: usize = 0;
    while k < query.publish.len()
        invariant
            n == query.imports@.len(),
            imports == crate::query::pairs_model(query.imports@),
            rules == crate::query::rules_model(query.rules@),
            s_init.collections() == variable_map(rules, n as nat),
            s_init.local() == Map::<ArrangementKey, usize>::empty(),
            s_init.trace() == import_map(imports),
            imports_present(*query, traces@),
            query_well_formed(*query),
            consistent(stash, steps@),
            grows(stash, s_init),
            extends(program_model(steps@), program_model(p_init)),
            p_init.len() == n + query.rules@.len(),
            forall|j: int| 0 <= j < n ==> #[trigger] program_model(p_init)[j] == StepModel::Import(j as nat),
            forall|j: int| 0 <= j < query.rules@.len() ==> #[trigger] program_model(p_init)[n + j] == StepModel::Variable(j as nat, local_model(rules[j].0, rules[j].1.arity)),
            bindings@.len() == query.rules@.len(),
            forall|j: int| 0 <= j < bindings@.len()
                ==> collection_before(program_model(steps@), #[trigger] bindings@[j] as nat, steps@.len() as int)
                    && implements(program_model(steps@), import_map(imports), bindings@[j] as int, query.rules@[j].plan.model()),
            k <= query.publish@.len(),
            publish@.len() == k,
            forall|j: int| 0 <= j < k ==> {
                let pb = #[trigger] publish@[j];
                &&& pb.plan.model() == query.publish@[j].0.model()
                &&& pb.keys@ == query.publish@[j].1@
                &&& pb.vals@ == complement(pb.plan.arity as nat, pb.keys@)
                &&& collection_before(program_model(steps@), pb.step as nat, steps@.len() as int)
                &&& implements(program_model(steps@), import_map(imports), pb.step as int, pb.plan.model())
            },
        decreases query.publish@.len() - k,
    {
        let ghost s1 = stash;
        let ghost p1 = steps@;
        let (plan, keys) = &query.publish[k];
        match plan.render(&mut stash, &mut steps) {
            Ok(c) => {
                proof {
                    assert forall|j: int| 0 <= j < bindings@.len() implies
                        collection_before(program_model(steps@), #[trigger] bindings@[j] as nat, steps@.len() as int)
                        && implements(program_model(steps@), import_map(imports), bindings@[j] as int, query.rules@[j].plan.model()) by {
                        assert(program_model(steps@)[bindings@[j] as int] == program_model(p1)[bindings@[j] as int]);
                        crate::render::lemma_implements_extends(program_model(p1), program_model(steps@), import_map(imports), bindings@[j] as int, query.rules@[j].plan.model());
                    }
                    assert forall|j: int| 0 <= j < k implies
                        collection_before(program_model(steps@), #[trigger] publish@[j].step as nat, steps@.len() as int)
                        && implements(program_model(steps@), import_map(imports), publish@[j].step as int, publish@[j].plan.model()) by {
                        assert(program_model(steps@)[publish@[j].step as int] == program_model(p1)[publish@[j].step as int]);
                        crate::render::lemma_implements_extends(program_model(p1), program_model(steps@), import_map(imports), publish@[j].step as int, publish@[j].plan.model());
                    }
                    assert forall|j: int| 0 <= j < p_init.len() implies
                        #[trigger] program_model(steps@)[j] == program_model(p_init)[j] by {
                        assert(program_model(steps@)[j] == program_model(p1)[j]);
                    }
                }
                let vals = value_columns(plan.arity, keys.as_slice());
                publish.push(Publication { plan: plan.duplicate(), keys: copy_indices(keys.as_slice()), vals, step: c });
            },
            Err(e) => {
                proof {
                    if resolvable(plan.model(), s_init.collections(), s_init.local(), s_init.trace()) {
                        lemma_resolvable_grows(plan.model(), s1, s_init);
                    }
                    assert(!resolvable(query.publish@[k as int].0.model(), variable_map(rules, n as nat), Map::empty(), import_map(imports)));
                }
                return Err(QueryError::Render(e));
            },
        }
        k = k + 1;
    }
    Ok(QueryProgram { steps, bindings, publish })
}

} // verus!
