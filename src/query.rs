//! Named rules and queries: what a client asks the engine to install.
use vstd::prelude::*;
use crate::plan::{Plan, PlanModel};

verus! {

/// A plan bound to a name, which other rules of its query may read.
#[derive(Debug)]
pub struct Rule {
    pub name: String,
    pub plan: Plan,
}

/// Rules to install, arrangements they import, and arrangements to publish.
#[derive(Debug)]
pub struct Query {
    /// The rules, each defining one named relation.
    pub rules: Vec<Rule>,
    /// Arrangements `(plan, keys)` that must already be maintained.
    pub imports: Vec<(Plan, Vec<usize>)>,
    /// Arrangements `(plan, keys)` to maintain once the query is built.
    pub publish: Vec<(Plan, Vec<usize>)>,
}

/// The model of a list of `(plan, keys)` pairs.
pub open spec fn pairs_model(v: Seq<(Plan, Vec<usize>)>) -> Seq<(PlanModel, Seq<usize>)> {
    v.map_values(|p: (Plan, Vec<usize>)| (p.0.model(), p.1@))
}

/// The model of a list of rules: names and plans.
pub open spec fn rules_model(v: Seq<Rule>) -> Seq<(Seq<char>, PlanModel)> {
    v.map_values(|r: Rule| (r.name@, r.plan.model()))
}

impl Plan {
    /// Binds the plan to a name.
    pub fn into_rule(self, name: &str) -> (r: Rule)
        ensures
            r.name@ == name@,
            r.plan.model() == self.model(),
    {
        Rule { name: name.to_owned(), plan: self }
    }
}

impl Rule {
    /// A query holding only this rule.
    pub fn into_query(self) -> (r: Query)
        ensures
            rules_model(r.rules@) == seq![(self.name@, self.plan.model())],
            r.imports@.len() == 0,
            r.publish@.len() == 0,
    {
        let ghost rm = (self.name@, self.plan.model());
        let mut rules: Vec<Rule> = Vec::new();
        rules.push(self);
        assert(rules_model(rules@) =~= seq![rm]);
        Query { rules, imports: Vec::new(), publish: Vec::new() }
    }
}

impl Query {
    /// A query with no rules, imports or publications.
    pub fn new() -> (r: Query)
        ensures
            r.rules@.len() == 0,
            r.imports@.len() == 0,
            r.publish@.len() == 0,
    {
        Query { rules: Vec::new(), imports: Vec::new(), publish: Vec::new() }
    }

    /// Adds a rule.
    pub fn add_rule(self, rule: Rule) -> (r: Query)
        ensures
            rules_model(r.rules@) == rules_model(self.rules@).push((rule.name@, rule.plan.model())),
            pairs_model(r.imports@) == pairs_model(self.imports@),
            pairs_model(r.publish@) == pairs_model(self.publish@),
    {
        let ghost old_rules = self.rules@;
        let ghost rm = (rule.name@, rule.plan.model());
        let mut q = self;
        q.rules.push(rule);
        assert(rules_model(q.rules@) =~= rules_model(old_rules).push(rm));
        q
    }

    /// Adds an arrangement to import.
    pub fn add_import(self, plan: Plan, keys: Vec<usize>) -> (r: Query)
        ensures
            rules_model(r.rules@) == rules_model(self.rules@),
            pairs_model(r.imports@) == pairs_model(self.imports@).push((plan.model(), keys@)),
            pairs_model(r.publish@) == pairs_model(self.publish@),
    {
        let ghost old_imports = self.imports@;
        let ghost pm = (plan.model(), keys@);
        let mut q = self;
        q.imports.push((plan, keys));
        assert(pairs_model(q.imports@) =~= pairs_model(old_imports).push(pm));
        q
    }

    /// Adds an arrangement to publish.
    pub fn add_publish(self, plan: Plan, keys: Vec<usize>) -> (r: Query)
        ensures
            rules_model(r.rules@) == rules_model(self.rules@),
            pairs_model(r.imports@) == pairs_model(self.imports@),
            pairs_model(r.publish@) == pairs_model(self.publish@).push((plan.model(), keys@)),
    {
        let ghost old_publish = self.publish@;
        let ghost pm = (plan.model(), keys@);
        let mut q = self;
        q.publish.push((plan, keys));
        assert(pairs_model(q.publish@) =~= pairs_model(old_publish).push(pm));
        q
    }
}

} // verus!
