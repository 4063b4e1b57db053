use interactive::command::{Command, InputError, check_initial};
use interactive::datum::Value;
use interactive::install::{QueryError, build_query};
use interactive::manager::{InputManager, Manager, Time, TraceManager, frontier_less_than};
use interactive::plan::{Plan, PlanNode};
use interactive::query::Query;
use interactive::render::{RenderError, Stash, Step};

fn edges() -> Plan {
    Plan::source("Edges", 2)
}

fn nodes() -> Plan {
    Plan::source("Nodes", 1)
}

#[test]
fn trace_manager_default_keys() {
    let mut traces: TraceManager<&str> = TraceManager::new();
    traces.set(edges(), None, "all");
    assert_eq!(traces.get(&edges(), Some(&[0, 1])), Some(&"all"));
    assert_eq!(traces.get(&edges(), None), Some(&"all"));
    assert_eq!(traces.get(&edges(), Some(&[0])), None);
    traces.set(edges(), Some(&[0]), "first");
    assert_eq!(traces.get(&edges(), Some(&[0])), Some(&"first"));
    traces.set(edges(), Some(&[0, 1]), "again");
    assert_eq!(traces.get(&edges(), None), Some(&"again"));
    assert_eq!(traces.count(), 2);
    *traces.handle_mut(1) = "changed";
    assert_eq!(traces.get(&edges(), Some(&[0])), Some(&"changed"));
    assert_eq!(traces.get(&edges(), None), Some(&"again"));
    traces.clear();
    assert_eq!(traces.get(&edges(), None), None);
}

#[test]
fn input_manager_by_name() {
    let mut inputs: InputManager<u32> = InputManager::new();
    inputs.insert("Edges".to_string(), 1);
    inputs.insert("Nodes".to_string(), 2);
    inputs.insert("Edges".to_string(), 3);
    assert!(inputs.contains("Edges"));
    assert!(!inputs.contains("Reach"));
    let i = inputs.find("Nodes").unwrap();
    *inputs.session_mut(i) += 10;
    assert!(inputs.find("Reach").is_none());
    assert_eq!(inputs.remove("Edges"), Some(3));
    assert_eq!(inputs.remove("Nodes"), Some(12));
    assert_eq!(inputs.remove("Edges"), None);
    assert_eq!(inputs.count(), 0);
    inputs.insert("Nodes".to_string(), 2);
    inputs.clear();
    assert!(!inputs.contains("Nodes"));
}

#[test]
fn manager_inputs_and_shutdown() {
    let mut m: Manager<u8, u8> = Manager::new();
    m.insert_input("Edges".to_string(), 2, 1, 2);
    assert!(m.inputs.contains("Edges"));
    assert_eq!(m.traces.get(&edges(), None), Some(&2));
    m.shutdown();
    assert!(!m.inputs.contains("Edges"));
    assert_eq!(m.traces.get(&edges(), None), None);
}

#[test]
fn advance_time_is_monotone() {
    let mut m: Manager<u8, u8> = Manager::new();
    assert!(m.advance_time(&Time::from_secs(2)));
    assert_eq!(m.frontier, Time::from_secs(2));
    assert!(!m.advance_time(&Time::from_secs(1)));
    assert!(!m.advance_time(&Time::from_secs(2)));
    assert_eq!(m.frontier, Time::from_secs(2));
    assert!(m.advance_time(&Time { secs: 2, nanos: 1 }));
    assert_eq!(m.frontier, Time { secs: 2, nanos: 1 });
}

#[test]
fn less_than_looks_at_every_upper() {
    let t = Time::from_secs(3);
    assert!(frontier_less_than(&[Time::from_secs(2)], &t));
    assert!(!frontier_less_than(&[Time::from_secs(3)], &t));
    assert!(!frontier_less_than(&[], &t));
    let done = vec![vec![Time::from_secs(3)], vec![], vec![Time::from_secs(5)]];
    assert!(!Manager::<u8, u8>::less_than(&done, &t));
    let busy = vec![vec![Time::from_secs(3)], vec![Time { secs: 2, nanos: 999 }]];
    assert!(Manager::<u8, u8>::less_than(&busy, &t));
    assert!(!Manager::<u8, u8>::less_than(&vec![], &t));
}

#[test]
fn render_missing_source_is_an_error() {
    let mut stash = Stash::new();
    let mut steps: Vec<Step> = Vec::new();
    assert_eq!(edges().render(&mut stash, &mut steps), Err(RenderError::MissingRelation));
}

#[test]
fn render_reuses_collections() {
    let mut stash = Stash::new();
    let mut steps: Vec<Step> = vec![Step::Import(0)];
    stash.set_trace(edges(), None, 0);
    let plan = edges().negate().concat(edges());
    let first = plan.render(&mut stash, &mut steps).unwrap();
    let n = steps.len();
    // Keys(0), Negate, Concat: the second use of the source is shared.
    assert_eq!(n, 4);
    assert!(matches!(steps[1], Step::Keys(0)));
    assert!(matches!(steps[2], Step::Negate(1)));
    assert!(matches!(&steps[3], Step::Concat(cs) if cs == &vec![2, 1]));
    let again = plan.render(&mut stash, &mut steps).unwrap();
    assert_eq!(first, again);
    assert_eq!(steps.len(), n);
    assert_eq!(stash.get_collection(&plan), Some(first));
}

#[test]
fn render_join_arranges_both_sides() {
    let mut stash = Stash::new();
    let mut steps: Vec<Step> = vec![Step::Import(0), Step::Import(1)];
    stash.set_trace(nodes(), None, 0);
    stash.set_trace(edges(), None, 1);
    let plan = nodes().join(edges(), vec![(0, 0)]);
    let out = plan.render(&mut stash, &mut steps).unwrap();
    assert!(matches!(steps[out], Step::JoinCore(_, _)));
    if let Step::JoinCore(a, b) = &steps[out] {
        assert!(matches!(&steps[*a], Step::Arrange(_, k, v) if k == &vec![0] && v.is_empty()));
        assert!(matches!(&steps[*b], Step::Arrange(_, k, v) if k == &vec![0] && v == &vec![1]));
    }
    assert_eq!(stash.get_local(&edges(), Some(&[0])).is_some(), true);
}

#[test]
fn render_distinct_uses_imported_arrangement() {
    let mut stash = Stash::new();
    let mut steps: Vec<Step> = vec![Step::Import(0)];
    stash.set_trace(edges(), None, 0);
    let out = edges().distinct().render(&mut stash, &mut steps).unwrap();
    assert_eq!(steps.len(), 3);
    assert!(matches!(steps[1], Step::Distinct(0)));
    assert!(matches!(steps[out], Step::Keys(1)));
    assert_eq!(stash.get_local(&edges().distinct(), None), Some(1));
}

#[test]
fn render_malformed_multiway_join() {
    let mut stash = Stash::new();
    let mut steps: Vec<Step> = vec![Step::Import(0)];
    stash.set_trace(edges(), None, 0);
    let empty = Plan::multiway_join(vec![], vec![], vec![]);
    assert_eq!(empty.render(&mut stash, &mut steps), Err(RenderError::MalformedJoin));
    let outside = Plan::multiway_join(vec![edges()], vec![], vec![(0, 2)]);
    assert_eq!(outside.render(&mut stash, &mut steps), Err(RenderError::MalformedJoin));
}

#[test]
fn render_triangles() {
    let mut stash = Stash::new();
    let mut steps: Vec<Step> = vec![Step::Import(0)];
    stash.set_trace(edges(), None, 0);
    let plan = Plan::multiway_join(
        vec![edges(), edges(), edges()],
        vec![vec![(0, 0), (2, 0)], vec![(0, 1), (1, 0)], vec![(1, 1), (2, 1)]],
        vec![(0, 0), (0, 1), (1, 1)],
    );
    let out = plan.render(&mut stash, &mut steps).unwrap();
    match &steps[out] {
        Step::Remap(_, es) => assert_eq!(es.len(), 3),
        other => panic!("unexpected step {:?}", other),
    }
    let filters = steps.iter().filter(|s| matches!(s, Step::Filter(_, _))).count();
    assert_eq!(filters, 3);
}

#[test]
fn query_with_missing_import() {
    let traces: TraceManager<u8> = TraceManager::new();
    let q = nodes().into_rule("Out").into_query().add_import(nodes(), vec![0]);
    assert_eq!(build_query(&q, &traces).err(), Some(QueryError::MissingImport(0)));
}

#[test]
fn query_one_hop() {
    let mut traces: TraceManager<u8> = TraceManager::new();
    traces.set(nodes(), None, 0);
    traces.set(edges(), None, 1);
    let q = nodes()
        .join(edges(), vec![(0, 0)])
        .project(vec![1])
        .into_rule("One-hop")
        .into_query()
        .add_import(nodes(), vec![0])
        .add_import(edges(), vec![0, 1])
        .add_publish(Plan::local("One-hop", 1), vec![0]);
    let p = build_query(&q, &traces).unwrap();
    assert!(matches!(p.steps[0], Step::Import(0)));
    assert!(matches!(p.steps[1], Step::Import(1)));
    assert!(matches!(&p.steps[2], Step::Variable(0, v) if *v == Plan::local("One-hop", 1)));
    assert_eq!(p.bindings.len(), 1);
    assert!(matches!(p.steps[p.bindings[0]], Step::Remap(_, _)));
    assert_eq!(p.publish.len(), 1);
    assert_eq!(p.publish[0].step, 2);
    assert_eq!(p.publish[0].keys, vec![0]);
    assert!(p.publish[0].vals.is_empty());
}

#[test]
fn query_recursive_reach() {
    let mut traces: TraceManager<u8> = TraceManager::new();
    traces.set(nodes(), None, 0);
    traces.set(edges(), None, 1);
    let reach = Plan::local("Reach", 1)
        .join(edges(), vec![(0, 0)])
        .project(vec![1])
        .concat(nodes())
        .distinct();
    let q = Query::new()
        .add_rule(reach.into_rule("Reach"))
        .add_import(nodes(), vec![0])
        .add_import(edges(), vec![0, 1]);
    let p = build_query(&q, &traces).unwrap();
    assert_eq!(p.bindings.len(), 1);
    assert!(matches!(p.steps[p.bindings[0]], Step::Keys(_)));
    let missing = Query::new().add_rule(Plan::local("Other", 1).into_rule("Reach"));
    assert_eq!(build_query(&missing, &traces).err(), Some(QueryError::Render(RenderError::MissingRelation)));
}

#[test]
fn create_input_checks_arity() {
    let ok = vec![vec![Value::Usize(0), Value::Usize(1)], vec![Value::Usize(1), Value::Usize(2)]];
    assert_eq!(check_initial(2, &ok), Ok(()));
    let bad = vec![vec![Value::Usize(0), Value::Usize(1)], vec![Value::Usize(1)], vec![]];
    assert_eq!(check_initial(2, &bad), Err(InputError::ArityMismatch(1)));
    assert_eq!(check_initial(3, &vec![]), Ok(()));
}

#[test]
fn query_with_malformed_plans() {
    let mut traces: TraceManager<u8> = TraceManager::new();
    traces.set(edges(), None, 1);
    let wide = edges().project(vec![0, 5]).into_rule("Wide").into_query().add_import(edges(), vec![0, 1]);
    assert_eq!(build_query(&wide, &traces).err(), Some(QueryError::MalformedRule(0)));
    let q = edges()
        .into_rule("Copy")
        .into_query()
        .add_import(edges(), vec![0, 1])
        .add_publish(Plan { arity: 3, node: PlanNode::Negate(Box::new(edges())) }, vec![0]);
    assert_eq!(build_query(&q, &traces).err(), Some(QueryError::MalformedPublish(0)));
}

#[test]
fn well_formed_plans() {
    assert!(edges().join(nodes(), vec![(1, 0)]).project(vec![1, 0]).distinct().well_formed());
    assert!(!edges().join(nodes(), vec![(1, 0)]).project(vec![2, 0]).well_formed());
    assert!(!edges().project(vec![2]).well_formed());
    assert!(!edges().filter(interactive::plan::Predicate::Equal(0, 2)).well_formed());
    assert!(!Plan { arity: 2, node: PlanNode::Concat(vec![edges(), nodes()]) }.well_formed());
    assert!(!Plan { arity: 3, node: PlanNode::Join(interactive::plan::Join {
        keys: vec![(0, 0), (0, 1)],
        plan1: Box::new(edges()),
        plan2: Box::new(edges()),
    }) }.well_formed());
    assert!(Plan::multiway_join(vec![edges(), edges()], vec![vec![(0, 1), (1, 0)]], vec![(0, 0), (1, 1)]).well_formed());
    assert!(!Plan::multiway_join(vec![edges()], vec![vec![(1, 0)]], vec![(0, 0)]).well_formed());
}

#[test]
fn command_from_query() {
    let c = Command::from(nodes().into_rule("N").into_query());
    assert!(matches!(c, Command::Query(_)));
}

#[test]
fn stash_keys_default_to_all_columns() {
    let mut stash = Stash::new();
    stash.set_local(edges(), None, 4);
    assert_eq!(stash.get_local(&edges(), Some(&[0, 1])), Some(4));
    assert_eq!(stash.get_local(&edges(), Some(&[1, 0])), None);
    stash.set_trace(nodes(), Some(&[0]), 2);
    assert_eq!(stash.get_trace(&nodes(), None), Some(2));
    assert_eq!(stash.get_trace(&edges(), None), None);
    assert_eq!(stash.get_collection(&edges()), None);
    stash.set_collection(edges(), 7);
    assert_eq!(stash.get_collection(&edges()), Some(7));
}

#[test]
fn times_compare_by_duration() {
    let late = Time { secs: 1, nanos: 1_500_000_000 };
    assert!(Time::from_secs(2).less_than(&late));
    assert!(!late.less_than(&Time::from_secs(2)));
    assert!(Time { secs: 0, nanos: 999_999_999 }.less_than(&Time::from_secs(1)));
}

#[test]
fn empty_concat_is_not_well_formed() {
    assert!(!Plan { arity: 1, node: PlanNode::Concat(vec![]) }.well_formed());
    assert!(Plan::concatenate(vec![nodes()]).well_formed());
}
