use interactive::datum::{Expression, Value};
use interactive::plan::{Plan, PlanNode, Predicate};

fn edges() -> Plan {
    Plan::source("Edges", 2)
}

fn nodes() -> Plan {
    Plan::source("Nodes", 1)
}

#[test]
fn project_sets_arity_and_expressions() {
    let p = edges().project(vec![1, 0, 1]);
    assert_eq!(p.arity, 3);
    match &p.node {
        PlanNode::Remap(m) => {
            assert_eq!(m.expressions, vec![Expression::Projection(1), Expression::Projection(0), Expression::Projection(1)]);
            assert_eq!(*m.plan, edges());
        }
        _ => panic!("expected a remap"),
    }
}

#[test]
fn unary_constructors_keep_arity() {
    assert_eq!(edges().distinct().arity, 2);
    assert_eq!(edges().negate().arity, 2);
    assert_eq!(edges().consolidate().arity, 2);
    assert_eq!(edges().inspect("tag").arity, 2);
    assert_eq!(edges().filter(Predicate::LessThan(0, 1)).arity, 2);
}

#[test]
fn join_arity_subtracts_keys() {
    let p = nodes().join(edges(), vec![(0, 0)]);
    assert_eq!(p.arity, 2);
    let q = edges().join(edges(), vec![(0, 1), (1, 0)]);
    assert_eq!(q.arity, 2);
    let r = edges().join(edges(), vec![]);
    assert_eq!(r.arity, 4);
}

#[test]
fn concat_and_concatenate() {
    let p = edges().concat(edges().negate());
    assert_eq!(p.arity, 2);
    match &p.node {
        PlanNode::Concat(ps) => assert_eq!(ps.len(), 2),
        _ => panic!("expected a concat"),
    }
    let q = Plan::concatenate(vec![nodes(), nodes(), nodes()]);
    assert_eq!(q.arity, 1);
}

#[test]
fn multiway_join_arity_is_result_count() {
    let p = Plan::multiway_join(
        vec![edges(), edges(), edges()],
        vec![vec![(0, 1), (1, 0)], vec![(0, 0), (2, 0)], vec![(1, 1), (2, 1)]],
        vec![(0, 0), (0, 1), (1, 1)],
    );
    assert_eq!(p.arity, 3);
}

#[test]
fn source_and_local_differ() {
    assert_eq!(Plan::source("Reach", 1), Plan::source("Reach", 1));
    assert_ne!(Plan::source("Reach", 1), Plan::local("Reach", 1));
    assert_ne!(Plan::source("Reach", 1), Plan::source("Reach", 2));
    assert_ne!(Plan::source("Reach", 1), Plan::source("Nodes", 1));
}

#[test]
fn structural_equality_of_trees() {
    let a = nodes().join(edges(), vec![(0, 0)]).project(vec![1]).distinct();
    let b = nodes().join(edges(), vec![(0, 0)]).project(vec![1]).distinct();
    let c = nodes().join(edges(), vec![(0, 0)]).project(vec![2]).distinct();
    assert!(a == b);
    assert!(a != c);
    assert!(a.equals(&a.duplicate()));
    assert_eq!(a.clone(), a);
}

#[test]
fn double_negation_is_two_negate_nodes() {
    let p = edges().negate().negate();
    match &p.node {
        PlanNode::Negate(inner) => match &inner.node {
            PlanNode::Negate(x) => assert_eq!(**x, edges()),
            _ => panic!("expected a negate"),
        },
        _ => panic!("expected a negate"),
    }
}

#[test]
fn into_rule_and_query() {
    let q = nodes().into_rule("Start").into_query().add_import(nodes(), vec![0]).add_publish(Plan::local("Start", 1), vec![0]);
    assert_eq!(q.rules.len(), 1);
    assert_eq!(q.rules[0].name, "Start");
    assert_eq!(q.imports.len(), 1);
    assert_eq!(q.publish.len(), 1);
}

#[test]
fn predicates_on_tuples() {
    let t = vec![Value::Usize(3), Value::Usize(5), Value::Usize(3), Value::Isize(-1), Value::String("a".to_string())];
    assert!(Predicate::Equal(0, 2).satisfied(&t));
    assert!(!Predicate::Equal(0, 1).satisfied(&t));
    assert!(Predicate::NotEqual(0, 1).satisfied(&t));
    assert!(Predicate::LessThan(0, 1).satisfied(&t));
    assert!(!Predicate::LessThan(1, 0).satisfied(&t));
    assert!(Predicate::LessEqual(0, 2).satisfied(&t));
    assert!(!Predicate::LessThan(0, 3).satisfied(&t));
    assert!(!Predicate::LessEqual(4, 4).satisfied(&t));
    assert!(Predicate::Equal(4, 4).satisfied(&t));
}

#[test]
fn negation_cancels_plan_shape() {
    let p = edges().negate().concat(edges()).consolidate();
    assert_eq!(p.arity, 2);
    match &p.node {
        PlanNode::Consolidate(inner) => match &inner.node {
            PlanNode::Concat(ps) => {
                assert_eq!(ps[0], edges().negate());
                assert_eq!(ps[1], edges());
            }
            _ => panic!("expected a concat"),
        },
        _ => panic!("expected a consolidate"),
    }
}

#[test]
fn idempotent_operators_nest() {
    let d = edges().distinct().distinct();
    assert_eq!(d.arity, 2);
    assert_ne!(d, edges().distinct());
    let c = edges().consolidate().consolidate();
    assert_eq!(c.arity, 2);
}
