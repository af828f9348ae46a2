use std::sync::Arc;

use triplox::error::Error;
use triplox::query::binding_bag::BindingBag;
use triplox::query::exec_pattern::ExecPattern;
use triplox::query::patterns::relation::RelationPattern;
use triplox::query::plan::PatternId;
use triplox::query::stage::Stage;
use triplox::variable::Variable;

fn var(name: &str) -> Variable {
    Variable::new(name)
}

fn shared(id: PatternId, variables: &[&str]) -> Arc<dyn ExecPattern> {
    let bag = BindingBag::empty(variables.iter().map(|name| var(name)).collect()).unwrap();
    Arc::new(RelationPattern::new(id, bag))
}

#[test]
fn stage_construction_enforces_static_invariants() {
    let pattern = shared(1, &["?x"]);

    assert!(Stage::new(vec![], vec![], vec![], vec![]).is_err());
    assert!(Stage::new(
        vec![var("?x"), var("?x")],
        vec![Arc::clone(&pattern)],
        vec![0],
        vec![var("?x")],
    )
    .is_err());
    assert!(Stage::new(
        vec![var("?x")],
        vec![Arc::clone(&pattern)],
        vec![0],
        vec![var("?x"), var("?x")],
    )
    .is_err());
    assert!(Stage::new(
        vec![var("?missing")],
        vec![Arc::clone(&pattern)],
        vec![0],
        vec![var("?x")],
    )
    .is_err());
    assert!(Stage::new(
        vec![var("?x")],
        vec![Arc::clone(&pattern), pattern],
        vec![0],
        vec![var("?x")],
    )
    .is_err());
}

#[test]
fn stage_construction_enforces_proposer_roles() {
    let first = shared(1, &["?x"]);
    let second = shared(2, &["?x"]);
    let participants = || vec![Arc::clone(&first), Arc::clone(&second)];

    // A stage that adds variables must declare at least one proposer.
    assert!(Stage::new(
        vec![var("?x")],
        participants(),
        vec![],
        vec![var("?x")],
    )
    .is_err());
    // A stage that adds no variables must not declare a proposer.
    assert!(Stage::new(vec![], participants(), vec![0], vec![]).is_err());
    // Every proposer position must refer to an existing participant.
    assert!(Stage::new(
        vec![var("?x")],
        participants(),
        vec![2],
        vec![var("?x")],
    )
    .is_err());
    // Each participant can be declared as a proposer only once.
    assert!(Stage::new(
        vec![var("?x")],
        participants(),
        vec![0, 0],
        vec![var("?x")],
    )
    .is_err());
    // Proposer positions must follow participant order.
    assert!(Stage::new(
        vec![var("?x")],
        participants(),
        vec![1, 0],
        vec![var("?x")],
    )
    .is_err());
}

#[test]
fn stage_validates_each_input_layout_transition() {
    let stage = Stage::new(
        vec![var("?y")],
        vec![shared(1, &["?x", "?y"])],
        vec![0],
        vec![var("?y"), var("?x")],
    )
    .unwrap();

    let input = BindingBag::empty(vec![var("?x")]).unwrap();
    assert!(stage.validate_input(&input).is_ok());

    let already_added = BindingBag::empty(vec![var("?x"), var("?y")]).unwrap();
    assert_eq!(
        stage.validate_input(&already_added).unwrap_err().message(),
        "Stage cannot add already-bound variable ?y"
    );

    let wrong_input = BindingBag::empty(vec![var("?z")]).unwrap();
    assert_eq!(
        stage.validate_input(&wrong_input).unwrap_err().message(),
        "Stage target layout must equal the input variables plus added variables"
    );
}

#[test]
fn each_fault_of_a_stage_has_its_error() {
    let x = || vec![var("?x")];
    let one = || vec![shared(1, &["?x"])];
    let two = || vec![shared(1, &["?x"]), shared(2, &["?x"])];
    let fault = |added, participants, positions, target| {
        Stage::new(added, participants, positions, target).err().unwrap()
    };
    assert_eq!(fault(vec![var("?x"), var("?x")], one(), vec![0], x()), Error::DuplicateAdded("?x".to_string()));
    assert_eq!(fault(x(), one(), vec![0], vec![var("?x"), var("?x")]), Error::DuplicateTarget("?x".to_string()));
    assert_eq!(fault(vec![], vec![], vec![], vec![]), Error::NoParticipants);
    assert_eq!(fault(x(), two(), vec![1, 0], x()), Error::ProposersNotAscending);
    assert_eq!(
        fault(x(), two(), vec![1, 2], x()).message(),
        "Stage proposer position 2 is out of bounds for 2 participants"
    );
    assert_eq!(fault(x(), two(), vec![], x()), Error::ProposersWithoutAdditions);
    assert_eq!(fault(vec![var("?y")], one(), vec![0], x()), Error::AddedNotInTarget("?y".to_string()));
    assert_eq!(
        fault(x(), vec![shared(1, &["?x"]), shared(1, &["?x"])], vec![0], x()),
        Error::DuplicateParticipant(1)
    );
    let stage = Stage::new(x(), two(), vec![1], x()).unwrap();
    assert_eq!(stage.proposers().len(), 1);
    assert_eq!(stage.proposers()[0].id(), 2);
}
