use triplox::codec::encode;
use triplox::expr::{BinaryExpr, BinaryOp, Expr};
use triplox::numeric::{Arithmetic, NumericValue};
use triplox::query::binding_bag::BindingBag;
use triplox::query::exec_pattern::{ExecPattern, Proposal};
use triplox::query::patterns::function::FunctionPattern;
use triplox::query::patterns::predicate::PredicatePattern;
use triplox::query::patterns::relation::RelationPattern;
use triplox::value::DataType;
use triplox::variable::Variable;

fn var(name: &str) -> Variable {
    Variable::new(name)
}

fn bytes(value: &str) -> Vec<u8> {
    value.as_bytes().to_vec()
}

fn encoded(value: DataType) -> Vec<u8> {
    encode(&value)
}

fn binding_bag(variables: &[&str], rows: &[&[&str]]) -> BindingBag {
    BindingBag::new(
        variables.iter().map(|variable| var(variable)).collect(),
        rows.iter().map(|row| row.iter().map(|value| bytes(value)).collect()).collect(),
    )
    .unwrap()
}

fn assert_bag_eq_unordered(actual: BindingBag, expected: BindingBag) {
    assert_eq!(actual.variables, expected.variables);
    let mut actual_rows = actual.rows;
    let mut expected_rows = expected.rows;
    actual_rows.sort();
    expected_rows.sort();
    assert_eq!(actual_rows, expected_rows);
}

fn add(left: &str, amount: i64) -> Expr {
    Expr::BinaryExpr(BinaryExpr {
        left: Box::new(Expr::Variable(var(left))),
        op: BinaryOp::Add,
        right: Box::new(Expr::Literal(DataType::Long(amount))),
    })
}

fn copy(value: &DataType) -> DataType {
    match value {
        DataType::Long(n) => DataType::Long(*n),
        DataType::String(s) => DataType::String(s.clone()),
        DataType::Boolean(b) => DataType::Boolean(*b),
        _ => panic!("expected a number, a text or a truth value"),
    }
}

/// The value of an expression on whole numbers.
fn evaluate(expr: &Expr, names: &Vec<Variable>, values: &Vec<DataType>) -> Option<DataType> {
    match expr {
        Expr::Literal(value) => Some(copy(value)),
        Expr::Variable(variable) => {
            names.iter().position(|name| name == variable).map(|at| copy(&values[at]))
        }
        Expr::BinaryExpr(e) => {
            let left = evaluate(&e.left, names, values)?;
            let right = evaluate(&e.right, names, values)?;
            let left = NumericValue::from_expression(&left)?;
            let right = NumericValue::from_expression(&right)?;
            match (e.op, left, right) {
                (BinaryOp::Lt, NumericValue::Long(l), NumericValue::Long(r)) => {
                    Some(DataType::Boolean(l < r))
                }
                (BinaryOp::Add, left, right) => match left.checked_add(right) {
                    Arithmetic::Whole(sum) => sum.map(DataType::Long),
                    Arithmetic::Floating => None,
                },
                _ => panic!("expected a comparison or a sum"),
            }
        }
        _ => panic!("expected an operation on whole numbers"),
    }
}

fn holds(expr: &Expr, names: &Vec<Variable>, values: &Vec<DataType>) -> bool {
    evaluate(expr, names, values) == Some(DataType::Boolean(true))
}

fn less_than(left: &str, right: &str) -> Expr {
    Expr::BinaryExpr(BinaryExpr {
        left: Box::new(Expr::Variable(var(left))),
        op: BinaryOp::Lt,
        right: Box::new(Expr::Variable(var(right))),
    })
}

#[test]
fn proposes_one_computed_output_per_valid_input_row_in_target_order() {
    let pattern = FunctionPattern::new(8, add("?x", 1), var("?y"), evaluate).unwrap();
    let input = BindingBag::new(
        vec![var("?outer"), var("?x")],
        vec![
            vec![encoded(DataType::Long(90)), encoded(DataType::Long(1))],
            vec![encoded(DataType::Long(90)), encoded(DataType::Long(1))],
            vec![
                encoded(DataType::Long(91)),
                encoded(DataType::String("wrong".into())),
            ],
        ],
    )
    .unwrap();
    let mut proposals = vec![Proposal::default(); 3];

    pattern
        .count(&input, &[var("?y")], &mut proposals)
        .unwrap();
    assert_eq!(proposals[0].proposer(), Some(8));
    assert_eq!(proposals[1].proposer(), Some(8));
    assert_eq!(proposals[2].proposer(), None);

    let joined = pattern
        .join(
            &input,
            &[var("?y")],
            &[var("?y"), var("?outer"), var("?x")],
        )
        .unwrap();
    assert_eq!(
        joined,
        BindingBag::new(
            vec![var("?y"), var("?outer"), var("?x")],
            vec![
                vec![
                    encoded(DataType::Long(2)),
                    encoded(DataType::Long(90)),
                    encoded(DataType::Long(1)),
                ],
                vec![
                    encoded(DataType::Long(2)),
                    encoded(DataType::Long(90)),
                    encoded(DataType::Long(1)),
                ],
            ],
        )
        .unwrap()
    );
}

#[test]
fn validates_an_already_bound_output_and_preserves_outer_columns() {
    let pattern = FunctionPattern::new(8, add("?x", 1), var("?y"), evaluate).unwrap();
    let input = BindingBag::new(
        vec![var("?y"), var("?outer"), var("?x")],
        vec![
            vec![
                encoded(DataType::Long(2)),
                encoded(DataType::Long(90)),
                encoded(DataType::Long(1)),
            ],
            vec![
                encoded(DataType::Long(3)),
                encoded(DataType::Long(91)),
                encoded(DataType::Long(1)),
            ],
        ],
    )
    .unwrap();

    assert_eq!(
        pattern.join(&input, &[], &input.variables).unwrap(),
        BindingBag::new(input.variables.clone(), vec![input.rows[0].clone()]).unwrap()
    );
}

#[test]
fn constant_functions_start_from_the_unit_relation() {
    let pattern = FunctionPattern::new(
        8,
        Expr::Literal(DataType::String("value".into())),
        var("?out"),
        evaluate,
    )
    .unwrap();

    assert_eq!(
        pattern
            .join(&BindingBag::unit(), &[var("?out")], &[var("?out")])
            .unwrap(),
        BindingBag::new(
            vec![var("?out")],
            vec![vec![encoded(DataType::String("value".into()))]]
        )
        .unwrap()
    );
}

#[test]
fn reports_invalid_contracts_and_encoded_inputs() {
    assert!(FunctionPattern::new(8, Expr::Variable(var("?x")), var("?x"), evaluate)
        .is_err());
    let pattern = FunctionPattern::new(8, add("?x", 1), var("?y"), evaluate).unwrap();
    let malformed = BindingBag::new(
        vec![var("?x")],
        vec![vec![b"invalid".to_vec()]],
    )
    .unwrap();
    let mut proposals = vec![Proposal::default()];

    assert!(pattern
        .count(&malformed, &[var("?y")], &mut proposals)
        .is_err());
    assert!(pattern.count(&malformed, &[], &mut vec![]).is_err());

    let unbound = BindingBag::unit();
    assert!(pattern
        .join(&unbound, &[var("?y")], &[var("?y")])
        .is_err());

    let bound_input =
        BindingBag::new(vec![var("?x")], vec![vec![encoded(DataType::Long(1))]]).unwrap();
    assert!(pattern
        .join(&bound_input, &[], &bound_input.variables)
        .is_err());
    assert!(pattern
        .join(
            &bound_input,
            &[var("?wrong")],
            &[var("?x"), var("?wrong")],
        )
        .is_err());

    let malformed_output = BindingBag::new(
        vec![var("?x"), var("?y")],
        vec![vec![
            encoded(DataType::Long(1)),
            b"invalid".to_vec(),
        ]],
    )
    .unwrap();
    assert!(pattern
        .join(&malformed_output, &[], &malformed_output.variables)
        .is_err());
}

#[test]
fn filters_rows_by_named_columns_without_changing_layout_or_multiplicity() {
    let pattern = PredicatePattern::new(4, less_than("?x", "?y"), holds);
    let input = BindingBag::new(
        vec![var("?outer"), var("?y"), var("?x")],
        vec![
            vec![
                encoded(DataType::Long(1)),
                encoded(DataType::Long(20)),
                encoded(DataType::Long(10)),
            ],
            vec![
                encoded(DataType::Long(1)),
                encoded(DataType::Long(20)),
                encoded(DataType::Long(10)),
            ],
            vec![
                encoded(DataType::Long(2)),
                encoded(DataType::Long(5)),
                encoded(DataType::Long(10)),
            ],
            vec![
                encoded(DataType::Long(3)),
                encoded(DataType::String("wrong".into())),
                encoded(DataType::Long(10)),
            ],
        ],
    )
    .unwrap();

    let filtered = pattern.join(&input, &[], &input.variables).unwrap();

    assert_eq!(
        filtered,
        BindingBag::new(
            input.variables.clone(),
            vec![input.rows[0].clone(), input.rows[1].clone()]
        )
        .unwrap()
    );
}

#[test]
fn never_proposes_and_reports_contract_or_decode_errors() {
    let pattern = PredicatePattern::new(4, less_than("?x", "?y"), holds);
    let input = BindingBag::new(
        vec![var("?x"), var("?y")],
        vec![vec![
            b"invalid".to_vec(),
            encoded(DataType::Long(2)),
        ]],
    )
    .unwrap();
    let mut proposals = vec![Proposal::default()];

    pattern
        .count(&input, &[var("?z")], &mut proposals)
        .unwrap();
    assert_eq!(proposals, vec![Proposal::default()]);
    assert!(pattern
        .join(&input, &[var("?z")], &input.variables)
        .is_err());
    assert!(pattern
        .join(&input, &[], &[var("?y"), var("?x")],)
        .is_err());
    assert!(pattern.join(&input, &[], &input.variables).is_err());

    let unbound =
        BindingBag::new(vec![var("?x")], vec![vec![encoded(DataType::Long(1))]]).unwrap();
    assert!(pattern.join(&unbound, &[], &unbound.variables).is_err());
}

#[test]
fn count_updates_each_row_with_its_distinct_positive_candidate_count() {
    let pattern = RelationPattern::new(
        7,
        binding_bag(
            &["?x", "?y"],
            &[&["a", "1"], &["a", "1"], &["a", "2"], &["b", "3"]],
        ),
    );
    let input = binding_bag(&["?x"], &[&["a"], &["b"], &["c"]]);
    let mut proposals = vec![Proposal::default(); input.rows.len()];

    pattern
        .count(&input, &[var("?y")], &mut proposals)
        .unwrap();

    assert_eq!(proposals[0].proposer(), Some(7));
    assert_eq!(proposals[0].count(), 2);
    assert_eq!(proposals[1].proposer(), Some(7));
    assert_eq!(proposals[1].count(), 1);
    assert_eq!(proposals[2].proposer(), None);
}

#[test]
fn count_is_a_noop_for_non_prefix_proposals_and_checks_sidecar_length() {
    let pattern = RelationPattern::new(7, binding_bag(&["?x", "?y"], &[&["a", "1"]]));
    let input = binding_bag(&["?y"], &[&["1"]]);
    let mut proposals = vec![Proposal::default()];

    pattern
        .count(&input, &[var("?x")], &mut proposals)
        .unwrap();
    assert_eq!(proposals, vec![Proposal::default()]);

    assert!(pattern.count(&input, &[var("?x")], &mut vec![]).is_err());
}

#[test]
fn multi_variable_non_prefix_proposals_are_ignored_and_rejected() {
    let pattern =
        RelationPattern::new(7, binding_bag(&["?x", "?y", "?z"], &[&["a", "1", "red"]]));
    let input = BindingBag::unit();
    let added = [var("?y"), var("?z")];
    let mut proposals = vec![Proposal::default()];

    pattern.count(&input, &added, &mut proposals).unwrap();

    assert_eq!(proposals, vec![Proposal::default()]);
    assert!(pattern.join(&input, &added, &added).is_err());
}

#[test]
fn counts_and_proposes_distinct_multi_variable_prefixes_from_the_root() {
    let pattern = RelationPattern::new(
        7,
        binding_bag(
            &["?x", "?y", "?z"],
            &[
                &["a", "1", "red"],
                &["a", "1", "blue"],
                &["a", "1", "red"],
                &["a", "2", "green"],
                &["b", "3", "black"],
            ],
        ),
    );
    let input = binding_bag(&["?outer"], &[&["seed"], &["seed"]]);
    let added = [var("?x"), var("?y")];
    let mut proposals = vec![Proposal::default(); input.rows.len()];

    pattern.count(&input, &added, &mut proposals).unwrap();

    assert_eq!(proposals[0].proposer(), Some(7));
    assert_eq!(proposals[0].count(), 3);
    assert_eq!(proposals[1].proposer(), Some(7));
    assert_eq!(proposals[1].count(), 3);

    let joined = pattern
        .join(
            &input,
            &added,
            &[var("?y"), var("?outer"), var("?x")],
        )
        .unwrap();
    assert_bag_eq_unordered(
        joined,
        binding_bag(
            &["?y", "?outer", "?x"],
            &[
                &["1", "seed", "a"],
                &["1", "seed", "a"],
                &["2", "seed", "a"],
                &["2", "seed", "a"],
                &["3", "seed", "b"],
                &["3", "seed", "b"],
            ],
        ),
    );
}

#[test]
fn counts_and_proposes_multiple_variables_below_a_reordered_bound_prefix() {
    let pattern = RelationPattern::new(
        9,
        binding_bag(
            &["?w", "?x", "?y", "?z"],
            &[
                &["a", "1", "m", "red"],
                &["a", "1", "m", "blue"],
                &["a", "1", "n", "green"],
                &["b", "2", "o", "black"],
            ],
        ),
    );
    let input = binding_bag(
        &["?x", "?outer", "?w"],
        &[&["1", "first", "a"], &["9", "second", "a"]],
    );
    let added = [var("?y"), var("?z")];
    let mut proposals = vec![Proposal::default(); input.rows.len()];

    pattern.count(&input, &added, &mut proposals).unwrap();

    assert_eq!(proposals[0].proposer(), Some(9));
    assert_eq!(proposals[0].count(), 3);
    assert_eq!(proposals[1].proposer(), None);

    let joined = pattern
        .join(
            &input,
            &added,
            &[
                var("?outer"),
                var("?z"),
                var("?w"),
                var("?y"),
                var("?x"),
            ],
        )
        .unwrap();
    assert_bag_eq_unordered(
        joined,
        binding_bag(
            &["?outer", "?z", "?w", "?y", "?x"],
            &[
                &["first", "red", "a", "m", "1"],
                &["first", "blue", "a", "m", "1"],
                &["first", "green", "a", "n", "1"],
            ],
        ),
    );
}

#[test]
fn proposing_join_preserves_outer_columns_multiplicity_and_target_order() {
    let pattern = RelationPattern::new(
        7,
        binding_bag(&["?x", "?y"], &[&["a", "1"], &["a", "2"], &["b", "3"]]),
    );
    let input = binding_bag(
        &["?outer", "?x"],
        &[&["u", "a"], &["v", "a"], &["w", "missing"]],
    );

    let joined = pattern
        .join(
            &input,
            &[var("?y")],
            &[var("?y"), var("?outer"), var("?x")],
        )
        .unwrap();

    assert_bag_eq_unordered(
        joined,
        binding_bag(
            &["?y", "?outer", "?x"],
            &[
                &["1", "u", "a"],
                &["2", "u", "a"],
                &["1", "v", "a"],
                &["2", "v", "a"],
            ],
        ),
    );
}

#[test]
fn validating_join_filters_prefixes_without_changing_layout_or_bag_semantics() {
    let pattern =
        RelationPattern::new(7, binding_bag(&["?x", "?y"], &[&["a", "1"], &["a", "2"]]));
    let input = binding_bag(&["?outer", "?x"], &[&["u", "a"], &["u", "a"], &["v", "b"]]);

    let validated = pattern.join(&input, &[], &input.variables).unwrap();

    assert_eq!(
        validated,
        binding_bag(&["?outer", "?x"], &[&["u", "a"], &["u", "a"]])
    );
    assert!(pattern
        .join(&input, &[], &[var("?x"), var("?outer")],)
        .is_err());
}

#[test]
fn validating_join_matches_complete_rows_independent_of_input_column_order() {
    let pattern = RelationPattern::new(
        7,
        binding_bag(
            &["?x", "?y", "?z"],
            &[&["a", "1", "red"], &["b", "2", "blue"]],
        ),
    );
    let input = binding_bag(
        &["?z", "?outer", "?x", "?y"],
        &[
            &["red", "first", "a", "1"],
            &["red", "first", "a", "1"],
            &["wrong", "second", "a", "1"],
        ],
    );

    let validated = pattern.join(&input, &[], &input.variables).unwrap();

    assert_eq!(
        validated,
        binding_bag(
            &["?z", "?outer", "?x", "?y"],
            &[&["red", "first", "a", "1"], &["red", "first", "a", "1"],],
        )
    );
}

#[test]
fn zero_column_relations_validate_by_existence() {
    let input = binding_bag(&["?x"], &[&["a"], &["a"]]);
    let unit = RelationPattern::new(1, BindingBag::unit());
    let empty = RelationPattern::new(2, BindingBag::empty(vec![]).unwrap());

    assert_eq!(unit.join(&input, &[], &input.variables).unwrap(), input);
    assert_eq!(
        empty.join(&input, &[], &input.variables).unwrap(),
        BindingBag::empty(vec![var("?x")]).unwrap()
    );
}

#[test]
fn proposal_keeps_the_first_strictly_cheapest_positive_count() {
    let mut proposal = Proposal::default();

    proposal.consider(4, 0);
    assert_eq!(proposal.proposer(), None);

    proposal.consider(4, 3);
    proposal.consider(5, 3);
    assert_eq!(proposal.proposer(), Some(4));
    assert_eq!(proposal.count(), 3);

    proposal.consider(5, 2);
    assert_eq!(proposal.proposer(), Some(5));
    assert_eq!(proposal.count(), 2);
}

#[test]
fn a_relation_joins_as_the_cut_relation_without_repetitions_does() {
    let relation = binding_bag(
        &["?x", "?y", "?z"],
        &[&["a", "1", "p"], &["a", "1", "q"], &["a", "2", "p"], &["b", "3", "p"]],
    );
    let cut = relation.project(&[var("?x"), var("?y")]).unwrap().distinct();
    let pattern = RelationPattern::new(3, relation);
    let input = binding_bag(&["?o", "?x"], &[&["m", "a"], &["n", "b"], &["o", "a"], &["o", "c"]]);
    let target = [var("?y"), var("?o"), var("?x")];
    let joined = pattern.join(&input, &[var("?y")], &target).unwrap();
    let expected = input.natural_join(&cut).unwrap().reorder(&target).unwrap();
    assert_eq!(joined.rows.len(), 5);
    assert_eq!(joined, expected);
}

#[test]
fn refused_joins_say_which_pattern_and_variable() {
    let input = binding_bag(&["?x"], &[&["a"]]);
    let x = || vec![var("?x")];

    let function = FunctionPattern::new(8, add("?a", 1), var("?b"), evaluate).unwrap();
    let said = |added: &[Variable], target: &[Variable]| {
        function.join(&input, added, target).unwrap_err().message()
    };
    assert_eq!(said(&[], &x()), "Function pattern 8 requires bound input ?a");
    let repeated = FunctionPattern::new(8, Expr::Variable(var("?x")), var("?x"), evaluate);
    assert_eq!(
        repeated.err().unwrap().message(),
        "Function pattern 8 output ?x is also an input"
    );
    let bound = binding_bag(&["?a"], &[&["a"]]);
    assert_eq!(
        function.join(&bound, &[], &[]).unwrap_err().message(),
        "Function pattern 8 validation must preserve the input layout"
    );
    assert_eq!(
        function.join(&bound, &[], &[var("?a")]).unwrap_err().message(),
        "Function pattern 8 validation requires bound output ?b"
    );
    assert_eq!(
        function.join(&bound, &[var("?c")], &[]).unwrap_err().message(),
        "Function pattern 8 can only propose output ?b"
    );
    let full = binding_bag(&["?a", "?b"], &[&["a", "b"]]);
    assert_eq!(
        function.join(&full, &[var("?b")], &[]).unwrap_err().message(),
        "Function pattern 8 cannot add already-bound output ?b"
    );
    assert_eq!(
        function.count(&bound, &[var("?b")], &mut vec![]).unwrap_err().message(),
        "Function pattern 8 received 0 proposals for 1 input rows"
    );

    let predicate = PredicatePattern::new(4, less_than("?x", "?y"), holds);
    assert_eq!(
        predicate.join(&input, &[var("?z"), var("?y")], &x()).unwrap_err().message(),
        "Predicate pattern 4 cannot propose variables: [?z, ?y]"
    );
    assert_eq!(
        predicate.join(&input, &[], &[]).unwrap_err().message(),
        "Predicate pattern 4 validation must preserve the input layout"
    );
    assert_eq!(
        predicate.join(&input, &[], &x()).unwrap_err().message(),
        "Predicate pattern 4 requires bound variable ?y"
    );

    let pattern = RelationPattern::new(3, binding_bag(&["?w", "?x"], &[&["a", "1"]]));
    assert_eq!(
        pattern.join(&input, &[], &x()).unwrap_err().message(),
        "Relation validation requires bound variables to form a prefix"
    );
    assert_eq!(
        pattern.join(&input, &[var("?w")], &x()).unwrap_err().message(),
        "Relation cannot propose the requested variables: [?w]"
    );
    assert_eq!(
        pattern.join(&input, &[], &[]).unwrap_err().message(),
        "Relation validation must preserve the input layout"
    );
    assert_eq!(
        pattern.count(&input, &[var("?w")], &mut vec![]).unwrap_err().message(),
        "Proposal sidecar has 0 rows, expected 1"
    );
}
