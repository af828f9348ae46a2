use triplox::expr::Expr;
use triplox::query::ast::{
    Binding, FindSpec, FnArg, Limit, NonIntegerConstant, NotJoin, OrJoin, OrWhereClause,
    ParsedQuery, Pattern, PatternNonValuePlace, PatternValuePlace, Predicate, QueryArg,
    WhereClause, WhereFn,
};
use triplox::query::lower::{build_logical_plan, DescriptorBuilder};
use triplox::query::plan::{
    plan_scope, proposing_stage_for, Descriptor, DescriptorKind, LogicalStage, ParticipantRef,
    PatternId,
};
use triplox::value::{DataType, Keyword};
use triplox::variable::Variable;

fn var(name: &str) -> Variable {
    Variable::new(name)
}

fn relation(id: PatternId, variables: &[&str]) -> Descriptor {
    Descriptor {
        id,
        variables: variables.iter().map(|name| var(name)).collect(),
        kind: DescriptorKind::Relation { rows: Vec::new() },
    }
}

fn predicate(id: PatternId, variables: &[&str]) -> Descriptor {
    Descriptor {
        id,
        variables: variables.iter().map(|name| var(name)).collect(),
        kind: DescriptorKind::Predicate {
            expression: Expr::Literal(DataType::Boolean(true)),
        },
    }
}

fn function(id: PatternId, input: &str, output: &str) -> Descriptor {
    let input = var(input);
    let output = var(output);
    Descriptor {
        id,
        variables: vec![input.clone(), output.clone()],
        kind: DescriptorKind::Function {
            expression: Expr::Variable(input.clone()),
            input_variables: vec![input],
            output,
        },
    }
}

fn or(id: PatternId, variables: &[&str], branches: Vec<Vec<Descriptor>>) -> Descriptor {
    Descriptor {
        id,
        variables: variables.iter().map(|name| var(name)).collect(),
        kind: DescriptorKind::Or { branches },
    }
}

fn refs(ids: &[PatternId]) -> Vec<ParticipantRef> {
    ids.iter().copied().map(ParticipantRef::Pattern).collect()
}

fn simple(
    entity: PatternNonValuePlace,
    attribute: PatternNonValuePlace,
    value: PatternValuePlace,
) -> Pattern {
    Pattern { entity, attribute, value }
}

fn triple(entity: &str, attribute: &str, value: PatternValuePlace) -> WhereClause {
    WhereClause::Pattern(simple(
        PatternNonValuePlace::Variable(var(entity)),
        PatternNonValuePlace::Ident(Keyword::new(attribute)),
        value,
    ))
}

fn value(name: &str) -> PatternValuePlace {
    PatternValuePlace::Variable(var(name))
}

fn call(name: &str, args: Vec<FnArg>) -> FnArg {
    FnArg::SExpr(name.to_string(), args)
}

fn lowered_query() -> ParsedQuery {
    ParsedQuery {
        find_spec: FindSpec::FindRel(vec![]),
        in_bindings: vec![Binding::BindScalar(var("?name")), Binding::BindColl(var("?age"))],
        where_clauses: vec![
            triple("?e", "person/name", value("?name")),
            WhereClause::Pred(Predicate {
                expr: call(
                    "<",
                    vec![FnArg::Variable(var("?age")), FnArg::EntidOrInteger(30)],
                ),
            }),
            WhereClause::WhereFn(WhereFn {
                expr: call(
                    "+",
                    vec![FnArg::Variable(var("?age")), FnArg::EntidOrInteger(1)],
                ),
                binding: Binding::BindScalar(var("?next")),
            }),
            WhereClause::NotJoin(NotJoin {
                clauses: vec![triple(
                    "?e",
                    "person/blocked",
                    PatternValuePlace::Constant(NonIntegerConstant::Boolean(true)),
                )],
            }),
        ],
        order: None,
        limit: Limit::Unlimited,
    }
}

fn composite_clauses() -> Vec<WhereClause> {
    let branch = |a: &str, b: &str| {
        OrWhereClause::And(vec![triple("?e", a, value("?x")), triple("?x", b, value("?e"))])
    };
    vec![
        WhereClause::OrJoin(OrJoin { clauses: vec![branch("a", "b"), branch("c", "d")] }),
        WhereClause::NotJoin(NotJoin {
            clauses: vec![
                triple("?e", "blocked-by", value("?x")),
                triple("?x", "active", value("?e")),
            ],
        }),
    ]
}

#[test]
fn plan_lowers_query_data_to_one_recursive_descriptor_tree() {
    let query = lowered_query();
    let arguments = vec![
        QueryArg::Scalar(DataType::String("Alice".into())),
        QueryArg::Collection(vec![DataType::Long(20), DataType::Long(40)]),
    ];

    let plan = build_logical_plan(&query, &arguments).unwrap();

    assert_eq!(
        plan.variable_order(),
        &[var("?name"), var("?age"), var("?e"), var("?next")]
    );
    assert_eq!(plan.descriptors.len(), 6);
    assert!(matches!(
        plan.descriptors[0].kind,
        DescriptorKind::Relation { .. }
    ));
    assert!(matches!(
        plan.descriptors[2].kind,
        DescriptorKind::Triple(_)
    ));
    assert!(matches!(
        plan.descriptors[3].kind,
        DescriptorKind::Predicate { .. }
    ));
    assert!(matches!(
        plan.descriptors[4].kind,
        DescriptorKind::Function { .. }
    ));
    let DescriptorKind::Not { children } = &plan.descriptors[5].kind else {
        panic!("expected NOT descriptor");
    };
    assert_eq!(children[0].id, 6);
    assert!(matches!(children[0].kind, DescriptorKind::Triple(_)));
}

#[test]
fn plan_composite_descriptors_distinct_child_variables_in_occurrence_order() {
    let clauses = composite_clauses();
    let mut builder = DescriptorBuilder::new();

    let descriptors = builder.where_clauses(&clauses).unwrap();

    assert_eq!(descriptors[0].variables, vec![var("?e"), var("?x")]);
    assert_eq!(descriptors[1].variables, vec![var("?e"), var("?x")]);
}

#[test]
fn plan_descriptors_report_only_current_scope_groundability() {
    let relation_descriptor = relation(0, &["?x", "?y"]);
    let function_descriptor = function(1, "?x", "?y");
    let mut bound: Vec<Variable> = vec![];
    assert_eq!(relation_descriptor.groundable(&bound), vec![var("?x")]);
    assert!(function_descriptor.groundable(&bound).is_empty());

    bound.push(var("?x"));
    assert_eq!(relation_descriptor.groundable(&bound), vec![var("?y")]);
    assert_eq!(function_descriptor.groundable(&bound), vec![var("?y")]);

    let grouped = or(
        2,
        &["?x", "?y"],
        vec![
            vec![relation(3, &["?x"]), function(4, "?x", "?y")],
            vec![relation(5, &["?x", "?y"])],
        ],
    );
    assert_eq!(
        grouped.groundable(&[]),
        vec![var("?x"), var("?y")]
    );
}

#[test]
fn plan_plans_multiple_proposers_and_ready_validators_together() {
    let descriptors = vec![
        relation(0, &["?x"]),
        relation(1, &["?x"]),
        predicate(2, &["?x"]),
    ];

    let stages = plan_scope(&descriptors, &[var("?x")], None).unwrap();

    assert_eq!(
        stages,
        vec![LogicalStage {
            added: vec![var("?x")],
            proposers: refs(&[0, 1]),
            participants: refs(&[0, 1, 2]),
            target_variables: vec![var("?x")],
        }]
    );
}

#[test]
fn grouped_or_partially_validates_relation_then_relation_proposes() {
    let descriptors = vec![
        or(
            0,
            &["?x", "?y"],
            vec![
                vec![relation(1, &["?x", "?y"])],
                vec![relation(2, &["?x", "?y"])],
            ],
        ),
        relation(3, &["?y", "?z"]),
    ];

    let stages = plan_scope(&descriptors, &[var("?x"), var("?y"), var("?z")], None).unwrap();

    assert_eq!(
        stages,
        vec![
            LogicalStage {
                added: vec![var("?x"), var("?y")],
                proposers: refs(&[0]),
                participants: refs(&[0, 3]),
                target_variables: vec![var("?x"), var("?y")],
            },
            LogicalStage {
                added: vec![var("?z")],
                proposers: refs(&[3]),
                participants: refs(&[3]),
                target_variables: vec![var("?x"), var("?y"), var("?z")],
            },
        ]
    );
}

#[test]
fn grouped_or_completes_fully_bound_relation_validator() {
    let descriptors = vec![
        or(
            0,
            &["?x", "?y"],
            vec![
                vec![relation(1, &["?x", "?y"])],
                vec![relation(2, &["?x", "?y"])],
            ],
        ),
        relation(3, &["?y"]),
    ];

    let stages = plan_scope(&descriptors, &[var("?x"), var("?y")], None).unwrap();

    assert_eq!(
        stages,
        vec![LogicalStage {
            added: vec![var("?x"), var("?y")],
            proposers: refs(&[0]),
            participants: refs(&[0, 3]),
            target_variables: vec![var("?x"), var("?y")],
        }]
    );
}

#[test]
fn grouped_or_validates_and_completes_overlapping_incoming_relation() {
    let descriptors = vec![or(
        0,
        &["?x", "?y"],
        vec![
            vec![relation(1, &["?x", "?y"])],
            vec![relation(2, &["?x", "?y"])],
        ],
    )];
    let incoming = vec![var("?y")];

    let (stage, completed) = proposing_stage_for(
        &var("?x"),
        &descriptors,
        Some(&incoming),
        &[var("?x"), var("?y")],
        &[],
        &[],
    )
    .unwrap();

    assert_eq!(
        stage,
        LogicalStage {
            added: vec![var("?x"), var("?y")],
            proposers: refs(&[0]),
            participants: vec![ParticipantRef::Pattern(0), ParticipantRef::Incoming],
            target_variables: vec![var("?x"), var("?y")],
        }
    );
    assert_eq!(
        completed,
        vec![ParticipantRef::Pattern(0), ParticipantRef::Incoming]
    );
}

#[test]
fn predicate_after_grouped_or_uses_validation_only_stage() {
    let descriptors = vec![
        or(
            0,
            &["?x", "?y"],
            vec![
                vec![relation(1, &["?x", "?y"])],
                vec![relation(2, &["?x", "?y"])],
            ],
        ),
        predicate(3, &["?x", "?y"]),
    ];

    let stages = plan_scope(&descriptors, &[var("?x"), var("?y")], None).unwrap();

    assert_eq!(
        stages,
        vec![
            LogicalStage {
                added: vec![var("?x"), var("?y")],
                proposers: refs(&[0]),
                participants: refs(&[0]),
                target_variables: vec![var("?x"), var("?y")],
            },
            LogicalStage {
                added: Vec::new(),
                proposers: Vec::new(),
                participants: refs(&[3]),
                target_variables: vec![var("?x"), var("?y")],
            },
        ]
    );
}

#[test]
fn plan_first_variable_uses_grouped_or_before_a_later_variable_proposer() {
    let descriptors = vec![
        relation(3, &["?y"]),
        or(
            0,
            &["?x", "?y"],
            vec![
                vec![relation(1, &["?x", "?y"])],
                vec![relation(2, &["?x", "?y"])],
            ],
        ),
    ];

    let stages = plan_scope(&descriptors, &[var("?x"), var("?y")], None).unwrap();

    assert_eq!(
        stages,
        vec![LogicalStage {
            added: vec![var("?x"), var("?y")],
            proposers: refs(&[0]),
            participants: refs(&[0, 3]),
            target_variables: vec![var("?x"), var("?y")],
        }]
    );
}

#[test]
fn plan_incoming_is_projected_but_empty_incoming_remains_explicit() {
    let descriptors = vec![relation(0, &["?x"])];
    let incoming = vec![var("?outer"), var("?x")];
    let stages = plan_scope(&descriptors, &[var("?x")], Some(&incoming)).unwrap();
    assert_eq!(
        stages[0].proposers,
        vec![ParticipantRef::Incoming, ParticipantRef::Pattern(0)]
    );

    let stages = plan_scope(&[], &[], Some(&[])).unwrap();
    assert_eq!(
        stages,
        vec![LogicalStage {
            added: Vec::new(),
            proposers: Vec::new(),
            participants: vec![ParticipantRef::Incoming],
            target_variables: Vec::new(),
        }]
    );
}

#[test]
fn plan_target_layout_follows_scope_order() {
    let descriptors = vec![function(0, "?x", "?y"), relation(1, &["?x"])];

    let stages = plan_scope(&descriptors, &[var("?y"), var("?x")], None).unwrap();

    assert_eq!(stages[0].target_variables, vec![var("?x")]);
    assert_eq!(stages[1].target_variables, vec![var("?y"), var("?x")]);
}

#[test]
fn plan_reports_insufficient_binding() {
    let descriptors = vec![predicate(0, &["?x"])];

    let error = plan_scope(&descriptors, &[var("?x")], None).unwrap_err();

    assert!(error.message().contains("Insufficient binding"));
}

#[test]
fn plan_triple_descriptors_keep_runtime_independent_pattern_data() {
    let pattern = simple(
        PatternNonValuePlace::Variable(var("?e")),
        PatternNonValuePlace::Entid(42),
        PatternValuePlace::Variable(var("?v")),
    );
    let mut builder = DescriptorBuilder::new();

    let descriptor = builder.triple(&pattern);

    assert_eq!(descriptor.variables, vec![var("?e"), var("?v")]);
    assert!(matches!(descriptor.kind, DescriptorKind::Triple(p) if p == pattern));
}

#[test]
fn tests_lowers_query_data_to_one_recursive_descriptor_tree() {
    let query = lowered_query();
    let arguments = vec![
        QueryArg::Scalar(DataType::String("Alice".into())),
        QueryArg::Collection(vec![DataType::Long(20), DataType::Long(40)]),
    ];

    let plan = build_logical_plan(&query, &arguments).unwrap();

    assert_eq!(
        plan.variable_order(),
        &[var("?name"), var("?age"), var("?e"), var("?next")]
    );
    assert_eq!(plan.descriptors.len(), 6);
    assert!(matches!(
        plan.descriptors[0].kind,
        DescriptorKind::Relation { .. }
    ));
    assert!(matches!(
        plan.descriptors[2].kind,
        DescriptorKind::Triple(_)
    ));
    assert!(matches!(
        plan.descriptors[3].kind,
        DescriptorKind::Predicate { .. }
    ));
    assert!(matches!(
        plan.descriptors[4].kind,
        DescriptorKind::Function { .. }
    ));
    let DescriptorKind::Not { children } = &plan.descriptors[5].kind else {
        panic!("expected NOT descriptor");
    };
    assert_eq!(children[0].id, 6);
    assert!(matches!(children[0].kind, DescriptorKind::Triple(_)));
}

#[test]
fn tests_composite_descriptors_distinct_child_variables_in_occurrence_order() {
    let clauses = composite_clauses();
    let mut builder = DescriptorBuilder::new();

    let descriptors = builder.where_clauses(&clauses).unwrap();

    assert_eq!(descriptors[0].variables, vec![var("?e"), var("?x")]);
    assert_eq!(descriptors[1].variables, vec![var("?e"), var("?x")]);
}

#[test]
fn tests_descriptors_report_only_current_scope_groundability() {
    let relation_descriptor = relation(0, &["?x", "?y"]);
    let function_descriptor = function(1, "?x", "?y");
    let mut bound: Vec<Variable> = vec![];
    assert_eq!(relation_descriptor.groundable(&bound), vec![var("?x")]);
    assert!(function_descriptor.groundable(&bound).is_empty());

    bound.push(var("?x"));
    assert_eq!(relation_descriptor.groundable(&bound), vec![var("?y")]);
    assert_eq!(function_descriptor.groundable(&bound), vec![var("?y")]);

    let grouped = or(
        2,
        &["?x", "?y"],
        vec![
            vec![relation(3, &["?x"]), function(4, "?x", "?y")],
            vec![relation(5, &["?x", "?y"])],
        ],
    );
    assert_eq!(
        grouped.groundable(&[]),
        vec![var("?x"), var("?y")]
    );
}

#[test]
fn tests_plans_multiple_proposers_and_ready_validators_together() {
    let descriptors = vec![
        relation(0, &["?x"]),
        relation(1, &["?x"]),
        predicate(2, &["?x"]),
    ];

    let stages = plan_scope(&descriptors, &[var("?x")], None).unwrap();

    assert_eq!(
        stages,
        vec![LogicalStage {
            added: vec![var("?x")],
            proposers: refs(&[0, 1]),
            participants: refs(&[0, 1, 2]),
            target_variables: vec![var("?x")],
        }]
    );
}

#[test]
fn grouped_or_proposes_all_missing_variables_then_constraints_validate() {
    let descriptors = vec![
        or(
            0,
            &["?x", "?y"],
            vec![
                vec![relation(1, &["?x", "?y"])],
                vec![relation(2, &["?x", "?y"])],
            ],
        ),
        predicate(3, &["?x", "?y"]),
    ];

    let stages = plan_scope(&descriptors, &[var("?x"), var("?y")], None).unwrap();

    assert_eq!(stages[0].added, vec![var("?x"), var("?y")]);
    assert_eq!(stages[0].proposers, refs(&[0]));
    assert_eq!(stages[0].participants, refs(&[0]));
    assert!(stages[1].added.is_empty());
    assert_eq!(stages[1].participants, refs(&[3]));
}

#[test]
fn tests_first_variable_uses_grouped_or_before_a_later_variable_proposer() {
    let descriptors = vec![
        or(
            0,
            &["?x", "?y"],
            vec![
                vec![relation(1, &["?x", "?y"])],
                vec![relation(2, &["?x", "?y"])],
            ],
        ),
        relation(3, &["?y"]),
    ];

    let stages = plan_scope(&descriptors, &[var("?x"), var("?y")], None).unwrap();

    assert_eq!(stages[0].added, vec![var("?x"), var("?y")]);
    assert_eq!(stages[0].proposers, refs(&[0]));
}

#[test]
fn tests_incoming_is_projected_but_empty_incoming_remains_explicit() {
    let descriptors = vec![relation(0, &["?x"])];
    let incoming = vec![var("?outer"), var("?x")];
    let stages = plan_scope(&descriptors, &[var("?x")], Some(&incoming)).unwrap();
    assert_eq!(
        stages[0].proposers,
        vec![ParticipantRef::Incoming, ParticipantRef::Pattern(0)]
    );

    let stages = plan_scope(&[], &[], Some(&[])).unwrap();
    assert_eq!(
        stages,
        vec![LogicalStage {
            added: Vec::new(),
            proposers: Vec::new(),
            participants: vec![ParticipantRef::Incoming],
            target_variables: Vec::new(),
        }]
    );
}

#[test]
fn tests_target_layout_follows_scope_order() {
    let descriptors = vec![function(0, "?x", "?y"), relation(1, &["?x"])];

    let stages = plan_scope(&descriptors, &[var("?y"), var("?x")], None).unwrap();

    assert_eq!(stages[0].target_variables, vec![var("?x")]);
    assert_eq!(stages[1].target_variables, vec![var("?y"), var("?x")]);
}

#[test]
fn tests_reports_insufficient_binding() {
    let descriptors = vec![predicate(0, &["?x"])];

    let error = plan_scope(&descriptors, &[var("?x")], None).unwrap_err();

    assert!(error.message().contains("Insufficient binding"));
}

#[test]
fn tests_triple_descriptors_keep_runtime_independent_pattern_data() {
    let pattern = simple(
        PatternNonValuePlace::Variable(var("?e")),
        PatternNonValuePlace::Entid(42),
        PatternValuePlace::Variable(var("?v")),
    );
    let mut builder = DescriptorBuilder::new();

    let descriptor = builder.triple(&pattern);

    assert_eq!(descriptor.variables, vec![var("?e"), var("?v")]);
    assert!(matches!(descriptor.kind, DescriptorKind::Triple(p) if p == pattern));
}

#[test]
fn refused_plans_name_their_subject() {
    let error = plan_scope(&[predicate(0, &["?x"])], &[var("?x")], None).unwrap_err();
    assert_eq!(error.message(), "Insufficient binding to ground variable ?x");
}

#[test]
fn patterns_with_one_identity_have_no_plan() {
    let twice = vec![relation(0, &["?x"]), relation(0, &["?x"])];
    assert!(plan_scope(&twice, &[var("?x")], None).is_err());
}

#[test]
fn a_pattern_that_is_fully_bound_takes_part_no_more() {
    let descriptors = vec![relation(0, &["?x"]), relation(1, &["?x", "?y"]), predicate(2, &["?y"])];
    let order = [var("?x"), var("?y")];
    let stages = plan_scope(&descriptors, &order, None).unwrap();
    for (id, names) in [(0, vec!["?x"]), (1, vec!["?x", "?y"]), (2, vec!["?y"])] {
        let p = ParticipantRef::Pattern(id);
        let bound = |stage: &LogicalStage| {
            names.iter().all(|name| stage.target_variables.contains(&var(name)))
        };
        let last = stages
            .iter()
            .position(|stage| stage.participants.contains(&p) && bound(stage))
            .unwrap();
        assert!(stages[last + 1..].iter().all(|stage| !stage.participants.contains(&p)));
    }
}
