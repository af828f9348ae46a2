use triplox::codec::{decode, encode};
use triplox::error::Error;
use triplox::expr::{BinaryExpr, BinaryOp, Expr};
use triplox::numeric::{Arithmetic, NumericValue};
use triplox::query::assembly::{
    assemble_descriptor, assemble_plan, validate_roles, AssembledKind, AssembledPattern, AssembledScope, Nested,
    PlacedTerm, Slot,
};
use triplox::query::ast::{
    Binding, FindSpec, FnArg, Limit, NonIntegerConstant, NotJoin, OrJoin, OrWhereClause,
    ParsedQuery, Pattern, PatternNonValuePlace, PatternValuePlace, Predicate, QueryArg,
    WhereClause, WhereFn,
};
use triplox::query::binding_bag::BindingBag;
use triplox::query::exec_pattern::ExecPattern;
use triplox::query::lower::build_logical_plan;
use triplox::query::patterns::function::FunctionPattern;
use triplox::query::patterns::not::NotPattern;
use triplox::query::patterns::or::{OrPattern, ScopeLayout};
use triplox::query::patterns::predicate::PredicatePattern;
use triplox::query::patterns::relation::RelationPattern;
use triplox::query::plan::{
    plan_scope, Descriptor, DescriptorKind, LogicalPlan, LogicalStage, ParticipantRef, PatternId,
};
use triplox::value::{DataType, Keyword};
use triplox::variable::Variable;

fn var(name: &str) -> Variable {
    Variable::new(name)
}

fn query(in_bindings: Vec<Binding>, where_clauses: Vec<WhereClause>) -> ParsedQuery {
    ParsedQuery {
        find_spec: FindSpec::FindRel(vec![]),
        in_bindings,
        where_clauses,
        order: None,
        limit: Limit::Unlimited,
    }
}

fn triple(entity: &str, attribute: &str, value: PatternValuePlace) -> WhereClause {
    WhereClause::Pattern(Pattern {
        entity: PatternNonValuePlace::Variable(var(entity)),
        attribute: PatternNonValuePlace::Ident(Keyword::new(attribute)),
        value,
    })
}

fn call(name: &str, variable: &str, number: i64) -> FnArg {
    FnArg::SExpr(
        name.to_string(),
        vec![FnArg::Variable(var(variable)), FnArg::EntidOrInteger(number)],
    )
}

fn holds(name: &str, variable: &str, number: i64) -> WhereClause {
    WhereClause::Pred(Predicate { expr: call(name, variable, number) })
}

fn number(expression: &Expr, variables: &[Variable], values: &[DataType]) -> NumericValue {
    match expression {
        Expr::Literal(value) => NumericValue::from_expression(value).unwrap(),
        Expr::Variable(variable) => {
            let column = variables.iter().position(|v| v == variable).unwrap();
            NumericValue::from_expression(&values[column]).unwrap()
        }
        _ => panic!("expected a number"),
    }
}

fn condition(expression: &Expr, variables: &Vec<Variable>, values: &Vec<DataType>) -> bool {
    let Expr::BinaryExpr(binary) = expression else {
        panic!("expected a comparison");
    };
    let left = number(&binary.left, variables, values);
    let right = number(&binary.right, variables, values);
    match (binary.op, left, right) {
        (BinaryOp::Eq, NumericValue::Long(l), NumericValue::Long(r)) => l == r,
        (BinaryOp::GtEq, NumericValue::Long(l), NumericValue::Long(r)) => l >= r,
        _ => panic!("expected a comparison of whole numbers"),
    }
}

fn sum(expression: &Expr, variables: &Vec<Variable>, values: &Vec<DataType>) -> Option<DataType> {
    let Expr::BinaryExpr(binary) = expression else {
        panic!("expected a sum");
    };
    let left = number(&binary.left, variables, values);
    match left.checked_add(number(&binary.right, variables, values)) {
        Arithmetic::Whole(total) => total.map(DataType::Long),
        Arithmetic::Floating => panic!("expected a whole number"),
    }
}

fn copy(expression: &Expr) -> Expr {
    match expression {
        Expr::Literal(DataType::Long(x)) => Expr::Literal(DataType::Long(*x)),
        Expr::Variable(variable) => Expr::Variable(variable.clone()),
        Expr::BinaryExpr(binary) => Expr::BinaryExpr(BinaryExpr {
            left: Box::new(copy(&binary.left)),
            op: binary.op,
            right: Box::new(copy(&binary.right)),
        }),
        _ => panic!("expected an operation on whole numbers"),
    }
}

/// What a pattern makes of an input.
fn joined(
    pattern: &AssembledPattern,
    input: &BindingBag,
    added: &[Variable],
    target: &[Variable],
) -> Result<BindingBag, Error> {
    let id = pattern.id;
    let variables = &pattern.variables;
    match &pattern.kind {
        AssembledKind::Triple { .. } => panic!("expected no stored facts"),
        AssembledKind::Relation(bag) => {
            RelationPattern::new(id, bag.copy()).join(input, added, target)
        }
        AssembledKind::Predicate(expression) => {
            PredicatePattern::new(id, copy(expression), condition).join(input, added, target)
        }
        AssembledKind::Function { expression, output } => {
            FunctionPattern::new(id, copy(expression), (*output).clone(), sum)?
                .join(input, added, target)
        }
        AssembledKind::Or { incoming, branches } => {
            let layout = || ScopeLayout {
                incoming: Some(incoming.clone()),
                output: variables.clone(),
            };
            let layouts: Vec<ScopeLayout> = branches.iter().map(|_| layout()).collect();
            let or = OrPattern::new(id, variables.clone(), &layouts)?;
            or.check_join(input, added, target)?;
            let start = or.incoming(input)?;
            let results: Vec<BindingBag> =
                branches.iter().map(|branch| execute(branch, Some(&start)).unwrap()).collect();
            or.join(input, added, target, &results)
        }
        AssembledKind::Not { incoming, body } => {
            let layout =
                ScopeLayout { incoming: Some(incoming.clone()), output: variables.clone() };
            let not = NotPattern::new(id, variables.clone(), &layout)?;
            not.check_join(input, added, target)?;
            let start = not.incoming(input)?;
            let result = execute(body, Some(&start))?;
            not.join(input, added, target, &result)
        }
    }
}

/// Runs the stages of a scope: the first participant that can proposes, the others confirm.
fn execute(scope: &AssembledScope, incoming: Option<&BindingBag>) -> Result<BindingBag, Error> {
    let mut bag = BindingBag::unit();
    for stage in &scope.stages {
        let run = |slot: &Slot, input: &BindingBag, added: &[Variable], target: &[Variable]| {
            match slot {
                Slot::Pattern(place) => joined(&scope.patterns[*place], input, added, target),
                Slot::Incoming => RelationPattern::new(usize::MAX, incoming.unwrap().copy())
                    .join(input, added, target),
            }
        };
        let mut proposer = None;
        if !stage.added.is_empty() {
            for (place, slot) in stage.participants.iter().enumerate() {
                if let Ok(extended) = run(slot, &bag, &stage.added, &stage.target_variables) {
                    bag = extended;
                    proposer = Some(place);
                    break;
                }
            }
            assert!(proposer.is_some());
        }
        for (place, slot) in stage.participants.iter().enumerate() {
            if proposer != Some(place) {
                bag = run(slot, &bag, &[], &stage.target_variables)?;
            }
        }
    }
    Ok(bag)
}

fn top_level(plan: &LogicalPlan) -> ScopeLayout {
    ScopeLayout { incoming: None, output: plan.variable_order.clone() }
}

/// The scopes inside the composite patterns, which all start from the variables they hold of.
fn nested(descriptors: &[Descriptor]) -> Vec<(PatternId, Nested)> {
    let mut scopes = vec![];
    for descriptor in descriptors {
        let names = &descriptor.variables;
        let layout = || ScopeLayout { incoming: Some(names.clone()), output: names.clone() };
        let stages = |body: &Vec<Descriptor>| plan_scope(body, names, Some(names)).unwrap();
        match &descriptor.kind {
            DescriptorKind::Or { branches } => scopes.push((
                descriptor.id,
                Nested::Or {
                    layouts: branches.iter().map(|_| layout()).collect(),
                    branches: branches.iter().map(stages).collect(),
                },
            )),
            DescriptorKind::Not { children } => scopes
                .push((descriptor.id, Nested::Not { layout: layout(), stages: stages(children) })),
            _ => {}
        }
    }
    scopes
}

fn assemble<'a>(
    plan: &'a LogicalPlan,
    idents: &[(Keyword, i64)],
) -> Result<AssembledScope<'a>, Error> {
    let stages = plan_scope(&plan.descriptors, &plan.variable_order, None)?;
    assemble_plan(
        &top_level(plan),
        &plan.variable_order,
        &plan.descriptors,
        &stages,
        &nested(&plan.descriptors),
        idents,
    )
}

#[test]
fn root_stages_share_each_descriptor_pattern() {
    let query = query(
        vec![],
        vec![triple("?e", "name", PatternValuePlace::Variable(var("?v")))],
    );
    let logical = build_logical_plan(&query, &[]).unwrap();
    let executable = assemble(&logical, &[(Keyword::new("name"), 42)]).unwrap();

    assert_eq!(logical.variable_order(), &[var("?e"), var("?v")]);
    assert_eq!(executable.stages.len(), 2);
    let first = &executable.stages[0].participants[0];
    let second = &executable.stages[1].participants[0];
    assert_eq!(executable.patterns[0].id, logical.descriptors[0].id);
    assert_eq!(first, &Slot::Pattern(0));
    assert_eq!(first, second);
}

#[test]
fn assembles_and_executes_relations_functions_or_and_not() {
    let branch = |number: i64| OrWhereClause::Clause(holds("=", "?x", number));
    let query = query(
        vec![Binding::BindColl(var("?x"))],
        vec![
            WhereClause::WhereFn(WhereFn {
                expr: call("+", "?x", 1),
                binding: Binding::BindScalar(var("?y")),
            }),
            WhereClause::OrJoin(OrJoin { clauses: vec![branch(1), branch(2)] }),
            WhereClause::NotJoin(NotJoin { clauses: vec![holds("=", "?x", 2)] }),
        ],
    );
    let arguments = [QueryArg::Collection(vec![
        DataType::Long(0),
        DataType::Long(1),
        DataType::Long(1),
        DataType::Long(2),
    ])];
    let logical = build_logical_plan(&query, &arguments).unwrap();
    let executable = assemble(&logical, &[]).unwrap();

    let result = execute(&executable, None).unwrap();
    assert_eq!(result.variables, [var("?x"), var("?y")]);
    assert_eq!(result.rows.len(), 1);
    assert_eq!(decode(&result.rows[0][0]).unwrap(), DataType::Long(1));
    assert_eq!(decode(&result.rows[0][1]).unwrap(), DataType::Long(2));
}

#[test]
fn reports_unknown_attributes_during_runtime_assembly() {
    let value = PatternValuePlace::Constant(NonIntegerConstant::Text("value".to_string()));
    let query = query(vec![], vec![triple("?e", "missing", value)]);
    let logical = build_logical_plan(&query, &[]).unwrap();

    let error = assemble(&logical, &[]).err().unwrap();

    assert_eq!(error, Error::UnknownAttribute("missing".to_string()));
    assert!(error.message().contains("Unknown attribute: :missing"));
}

#[test]
fn relation_values_are_encoded_without_runtime_decoding() {
    let query = query(vec![Binding::BindColl(var("?x"))], vec![holds(">=", "?x", 0)]);
    let arguments = [QueryArg::Collection(vec![DataType::Long(1), DataType::Long(1)])];
    let logical = build_logical_plan(&query, &arguments).unwrap();
    let executable = assemble(&logical, &[]).unwrap();

    let result = execute(&executable, None).unwrap();
    assert_eq!(result.rows, &[vec![encode(&DataType::Long(1))]]);
}

#[test]
fn an_assembled_relation_is_over_the_variables_of_its_descriptor() {
    let descriptor = Descriptor {
        id: 4,
        variables: vec![var("?x"), var("?y")],
        kind: DescriptorKind::Relation { rows: vec![vec![DataType::Long(1), DataType::Long(2)]] },
    };
    let assembled = assemble_descriptor(&descriptor, &vec![], &[]).unwrap();
    match &assembled.kind {
        AssembledKind::Relation(bag) => {
            assert_eq!(bag.variables, vec![var("?x"), var("?y")]);
            let row = vec![encode(&DataType::Long(1)), encode(&DataType::Long(2))];
            assert_eq!(bag.rows, vec![row]);
        }
        _ => panic!("expected a relation"),
    }
}

#[test]
fn a_number_without_a_value_is_shown_when_it_is_refused() {
    let digits = "9".repeat(60);
    let huge = PatternValuePlace::Constant(NonIntegerConstant::HugeInteger(digits.clone()));
    let query = query(vec![], vec![triple("?e", "name", huge)]);
    let logical = build_logical_plan(&query, &[]).unwrap();
    let error = assemble(&logical, &[(Keyword::new("name"), 42)]).err().unwrap();
    assert_eq!(
        error.message(),
        format!("Unsupported triple value term: Constant(BigInteger({}))", digits)
    );
    assert_eq!(
        Error::UnsupportedEntity("Entid(3)".to_string()).message(),
        "Unsupported triple entity term: Entid(3)"
    );
}

#[test]
fn constants_of_a_triple_are_encoded() {
    let value = PatternValuePlace::Constant(NonIntegerConstant::Text("value".to_string()));
    let query = query(vec![], vec![triple("?e", "name", value)]);
    let logical = build_logical_plan(&query, &[]).unwrap();
    let executable = assemble(&logical, &[(Keyword::new("name"), 42)]).unwrap();

    match &executable.patterns[0].kind {
        AssembledKind::Triple { entity, attribute, value } => {
            assert!(matches!(entity, PlacedTerm::Variable(v) if *v == var("?e")));
            assert_eq!(*attribute, 42);
            let text = encode(&DataType::String("value".to_string()));
            assert!(matches!(value, PlacedTerm::Constant(bytes) if *bytes == text));
        }
        _ => panic!("expected a triple"),
    }
}

#[test]
fn plans_that_cannot_be_run_are_refused() {
    let query = query(vec![Binding::BindColl(var("?x"))], vec![holds(">=", "?x", 0)]);
    let logical =
        build_logical_plan(&query, &[QueryArg::Collection(vec![DataType::Long(1)])]).unwrap();
    let stages = plan_scope(&logical.descriptors, &logical.variable_order, None).unwrap();
    let order = &logical.variable_order;
    let ds = &logical.descriptors;

    let nested_layout = ScopeLayout { incoming: Some(vec![]), output: order.clone() };
    let taken = assemble_plan(&nested_layout, order, ds, &stages, &vec![], &[]);
    assert_eq!(taken.err(), Some(Error::TopLevelIncoming));

    let short = assemble_plan(&top_level(&logical), order, ds, &vec![], &vec![], &[]);
    assert_eq!(short.err(), Some(Error::FinalLayout("[]".to_string(), "[?x]".to_string())));

    let stray = LogicalStage {
        added: vec![var("?x")],
        proposers: vec![ParticipantRef::Pattern(77)],
        participants: vec![ParticipantRef::Pattern(77)],
        target_variables: vec![var("?x")],
    };
    let unknown = assemble_plan(&top_level(&logical), order, ds, &vec![stray], &vec![], &[]);
    assert_eq!(unknown.err(), Some(Error::UnknownPattern(77)));

    let twice = LogicalStage {
        added: vec![var("?x")],
        proposers: vec![ParticipantRef::Pattern(0), ParticipantRef::Pattern(0)],
        participants: vec![ParticipantRef::Pattern(0)],
        target_variables: vec![var("?x")],
    };
    let refused = validate_roles(&twice).unwrap_err();
    assert_eq!(refused, Error::DuplicateProposer(ParticipantRef::Pattern(0)));
    assert_eq!(refused.message(), "Logical stage contains duplicate proposer Pattern(0)");

    let absent = LogicalStage {
        added: vec![var("?x")],
        proposers: vec![ParticipantRef::Incoming],
        participants: vec![ParticipantRef::Pattern(0)],
        target_variables: vec![var("?x")],
    };
    assert_eq!(
        validate_roles(&absent).unwrap_err().message(),
        "Logical stage proposer Incoming is not a participant"
    );
    let idle = LogicalStage {
        added: vec![],
        proposers: vec![ParticipantRef::Pattern(0)],
        participants: vec![ParticipantRef::Pattern(0)],
        target_variables: vec![],
    };
    assert_eq!(
        validate_roles(&idle).unwrap_err().message(),
        "Validation-only logical stage cannot have proposers"
    );
    let silent = LogicalStage {
        added: vec![var("?x")],
        proposers: vec![],
        participants: vec![ParticipantRef::Pattern(0)],
        target_variables: vec![var("?x")],
    };
    assert_eq!(
        validate_roles(&silent).unwrap_err().message(),
        "Proposing logical stage must have a proposer"
    );
}

#[test]
fn composite_patterns_need_their_scopes() {
    let clause = WhereClause::NotJoin(NotJoin { clauses: vec![holds("=", "?x", 2)] });
    let query = query(vec![Binding::BindColl(var("?x"))], vec![clause]);
    let logical =
        build_logical_plan(&query, &[QueryArg::Collection(vec![DataType::Long(1)])]).unwrap();
    let stages = plan_scope(&logical.descriptors, &logical.variable_order, None).unwrap();

    let scope = assemble_plan(
        &top_level(&logical),
        &logical.variable_order,
        &logical.descriptors,
        &stages,
        &vec![],
        &[],
    );
    assert_eq!(
        scope.err().unwrap().message(),
        "Composite descriptor 1 has no nested logical scope"
    );
}
