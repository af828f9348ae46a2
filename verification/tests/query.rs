use triplox::error::Error;
use triplox::query::aggregate;
use triplox::query::ast::{
    Aggregate, Binding, Direction, Element, FindSpec, FnArg, Limit, NonIntegerConstant, NotJoin,
    OrJoin, OrWhereClause, Order, ParsedQuery, Pattern, PatternNonValuePlace, PatternValuePlace,
    Predicate, QueryArg, WhereClause, WhereFn,
};
use triplox::query::convert::{
    convert_predicate, convert_where_fn, pattern_variables, query_variable_order,
    resolve_attribute_from_pattern,
};
use triplox::query::find::{
    apply_order_and_limit, compile_find_plan, complete_query, execute_aggregation,
    parse_aggregate_func, project_results, resolve_limit, AggregateFunc, FindPlan, Projection,
};
use triplox::query::order::Comparison;
use triplox::query::validation::validate_query;
use triplox::value::{DataType, Keyword};
use triplox::variable::Variable;

fn var(name: &str) -> Variable {
    Variable::new(name)
}

fn entity(name: &str) -> PatternNonValuePlace {
    PatternNonValuePlace::Variable(var(name))
}

fn ident(name: &str) -> PatternNonValuePlace {
    PatternNonValuePlace::Ident(Keyword::new(name))
}

fn value(name: &str) -> PatternValuePlace {
    PatternValuePlace::Variable(var(name))
}

fn constant(s: &str) -> PatternValuePlace {
    PatternValuePlace::Constant(NonIntegerConstant::Text(s.to_string()))
}

fn triple(e: &str, a: &str, v: PatternValuePlace) -> WhereClause {
    WhereClause::Pattern(Pattern { entity: entity(e), attribute: ident(a), value: v })
}

fn arg(name: &str) -> FnArg {
    FnArg::Variable(var(name))
}

fn whole(n: i64) -> FnArg {
    FnArg::EntidOrInteger(n)
}

fn text(s: &str) -> FnArg {
    FnArg::Constant(NonIntegerConstant::Text(s.to_string()))
}

fn call(name: &str, args: Vec<FnArg>) -> FnArg {
    FnArg::SExpr(name.to_string(), args)
}

fn pred(expr: FnArg) -> WhereClause {
    WhereClause::Pred(Predicate { expr })
}

fn function(expr: FnArg, output: &str) -> WhereClause {
    WhereClause::WhereFn(WhereFn { expr, binding: Binding::BindScalar(var(output)) })
}

fn vars(names: &[&str]) -> Vec<Variable> {
    names.iter().map(|n| var(n)).collect()
}

#[test]
fn test_query_variable_order_single_pattern() {
    let order = query_variable_order(&[], &vec![triple("?e", "name", value("?name"))]);
    assert_eq!(order, vars(&["?e", "?name"]));
}

#[test]
fn test_query_variable_order_multiple_patterns() {
    let order = query_variable_order(
        &[],
        &vec![triple("?e", "name", value("?name")), triple("?e", "age", value("?age"))],
    );
    assert_eq!(order, vars(&["?e", "?name", "?age"]));
}

#[test]
fn test_query_variable_order_with_constants() {
    let order = query_variable_order(&[], &vec![triple("?e", "name", constant("Alice"))]);
    assert_eq!(order, vars(&["?e"]));
}

#[test]
fn test_query_variable_order_with_or_clause() {
    let branch = |n: i64| {
        OrWhereClause::Clause(WhereClause::Pattern(Pattern {
            entity: entity("?e"),
            attribute: PatternNonValuePlace::Placeholder,
            value: PatternValuePlace::EntidOrInteger(n),
        }))
    };
    let clauses = vec![WhereClause::OrJoin(OrJoin { clauses: vec![branch(10), branch(15)] })];
    assert_eq!(query_variable_order(&[], &clauses), vars(&["?e"]));
}

#[test]
fn test_query_variable_order_or_and_triple() {
    let clauses = vec![
        WhereClause::OrJoin(OrJoin {
            clauses: vec![
                OrWhereClause::Clause(triple("?e", "name", constant("alice"))),
                OrWhereClause::Clause(triple("?e", "name", constant("bob"))),
            ],
        }),
        triple("?e", "age", value("?age")),
    ];
    assert_eq!(query_variable_order(&[], &clauses), vars(&["?e", "?age"]));
}

#[test]
fn test_query_variable_order_ignores_predicates() {
    let clauses = vec![
        triple("?e", "age", value("?age")),
        pred(call("<", vec![arg("?age"), whole(30)])),
    ];
    assert_eq!(query_variable_order(&[], &clauses), vars(&["?e", "?age"]));
}

#[test]
fn test_query_variable_order_with_fn_expr() {
    let clauses = vec![
        triple("?e", "age", value("?age")),
        function(call("+", vec![arg("?age"), whole(1)]), "?next_age"),
    ];
    assert_eq!(query_variable_order(&[], &clauses), vars(&["?e", "?age", "?next_age"]));
}

#[test]
fn test_query_variable_order_fn_expr_before_triple() {
    let clauses = vec![
        function(call("+", vec![arg("?age"), whole(1)]), "?next_age"),
        triple("?e", "age", value("?age")),
    ];
    assert_eq!(query_variable_order(&[], &clauses), vars(&["?e", "?age", "?next_age"]));
}

#[test]
fn test_query_variable_order_with_and_inside_or() {
    let clauses = vec![WhereClause::OrJoin(OrJoin {
        clauses: vec![OrWhereClause::And(vec![
            triple("?e", "name", value("?name")),
            triple("?e", "age", value("?age")),
        ])],
    })];
    assert_eq!(query_variable_order(&[], &clauses), vars(&["?e", "?name", "?age"]));
}

#[test]
fn test_query_variable_order_with_in_vars() {
    let order = query_variable_order(
        &[Binding::BindScalar(var("?name"))],
        &vec![triple("?e", "person/name", value("?name"))],
    );
    assert_eq!(order, vars(&["?name", "?e"]));
}

#[test]
fn test_query_variable_order_with_if_expr() {
    let clauses = vec![
        triple("?e", "name", value("?name")),
        triple("?e", "age", value("?age")),
        function(
            call("if", vec![call(">", vec![arg("?age"), whole(30)]), whole(1), whole(0)]),
            "?flag",
        ),
    ];
    assert_eq!(query_variable_order(&[], &clauses), vars(&["?e", "?name", "?age", "?flag"]));
}

fn count(func: &AggregateFunc, values: &Vec<DataType>) -> Result<DataType, Error> {
    match func {
        AggregateFunc::Count => Ok(DataType::Long(values.len() as i64)),
        other => Err(Error::UnknownAggregate(other.name().to_string())),
    }
}

#[test]
fn test_execute_aggregation_all_aggs_empty_input() {
    let plan = FindPlan {
        group_key_indices: vec![],
        projections: vec![Projection::Aggregate(AggregateFunc::Count, 0)],
        has_aggregates: true,
    };
    let output = execute_aggregation(&vec![], &plan, 1, count).unwrap();
    assert_eq!(output.len(), 1);
    assert_eq!(output[0], vec![DataType::Long(0)]);
}

#[test]
fn test_execute_aggregation_with_group_keys_empty_input() {
    let plan = FindPlan {
        group_key_indices: vec![0],
        projections: vec![
            Projection::GroupVar(0),
            Projection::Aggregate(AggregateFunc::Count, 1),
        ],
        has_aggregates: true,
    };
    let output = execute_aggregation(&vec![], &plan, 2, count).unwrap();
    assert!(output.is_empty());
}

#[test]
fn aggregates_are_taken_group_by_group() {
    let find = FindSpec::FindRel(vec![
        Element::Variable(var("?dept")),
        Element::Aggregate(Aggregate { func: "count".to_string(), args: vec![arg("?e")] }),
    ]);
    let plan = compile_find_plan(&find, &vars(&["?e", "?dept"])).unwrap();
    let row = |e: i64, d: &str| {
        vec![
            triplox::codec::encode(&DataType::Long(e)),
            triplox::codec::encode(&DataType::String(d.to_string())),
        ]
    };
    let results = vec![row(1, "a"), row(2, "b"), row(3, "a")];
    let mut output = execute_aggregation(&results, &plan, 2, count).unwrap();
    output.sort_by_key(|r| match &r[0] {
        DataType::String(s) => s.clone(),
        _ => panic!("expected text"),
    });
    assert_eq!(
        output,
        vec![
            vec![DataType::String("a".to_string()), DataType::Long(2)],
            vec![DataType::String("b".to_string()), DataType::Long(1)],
        ]
    );
}

#[test]
fn groups_are_told_apart_by_each_value() {
    let find = FindSpec::FindRel(vec![
        Element::Variable(var("?a")),
        Element::Variable(var("?b")),
        Element::Aggregate(Aggregate { func: "count".to_string(), args: vec![arg("?e")] }),
    ]);
    let plan = compile_find_plan(&find, &vars(&["?e", "?a", "?b"])).unwrap();
    let text = |s: &str| DataType::String(s.to_string());
    let row = |e: i64, a: &str, b: &str| {
        vec![
            triplox::codec::encode(&DataType::Long(e)),
            triplox::codec::encode(&text(a)),
            triplox::codec::encode(&text(b)),
        ]
    };
    let results = vec![row(1, "a", "bc"), row(2, "ab", "c"), row(3, "a", "bc")];
    assert_eq!(
        execute_aggregation(&results, &plan, 3, count).unwrap(),
        vec![
            vec![text("a"), text("bc"), DataType::Long(2)],
            vec![text("ab"), text("c"), DataType::Long(1)],
        ]
    );
}

#[test]
fn aggregates_of_values_of_one_kind() {
    let long = |n: i64| DataType::Long(n);
    let values = vec![long(3), long(1), long(3), long(2)];
    assert_eq!(aggregate::count(&values), long(4));
    assert_eq!(aggregate::count_distinct(&values), long(3));
    assert_eq!(aggregate::count_distinct(&vec![]), long(0));
    assert_eq!(aggregate::extreme(&values, Comparison::Less), Ok(long(1)));
    assert_eq!(aggregate::extreme(&values, Comparison::More), Ok(long(3)));
    let mixed = vec![long(1), DataType::Boolean(true)];
    assert_eq!(aggregate::extreme(&mixed, Comparison::Less), Err(Error::Incomparable));
    assert_eq!(aggregate::extreme(&vec![], Comparison::More), Err(Error::Incomparable));
}

fn make_find_rel(names: &[&str]) -> FindSpec {
    FindSpec::FindRel(names.iter().map(|name| Element::Variable(var(name))).collect())
}

fn rows(data: Vec<Vec<i64>>) -> Vec<Vec<DataType>> {
    data.into_iter().map(|row| row.into_iter().map(DataType::Long).collect()).collect()
}

fn by(direction: Direction, name: &str) -> Order {
    Order { direction, variable: var(name) }
}

#[test]
fn test_apply_order_ascending() {
    let order = Some(vec![by(Direction::Ascending, "?a")]);
    let result = apply_order_and_limit(
        rows(vec![vec![3], vec![1], vec![2]]),
        &order,
        &Limit::Unlimited,
        &make_find_rel(&["?a"]),
    )
    .unwrap();
    assert_eq!(result, rows(vec![vec![1], vec![2], vec![3]]));
}

#[test]
fn test_apply_order_descending() {
    let order = Some(vec![by(Direction::Descending, "?a")]);
    let result = apply_order_and_limit(
        rows(vec![vec![1], vec![3], vec![2]]),
        &order,
        &Limit::Unlimited,
        &make_find_rel(&["?a"]),
    )
    .unwrap();
    assert_eq!(result, rows(vec![vec![3], vec![2], vec![1]]));
}

#[test]
fn test_apply_order_multi_key() {
    let order = Some(vec![by(Direction::Ascending, "?a"), by(Direction::Descending, "?b")]);
    let input = rows(vec![vec![1, 10], vec![2, 20], vec![1, 30], vec![2, 10]]);
    let result =
        apply_order_and_limit(input, &order, &Limit::Unlimited, &make_find_rel(&["?a", "?b"]))
            .unwrap();
    assert_eq!(result, rows(vec![vec![1, 30], vec![1, 10], vec![2, 20], vec![2, 10]]));
}

#[test]
fn test_apply_limit_fixed() {
    let result = apply_order_and_limit(
        rows(vec![vec![1], vec![2], vec![3], vec![4], vec![5]]),
        &None,
        &Limit::Fixed(3),
        &make_find_rel(&["?a"]),
    )
    .unwrap();
    assert_eq!(result.len(), 3);
}

#[test]
fn test_apply_limit_zero() {
    let result = apply_order_and_limit(
        rows(vec![vec![1], vec![2]]),
        &None,
        &Limit::Fixed(0),
        &make_find_rel(&["?a"]),
    )
    .unwrap();
    assert!(result.is_empty());
}

#[test]
fn test_apply_limit_exceeds_rows() {
    let input = rows(vec![vec![1], vec![2]]);
    let result =
        apply_order_and_limit(input, &None, &Limit::Fixed(100), &make_find_rel(&["?a"])).unwrap();
    assert_eq!(result.len(), 2);
}

#[test]
fn test_apply_order_then_limit() {
    let order = Some(vec![by(Direction::Ascending, "?a")]);
    let result = apply_order_and_limit(
        rows(vec![vec![5], vec![3], vec![1], vec![4], vec![2]]),
        &order,
        &Limit::Fixed(3),
        &make_find_rel(&["?a"]),
    )
    .unwrap();
    assert_eq!(result, rows(vec![vec![1], vec![2], vec![3]]));
}

#[test]
fn an_order_by_another_variable_is_refused() {
    let order = Some(vec![by(Direction::Ascending, "?b")]);
    let err = apply_order_and_limit(
        rows(vec![vec![1]]),
        &order,
        &Limit::Unlimited,
        &make_find_rel(&["?a"]),
    )
    .unwrap_err();
    assert_eq!(err, Error::OrderVariable("?b".to_string()));
    assert_eq!(err.message(), "ORDER BY variable ?b is not in the :find clause");
    let scalar = FindSpec::FindScalar(Element::Variable(var("?b")));
    let err = apply_order_and_limit(rows(vec![vec![1]]), &order, &Limit::Unlimited, &scalar)
        .unwrap_err();
    assert_eq!(err.message(), "ORDER BY is only supported with relational :find (FindRel)");
    let open = Limit::Variable(var("?n"));
    let err = apply_order_and_limit(rows(vec![vec![1]]), &None, &open, &make_find_rel(&["?a"]))
        .unwrap_err();
    assert_eq!(
        err.message(),
        "Variable limit ?n should have been resolved from :in bindings"
    );
}

#[test]
fn values_of_different_kinds_have_no_order() {
    let order = Some(vec![by(Direction::Ascending, "?a")]);
    let input = vec![vec![DataType::Long(1)], vec![DataType::String("x".to_string())]];
    let err =
        apply_order_and_limit(input, &order, &Limit::Unlimited, &make_find_rel(&["?a"]))
            .unwrap_err();
    assert_eq!(err, Error::Incomparable);
}

#[test]
fn a_limit_variable_is_resolved_from_the_inputs() {
    let limit = resolve_limit(
        &Limit::Variable(var("?limit")),
        &[Binding::BindScalar(var("?limit"))],
        &[QueryArg::Scalar(DataType::Long(10))],
    );
    assert_eq!(limit, Limit::Fixed(10));
}

fn plain_query(find: &[&str], where_clauses: Vec<WhereClause>) -> ParsedQuery {
    ParsedQuery {
        find_spec: make_find_rel(find),
        in_bindings: vec![],
        where_clauses,
        order: None,
        limit: Limit::Unlimited,
    }
}

fn refusal(query: &ParsedQuery, args: &[QueryArg]) -> String {
    validate_query(query, args).unwrap_err().message()
}

#[test]
fn test_validate_order_var_not_in_find() {
    let mut query = plain_query(&["?e"], vec![triple("?e", "name", value("?name"))]);
    query.order = Some(vec![by(Direction::Ascending, "?name")]);
    let err = refusal(&query, &[]);
    assert!(err.contains("ORDER BY variable"), "unexpected error: {}", err);
    assert_eq!(err, "ORDER BY variable ?name is not in the :find clause");
}

#[test]
fn test_validate_limit_variable_requires_in_binding() {
    let mut query = plain_query(&["?e"], vec![triple("?e", "name", value("?name"))]);
    query.limit = Limit::Variable(var("?limit"));
    let err = refusal(&query, &[]);
    assert!(err.contains("not bound as a scalar in :in clause"), "unexpected error: {}", err);
}

#[test]
fn test_validate_limit_variable_with_in_binding() {
    let mut query = plain_query(&["?e"], vec![triple("?e", "name", value("?name"))]);
    query.in_bindings = vec![Binding::BindScalar(var("?limit"))];
    query.limit = Limit::Variable(var("?limit"));
    assert!(validate_query(&query, &[QueryArg::Scalar(DataType::Long(10))]).is_ok());
    let err = refusal(&query, &[QueryArg::Scalar(DataType::Long(-1))]);
    assert_eq!(err, "LIMIT variable ?limit must be non-negative");
    let err = refusal(&query, &[QueryArg::Scalar(DataType::String("two".to_string()))]);
    assert_eq!(err, "LIMIT variable ?limit must be bound to a Long");
}

#[test]
fn test_validate_limit_variable_rejects_collection_binding() {
    let mut query = plain_query(&["?e"], vec![triple("?e", "name", value("?name"))]);
    query.in_bindings = vec![Binding::BindColl(var("?limit"))];
    query.limit = Limit::Variable(var("?limit"));
    let err = refusal(&query, &[QueryArg::Collection(vec![DataType::Long(10)])]);
    assert!(err.contains("not bound as a scalar in :in clause"), "unexpected error: {}", err);
}

#[test]
fn test_validate_in_arg_count_mismatch() {
    let mut query = plain_query(&["?e"], vec![triple("?e", "name", value("?x"))]);
    query.in_bindings = vec![Binding::BindScalar(var("?x"))];
    let err = refusal(&query, &[]);
    assert!(err.contains("1 binding(s) but 0 argument(s)"), "unexpected error: {}", err);
}

#[test]
fn an_argument_of_another_kind_is_refused() {
    let mut query = plain_query(&["?e"], vec![triple("?e", "name", value("?x"))]);
    query.in_bindings = vec![Binding::BindScalar(var("?x"))];
    let err = refusal(&query, &[QueryArg::Collection(vec![])]);
    assert_eq!(err, "Argument does not fit the :in binding at position 0");
    query.in_bindings = vec![Binding::BindRel(vec![Some(var("?x"))])];
    assert!(validate_query(&query, &[QueryArg::Collection(vec![])]).is_err());
}

#[test]
fn test_validate_if_expr_valid() {
    let branch = call("if", vec![call(">", vec![arg("?age"), whole(30)]), arg("?age"), whole(0)]);
    let query = plain_query(
        &["?name", "?flag"],
        vec![
            triple("?e", "name", value("?name")),
            triple("?e", "age", value("?age")),
            function(branch, "?flag"),
        ],
    );
    assert!(validate_query(&query, &[]).is_ok());
}

#[test]
fn test_validate_if_expr_unbound_condition_variable() {
    let branch = call("if", vec![call(">", vec![arg("?unbound"), whole(30)]), whole(1), whole(0)]);
    let query = plain_query(
        &["?e", "?flag"],
        vec![triple("?e", "name", constant("Alice")), function(branch, "?flag")],
    );
    assert!(refusal(&query, &[]).contains("?unbound"));
}

#[test]
fn branches_and_negations_are_validated() {
    let named = |v: &str| OrWhereClause::Clause(triple("?e", "name", value(v)));
    let either = |clauses| vec![WhereClause::OrJoin(OrJoin { clauses })];
    assert!(validate_query(&plain_query(&["?e"], either(vec![named("?a"), named("?a")])), &[])
        .is_ok());
    let err = refusal(&plain_query(&["?e"], either(vec![named("?a"), named("?b")])), &[]);
    assert_eq!(err, "All branches must have the same free variables");
    assert!(validate_query(&plain_query(&[], either(vec![])), &[]).is_err());
    let hollow = either(vec![OrWhereClause::And(vec![])]);
    assert!(validate_query(&plain_query(&[], hollow), &[]).is_err());

    let not = |clauses| WhereClause::NotJoin(NotJoin { clauses });
    let older = || pred(call(">", vec![arg("?a"), whole(30)]));
    let inner = not(vec![triple("?e", "age", value("?a")), older()]);
    let query = plain_query(&["?e"], vec![triple("?e", "name", value("?name")), inner]);
    assert!(validate_query(&query, &[]).is_ok());
    let err = refusal(&plain_query(&[], vec![not(vec![])]), &[]);
    assert_eq!(err, "A negation needs a variable");
    let query = plain_query(&["?e"], vec![triple("?e", "name", value("?name")), not(vec![older()])]);
    assert!(refusal(&query, &[]).contains("?a"));
    let query = plain_query(&["?e"], vec![WhereClause::RuleExpr]);
    assert_eq!(refusal(&query, &[]), "Unsupported where clause type: RuleExpr");
    let annotation = WhereClause::TypeAnnotation("long ?e".to_string());
    assert_eq!(
        refusal(&plain_query(&["?e"], vec![annotation]), &[]),
        "Unsupported where clause type: TypeAnnotation(long ?e)"
    );
    let query = plain_query(&["?other"], vec![triple("?e", "name", value("?name"))]);
    assert_eq!(refusal(&query, &[]), "Find variable ?other not in where clauses");
}

#[test]
fn patterns_that_leave_a_position_open_are_refused() {
    let open_entity = || {
        WhereClause::Pattern(Pattern {
            entity: PatternNonValuePlace::Placeholder,
            attribute: ident("name"),
            value: value("?name"),
        })
    };
    let open_value = || triple("?e", "name", PatternValuePlace::Placeholder);
    let entity_fault = "Patterns do not support placeholders in entity position";
    let value_fault = "Patterns do not support placeholders in value position";
    assert_eq!(refusal(&plain_query(&["?name"], vec![open_entity()]), &[]), entity_fault);
    assert_eq!(refusal(&plain_query(&["?e"], vec![open_value()]), &[]), value_fault);

    let named = || triple("?e", "name", value("?name"));
    let not = WhereClause::NotJoin(NotJoin { clauses: vec![open_value()] });
    assert_eq!(refusal(&plain_query(&["?e"], vec![named(), not]), &[]), value_fault);
    let either = WhereClause::OrJoin(OrJoin {
        clauses: vec![
            OrWhereClause::Clause(named()),
            OrWhereClause::And(vec![named(), open_entity()]),
        ],
    });
    assert_eq!(refusal(&plain_query(&["?e"], vec![either]), &[]), entity_fault);
}

#[test]
fn test_regexp_like_valid_query() {
    let matches = pred(call("regexp_like", vec![arg("?name"), text("^B")]));
    let query = plain_query(&["?name"], vec![triple("?e", "name", value("?name")), matches]);
    let result = validate_query(&query, &[]);
    assert!(result.is_ok(), "expected ok, got {:?}", result);
}

#[test]
fn test_regexp_like_invalid_pattern_rejected_at_plan_time() {
    let matches = pred(call("regexp_like", vec![arg("?name"), text("[")]));
    let query = plain_query(&["?name"], vec![triple("?e", "name", value("?name")), matches]);
    let msg = refusal(&query, &[]);
    assert!(msg.contains("invalid regex pattern"), "unexpected error: {}", msg);
    let start = "invalid regex pattern for regexp_like `[`: ";
    assert!(msg.starts_with(start), "unexpected error: {}", msg);
    assert!(msg.ends_with("unclosed character class"), "unexpected error: {}", msg);
}

#[test]
fn test_regexp_like_non_literal_pattern_rejected() {
    let matches = pred(call("regexp_like", vec![arg("?name"), arg("?pat")]));
    let query = plain_query(
        &["?name"],
        vec![
            triple("?e", "name", value("?name")),
            triple("?e", "pat", value("?pat")),
            matches,
        ],
    );
    let msg = refusal(&query, &[]);
    assert!(msg.contains("string literal"), "unexpected error: {}", msg);
}

#[test]
fn test_regexp_like_wrong_arity_rejected() {
    let matches = pred(call("regexp_like", vec![arg("?name")]));
    let query = plain_query(&["?name"], vec![triple("?e", "name", value("?name")), matches]);
    assert!(refusal(&query, &[]).contains("expects 2 args"));
}

#[test]
fn test_regexp_like_binding_form_rejected() {
    let matches = function(call("regexp_like", vec![arg("?name"), text("^B")]), "?hit");
    let query =
        plain_query(&["?name", "?hit"], vec![triple("?e", "name", value("?name")), matches]);
    let msg = refusal(&query, &[]);
    assert!(msg.contains("predicate, not a binding function"), "unexpected error: {}", msg);
}

#[test]
fn a_compiled_regular_expression_matches_as_its_source_says() {
    let predicate = Predicate { expr: call("regexp_like", vec![arg("?name"), text("^B.b$")]) };
    match convert_predicate(&predicate).unwrap() {
        triplox::expr::Expr::RegexpLike(r) => {
            assert_eq!(r.pattern_src, "^B.b$");
            assert!(r.pattern.is_match("Bob"));
            assert!(!r.pattern.is_match("Bobby"));
        }
        _ => panic!("expected a regular expression"),
    }
}

#[test]
fn unsupported_calls_are_refused() {
    let unknown = Predicate { expr: call("frobnicate", vec![arg("?x"), whole(1)]) };
    let refused = convert_predicate(&unknown).unwrap_err();
    assert_eq!(refused, Error::UnsupportedFunction("frobnicate".to_string(), 2));
    assert_eq!(refused.message(), "Unsupported function 'frobnicate' with 2 args");
    let said = |expr| convert_predicate(&Predicate { expr }).unwrap_err().message();
    assert_eq!(
        said(call("if", vec![whole(1)])),
        "'if' expects 3 args (condition, then, else), got 1"
    );
    assert_eq!(
        said(call("regexp_like", vec![arg("?x")])),
        "regexp_like expects 2 args (subject, pattern), got 1"
    );
    assert_eq!(
        said(call("regexp_like", vec![arg("?x"), arg("?y")])),
        "regexp_like requires a string literal as second argument (pattern)"
    );
    let kind = Predicate { expr: call("<", vec![arg("?x"), FnArg::Unsupported("SrcVar($)".to_string())]) };
    assert_eq!(convert_predicate(&kind).unwrap_err(), Error::UnsupportedArgument);
    let big = Predicate {
        expr: call(
            "<",
            vec![arg("?x"), FnArg::Constant(NonIntegerConstant::HugeInteger("9".repeat(60)))],
        ),
    };
    assert_eq!(convert_predicate(&big).unwrap_err(), Error::UnsupportedConstant);
    let pair = WhereFn {
        expr: call("+", vec![arg("?x"), whole(1)]),
        binding: Binding::BindColl(var("?y")),
    };
    assert_eq!(convert_where_fn(&pair).unwrap_err(), Error::UnsupportedBinding);
}

#[test]
fn attributes_are_resolved_by_name_or_number() {
    let idents = [(Keyword::new("name"), 42)];
    assert_eq!(resolve_attribute_from_pattern(&ident("name"), &idents).unwrap(), 42);
    assert_eq!(
        resolve_attribute_from_pattern(&PatternNonValuePlace::Entid(7), &idents).unwrap(),
        7
    );
    assert_eq!(
        resolve_attribute_from_pattern(&ident("missing"), &idents).unwrap_err().message(),
        "Unknown attribute: :missing"
    );
    assert_eq!(
        resolve_attribute_from_pattern(&entity("?a"), &idents).unwrap_err(),
        Error::NotAnAttribute
    );
}

#[test]
fn aggregates_are_known_by_name() {
    for func in [
        AggregateFunc::Count,
        AggregateFunc::CountDistinct,
        AggregateFunc::Sum,
        AggregateFunc::Avg,
        AggregateFunc::Min,
        AggregateFunc::Max,
    ] {
        assert_eq!(parse_aggregate_func(func.name()).unwrap(), func);
    }
    assert_eq!(
        parse_aggregate_func("median").unwrap_err().message(),
        "Unknown aggregate function: median"
    );
}

#[test]
fn find_clauses_are_checked() {
    let order = vars(&["?e"]);
    let of = |elements| compile_find_plan(&FindSpec::FindRel(elements), &order).unwrap_err();
    assert_eq!(of(vec![Element::Variable(var("?x"))]), Error::FindVariable("?x".to_string()));
    assert_eq!(
        of(vec![Element::Aggregate(Aggregate { func: "sum".to_string(), args: vec![arg("?x")] })])
            .message(),
        "Aggregate variable ?x not in where clauses"
    );
    assert_eq!(of(vec![Element::Pull]), Error::UnsupportedElement);
    assert_eq!(
        of(vec![Element::Aggregate(Aggregate { func: "sum".to_string(), args: vec![] })])
            .message(),
        "Aggregate function 'sum' requires exactly 1 argument, got 0"
    );
    assert_eq!(
        of(vec![Element::Aggregate(Aggregate { func: "sum".to_string(), args: vec![whole(1)] })])
            .message(),
        "Aggregate argument must be a variable, got EntidOrInteger(1)"
    );
    let nested = call("+", vec![arg("?e"), text("a\"b"), FnArg::IdentOrKeyword(Keyword::new("k"))]);
    assert_eq!(
        of(vec![Element::Aggregate(Aggregate { func: "sum".to_string(), args: vec![nested] })])
            .message(),
        "Aggregate argument must be a variable, got SExpr(\"+\", \
         [Variable(?e), Constant(Text(\"a\\\"b\")), IdentOrKeyword(:k)])"
    );
    assert_eq!(
        compile_find_plan(&FindSpec::FindScalar(Element::Pull), &order).unwrap_err(),
        Error::UnsupportedFind
    );
}

#[test]
fn plain_columns_are_projected() {
    let plan = compile_find_plan(&make_find_rel(&["?b", "?a"]), &vars(&["?a", "?b"])).unwrap();
    let tuple = vec![
        triplox::codec::encode(&DataType::Long(1)),
        triplox::codec::encode(&DataType::Long(2)),
    ];
    let projected = project_results(&vec![tuple], &plan, 2).unwrap();
    assert_eq!(projected, rows(vec![vec![2, 1]]));
    let broken = vec![vec![255u8], vec![255u8]];
    assert_eq!(project_results(&vec![broken], &plan, 2).unwrap_err(), Error::Decode);
}

#[test]
fn a_query_is_completed_from_its_tuples() {
    let query = ParsedQuery {
        find_spec: make_find_rel(&["?a"]),
        in_bindings: vec![Binding::BindScalar(var("?n"))],
        where_clauses: vec![],
        order: Some(vec![by(Direction::Descending, "?a")]),
        limit: Limit::Variable(var("?n")),
    };
    let results: Vec<Vec<Vec<u8>>> =
        (1..=4).map(|n| vec![triplox::codec::encode(&DataType::Long(n))]).collect();
    let output = complete_query(
        &query,
        &[QueryArg::Scalar(DataType::Long(2))],
        &vars(&["?a"]),
        &results,
        count,
    )
    .unwrap();
    assert_eq!(output, rows(vec![vec![4], vec![3]]));
}

#[test]
fn the_variables_of_a_pattern_stand_in_order() {
    let pattern = Pattern { entity: entity("?e"), attribute: ident("name"), value: value("?v") };
    assert_eq!(pattern_variables(&pattern), vars(&["?e", "?v"]));
    let negation = WhereClause::NotJoin(NotJoin { clauses: vec![] });
    assert_eq!(query_variable_order(&[], &vec![negation]), vars(&[]));
}
