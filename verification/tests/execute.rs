use triplox::error::Error;
use triplox::expr::{BinaryOp, Expr};
use triplox::indexer::keys::write_index_entries;
use triplox::numeric::{Arithmetic, NumericValue};
use triplox::ops::{Datom, DatomOp};
use triplox::query::ast::{
    Aggregate, Binding, Direction, Element, FindSpec, FnArg, Limit, NonIntegerConstant, NotJoin,
    OrJoin, OrWhereClause, Order, ParsedQuery, Pattern, PatternNonValuePlace, PatternValuePlace,
    Predicate, QueryArg, WhereClause, WhereFn,
};
use triplox::query::execute::{execute_query, stored_starts};
use triplox::query::find::{AggregateFunc, QueryResult};
use triplox::query::validation::Fault;
use triplox::schema::{AttributeInfo, Schema};
use triplox::value::{DataType, Keyword};
use triplox::variable::Variable;

const NAME: i64 = 42;
const AGE: i64 = 43;
const FRIEND: i64 = 44;

fn var(name: &str) -> Variable {
    Variable::new(name)
}

fn text(s: &str) -> DataType {
    DataType::String(s.to_string())
}

fn idents() -> Vec<(Keyword, i64)> {
    vec![
        (Keyword::new("name"), NAME),
        (Keyword::new("age"), AGE),
        (Keyword::new("friend"), FRIEND),
    ]
}

fn schema() -> Schema {
    let info = |id| AttributeInfo { id, unique: false, multival: true };
    Schema { attributes: idents().into_iter().map(|(ident, id)| (ident, info(id))).collect() }
}

fn write(keys: &mut Vec<Vec<u8>>, tx_eid: i64, entity: i64, attribute: &str, value: DataType, op: DatomOp) {
    let datom = Datom { entity, attribute: Keyword::new(attribute), value, op };
    write_index_entries(keys, &[datom], &schema(), tx_eid).unwrap();
    keys.sort();
    keys.dedup();
}

fn people() -> Vec<Vec<u8>> {
    let mut keys = vec![];
    for (entity, name, age) in [(1, "alice", 30), (2, "bob", 25), (3, "carol", 35)] {
        write(&mut keys, 10, entity, "name", text(name), DatomOp::Assert);
        write(&mut keys, 10, entity, "age", DataType::Long(age), DatomOp::Assert);
    }
    write(&mut keys, 10, 1, "friend", DataType::Long(2), DatomOp::Assert);
    write(&mut keys, 10, 2, "friend", DataType::Long(3), DatomOp::Assert);
    write(&mut keys, 20, 2, "name", text("bob"), DatomOp::Retract);
    write(&mut keys, 20, 2, "name", text("rob"), DatomOp::Assert);
    keys
}

fn copy(value: &DataType) -> DataType {
    match value {
        DataType::Long(n) => DataType::Long(*n),
        DataType::String(s) => DataType::String(s.clone()),
        DataType::Boolean(b) => DataType::Boolean(*b),
        _ => panic!("expected a number, a text or a truth value"),
    }
}

/// The value of an expression on whole numbers.
fn evaluate(expr: &Expr, names: &Vec<Variable>, values: &Vec<DataType>) -> Option<DataType> {
    match expr {
        Expr::Literal(value) => Some(copy(value)),
        Expr::Variable(variable) => {
            names.iter().position(|name| name == variable).map(|at| copy(&values[at]))
        }
        Expr::BinaryExpr(e) => {
            let left = evaluate(&e.left, names, values)?;
            let right = evaluate(&e.right, names, values)?;
            let left = NumericValue::from_expression(&left)?;
            let right = NumericValue::from_expression(&right)?;
            match (e.op, left, right) {
                (BinaryOp::Lt, NumericValue::Long(l), NumericValue::Long(r)) => {
                    Some(DataType::Boolean(l < r))
                }
                (BinaryOp::Add, left, right) => match left.checked_add(right) {
                    Arithmetic::Whole(sum) => sum.map(DataType::Long),
                    Arithmetic::Floating => None,
                },
                _ => panic!("expected a comparison or a sum"),
            }
        }
        _ => panic!("expected an operation on whole numbers"),
    }
}

fn holds(expr: &Expr, names: &Vec<Variable>, values: &Vec<DataType>) -> bool {
    evaluate(expr, names, values) == Some(DataType::Boolean(true))
}

fn fold(func: &AggregateFunc, values: &Vec<DataType>) -> Result<DataType, Error> {
    match func {
        AggregateFunc::Count => Ok(DataType::Long(values.len() as i64)),
        _ => panic!("expected a count"),
    }
}

fn triple(entity: &str, attribute: &str, value: &str) -> WhereClause {
    WhereClause::Pattern(Pattern {
        entity: PatternNonValuePlace::Variable(var(entity)),
        attribute: PatternNonValuePlace::Ident(Keyword::new(attribute)),
        value: PatternValuePlace::Variable(var(value)),
    })
}

fn named(entity: &str, name: &str) -> WhereClause {
    WhereClause::Pattern(Pattern {
        entity: PatternNonValuePlace::Variable(var(entity)),
        attribute: PatternNonValuePlace::Ident(Keyword::new("name")),
        value: PatternValuePlace::Constant(NonIntegerConstant::Text(name.to_string())),
    })
}

fn call(op: &str, left: &str, right: i64) -> FnArg {
    FnArg::SExpr(
        op.to_string(),
        vec![FnArg::Variable(var(left)), FnArg::EntidOrInteger(right)],
    )
}

fn query(find: &[&str], where_clauses: Vec<WhereClause>) -> ParsedQuery {
    ParsedQuery {
        find_spec: FindSpec::FindRel(find.iter().map(|v| Element::Variable(var(v))).collect()),
        in_bindings: vec![],
        where_clauses,
        order: None,
        limit: Limit::Unlimited,
    }
}

fn run(query: &ParsedQuery, args: &[QueryArg], as_of: i64) -> Result<QueryResult, Fault> {
    execute_query(query, args, &idents(), &people(), as_of, holds, evaluate, fold)
}

fn sorted(query: &ParsedQuery, args: &[QueryArg], as_of: i64) -> Vec<Vec<String>> {
    let shown = |value: &DataType| match value {
        DataType::Long(n) => n.to_string(),
        DataType::String(s) => s.clone(),
        _ => panic!("expected a number or a text"),
    };
    let rows = run(query, args, as_of).unwrap();
    let mut rows: Vec<Vec<String>> =
        rows.iter().map(|row| row.iter().map(shown).collect()).collect();
    rows.sort();
    rows
}

#[test]
fn a_query_finds_the_facts_that_hold_as_of_a_transaction() {
    let names = query(&["?e", "?name"], vec![triple("?e", "name", "?name")]);
    assert!(sorted(&names, &[], 9).is_empty());
    assert_eq!(sorted(&names, &[], 10), vec![["1", "alice"], ["2", "bob"], ["3", "carol"]]);
    assert_eq!(sorted(&names, &[], 20), vec![["1", "alice"], ["2", "rob"], ["3", "carol"]]);
}

#[test]
fn clauses_are_joined_on_their_common_variables() {
    let friends = query(
        &["?name", "?of"],
        vec![
            triple("?e", "friend", "?f"),
            triple("?f", "name", "?name"),
            triple("?e", "name", "?of"),
        ],
    );
    assert_eq!(sorted(&friends, &[], 10), vec![["bob", "alice"], ["carol", "bob"]]);
}

#[test]
fn inputs_conditions_and_functions_take_part() {
    let mut adults = query(
        &["?name", "?next"],
        vec![
            triple("?e", "name", "?name"),
            triple("?e", "age", "?age"),
            WhereClause::Pred(Predicate { expr: call("<", "?age", 33) }),
            WhereClause::WhereFn(WhereFn {
                expr: call("+", "?age", 1),
                binding: Binding::BindScalar(var("?next")),
            }),
        ],
    );
    assert_eq!(sorted(&adults, &[], 20), vec![["alice", "31"], ["rob", "26"]]);
    adults.in_bindings = vec![Binding::BindColl(var("?name"))];
    let arg = QueryArg::Collection(vec![text("rob"), text("carol"), text("nobody")]);
    assert_eq!(sorted(&adults, &[arg], 20), vec![["rob", "26"]]);
}

#[test]
fn disjunctions_and_negations_are_met() {
    let either = query(
        &["?e"],
        vec![WhereClause::OrJoin(OrJoin {
            clauses: vec![
                OrWhereClause::Clause(named("?e", "alice")),
                OrWhereClause::And(vec![named("?e", "carol")]),
            ],
        })],
    );
    assert_eq!(sorted(&either, &[], 20), vec![["1"], ["3"]]);
    let others = query(
        &["?e"],
        vec![
            triple("?e", "age", "?age"),
            WhereClause::NotJoin(NotJoin { clauses: vec![named("?e", "alice")] }),
        ],
    );
    assert_eq!(sorted(&others, &[], 20), vec![["2"], ["3"]]);
}

#[test]
fn a_negation_stands_in_a_branch_before_other_variables() {
    let not_alice = WhereClause::NotJoin(NotJoin { clauses: vec![named("?e", "alice")] });
    let either = query(
        &["?name", "?age"],
        vec![
            WhereClause::OrJoin(OrJoin {
                clauses: vec![
                    OrWhereClause::And(vec![named("?e", "carol"), triple("?e", "name", "?name")]),
                    OrWhereClause::And(vec![triple("?e", "name", "?name"), not_alice]),
                ],
            }),
            triple("?e", "age", "?age"),
        ],
    );
    assert_eq!(sorted(&either, &[], 20), vec![["carol", "35"], ["rob", "25"]]);
}

#[test]
fn branches_that_limit_other_variables_are_refused() {
    let young = WhereClause::Pred(Predicate { expr: call("<", "?age", 30) });
    let mixed = query(
        &["?e"],
        vec![
            WhereClause::OrJoin(OrJoin {
                clauses: vec![
                    OrWhereClause::Clause(triple("?e", "friend", "?other")),
                    OrWhereClause::And(vec![triple("?other", "friend", "?e"), young]),
                ],
            }),
            triple("?e", "age", "?age"),
        ],
    );
    assert_eq!(
        run(&mixed, &[], 20).unwrap_err().message(),
        "All branches must limit the values of the same variables"
    );
}

#[test]
fn rows_are_ordered_limited_and_aggregated() {
    let mut oldest = query(
        &["?name", "?age"],
        vec![triple("?e", "name", "?name"), triple("?e", "age", "?age")],
    );
    oldest.order = Some(vec![Order { direction: Direction::Descending, variable: var("?age") }]);
    oldest.in_bindings = vec![Binding::BindScalar(var("?n"))];
    oldest.limit = Limit::Variable(var("?n"));
    let rows = run(&oldest, &[QueryArg::Scalar(DataType::Long(2))], 20).unwrap();
    assert_eq!(
        rows,
        vec![
            vec![text("carol"), DataType::Long(35)],
            vec![text("alice"), DataType::Long(30)],
        ]
    );
    let mut count = query(&[], vec![triple("?e", "name", "?name")]);
    count.find_spec = FindSpec::FindRel(vec![Element::Aggregate(Aggregate {
        func: "count".to_string(),
        args: vec![FnArg::Variable(var("?e"))],
    })]);
    assert_eq!(run(&count, &[], 20).unwrap(), vec![vec![DataType::Long(3)]]);
}

#[test]
fn queries_that_cannot_run_are_refused() {
    let unknown = query(&["?e"], vec![triple("?e", "height", "?h")]);
    assert_eq!(run(&unknown, &[], 20).unwrap_err().message(), "Unknown attribute: :height");
    let invalid = query(&["?other"], vec![triple("?e", "name", "?name")]);
    assert_eq!(run(&invalid, &[], 20).unwrap_err().message(), "Find variable ?other not in where clauses");
    let lonely = query(
        &["?e"],
        vec![
            triple("?e", "name", "?name"),
            WhereClause::OrJoin(OrJoin {
                clauses: vec![
                    OrWhereClause::Clause(triple("?e", "age", "?age")),
                    OrWhereClause::Clause(triple("?e", "friend", "?f")),
                ],
            }),
        ],
    );
    assert!(stored_starts(&lonely, &[], &idents()).is_err());
}

#[test]
fn the_reachable_keys_answer_the_query() {
    let names = query(&["?name"], vec![triple("?e", "name", "?name"), triple("?e", "age", "?a")]);
    let starts = stored_starts(&names, &[], &idents()).unwrap();
    assert_eq!(starts.len(), 4);
    let all = people();
    let reached: Vec<Vec<u8>> = all
        .iter()
        .filter(|key| starts.iter().any(|start| key.starts_with(start)))
        .cloned()
        .collect();
    assert!(reached.len() < all.len());
    let over = |keys: &Vec<Vec<u8>>| {
        execute_query(&names, &[], &idents(), keys, 20, holds, evaluate, fold).unwrap()
    };
    assert_eq!(over(&reached), over(&all));
    assert_eq!(over(&reached).len(), 3);
}

#[test]
fn test_query_rejects_entity_placeholder() {
    let open = WhereClause::Pattern(Pattern {
        entity: PatternNonValuePlace::Placeholder,
        attribute: PatternNonValuePlace::Ident(Keyword::new("name")),
        value: PatternValuePlace::Variable(var("?name")),
    });
    let err = run(&query(&["?name"], vec![open]), &[], 20).unwrap_err();
    assert!(err.message().contains("entity position"), "unexpected error: {}", err.message());
}

#[test]
fn test_query_rejects_value_placeholder() {
    let open = WhereClause::Pattern(Pattern {
        entity: PatternNonValuePlace::Variable(var("?e")),
        attribute: PatternNonValuePlace::Ident(Keyword::new("name")),
        value: PatternValuePlace::Placeholder,
    });
    let err = run(&query(&["?e"], vec![open]), &[], 20).unwrap_err();
    assert!(err.message().contains("value position"), "unexpected error: {}", err.message());
}

#[test]
fn a_limit_is_bound_to_a_whole_number_that_is_not_negative() {
    let mut limited = query(&["?name"], vec![triple("?e", "name", "?name")]);
    limited.in_bindings = vec![Binding::BindScalar(var("?n"))];
    limited.limit = Limit::Variable(var("?n"));
    let of = |value| run(&limited, &[QueryArg::Scalar(value)], 20);
    assert_eq!(of(DataType::Long(2)).unwrap().len(), 2);
    assert_eq!(of(DataType::Long(0)).unwrap().len(), 0);
    let err = of(text("two")).unwrap_err().message();
    assert!(err.contains("must be bound to a Long"), "unexpected error: {}", err);
    let err = of(DataType::Long(-1)).unwrap_err().message();
    assert!(err.contains("non-negative"), "unexpected error: {}", err);
}
