use triplox::codec::encode;
use triplox::error::Error;
use triplox::query::ast::{
    Binding, Direction, FindSpec, FnArg, Limit, NonIntegerConstant, NotJoin, OrJoin,
    OrWhereClause, ParsedQuery, Pattern, PatternNonValuePlace, PatternValuePlace, Predicate,
    QueryArg, WhereClause, WhereFn,
};
use triplox::query::compile::{
    compile_pattern, compile_query, compute_constant_prefix, determine_index_types,
    pattern_index_type, ExtenderPlan,
};
use triplox::query::levels::{
    all_take_same_levels, branches_take_same_levels, some_take_level, takes_level,
};
use triplox::query::order::{order_rows, order_values, stable_places, Comparison};
use triplox::value::{DataType, IndexType, Keyword};
use triplox::variable::Variable;

fn var(name: &str) -> Variable {
    Variable::new(name)
}

fn order(names: &[&str]) -> Vec<Variable> {
    names.iter().map(|name| var(name)).collect()
}

fn entity(name: &str) -> PatternNonValuePlace {
    PatternNonValuePlace::Variable(var(name))
}

fn value(name: &str) -> PatternValuePlace {
    PatternValuePlace::Variable(var(name))
}

fn text(s: &str) -> PatternValuePlace {
    PatternValuePlace::Constant(NonIntegerConstant::Text(s.to_string()))
}

fn pattern(entity: PatternNonValuePlace, value: PatternValuePlace) -> Pattern {
    Pattern { entity, attribute: PatternNonValuePlace::Ident(Keyword::new("name")), value }
}

fn idents() -> Vec<(Keyword, i64)> {
    vec![(Keyword::new("name"), 42)]
}

fn query(in_bindings: Vec<Binding>, where_clauses: Vec<WhereClause>) -> ParsedQuery {
    ParsedQuery {
        find_spec: FindSpec::FindRel(vec![]),
        in_bindings,
        where_clauses,
        order: None,
        limit: Limit::Unlimited,
    }
}

fn less(left: &str, right: &str) -> FnArg {
    FnArg::SExpr(
        "<".to_string(),
        vec![FnArg::Variable(var(left)), FnArg::Variable(var(right))],
    )
}

#[test]
fn the_index_of_a_pattern_follows_the_join_order() {
    let both = pattern(entity("?e"), value("?v"));
    let types = |p: &Pattern, o: &[&str]| determine_index_types(p, &order(o));
    assert_eq!(types(&both, &["?e", "?v"]), Ok(vec![IndexType::AE, IndexType::AEV]));
    assert_eq!(types(&both, &["?v", "?e"]), Ok(vec![IndexType::AV, IndexType::AVE]));
    let known = pattern(entity("?e"), text("x"));
    assert_eq!(types(&known, &["?e"]), Ok(vec![IndexType::AVE]));
    assert_eq!(pattern_index_type(&known, &order(&["?e"])), Ok(IndexType::AVE));
    let open = pattern(entity("?e"), PatternValuePlace::Placeholder);
    assert_eq!(pattern_index_type(&open, &order(&["?e"])), Ok(IndexType::AE));
}

#[test]
fn the_constant_of_a_pattern_leads_its_keys() {
    let known = pattern(entity("?e"), text("x"));
    assert_eq!(
        compute_constant_prefix(&known, IndexType::AVE),
        encode(&DataType::String("x".to_string()))
    );
    assert_eq!(compute_constant_prefix(&known, IndexType::AEV), Vec::<u8>::new());
    let of_seven = pattern(PatternNonValuePlace::Entid(7), value("?v"));
    assert_eq!(compute_constant_prefix(&of_seven, IndexType::AEV), encode(&DataType::Long(7)));
}

#[test]
fn a_pattern_takes_part_at_the_levels_of_its_variables() {
    let both = pattern(entity("?e"), value("?v"));
    let extender = compile_pattern(&both, &order(&["?x", "?e", "?y", "?v"]), 42).unwrap();
    let levels: Vec<bool> = (0..5).map(|level| extender.participates_in_level(level)).collect();
    assert_eq!(levels, vec![false, true, false, true, false]);
}

#[test]
fn a_query_is_compiled_to_its_inputs_and_clauses() {
    let query = query(
        vec![Binding::BindScalar(var("?x")), Binding::BindColl(var("?y"))],
        vec![
            WhereClause::Pattern(pattern(entity("?e"), value("?x"))),
            WhereClause::Pred(Predicate { expr: less("?x", "?y") }),
            WhereClause::NotJoin(NotJoin {
                clauses: vec![WhereClause::Pattern(pattern(entity("?e"), text("z")))],
            }),
            WhereClause::OrJoin(OrJoin {
                clauses: vec![
                    OrWhereClause::Clause(WhereClause::Pattern(pattern(entity("?e"), text("a")))),
                    OrWhereClause::And(vec![WhereClause::Pattern(pattern(
                        entity("?e"),
                        text("b"),
                    ))]),
                ],
            }),
        ],
    );
    let args = [
        QueryArg::Scalar(DataType::Long(1)),
        QueryArg::Collection(vec![DataType::Long(2), DataType::Long(3)]),
    ];
    let (variables, plans) = compile_query(&query, &args, &idents()).unwrap();

    assert_eq!(variables, order(&["?x", "?y", "?e"]));
    assert_eq!(plans.len(), 6);
    assert!(matches!(
        &plans[0],
        ExtenderPlan::Values { values, level: 0 } if *values == vec![encode(&DataType::Long(1))]
    ));
    assert!(matches!(&plans[1], ExtenderPlan::Values { values, level: 1 } if values.len() == 2));
    assert!(matches!(&plans[2], ExtenderPlan::Pattern(_)));
    match &plans[3] {
        ExtenderPlan::Predicate { prefix_vars, extension_var, level, .. } => {
            assert_eq!(prefix_vars, &vec![(var("?x"), 0)]);
            assert_eq!(extension_var, &var("?y"));
            assert_eq!(*level, 1);
        }
        _ => panic!("expected a condition"),
    }
    assert!(matches!(&plans[4], ExtenderPlan::Not { children, level: 2 } if children.len() == 1));
    assert!(matches!(&plans[5], ExtenderPlan::Or(children) if children.len() == 2));
}

#[test]
fn clauses_that_cannot_be_compiled_are_refused() {
    let compiled = |clause| compile_query(&query(vec![], vec![clause]), &[], &idents()).err();
    let constant = FnArg::SExpr(
        "<".to_string(),
        vec![FnArg::EntidOrInteger(1), FnArg::EntidOrInteger(2)],
    );
    assert_eq!(
        compiled(WhereClause::Pred(Predicate { expr: constant })),
        Some(Error::NoVariables)
    );
    let missing = Pattern {
        entity: entity("?e"),
        attribute: PatternNonValuePlace::Ident(Keyword::new("missing")),
        value: value("?v"),
    };
    assert_eq!(compiled(WhereClause::Pattern(missing)), Some(Error::UnknownAttribute("missing".to_string())));
    let nameless = Pattern {
        entity: entity("?e"),
        attribute: PatternNonValuePlace::Placeholder,
        value: value("?v"),
    };
    assert_eq!(compiled(WhereClause::Pattern(nameless)), Some(Error::NotAnAttribute));
    let unknown = FnArg::SExpr("frobnicate".to_string(), vec![FnArg::Variable(var("?x"))]);
    assert_eq!(
        compiled(WhereClause::Pred(Predicate { expr: unknown })),
        Some(Error::UnsupportedFunction("frobnicate".to_string(), 1))
    );
    let condition = WhereFn { expr: less("?x", "?y"), binding: Binding::BindScalar(var("?z")) };
    assert_eq!(compiled(WhereClause::WhereFn(condition)), Some(Error::FunctionInput("?x".to_string())));
}

#[test]
fn the_levels_of_plans_are_those_of_their_extenders() {
    let at = |level: usize| ExtenderPlan::Values { values: vec![], level };
    let both = ExtenderPlan::And(vec![at(0), at(2)]);
    let taken: Vec<bool> = (0..4).map(|level| takes_level(&both, level)).collect();
    assert_eq!(taken, vec![true, false, true, false]);
    let negation = ExtenderPlan::Not { children: vec![at(0)], level: 3 };
    assert!(takes_level(&negation, 3) && !takes_level(&negation, 0));
    let plans = vec![both, negation];
    assert!(some_take_level(&plans, 3));
    assert!(!some_take_level(&plans, 1));

    let same = ExtenderPlan::Or(vec![at(1), ExtenderPlan::And(vec![at(1), at(1)])]);
    assert!(takes_level(&same, 1));
    assert!(branches_take_same_levels(&same, 4));
    let other = ExtenderPlan::Or(vec![at(1), at(2)]);
    assert!(!branches_take_same_levels(&other, 4));
    assert!(branches_take_same_levels(&other, 1));
    let nested = vec![same, ExtenderPlan::Not { children: vec![other], level: 0 }];
    assert!(!all_take_same_levels(&nested, 4));
}

#[test]
fn values_of_one_kind_are_ordered() {
    let double = |x: f64| DataType::Double(x.to_bits());
    let float = |x: f32| DataType::Float(x.to_bits());
    let string = |s: &str| DataType::String(s.to_string());
    assert_eq!(order_values(&double(-1.5), &double(0.25)), Some(Comparison::Less));
    assert_eq!(order_values(&double(-0.0), &double(0.0)), Some(Comparison::Same));
    assert_eq!(order_values(&double(-1.0), &double(-2.0)), Some(Comparison::More));
    assert_eq!(order_values(&double(f64::INFINITY), &double(1e300)), Some(Comparison::More));
    assert_eq!(order_values(&double(f64::NAN), &double(1.0)), None);
    assert_eq!(order_values(&float(0.5), &float(2.5)), Some(Comparison::Less));
    assert_eq!(order_values(&float(f32::NAN), &float(f32::NAN)), None);
    assert_eq!(order_values(&string("b"), &string("ab")), Some(Comparison::More));
    assert_eq!(
        order_values(&DataType::Boolean(false), &DataType::Boolean(true)),
        Some(Comparison::Less)
    );
    assert_eq!(order_values(&DataType::Long(1), &string("a")), None);
}

#[test]
fn rows_are_ordered_by_their_columns_in_turn() {
    let row = |a: i64, b: i64| vec![DataType::Long(a), DataType::Long(b)];
    let keys = [(0, Direction::Ascending), (1, Direction::Descending)];
    assert_eq!(order_rows(&row(1, 9), &row(2, 0), &keys), Some(Comparison::Less));
    assert_eq!(order_rows(&row(1, 9), &row(1, 3), &keys), Some(Comparison::Less));
    assert_eq!(order_rows(&row(1, 3), &row(1, 3), &keys), Some(Comparison::Same));

    let rows = vec![row(2, 1), row(1, 1), row(2, 5), row(1, 7)];
    assert_eq!(stable_places(&rows, &keys), Ok(vec![3, 1, 2, 0]));
    assert_eq!(stable_places(&rows, &[(0, Direction::Ascending)]), Ok(vec![1, 3, 0, 2]));
    let odd = vec![row(1, 1), vec![DataType::Boolean(true), DataType::Long(1)]];
    assert_eq!(stable_places(&odd, &keys), Err(Error::Incomparable));
}
