use triplox::algo::generic_join::{GenericJoin, PrefixExtender, SingleLevelExtender};
use triplox::codec::{self, encode, encode_i64_bytes};
use triplox::indexer::keys::write_index_entries;
use triplox::iterator::generic_prefix_extender::GenericPrefixExtender;
use triplox::iterator::stored_pattern::{read_scan, StoredPattern};
use triplox::ops::{Datom, DatomOp};
use triplox::query::ast::{
    FindSpec, Limit, NonIntegerConstant, ParsedQuery, Pattern, PatternNonValuePlace,
    PatternValuePlace, WhereClause,
};
use triplox::query::compile::{compile_pattern, compile_query, ExtenderPlan};
use triplox::query::patterns::triple::Scan;
use triplox::schema::{AttributeInfo, Schema};
use triplox::value::{DataType, IndexType, Keyword};
use triplox::variable::Variable;

const NAME: i64 = 42;
const FRIEND: i64 = 43;

fn long(n: i64) -> Vec<u8> {
    encode(&DataType::Long(n))
}

fn text(s: &str) -> Vec<u8> {
    encode(&DataType::String(s.to_string()))
}

fn schema() -> Schema {
    let info = |id| AttributeInfo { id, unique: false, multival: true };
    Schema {
        attributes: vec![
            (Keyword::new("name"), info(NAME)),
            (Keyword::new("friend"), info(FRIEND)),
        ],
    }
}

fn write(keys: &mut Vec<Vec<u8>>, tx_eid: i64, entity: i64, attribute: &str, value: DataType, op: DatomOp) {
    let datom = Datom { entity, attribute: Keyword::new(attribute), value, op };
    write_index_entries(keys, &[datom], &schema(), tx_eid).unwrap();
    keys.sort();
    keys.dedup();
}

fn history() -> Vec<Vec<u8>> {
    let mut keys = vec![];
    let name = |s: &str| DataType::String(s.to_string());
    write(&mut keys, 10, 1, "name", name("alice"), DatomOp::Assert);
    write(&mut keys, 10, 2, "name", name("bob"), DatomOp::Assert);
    write(&mut keys, 10, 1, "friend", DataType::Long(2), DatomOp::Assert);
    write(&mut keys, 20, 2, "name", name("bob"), DatomOp::Retract);
    write(&mut keys, 20, 2, "name", name("rob"), DatomOp::Assert);
    write(&mut keys, 20, 2, "friend", DataType::Long(1), DatomOp::Assert);
    keys
}

fn pattern(attribute: &str, entity: PatternNonValuePlace, value: PatternValuePlace) -> Pattern {
    Pattern { entity, attribute: PatternNonValuePlace::Ident(Keyword::new(attribute)), value }
}

fn variable(name: &str) -> PatternNonValuePlace {
    PatternNonValuePlace::Variable(Variable::new(name))
}

fn value(name: &str) -> PatternValuePlace {
    PatternValuePlace::Variable(Variable::new(name))
}

fn two_variables() -> GenericPrefixExtender {
    let order = [Variable::new("?e"), Variable::new("?v")];
    compile_pattern(&pattern("name", variable("?e"), value("?v")), &order, NAME).unwrap()
}

#[test]
fn a_pattern_of_two_variables_matches_the_facts_that_hold() {
    let tuples = |as_of| {
        let stored = StoredPattern::new(two_variables(), history(), as_of);
        GenericJoin::new(vec![Box::new(stored)], 2).join().unwrap()
    };
    assert_eq!(tuples(9), Vec::<Vec<Vec<u8>>>::new());
    assert_eq!(tuples(10), vec![vec![long(2), text("bob")], vec![long(1), text("alice")]]);
    assert_eq!(tuples(20), vec![vec![long(2), text("rob")], vec![long(1), text("alice")]]);
}

#[test]
fn a_pattern_of_one_variable_matches_the_facts_that_hold() {
    let known = PatternValuePlace::Constant(NonIntegerConstant::Text("bob".to_string()));
    let order = [Variable::new("?e")];
    let compiled = || compile_pattern(&pattern("name", variable("?e"), known.clone()), &order, NAME).unwrap();
    let at = |as_of| StoredPattern::new(compiled(), history(), as_of).propose(&vec![]).unwrap();
    assert_eq!(at(10), vec![long(2)]);
    assert_eq!(at(20), Vec::<Vec<u8>>::new());
}

#[test]
fn a_stored_pattern_counts_and_intersects_what_it_shows() {
    let stored = StoredPattern::new(two_variables(), history(), 20);
    assert_eq!(stored.count(&vec![]).unwrap(), 2);
    assert_eq!(stored.count(&vec![long(2)]).unwrap(), 1);
    assert_eq!(stored.count(&vec![long(2), text("rob")]).unwrap(), usize::MAX);
    assert_eq!(
        stored.intersect(&vec![long(2)], &[text("alice"), text("bob"), text("rob")]).unwrap(),
        vec![text("rob")]
    );
    assert!(stored.participates_in_level(0));
    assert!(stored.participates_in_level(1));
    assert!(!stored.participates_in_level(2));
    assert!(stored.propose(&vec![long(2), text("rob")]).is_err());
}

#[test]
fn a_prefix_that_is_no_value_finds_nothing() {
    let stored = StoredPattern::new(two_variables(), history(), 20);
    let mut bytes = long(2);
    bytes.extend(text("rob"));
    bytes.extend(encode_i64_bytes(20));
    assert_eq!(stored.propose(&vec![bytes]).unwrap(), Vec::<Vec<u8>>::new());
    assert_eq!(stored.propose(&vec![vec![]]).unwrap().len(), 2);
}

#[test]
fn a_scan_is_read_as_of_a_transaction() {
    let mut prefix = vec![codec::AEV];
    prefix.extend(encode_i64_bytes(NAME));
    prefix.extend(long(2));
    let scan = Scan { index_type: IndexType::AEV, prefix };
    assert_eq!(read_scan(&history(), &scan, 10).unwrap(), vec![text("bob")]);
    assert_eq!(read_scan(&history(), &scan, 30).unwrap(), vec![text("rob")]);

    let mut prefix = vec![codec::AV];
    prefix.extend(encode_i64_bytes(NAME));
    let scan = Scan { index_type: IndexType::AV, prefix };
    assert_eq!(
        read_scan(&history(), &scan, 0).unwrap(),
        vec![text("alice"), text("bob"), text("rob")]
    );
}

#[test]
fn a_query_joins_stored_patterns() {
    let query = ParsedQuery {
        find_spec: FindSpec::FindRel(vec![]),
        in_bindings: vec![],
        where_clauses: vec![
            WhereClause::Pattern(pattern("name", variable("?e"), value("?n"))),
            WhereClause::Pattern(pattern("friend", variable("?e"), value("?f"))),
            WhereClause::Pattern(pattern("name", variable("?f"), value("?m"))),
        ],
        order: None,
        limit: Limit::Unlimited,
    };
    let idents = [(Keyword::new("name"), NAME), (Keyword::new("friend"), FRIEND)];
    let join = |as_of| {
        let (order, plans) = compile_query(&query, &[], &idents).unwrap();
        let extenders: Vec<Box<dyn PrefixExtender>> = plans
            .into_iter()
            .map(|plan| -> Box<dyn PrefixExtender> {
                match plan {
                    ExtenderPlan::Pattern(p) => Box::new(StoredPattern::new(p, history(), as_of)),
                    ExtenderPlan::Values { values, level } => {
                        Box::new(SingleLevelExtender::new(values, level))
                    }
                    _ => panic!("expected patterns"),
                }
            })
            .collect();
        GenericJoin::new(extenders, order.len()).join().unwrap()
    };
    assert_eq!(join(10), vec![vec![long(1), text("alice"), long(2), text("bob")]]);
    assert_eq!(
        join(20),
        vec![
            vec![long(2), text("rob"), long(1), text("alice")],
            vec![long(1), text("alice"), long(2), text("rob")],
        ]
    );
}
