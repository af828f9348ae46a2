use triplox::algo::generic_join::{GenericJoin, PrefixExtender, SingleLevelExtender};
use triplox::codec::{self, decode, encode};
use triplox::error::Error;
use triplox::expr::{BinaryExpr, BinaryOp, Expr, UnaryExpr, UnaryOp};
use triplox::iterator::generic_and_prefix_extender::GenericAndPrefixExtender;
use triplox::iterator::generic_fn_prefix_extender::GenericFnPrefixExtender;
use triplox::iterator::generic_not_prefix_extender::GenericNotPrefixExtender;
use triplox::iterator::generic_or_prefix_extender::GenericOrPrefixExtender;
use triplox::iterator::generic_predicate_prefix_extender::GenericPredicatePrefixExtender;
use triplox::iterator::generic_prefix_extender::{is_temporal, GenericPrefixExtender};
use triplox::iterator::index::{Index, VecIterator};
use triplox::iterator::prefix_extender::PatternPrefixExtender;
use triplox::iterator::temporal_filter_iterator::TemporalFilterIterator;
use triplox::numeric::{Arithmetic, NumericValue};
use triplox::query::patterns::triple::Scan;
use triplox::value::{DataType, IndexType};
use triplox::variable::Variable;

fn bi(n: i32) -> Vec<u8> {
    n.to_be_bytes().to_vec()
}

fn var(name: &str) -> Variable {
    Variable::new(name)
}

fn long(n: i64) -> Vec<u8> {
    encode(&DataType::Long(n))
}

fn text(s: &str) -> Vec<u8> {
    encode(&DataType::String(s.to_string()))
}

fn single(values: &[i32], level: usize) -> Box<dyn PrefixExtender> {
    Box::new(SingleLevelExtender::new(values.iter().map(|n| bi(*n)).collect(), level))
}

fn binary(left: Expr, op: BinaryOp, right: Expr) -> Expr {
    Expr::BinaryExpr(BinaryExpr { left: Box::new(left), op, right: Box::new(right) })
}

fn copy(value: &DataType) -> DataType {
    match value {
        DataType::Long(n) => DataType::Long(*n),
        DataType::String(s) => DataType::String(s.clone()),
        DataType::Boolean(b) => DataType::Boolean(*b),
        _ => panic!("expected a number, a text or a truth value"),
    }
}

/// The value of an expression on whole numbers.
fn evaluate(expr: &Expr, names: &Vec<Variable>, values: &Vec<DataType>) -> Option<DataType> {
    match expr {
        Expr::Literal(value) => Some(copy(value)),
        Expr::Variable(variable) => {
            names.iter().position(|name| name == variable).map(|at| copy(&values[at]))
        }
        Expr::BinaryExpr(e) => {
            let left = evaluate(&e.left, names, values)?;
            let right = evaluate(&e.right, names, values)?;
            let left = NumericValue::from_expression(&left)?;
            let right = NumericValue::from_expression(&right)?;
            match (e.op, left, right) {
                (BinaryOp::Lt, NumericValue::Long(l), NumericValue::Long(r)) => {
                    Some(DataType::Boolean(l < r))
                }
                (BinaryOp::GtEq, NumericValue::Long(l), NumericValue::Long(r)) => {
                    Some(DataType::Boolean(l >= r))
                }
                (BinaryOp::Add, left, right) => match left.checked_add(right) {
                    Arithmetic::Whole(sum) => sum.map(DataType::Long),
                    Arithmetic::Floating => None,
                },
                _ => panic!("expected a comparison or a sum"),
            }
        }
        Expr::UnaryExpr(e) => match (e.op, evaluate(&e.operand, names, values)?) {
            (UnaryOp::Abs, DataType::Long(n)) => Some(DataType::Long(n.abs())),
            _ => None,
        },
        _ => panic!("expected an operation on whole numbers"),
    }
}

fn holds(expr: &Expr, names: &Vec<Variable>, values: &Vec<DataType>) -> bool {
    evaluate(expr, names, values) == Some(DataType::Boolean(true))
}

#[test]
fn test_and_extender_count_returns_minimum() {
    let and_ext = GenericAndPrefixExtender::new(vec![single(&[1, 2, 3], 0), single(&[2, 3], 0)]);
    assert_eq!(and_ext.count(&vec![]).unwrap(), 2);
}

#[test]
fn test_and_extender_propose_returns_intersection() {
    let and_ext = GenericAndPrefixExtender::new(vec![
        single(&[2, 4, 6, 8, 10, 12], 0),
        single(&[3, 6, 9, 12], 0),
    ]);
    let result = and_ext.propose(&vec![]).unwrap();
    assert_eq!(result, vec![bi(6), bi(12)]);
}

#[test]
fn test_and_extender_intersect_filters_correctly() {
    let and_ext =
        GenericAndPrefixExtender::new(vec![single(&[1, 3, 5], 0), single(&[2, 3, 4], 0)]);
    let candidates = vec![bi(1), bi(2), bi(3), bi(4), bi(5)];
    let result = and_ext.intersect(&vec![], &candidates).unwrap();
    assert_eq!(result, vec![bi(3)]);
}

#[test]
fn test_and_extender_participates_in_level() {
    let and_ext = GenericAndPrefixExtender::new(vec![single(&[1], 0), single(&[2], 1)]);
    assert!(and_ext.participates_in_level(0));
    assert!(and_ext.participates_in_level(1));
    assert!(!and_ext.participates_in_level(2));
}

#[test]
fn test_and_extender_in_generic_join() {
    let and_extender = GenericAndPrefixExtender::new(vec![
        single(&[1, 2, 3, 4, 5, 6], 0),
        single(&[2, 4, 6, 8], 0),
    ]);
    let join = GenericJoin::new(vec![Box::new(and_extender), single(&[1, 3, 5], 1)], 2);
    let result = join.join().unwrap();
    assert_eq!(result.len(), 9);
    assert_eq!(result[0], vec![bi(2), bi(1)]);
    assert_eq!(result[1], vec![bi(2), bi(3)]);
    assert_eq!(result[2], vec![bi(2), bi(5)]);
}

#[test]
fn generic_not_prefix_extender_test_count_returns_max() {
    let not_ext = GenericNotPrefixExtender::new(vec![], 0);
    assert_eq!(not_ext.count(&vec![]).unwrap(), usize::MAX);
}

#[test]
fn test_propose_errors() {
    let not_ext = GenericNotPrefixExtender::new(vec![], 0);
    let err = not_ext.propose(&vec![]).unwrap_err();
    assert!(err.message().contains("Propose should not be called on NOT prefix extender"));
}

#[test]
fn generic_not_prefix_extender_test_participates_in_level() {
    let not_ext = GenericNotPrefixExtender::new(vec![], 2);
    assert!(!not_ext.participates_in_level(0));
    assert!(!not_ext.participates_in_level(1));
    assert!(not_ext.participates_in_level(2));
    assert!(!not_ext.participates_in_level(3));
}

#[test]
fn test_intersect_removes_matching_extensions() {
    let not_ext = GenericNotPrefixExtender::new(vec![single(&[3, 6, 9, 12], 1)], 1);
    let prefix = vec![bi(6)];
    let extensions: Vec<Vec<u8>> = (1..=10).map(bi).collect();
    let result = not_ext.intersect(&prefix, &extensions).unwrap();
    assert_eq!(result.len(), 7);
    assert!(!result.contains(&bi(3)));
    assert!(!result.contains(&bi(6)));
    assert!(!result.contains(&bi(9)));
    assert!(result.contains(&bi(1)));
    assert!(result.contains(&bi(5)));
    assert!(result.contains(&bi(10)));
}

#[test]
fn test_intersect_with_two_children_conjunction() {
    let not_ext = GenericNotPrefixExtender::new(
        vec![single(&[2, 4, 6, 8, 10], 0), single(&[3, 6, 9, 12], 1)],
        1,
    );
    let extensions: Vec<Vec<u8>> = (1..=10).map(bi).collect();
    let result_even = not_ext.intersect(&vec![bi(4)], &extensions).unwrap();
    assert_eq!(result_even.len(), 7);
    let result_odd = not_ext.intersect(&vec![bi(3)], &extensions).unwrap();
    assert_eq!(result_odd.len(), 10);
}

#[test]
fn test_not_extender_in_generic_join() {
    let not_ext = GenericNotPrefixExtender::new(vec![single(&[2, 4], 1)], 1);
    let join = GenericJoin::new(
        vec![single(&[1, 2, 3, 4, 5], 0), single(&[1, 2, 3, 4, 5], 1), Box::new(not_ext)],
        2,
    );
    let result = join.join().unwrap();
    assert_eq!(result.len(), 15);
    for tuple in &result {
        assert!(tuple[1] != bi(2) && tuple[1] != bi(4));
    }
}

#[test]
fn test_or_extender_count_sums_children() {
    let or_ext = GenericOrPrefixExtender::new(vec![single(&[1, 2, 3], 0), single(&[4, 5], 0)]);
    assert_eq!(or_ext.count(&vec![]).unwrap(), 5);
}

#[test]
fn test_or_extender_count_saturates_for_predicate_only_children() {
    let pred1 = GenericPredicatePrefixExtender::new(
        Expr::Literal(DataType::Boolean(true)),
        vec![],
        var("?x"),
        0,
        holds,
    );
    let pred2 = GenericPredicatePrefixExtender::new(
        Expr::Literal(DataType::Boolean(true)),
        vec![],
        var("?x"),
        0,
        holds,
    );
    let or_ext = GenericOrPrefixExtender::new(vec![Box::new(pred1), Box::new(pred2)]);
    assert_eq!(or_ext.count(&vec![]).unwrap(), usize::MAX);
}

#[test]
fn test_or_extender_propose_returns_sorted_union() {
    let or_ext = GenericOrPrefixExtender::new(vec![single(&[1, 3, 5], 0), single(&[2, 3, 4], 0)]);
    let proposed = or_ext.propose(&vec![]).unwrap();
    assert_eq!(proposed, vec![bi(1), bi(2), bi(3), bi(4), bi(5)]);
}

#[test]
fn test_or_extender_intersect_returns_union_of_matching() {
    let or_ext = GenericOrPrefixExtender::new(vec![single(&[1, 3], 0), single(&[2, 4], 0)]);
    let candidates = vec![bi(1), bi(2), bi(5)];
    let result = or_ext.intersect(&vec![], &candidates).unwrap();
    assert_eq!(result, vec![bi(1), bi(2)]);
}

#[test]
fn test_or_extender_participates_in_level() {
    let or_ext = GenericOrPrefixExtender::new(vec![single(&[1], 0), single(&[2], 0)]);
    assert!(or_ext.participates_in_level(0));
    assert!(!or_ext.participates_in_level(1));
}

#[test]
fn test_or_extender_in_generic_join() {
    let or_extender =
        GenericOrPrefixExtender::new(vec![single(&[1, 2, 3], 0), single(&[3, 4, 5], 0)]);
    let join = GenericJoin::new(vec![Box::new(or_extender), single(&[2, 4, 6], 0)], 1);
    let result = join.join().unwrap();
    assert_eq!(result, vec![vec![bi(2)], vec![bi(4)]]);
}

#[test]
fn generic_predicate_prefix_extender_test_count_returns_max() {
    let ext = GenericPredicatePrefixExtender::new(
        Expr::Literal(DataType::Boolean(true)),
        vec![],
        var("?x"),
        0,
        holds,
    );
    assert_eq!(ext.count(&vec![]).unwrap(), usize::MAX);
}

#[test]
fn predicate_extender_does_not_propose() {
    let ext = GenericPredicatePrefixExtender::new(
        Expr::Literal(DataType::Boolean(true)),
        vec![],
        var("?x"),
        0,
        holds,
    );
    assert_eq!(ext.propose(&vec![]).unwrap_err(), Error::PredicateProposes);
}

#[test]
fn generic_predicate_prefix_extender_test_participates_in_level() {
    let ext = GenericPredicatePrefixExtender::new(
        Expr::Literal(DataType::Boolean(true)),
        vec![],
        var("?x"),
        2,
        holds,
    );
    assert!(!ext.participates_in_level(0));
    assert!(!ext.participates_in_level(1));
    assert!(ext.participates_in_level(2));
    assert!(!ext.participates_in_level(3));
}

#[test]
fn test_binary_lt_one_var_one_const() {
    let expr = binary(
        Expr::Variable(var("?age")),
        BinaryOp::Lt,
        Expr::Literal(DataType::Long(30)),
    );
    let ext = GenericPredicatePrefixExtender::new(
        expr,
        vec![],
        var("?age"),
        0,
        holds,
    );
    let extensions = vec![long(25), long(30), long(35), long(10)];
    let result = ext.intersect(&vec![], &extensions).unwrap();
    assert_eq!(result.len(), 2);
    assert_eq!(decode(&result[0]).unwrap(), DataType::Long(25));
    assert_eq!(decode(&result[1]).unwrap(), DataType::Long(10));
}

#[test]
fn test_binary_lt_two_vars() {
    let expr = binary(Expr::Variable(var("?a")), BinaryOp::Lt, Expr::Variable(var("?b")));
    let ext = GenericPredicatePrefixExtender::new(
        expr,
        vec![(var("?a"), 0)],
        var("?b"),
        1,
        holds,
    );
    let prefix = vec![long(10)];
    let extensions = vec![long(5), long(10), long(15), long(20)];
    let result = ext.intersect(&prefix, &extensions).unwrap();
    assert_eq!(result.len(), 2);
    assert_eq!(decode(&result[0]).unwrap(), DataType::Long(15));
    assert_eq!(decode(&result[1]).unwrap(), DataType::Long(20));
}

#[test]
fn test_binary_two_vars_reversed_arg_order() {
    let expr = binary(Expr::Variable(var("?b")), BinaryOp::Lt, Expr::Variable(var("?a")));
    let ext = GenericPredicatePrefixExtender::new(
        expr,
        vec![(var("?a"), 0)],
        var("?b"),
        1,
        holds,
    );
    let prefix = vec![long(10)];
    let extensions = vec![long(5), long(10), long(15)];
    let result = ext.intersect(&prefix, &extensions).unwrap();
    assert_eq!(result.len(), 1);
    assert_eq!(decode(&result[0]).unwrap(), DataType::Long(5));
}

#[test]
fn generic_predicate_prefix_extender_test_integration_with_generic_join() {
    let level0 = SingleLevelExtender::new(vec![long(10), long(20), long(30), long(40)], 0);
    let expr = binary(
        Expr::Variable(var("?x")),
        BinaryOp::Lt,
        Expr::Literal(DataType::Long(25)),
    );
    let pred = GenericPredicatePrefixExtender::new(
        expr,
        vec![],
        var("?x"),
        0,
        holds,
    );
    let join = GenericJoin::new(vec![Box::new(level0), Box::new(pred)], 1);
    let result = join.join().unwrap();
    assert_eq!(result.len(), 2);
    assert_eq!(decode(&result[0][0]).unwrap(), DataType::Long(20));
    assert_eq!(decode(&result[1][0]).unwrap(), DataType::Long(10));
}

#[test]
fn test_integration_two_level_with_predicate() {
    let level0 = SingleLevelExtender::new(vec![long(10), long(20), long(30)], 0);
    let level1 = SingleLevelExtender::new(vec![text("alice"), text("bob")], 1);
    let expr = binary(
        Expr::Variable(var("?age")),
        BinaryOp::GtEq,
        Expr::Literal(DataType::Long(20)),
    );
    let pred = GenericPredicatePrefixExtender::new(
        expr,
        vec![],
        var("?age"),
        0,
        holds,
    );
    let join = GenericJoin::new(vec![Box::new(level0), Box::new(level1), Box::new(pred)], 2);
    let result = join.join().unwrap();
    assert_eq!(result.len(), 4);
}

#[test]
fn test_count_returns_one() {
    let ext = GenericFnPrefixExtender::new(
        Expr::Literal(DataType::Long(42)),
        vec![],
        0,
        evaluate,
    );
    assert_eq!(ext.count(&vec![]).unwrap(), 1);
}

#[test]
fn generic_fn_prefix_extender_test_participates_in_level() {
    let ext = GenericFnPrefixExtender::new(
        Expr::Literal(DataType::Long(42)),
        vec![],
        2,
        evaluate,
    );
    assert!(!ext.participates_in_level(0));
    assert!(!ext.participates_in_level(1));
    assert!(ext.participates_in_level(2));
    assert!(!ext.participates_in_level(3));
}

#[test]
fn test_propose_constant_expr() {
    let ext = GenericFnPrefixExtender::new(
        Expr::Literal(DataType::Long(42)),
        vec![],
        0,
        evaluate,
    );
    let result = ext.propose(&vec![]).unwrap();
    assert_eq!(result.len(), 1);
    assert_eq!(decode(&result[0]).unwrap(), DataType::Long(42));
}

#[test]
fn test_propose_unary_abs() {
    let expr = Expr::UnaryExpr(UnaryExpr {
        op: UnaryOp::Abs,
        operand: Box::new(Expr::Variable(var("?x"))),
    });
    let ext = GenericFnPrefixExtender::new(
        expr,
        vec![(var("?x"), 0)],
        1,
        evaluate,
    );
    let result = ext.propose(&vec![long(-5)]).unwrap();
    assert_eq!(result.len(), 1);
    assert_eq!(decode(&result[0]).unwrap(), DataType::Long(5));
}

fn x_plus(more: i64) -> Expr {
    binary(Expr::Variable(var("?x")), BinaryOp::Add, Expr::Literal(DataType::Long(more)))
}

#[test]
fn test_propose_binary_add_with_constant() {
    let ext = GenericFnPrefixExtender::new(
        x_plus(10),
        vec![(var("?x"), 0)],
        1,
        evaluate,
    );
    let result = ext.propose(&vec![long(25)]).unwrap();
    assert_eq!(result.len(), 1);
    assert_eq!(decode(&result[0]).unwrap(), DataType::Long(35));
}

#[test]
fn test_propose_binary_add_two_variables() {
    let expr = binary(Expr::Variable(var("?x")), BinaryOp::Add, Expr::Variable(var("?y")));
    let ext = GenericFnPrefixExtender::new(
        expr,
        vec![(var("?x"), 0), (var("?y"), 1)],
        2,
        evaluate,
    );
    let result = ext.propose(&vec![long(10), long(20)]).unwrap();
    assert_eq!(result.len(), 1);
    assert_eq!(decode(&result[0]).unwrap(), DataType::Long(30));
}

#[test]
fn test_propose_returns_empty_on_type_mismatch() {
    let ext = GenericFnPrefixExtender::new(
        x_plus(10),
        vec![(var("?x"), 0)],
        1,
        evaluate,
    );
    let result = ext.propose(&vec![text("hello")]).unwrap();
    assert!(result.is_empty());
}

#[test]
fn test_intersect_matching() {
    let ext = GenericFnPrefixExtender::new(
        x_plus(10),
        vec![(var("?x"), 0)],
        1,
        evaluate,
    );
    let result = ext.intersect(&vec![long(25)], &vec![long(30), long(35), long(40)]).unwrap();
    assert_eq!(result.len(), 1);
    assert_eq!(decode(&result[0]).unwrap(), DataType::Long(35));
}

#[test]
fn test_intersect_no_match() {
    let ext = GenericFnPrefixExtender::new(
        x_plus(10),
        vec![(var("?x"), 0)],
        1,
        evaluate,
    );
    let result = ext.intersect(&vec![long(25)], &vec![long(30), long(40)]).unwrap();
    assert!(result.is_empty());
}

#[test]
fn generic_fn_prefix_extender_test_integration_with_generic_join() {
    let level0 = SingleLevelExtender::new(vec![long(10), long(20), long(30)], 0);
    let fn_ext = GenericFnPrefixExtender::new(
        x_plus(1),
        vec![(var("?x"), 0)],
        1,
        evaluate,
    );
    let join = GenericJoin::new(vec![Box::new(level0), Box::new(fn_ext)], 2);
    let result = join.join().unwrap();
    assert_eq!(result.len(), 3);
    for tuple in &result {
        let original = decode(&tuple[0]).unwrap();
        let computed = decode(&tuple[1]).unwrap();
        match (original, computed) {
            (DataType::Long(o), DataType::Long(c)) => assert_eq!(c, o + 1),
            _ => panic!("unexpected types"),
        }
    }
}

#[test]
fn test_integration_three_levels() {
    let level0 = SingleLevelExtender::new(vec![long(10), long(20), long(30)], 0);
    let level1 = SingleLevelExtender::new(vec![text("alice"), text("bob")], 1);
    let expr = binary(
        Expr::Variable(var("?age")),
        BinaryOp::Add,
        Expr::Literal(DataType::Long(1)),
    );
    let fn_ext = GenericFnPrefixExtender::new(
        expr,
        vec![(var("?age"), 0)],
        2,
        evaluate,
    );
    let join = GenericJoin::new(vec![Box::new(level0), Box::new(level1), Box::new(fn_ext)], 3);
    let result = join.join().unwrap();
    assert_eq!(result.len(), 6);
}

#[test]
fn test_propose_constant_only_expression() {
    let expr = binary(
        Expr::Literal(DataType::Long(1)),
        BinaryOp::Add,
        Expr::Literal(DataType::Long(2)),
    );
    let ext = GenericFnPrefixExtender::new(expr, vec![], 0, evaluate);
    let result = ext.propose(&vec![]).unwrap();
    assert_eq!(result.len(), 1);
    assert_eq!(decode(&result[0]).unwrap(), DataType::Long(3));
}

struct Store {
    keys: Vec<Vec<u8>>,
}

impl Store {
    fn new() -> Self {
        Store { keys: vec![] }
    }

    fn put(&mut self, key: Vec<u8>) {
        self.keys.push(key);
        self.keys.sort();
        self.keys.dedup();
    }

    fn insert_ave(&mut self, attribute: i64, value: Vec<u8>, entity: i64) {
        let mut key = vec![codec::AVE];
        codec::encode_i64(attribute, &mut key);
        key.extend_from_slice(&value);
        key.extend_from_slice(&long(entity));
        key.extend_from_slice(&codec::encode_i64_bytes(1000));
        key.push(codec::ADD);
        self.put(key);
    }

    fn insert_av(&mut self, attribute: i64, value: Vec<u8>) {
        let mut key = vec![codec::AV];
        codec::encode_i64(attribute, &mut key);
        key.extend_from_slice(&value);
        self.put(key);
    }

    fn beginning_with(&self, prefix: &[u8]) -> Vec<Vec<u8>> {
        self.keys.iter().filter(|k| k.starts_with(prefix)).cloned().collect()
    }

    fn scan(&self, scan: &Scan) -> Vec<Vec<u8>> {
        let keys = self.beginning_with(&scan.prefix);
        if is_temporal(scan.index_type) {
            let mut it =
                TemporalFilterIterator::new(VecIterator::new(keys), &scan.prefix, 2000).unwrap();
            let mut out = vec![];
            while let Some(value) = it.get_value().unwrap() {
                out.push(value);
                it.next().unwrap();
            }
            out
        } else {
            keys.iter().map(|k| k[scan.prefix.len()..].to_vec()).collect()
        }
    }

    fn propose(&self, extender: &GenericPrefixExtender, prefix: &Vec<Vec<u8>>) -> Vec<Vec<u8>> {
        let scan = extender.build_slate_prefix(prefix);
        let mut cursor = VecIterator::new(self.scan(&scan));
        extender.propose(&mut cursor).unwrap()
    }

    fn intersect(
        &self,
        extender: &GenericPrefixExtender,
        prefix: &Vec<Vec<u8>>,
        extensions: &Vec<Vec<u8>>,
    ) -> Vec<Vec<u8>> {
        let scan = extender.build_slate_prefix(prefix);
        let mut cursor = VecIterator::new(self.scan(&scan));
        extender.intersect(extensions, &mut cursor).unwrap()
    }
}

#[test]
fn generic_prefix_extender_test_participates_in_level() {
    let extender =
        GenericPrefixExtender::new(vec![IndexType::AV, IndexType::AVE], 42, vec![], vec![0, 1]);
    assert!(extender.participates_in_level(0));
    assert!(extender.participates_in_level(1));
    assert!(!extender.participates_in_level(2));
}

#[test]
fn test_count_with_av_index() {
    let mut store = Store::new();
    store.insert_av(42, text("Alice"));
    store.insert_av(42, text("Bob"));
    store.insert_av(42, text("Charlie"));
    let extender = GenericPrefixExtender::new(vec![IndexType::AV], 42, vec![], vec![0]);
    let scan = extender.build_slate_prefix(&vec![]);
    let cursor = VecIterator::new(store.scan(&scan));
    assert_eq!(cursor.count().unwrap(), 3);
}

#[test]
fn test_propose_with_av_index() {
    let mut store = Store::new();
    store.insert_av(42, text("Alice"));
    store.insert_av(42, text("Bob"));
    let extender = GenericPrefixExtender::new(vec![IndexType::AV], 42, vec![], vec![0]);
    let values = store.propose(&extender, &vec![]);
    assert_eq!(values.len(), 2);
    assert!(values[0] < values[1]);
}

#[test]
fn test_multiple_index_types() {
    let mut store = Store::new();
    store.insert_av(42, text("Alice"));
    store.insert_av(42, text("Bob"));
    store.insert_ave(42, text("Alice"), 1);
    store.insert_ave(42, text("Bob"), 2);
    let extender =
        GenericPrefixExtender::new(vec![IndexType::AV, IndexType::AVE], 42, vec![], vec![0, 1]);
    let values = store.propose(&extender, &vec![]);
    assert_eq!(values.len(), 2);
    let entities = store.propose(&extender, &vec![text("Alice")]);
    assert_eq!(entities.len(), 1);
    assert_eq!(entities[0], long(1));
}

#[test]
fn test_intersect() {
    let mut store = Store::new();
    store.insert_av(42, text("Alice"));
    store.insert_av(42, text("Bob"));
    let extender = GenericPrefixExtender::new(vec![IndexType::AV], 42, vec![], vec![0]);
    let candidates = vec![text("Alice"), text("Bob"), text("Charlie")];
    let filtered = store.intersect(&extender, &vec![], &candidates);
    assert_eq!(filtered.len(), 2);
    assert!(filtered.contains(&text("Alice")));
    assert!(filtered.contains(&text("Bob")));
    assert!(!filtered.contains(&text("Charlie")));
}

#[test]
fn test_single_variable_ave_extracts_entity_not_value() {
    let mut store = Store::new();
    let value_bytes = text("alice");
    store.insert_ave(42, value_bytes.clone(), 1);
    let extender = GenericPrefixExtender::new(vec![IndexType::AVE], 42, value_bytes, vec![0]);
    let proposed = store.propose(&extender, &vec![]);
    assert_eq!(proposed.len(), 1);
    assert_eq!(proposed[0], long(1));
    assert_eq!(extender.extractor_position(&vec![]), 2);
}

#[test]
fn test_empty_results() {
    let store = Store::new();
    let extender = GenericPrefixExtender::new(vec![IndexType::AV], 42, vec![], vec![0]);
    assert_eq!(store.propose(&extender, &vec![]), Vec::<Vec<u8>>::new());
    assert_eq!(
        store.intersect(&extender, &vec![], &vec![text("Alice")]),
        Vec::<Vec<u8>>::new()
    );
}

#[test]
fn test_vec_iterator_basic_operations() {
    let vec = vec![b"a".to_vec(), b"b".to_vec(), b"c".to_vec(), b"d".to_vec(), b"e".to_vec()];
    let mut iter = VecIterator::new(vec);
    assert_eq!(iter.count().unwrap(), 5);
    assert!(iter.has_next());
    assert_eq!(iter.next().unwrap(), Some(b"a".to_vec()));
    assert_eq!(iter.next().unwrap(), Some(b"b".to_vec()));
    assert_eq!(iter.next().unwrap(), Some(b"c".to_vec()));
    assert_eq!(iter.next().unwrap(), Some(b"d".to_vec()));
    assert_eq!(iter.next().unwrap(), Some(b"e".to_vec()));
    assert_eq!(iter.next().unwrap(), None);
    assert!(!iter.has_next());
}

#[test]
fn test_vec_iterator_seek() {
    let vec = vec![b"a".to_vec(), b"c".to_vec(), b"e".to_vec(), b"g".to_vec(), b"i".to_vec()];
    let mut iter = VecIterator::new(vec);
    iter.seek(b"c").unwrap();
    assert_eq!(iter.next().unwrap(), Some(b"c".to_vec()));
    assert_eq!(iter.next().unwrap(), Some(b"e".to_vec()));
    iter.seek(b"f").unwrap();
    assert_eq!(iter.next().unwrap(), Some(b"g".to_vec()));
    iter.seek(b"z").unwrap();
    assert_eq!(iter.next().unwrap(), None);
}

#[test]
fn test_vec_iterator_empty() {
    let mut iter = VecIterator::new(vec![]);
    assert_eq!(iter.count().unwrap(), 0);
    assert!(!iter.has_next());
    assert_eq!(iter.next().unwrap(), None);
    assert_eq!(iter.get_value().unwrap(), None);
    iter.seek(b"a").unwrap();
    assert_eq!(iter.next().unwrap(), None);
}

#[test]
fn test_vec_iterator_get_value() {
    let vec = vec![b"x".to_vec(), b"y".to_vec()];
    let mut iter = VecIterator::new(vec);
    assert_eq!(iter.get_value().unwrap(), Some(b"x".to_vec()));
    iter.next().unwrap();
    assert_eq!(iter.get_value().unwrap(), Some(b"y".to_vec()));
    iter.next().unwrap();
    assert_eq!(iter.get_value().unwrap(), None);
}

#[test]
fn pattern_variables_stand_in_join_order() {
    let extender = PatternPrefixExtender::new(
        vec![var("?a"), var("?b"), var("?c")],
        vec![var("?c"), var("?a")],
    );
    assert_eq!(extender.vars, vec![var("?a"), var("?c")]);
    assert!(extender.participates(&var("?c")));
    assert!(!extender.participates(&var("?b")));
}

#[test]
fn a_negation_keeps_the_order_and_the_repetitions_of_what_is_left() {
    let not_ext = GenericNotPrefixExtender::new(vec![single(&[3, 6], 1)], 1);
    let given = vec![bi(9), bi(3), bi(1), bi(9), bi(6), bi(1)];
    let left = not_ext.intersect(&vec![bi(0)], &given).unwrap();
    assert_eq!(left, vec![bi(9), bi(1), bi(9), bi(1)]);

    let elsewhere =
        GenericNotPrefixExtender::new(vec![single(&[2], 0), single(&[3, 6], 1)], 1);
    assert_eq!(elsewhere.intersect(&vec![bi(1)], &given).unwrap(), given);
    assert_eq!(elsewhere.intersect(&vec![bi(2)], &given).unwrap(), left);
}

#[test]
fn conjunctions_and_single_levels_keep_the_order_of_what_is_left() {
    let given = vec![bi(4), bi(2), bi(4), bi(3)];
    let only = SingleLevelExtender::new(vec![bi(2), bi(4)], 0);
    assert_eq!(only.intersect(&vec![], &given).unwrap(), vec![bi(4), bi(2), bi(4)]);
    let both = GenericAndPrefixExtender::new(vec![single(&[2, 4], 0), single(&[3, 4], 0)]);
    assert_eq!(both.intersect(&vec![], &given).unwrap(), vec![bi(4), bi(4)]);
}

#[test]
fn a_disjunction_passes_on_the_first_refusal() {
    let condition = || {
        Box::new(GenericPredicatePrefixExtender::new(
            Expr::Literal(DataType::Boolean(true)),
            vec![],
            var("?x"),
            0,
            holds,
        ))
    };
    let negation = || Box::new(GenericNotPrefixExtender::new(vec![], 0));
    let first = GenericOrPrefixExtender::new(vec![single(&[1], 0), condition(), negation()]);
    assert_eq!(first.propose(&vec![]).unwrap_err(), Error::PredicateProposes);
    let second = GenericOrPrefixExtender::new(vec![single(&[1], 0), negation(), condition()]);
    let refused = second.propose(&vec![]).unwrap_err();
    assert_eq!(refused, Error::NegationProposes);
    assert_eq!(
        refused.message(),
        "Propose should not be called on NOT prefix extender — variable is not bound by \
         positive clauses"
    );
}

#[test]
fn the_count_of_a_disjunction_bounds_what_it_proposes() {
    let either = GenericOrPrefixExtender::new(vec![
        single(&[1, 2, 3], 0),
        single(&[2, 3, 4], 0),
        single(&[], 0),
    ]);
    let proposed = either.propose(&vec![]).unwrap();
    assert_eq!(proposed, vec![bi(1), bi(2), bi(3), bi(4)]);
    assert_eq!(either.count(&vec![]).unwrap(), 6);
    assert!(proposed.len() <= either.count(&vec![]).unwrap());
}

#[test]
fn a_disjunction_sorts_what_its_children_leave() {
    let either = GenericOrPrefixExtender::new(vec![single(&[1, 4], 0), single(&[2, 4], 0)]);
    let given = vec![bi(4), bi(2), bi(3), bi(4), bi(1)];
    assert_eq!(either.intersect(&vec![], &given).unwrap(), vec![bi(1), bi(2), bi(4)]);
}
