use triplox::query::binding_bag::BindingBag;
use triplox::variable::Variable;

fn var(name: &str) -> Variable {
    Variable::new(name)
}

fn bytes(value: &str) -> Vec<u8> {
    value.as_bytes().to_vec()
}

fn binding_bag(variables: &[&str], rows: &[&[&str]]) -> BindingBag {
    BindingBag::new(
        variables.iter().map(|variable| var(variable)).collect(),
        rows.iter().map(|row| row.iter().map(|value| bytes(value)).collect()).collect(),
    )
    .unwrap()
}

#[test]
fn construction_rejects_duplicate_variables_and_wrong_row_arity() {
    let x = var("?x");

    assert!(BindingBag::new(vec![x.clone(), x], vec![]).is_err());
    assert!(BindingBag::new(vec![var("?x")], vec![vec![]]).is_err());
}

#[test]
fn column_lookup_reports_unknown_variables() {
    let bindings = binding_bag(&["?x", "?y"], &[&["a", "b"]]);

    assert_eq!(bindings.column_index(&var("?x")).unwrap(), 0);
    assert_eq!(bindings.column_index(&var("?y")).unwrap(), 1);
    assert!(bindings.column_index(&var("?z")).is_err());
}

#[test]
fn unit_and_empty_have_relational_identity_layouts() {
    let unit = BindingBag::unit();
    let empty = BindingBag::empty(vec![var("?x")]).unwrap();

    assert!(unit.variables.is_empty());
    assert_eq!(unit.rows, &[Vec::<Vec<u8>>::new()]);
    assert_eq!(empty.variables, [var("?x")]);
    assert!(empty.rows.is_empty());
}

#[test]
fn row_selection_preserves_requested_order_and_multiplicity() {
    let bindings = binding_bag(&["?x"], &[&["a"], &["b"], &["c"]]);

    let selected = bindings.select_rows(&[2, 0, 2]).unwrap();

    assert_eq!(selected, binding_bag(&["?x"], &[&["c"], &["a"], &["c"]]));
    assert!(bindings.select_rows(&[3]).is_err());
}

#[test]
fn row_extension_supports_one_to_many_results() {
    let bindings = binding_bag(&["?x"], &[&["a"], &["b"]]);

    let extended = bindings
        .extend_rows(
            vec![var("?y")],
            vec![vec![vec![bytes("1")], vec![bytes("2")]], vec![]],
        )
        .unwrap();

    assert_eq!(
        extended,
        binding_bag(&["?x", "?y"], &[&["a", "1"], &["a", "2"]])
    );
    assert!(bindings
        .extend_rows(vec![var("?y")], vec![vec![]])
        .is_err());
    assert!(bindings
        .extend_rows(
            vec![var("?y")],
            vec![vec![vec![]], vec![vec![bytes("1")]]],
        )
        .is_err());
    assert!(bindings
        .extend_rows(vec![var("?x")], vec![vec![], vec![]])
        .is_err());
}

#[test]
fn projection_and_reorder_address_columns_by_variable() {
    let bindings = binding_bag(
        &["?x", "?y", "?z"],
        &[&["x1", "y1", "z1"], &["x2", "y2", "z2"]],
    );

    assert_eq!(
        bindings.project(&[var("?z"), var("?x")]).unwrap(),
        binding_bag(&["?z", "?x"], &[&["z1", "x1"], &["z2", "x2"]])
    );
    assert_eq!(
        bindings
            .reorder(&[var("?z"), var("?x"), var("?y")])
            .unwrap(),
        binding_bag(
            &["?z", "?x", "?y"],
            &[&["z1", "x1", "y1"], &["z2", "x2", "y2"]],
        )
    );
    assert!(bindings.project(&[var("?missing")]).is_err());
    assert!(bindings.project(&[var("?x"), var("?x")]).is_err());
    assert!(bindings.reorder(&[var("?x"), var("?y")]).is_err());
}

#[test]
fn distinct_removes_complete_row_duplicates_stably() {
    let bindings = binding_bag(
        &["?x", "?y"],
        &[&["a", "1"], &["b", "2"], &["a", "1"], &["a", "3"]],
    );

    assert_eq!(
        bindings.distinct(),
        binding_bag(&["?x", "?y"], &[&["a", "1"], &["b", "2"], &["a", "3"]],)
    );
}

#[test]
fn row_index_preserves_all_source_row_indexes() {
    let bindings = binding_bag(&["?x", "?y"], &[&["a", "1"], &["b", "1"], &["c", "2"]]);

    let by_y = bindings.index_by(&[var("?y")]).unwrap();
    assert_eq!(by_y.get(&vec![bytes("1")]), Some(&vec![0, 1]));
    assert_eq!(by_y.get(&vec![bytes("2")]), Some(&vec![2]));

    let by_nothing = bindings.index_by(&[]).unwrap();
    assert_eq!(by_nothing.get(&vec![]), Some(&vec![0, 1, 2]));
    assert!(bindings.index_by(&[var("?missing")]).is_err());
}

#[test]
fn natural_join_preserves_bag_multiplicity_and_layout_order() {
    let left = binding_bag(&["?x"], &[&["a"], &["a"], &["b"]]);
    let right = binding_bag(
        &["?x", "?y"],
        &[&["a", "1"], &["a", "1"], &["a", "2"], &["c", "3"]],
    );

    let joined = left.natural_join(&right).unwrap();

    assert_eq!(
        joined,
        binding_bag(
            &["?x", "?y"],
            &[
                &["a", "1"],
                &["a", "1"],
                &["a", "2"],
                &["a", "1"],
                &["a", "1"],
                &["a", "2"],
            ],
        )
    );
}

#[test]
fn natural_join_without_shared_variables_is_a_cartesian_product() {
    let left = binding_bag(&["?x"], &[&["a"], &["b"]]);
    let right = binding_bag(&["?y"], &[&["1"], &["2"]]);

    assert_eq!(
        left.natural_join(&right).unwrap(),
        binding_bag(
            &["?x", "?y"],
            &[&["a", "1"], &["a", "2"], &["b", "1"], &["b", "2"]],
        )
    );
}

#[test]
fn semijoin_and_antijoin_filter_without_multiplying_left_rows() {
    let left = binding_bag(
        &["?x", "?value"],
        &[&["a", "1"], &["a", "1"], &["b", "2"], &["c", "3"]],
    );
    let right = binding_bag(&["?x"], &[&["a"], &["a"], &["c"]]);

    assert_eq!(
        left.semijoin(&right).unwrap(),
        binding_bag(&["?x", "?value"], &[&["a", "1"], &["a", "1"], &["c", "3"]],)
    );
    assert_eq!(
        left.antijoin(&right).unwrap(),
        binding_bag(&["?x", "?value"], &[&["b", "2"]])
    );
}

#[test]
fn union_has_bag_semantics_and_requires_identical_layouts() {
    let left = binding_bag(&["?x"], &[&["a"], &["a"]]);
    let right = binding_bag(&["?x"], &[&["a"], &["b"]]);

    assert_eq!(
        left.union(&right).unwrap(),
        binding_bag(&["?x"], &[&["a"], &["a"], &["a"], &["b"]])
    );
    assert_eq!(
        left.distinct_union(&right).unwrap(),
        binding_bag(&["?x"], &[&["a"], &["b"]])
    );
    assert!(left.union(&binding_bag(&["?y"], &[&["a"]])).is_err());
}

#[test]
fn zero_column_relations_follow_relational_identity_rules() {
    let unit = BindingBag::unit();
    let empty = BindingBag::empty(vec![]).unwrap();
    let values = binding_bag(&["?x"], &[&["a"], &["b"]]);

    assert_eq!(unit.natural_join(&values).unwrap(), values);
    assert_eq!(values.natural_join(&unit).unwrap(), values);
    assert_eq!(
        empty.natural_join(&values).unwrap(),
        BindingBag::empty(vec![var("?x")]).unwrap()
    );
    assert_eq!(values.semijoin(&unit).unwrap(), values);
    assert_eq!(
        values.semijoin(&empty).unwrap(),
        BindingBag::empty(vec![var("?x")]).unwrap()
    );
    assert_eq!(
        values.antijoin(&unit).unwrap(),
        BindingBag::empty(vec![var("?x")]).unwrap()
    );
    assert_eq!(values.antijoin(&empty).unwrap(), values);
    assert_eq!(unit.union(&unit).unwrap().rows.len(), 2);
    assert_eq!(unit.distinct_union(&unit).unwrap(), unit);
}

#[test]
fn refused_bags_say_what_is_wrong() {
    let x = || vec![var("?x")];
    let said = |r: Result<BindingBag, triplox::error::Error>| r.err().unwrap().message();
    assert_eq!(
        said(BindingBag::new(vec![var("?x"), var("?y"), var("?x")], vec![])),
        "BindingBag variables must be unique: ?x"
    );
    assert_eq!(
        said(BindingBag::new(x(), vec![vec![vec![1]], vec![]])),
        "BindingBag row 1 has arity 0, expected 1"
    );
    let bag = BindingBag::new(x(), vec![vec![vec![1]]]).unwrap();
    assert_eq!(
        bag.column_index(&var("?z")).unwrap_err().message(),
        "Unknown BindingBag variable: ?z"
    );
    assert_eq!(
        said(bag.project(&[var("?x"), var("?x")])),
        "Projection variables must be unique: ?x"
    );
    assert_eq!(said(bag.select_rows(&[0, 3])), "Unknown BindingBag row index: 3");
    assert_eq!(
        said(bag.extend_rows(vec![var("?y")], vec![])),
        "BindingBag extensions have 0 input rows, expected 1"
    );
    assert_eq!(
        said(bag.extend_rows(vec![var("?y"), var("?x")], vec![vec![]])),
        "Extended BindingBag variables must be unique: ?x"
    );
    assert_eq!(
        said(bag.extend_rows(vec![var("?y")], vec![vec![vec![vec![2]], vec![]]])),
        "BindingBag extension has arity 0, expected 1"
    );
    assert_eq!(
        said(bag.reorder(&[])),
        "Reordered layout must contain exactly the current variables"
    );
    let other = BindingBag::empty(vec![var("?y")]).unwrap();
    assert_eq!(said(bag.union(&other)), "Union requires identical BindingBag layouts");
}
