use std::rc::Rc;

use triplox::codec;
use triplox::error::Error;
use triplox::iterator::generic_prefix_extender::is_temporal;
use triplox::iterator::index::{Index, VecIterator};
use triplox::iterator::temporal_filter_iterator::TemporalFilterIterator;
use triplox::query::binding_bag::BindingBag;
use triplox::query::exec_pattern::Proposal;
use triplox::query::patterns::triple::{
    look_up, Scan, TriplePattern, TriplePosition, TripleTerm,
};
use triplox::query::plan::PatternId;
use triplox::value::{DataType, IndexType};
use triplox::variable::Variable;

fn var(name: &str) -> Variable {
    Variable::new(name)
}

fn encoded(value: DataType) -> Vec<u8> {
    codec::encode(&value)
}

fn binding_bag(variables: &[&str], rows: Vec<Vec<Vec<u8>>>) -> BindingBag {
    BindingBag::new(variables.iter().map(|variable| var(variable)).collect(), rows).unwrap()
}

fn variables(entity: &str, value: &str) -> (TripleTerm, TripleTerm) {
    (TripleTerm::Variable(var(entity)), TripleTerm::Variable(var(value)))
}

struct Store {
    keys: Vec<Vec<u8>>,
    flushed: Vec<Vec<u8>>,
}

struct DbValue {
    keys: Vec<Vec<u8>>,
    flushed: Vec<Vec<u8>>,
    as_of: i64,
}

fn count_with_prefix(keys: &[Vec<u8>], prefix: &[u8]) -> usize {
    keys.iter().filter(|key| key.starts_with(prefix)).count()
}

impl Store {
    fn new() -> Self {
        Store { keys: vec![], flushed: vec![] }
    }

    fn put(&mut self, key: Vec<u8>) {
        self.keys.push(key);
        self.keys.sort();
        self.keys.dedup();
    }

    fn flush(&mut self) {
        self.flushed = self.keys.clone();
    }

    fn estimate(&self, prefix: &[u8]) -> usize {
        count_with_prefix(&self.flushed, prefix)
    }

    fn as_of(&self, as_of: i64) -> DbValue {
        DbValue { keys: self.keys.clone(), flushed: self.flushed.clone(), as_of }
    }

    fn insert_version(
        &mut self,
        attribute: i64,
        entity: i64,
        value: &DataType,
        tx_eid: i64,
        op: u8,
    ) {
        let entity = codec::encode(&DataType::Long(entity));
        let value = codec::encode(value);
        let attribute = codec::encode_i64_bytes(attribute);
        let tx_eid = codec::encode_i64_bytes(tx_eid);
        let key = |index: u8, parts: &[&[u8]]| {
            let mut key = vec![index];
            for part in parts {
                key.extend_from_slice(part);
            }
            key
        };
        self.put(key(codec::AEV, &[&attribute, &entity, &value, &tx_eid, &[op]]));
        self.put(key(codec::AVE, &[&attribute, &value, &entity, &tx_eid, &[op]]));
        if op == codec::ADD {
            self.put(key(codec::AE, &[&attribute, &entity]));
            self.put(key(codec::AV, &[&attribute, &value]));
        }
    }
}

impl DbValue {
    fn cursor(&self, scan: &Scan) -> VecIterator {
        let keys: Vec<Vec<u8>> =
            self.keys.iter().filter(|key| key.starts_with(&scan.prefix)).cloned().collect();
        if !is_temporal(scan.index_type) {
            return VecIterator::new(
                keys.iter().map(|key| key[scan.prefix.len()..].to_vec()).collect(),
            );
        }
        let mut facts =
            TemporalFilterIterator::new(VecIterator::new(keys), &scan.prefix, self.as_of).unwrap();
        let mut rest = vec![];
        while let Some(value) = facts.get_value().unwrap() {
            rest.push(value);
            facts.next().unwrap();
        }
        VecIterator::new(rest)
    }
}

#[derive(Debug)]
struct StoredPattern {
    pattern: TriplePattern,
    db: Rc<DbValue>,
}

impl std::fmt::Debug for DbValue {
    fn fmt(&self, f: &mut std::fmt::Formatter<'_>) -> std::fmt::Result {
        f.debug_struct("DbValue").field("as_of", &self.as_of).finish()
    }
}

impl StoredPattern {
    fn new(
        id: PatternId,
        entity: TripleTerm,
        attribute: i64,
        value: TripleTerm,
        db: Rc<DbValue>,
    ) -> Result<Self, Error> {
        Ok(StoredPattern { pattern: TriplePattern::new(id, entity, attribute, value)?, db })
    }

    fn join(
        &self,
        input: &BindingBag,
        added: &[Variable],
        target: &[Variable],
    ) -> Result<BindingBag, Error> {
        let mut cursor = self.db.cursor(&self.pattern.scan(input, added)?);
        self.pattern.join(input, added, target, &mut cursor)
    }

    fn validate(&self, input: &BindingBag) -> Result<BindingBag, Error> {
        let mut cursor = self.db.cursor(&self.pattern.validation_scan(input)?);
        self.pattern.validate(input, &mut cursor)
    }

    fn count(
        &self,
        input: &BindingBag,
        added: &[Variable],
        proposals: &mut Vec<Proposal>,
    ) -> Result<(), Error> {
        let estimates: Vec<usize> = self
            .pattern
            .count_prefixes(input, added)?
            .iter()
            .map(|prefix| count_with_prefix(&self.db.flushed, prefix))
            .collect();
        self.pattern.count(input, added, &estimates, proposals)
    }
}

#[test]
fn proposes_each_row_through_the_matching_index() {
    let mut store = Store::new();
    store.insert_version(42,
        1,
        &DataType::String("alice".into()),
        10,
        codec::ADD,
    );
    store.insert_version(42,
        1,
        &DataType::String("ally".into()),
        10,
        codec::ADD,
    );
    store.insert_version(42,
        2,
        &DataType::String("bob".into()),
        10,
        codec::ADD,
    );

    let (entity, value) = variables("?e", "?v");
    let db = Rc::new(store.as_of(10));
    let pattern = StoredPattern::new(7, entity, 42, value, db).unwrap();

    let mut entity_proposal = vec![Proposal::default()];
    pattern.count(&BindingBag::unit(), &[var("?e")], &mut entity_proposal).unwrap();
    assert_eq!(entity_proposal, vec![Proposal::default()]);
    assert_eq!(
        pattern.join(&BindingBag::unit(), &[var("?e")], &[var("?e")]).unwrap(),
        binding_bag(
            &["?e"],
            vec![
                vec![encoded(DataType::Long(2))],
                vec![encoded(DataType::Long(1))]
            ],
        )
    );

    let input = binding_bag(
        &["?outer", "?e"],
        vec![
            vec![encoded(DataType::Long(90)), encoded(DataType::Long(1))],
            vec![encoded(DataType::Long(91)), encoded(DataType::Long(2))],
            vec![encoded(DataType::Long(93)), encoded(DataType::Long(1))],
            vec![encoded(DataType::Long(92)), encoded(DataType::Long(3))],
        ],
    );
    let joined = pattern.join(
        &input,
        &[var("?v")],
        &[var("?v"), var("?outer"), var("?e")],
    ).unwrap();
    assert_eq!(
        joined,
        binding_bag(
            &["?v", "?outer", "?e"],
            vec![
                vec![
                    encoded(DataType::String("alice".into())),
                    encoded(DataType::Long(90)),
                    encoded(DataType::Long(1)),
                ],
                vec![
                    encoded(DataType::String("ally".into())),
                    encoded(DataType::Long(90)),
                    encoded(DataType::Long(1)),
                ],
                vec![
                    encoded(DataType::String("bob".into())),
                    encoded(DataType::Long(91)),
                    encoded(DataType::Long(2)),
                ],
                vec![
                    encoded(DataType::String("alice".into())),
                    encoded(DataType::Long(93)),
                    encoded(DataType::Long(1)),
                ],
                vec![
                    encoded(DataType::String("ally".into())),
                    encoded(DataType::Long(93)),
                    encoded(DataType::Long(1)),
                ],
            ],
        )
    );

    let value_input = binding_bag(
        &["?outer", "?v"],
        vec![
            vec![
                encoded(DataType::Long(94)),
                encoded(DataType::String("bob".into())),
            ],
            vec![
                encoded(DataType::Long(95)),
                encoded(DataType::String("alice".into())),
            ],
            vec![
                encoded(DataType::Long(96)),
                encoded(DataType::String("missing".into())),
            ],
        ],
    );
    assert_eq!(
        pattern.join(
            &value_input,
            &[var("?e")],
            &[var("?e"), var("?outer"), var("?v")],
        ).unwrap(),
        binding_bag(
            &["?e", "?outer", "?v"],
            vec![
                vec![
                    encoded(DataType::Long(2)),
                    encoded(DataType::Long(94)),
                    encoded(DataType::String("bob".into())),
                ],
                vec![
                    encoded(DataType::Long(1)),
                    encoded(DataType::Long(95)),
                    encoded(DataType::String("alice".into())),
                ],
            ],
        )
    );
}

#[test]
fn count_uses_one_range_estimate_for_duplicate_bound_terms() {
    let mut store = Store::new();
    store.insert_version(42,
        1,
        &DataType::String("alice".into()),
        10,
        codec::ADD,
    );
    store.insert_version(42,
        1,
        &DataType::String("alice".into()),
        20,
        codec::RETRACT,
    );
    store.flush();

    let entity_1 = encoded(DataType::Long(1));
    let mut prefix = vec![codec::AEV];
    prefix.extend_from_slice(&codec::encode_i64_bytes(42));
    prefix.extend_from_slice(&entity_1);
    let expected = store.estimate(&prefix);

    let (entity, value) = variables("?e", "?v");
    let pattern = StoredPattern::new(
        7,
        entity,
        42,
        value,
        Rc::new(store.as_of(20)),
    ).unwrap();
    let input = binding_bag(&["?e"], vec![vec![entity_1.clone()], vec![entity_1]]);
    let mut proposals = vec![Proposal::default(); 2];

    pattern.count(&input, &[var("?v")], &mut proposals).unwrap();

    assert_eq!(proposals[0].proposer(), Some(7));
    assert_eq!(proposals[0].count(), expected);
    assert_eq!(proposals[1], proposals[0]);
}

#[test]
fn partial_validation_is_additive_and_full_validation_is_temporal() {
    let mut store = Store::new();
    store.insert_version(42,
        1,
        &DataType::String("alice".into()),
        10,
        codec::ADD,
    );
    store.insert_version(42,
        2,
        &DataType::String("bob".into()),
        10,
        codec::ADD,
    );
    store.insert_version(42,
        2,
        &DataType::String("bob".into()),
        20,
        codec::RETRACT,
    );

    let (entity, value) = variables("?e", "?v");
    let db = Rc::new(store.as_of(20));
    let pattern = StoredPattern::new(7, entity, 42, value, db).unwrap();
    let partial = binding_bag(
        &["?outer", "?e"],
        vec![
            vec![encoded(DataType::Long(9)), encoded(DataType::Long(1))],
            vec![encoded(DataType::Long(9)), encoded(DataType::Long(1))],
            vec![encoded(DataType::Long(8)), encoded(DataType::Long(2))],
        ],
    );
    assert_eq!(pattern.join(&partial, &[], &partial.variables).unwrap(), partial);

    let partial_values = binding_bag(
        &["?outer", "?v"],
        vec![
            vec![
                encoded(DataType::Long(9)),
                encoded(DataType::String("alice".into())),
            ],
            vec![
                encoded(DataType::Long(8)),
                encoded(DataType::String("bob".into())),
            ],
        ],
    );
    assert_eq!(
        pattern.join(&partial_values, &[], &partial_values.variables).unwrap(),
        partial_values
    );

    let full = binding_bag(
        &["?v", "?outer", "?e"],
        vec![
            vec![
                encoded(DataType::String("alice".into())),
                encoded(DataType::Long(9)),
                encoded(DataType::Long(1)),
            ],
            vec![
                encoded(DataType::String("wrong".into())),
                encoded(DataType::Long(8)),
                encoded(DataType::Long(1)),
            ],
            vec![
                encoded(DataType::String("bob".into())),
                encoded(DataType::Long(7)),
                encoded(DataType::Long(2)),
            ],
        ],
    );
    assert_eq!(
        pattern.join(&full, &[], &full.variables).unwrap(),
        binding_bag(
            &["?v", "?outer", "?e"],
            vec![vec![
                encoded(DataType::String("alice".into())),
                encoded(DataType::Long(9)),
                encoded(DataType::Long(1)),
            ]],
        )
    );
}

#[test]
fn validation_rejects_patterns_without_bound_variables() {
    let mut store = Store::new();
    let db = Rc::new(store.as_of(10));
    let entity_unbound = StoredPattern::new(
        1,
        TripleTerm::Variable(var("?e")),
        42,
        TripleTerm::Constant(encoded(DataType::String("alice".into()))),
        db.clone(),
    ).unwrap();
    let value_unbound = StoredPattern::new(
        2,
        TripleTerm::Constant(encoded(DataType::Long(1))),
        42,
        TripleTerm::Variable(var("?v")),
        db,
    ).unwrap();

    assert_eq!(
        entity_unbound
            .validate(&BindingBag::unit())
            .unwrap_err()
            .message(),
        "Triple pattern 1 has no bound variables to validate"
    );
    assert_eq!(
        value_unbound
            .validate(&BindingBag::unit())
            .unwrap_err()
            .message(),
        "Triple pattern 2 has no bound variables to validate"
    );
}

#[test]
fn constant_pattern_validation_matches_exact_triple() {
    let mut store = Store::new();
    store.insert_version(
        42,
        1,
        &DataType::String("alice".into()),
        10,
        codec::ADD,
    );

    let db = Rc::new(store.as_of(10));
    let existing = StoredPattern::new(
        1,
        TripleTerm::Constant(encoded(DataType::Long(1))),
        42,
        TripleTerm::Constant(encoded(DataType::String("alice".into()))),
        db.clone(),
    ).unwrap();
    let wrong_entity = StoredPattern::new(
        2,
        TripleTerm::Constant(encoded(DataType::Long(2))),
        42,
        TripleTerm::Constant(encoded(DataType::String("alice".into()))),
        db.clone(),
    ).unwrap();
    let wrong_value = StoredPattern::new(
        3,
        TripleTerm::Constant(encoded(DataType::Long(1))),
        42,
        TripleTerm::Constant(encoded(DataType::String("bob".into()))),
        db,
    ).unwrap();

    assert_eq!(existing.validate(&BindingBag::unit()).unwrap(), BindingBag::unit());
    assert_eq!(
        wrong_entity.validate(&BindingBag::unit()).unwrap(),
        BindingBag::empty(vec![]).unwrap()
    );
    assert_eq!(
        wrong_value.validate(&BindingBag::unit()).unwrap(),
        BindingBag::empty(vec![]).unwrap()
    );
}

#[test]
fn constants_propose_the_other_position_and_constant_only_patterns_validate() {
    let mut store = Store::new();
    store.insert_version(
        42,
        1,
        &DataType::String("alice".into()),
        10,
        codec::ADD,
    );

    let db = Rc::new(store.as_of(10));
    let entity_pattern = StoredPattern::new(
        1,
        TripleTerm::Variable(var("?e")),
        42,
        TripleTerm::Constant(encoded(DataType::String("alice".into()))),
        db.clone(),
    ).unwrap();
    let entities =
        entity_pattern.join(&BindingBag::unit(), &[var("?e")], &[var("?e")]).unwrap();
    assert_eq!(
        entities,
        binding_bag(&["?e"], vec![vec![encoded(DataType::Long(1))]])
    );
    assert_eq!(
        entity_pattern
            .validate(&BindingBag::unit())
            .unwrap_err()
            .message(),
        "Triple pattern 1 has no bound variables to validate"
    );

    let value_pattern = StoredPattern::new(
        2,
        TripleTerm::Constant(encoded(DataType::Long(1))),
        42,
        TripleTerm::Variable(var("?v")),
        db.clone(),
    ).unwrap();
    let values = value_pattern.join(&BindingBag::unit(), &[var("?v")], &[var("?v")]).unwrap();
    assert_eq!(
        values,
        binding_bag(
            &["?v"],
            vec![vec![encoded(DataType::String("alice".into()))]]
        )
    );
    assert_eq!(
        value_pattern
            .validate(&BindingBag::unit())
            .unwrap_err()
            .message(),
        "Triple pattern 2 has no bound variables to validate"
    );

    let existing = StoredPattern::new(
        3,
        TripleTerm::Constant(encoded(DataType::Long(1))),
        42,
        TripleTerm::Constant(encoded(DataType::String("alice".into()))),
        db.clone(),
    ).unwrap();
    assert_eq!(
        existing.join(&BindingBag::unit(), &[], &[]).unwrap(),
        BindingBag::unit()
    );

    let missing = StoredPattern::new(
        4,
        TripleTerm::Constant(encoded(DataType::Long(2))),
        42,
        TripleTerm::Constant(encoded(DataType::String("alice".into()))),
        db,
    ).unwrap();
    assert_eq!(
        missing.join(&BindingBag::unit(), &[], &[]).unwrap(),
        BindingBag::empty(vec![]).unwrap()
    );
}

#[test]
fn historical_basis_observes_add_and_retract_boundaries() {
    let mut store = Store::new();
    store.insert_version(42,
        1,
        &DataType::String("alice".into()),
        10,
        codec::ADD,
    );
    store.insert_version(42,
        1,
        &DataType::String("alice".into()),
        20,
        codec::RETRACT,
    );

    let make_pattern = |index, as_of| {
        StoredPattern::new(
            index,
            TripleTerm::Constant(encoded(DataType::Long(1))),
            42,
            TripleTerm::Constant(encoded(DataType::String("alice".into()))),
            Rc::new(store.as_of(as_of)),
        )
    };

    assert_eq!(
        make_pattern(1, 9).unwrap().join(&BindingBag::unit(), &[], &[]).unwrap(),
        BindingBag::empty(vec![]).unwrap()
    );
    assert_eq!(
        make_pattern(2, 10).unwrap().join(&BindingBag::unit(), &[], &[]).unwrap(),
        BindingBag::unit()
    );
    assert_eq!(
        make_pattern(3, 20).unwrap().join(&BindingBag::unit(), &[], &[]).unwrap(),
        BindingBag::empty(vec![]).unwrap()
    );
}

#[test]
fn constructor_rejects_repeated_variables() {
    let mut store = Store::new();
    let db = Rc::new(store.as_of(10));
    let new = |entity, value| StoredPattern::new(7, entity, 42, value, db.clone());

    assert!(new(
        TripleTerm::Variable(var("?x")),
        TripleTerm::Variable(var("?x"))
    )
    .is_err());
}

#[test]
fn refused_proposals_say_why() {
    let store = Store::new();
    let (entity, value) = variables("?e", "?v");
    let pattern = StoredPattern::new(7, entity, 42, value, Rc::new(store.as_of(10))).unwrap();
    let bound = binding_bag(&["?e"], vec![vec![encoded(DataType::Long(1))]]);

    assert_eq!(
        pattern.join(&bound, &[var("?e")], &[var("?e")]).unwrap_err().message(),
        "Triple pattern 7 cannot add already-bound variable ?e"
    );
    assert_eq!(
        pattern.join(&bound, &[var("?z")], &[var("?e"), var("?z")]).unwrap_err().message(),
        "Triple pattern 7 cannot propose variable ?z"
    );
    assert_eq!(
        pattern.join(&bound, &[var("?v")], &[var("?e")]).unwrap_err(),
        Error::ReorderLayout
    );
    let mut proposals = vec![Proposal::default()];
    assert_eq!(
        pattern.pattern.count(&bound, &[var("?v")], &[], &mut proposals),
        Err(Error::EstimateCount)
    );
    assert_eq!(
        pattern.pattern.count(&bound, &[var("?v")], &[1], &mut vec![]),
        Err(Error::TripleProposals(7, 0, 1))
    );
}

#[test]
fn the_index_of_a_proposal_follows_what_is_known() {
    let cases = [
        (TriplePosition::Entity, false, IndexType::AE),
        (TriplePosition::Entity, true, IndexType::AVE),
        (TriplePosition::Value, false, IndexType::AV),
        (TriplePosition::Value, true, IndexType::AEV),
    ];
    for (position, known, index_type) in cases {
        assert_eq!(TriplePattern::index_type(position, known), index_type);
    }
}

#[test]
fn keys_are_looked_up_in_any_order() {
    let key = |byte: u8| vec![byte];
    let mut cursor = VecIterator::new(vec![key(1), key(3), key(5)]);

    let found = look_up(&vec![key(5), key(2), key(1), key(5), key(9)], &mut cursor).unwrap();

    assert_eq!(found, vec![true, false, true, true, false]);
}
