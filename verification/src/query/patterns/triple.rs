//! Patterns that match stored facts.
//!
//! A pattern tells which scan of which index it needs; the scan is opened outside, and the
//! pattern works on the cursor.

use vstd::prelude::*;

use crate::byte_string::{
    self, append_bytes, ascending_places, copy_bytes, has_prefix, joined, same_bytes, slice_of, Row,
};
use crate::codec::{self, encode_i64, index_type_to_prefix};
use crate::error::{Error, ErrorView};
use crate::iterator::index::{self, Index};
use crate::query::binding_bag::{self, BindingBag, BindingRow, Relation};
use crate::query::exec_pattern::{self, Proposal};
use crate::query::plan::PatternId;
use crate::value::IndexType;
use crate::text;
use crate::variable::{self, contains, copy_all, list_text, Name, Variable};

verus! {

/// What stands in the entity or the value position of a triple.
#[derive(Debug, PartialEq, Eq)]
pub enum TripleTerm {
    Variable(Variable),
    Constant(Vec<u8>),
}

/// What a term is.
pub enum TermView {
    Variable(Name),
    Constant(Seq<u8>),
}

impl View for TripleTerm {
    type V = TermView;

    open spec fn view(&self) -> TermView {
        match self {
            TripleTerm::Variable(v) => TermView::Variable(v@),
            TripleTerm::Constant(c) => TermView::Constant(c@),
        }
    }
}

impl TermView {
    /// Whether the term has a value in rows of that layout.
    pub open spec fn resolved(self, layout: Seq<Name>) -> bool {
        match self {
            TermView::Variable(v) => layout.contains(v),
            TermView::Constant(_) => true,
        }
    }

    /// The value of the term in a row of that layout.
    pub open spec fn bytes(self, layout: Seq<Name>, row: Row) -> Seq<u8> {
        match self {
            TermView::Variable(v) => row[layout.index_of(v)],
            TermView::Constant(c) => c,
        }
    }
}

impl TripleTerm {
    /// Whether the term is a variable.
    fn is_variable(&self) -> (r: bool)
        ensures
            r == (self@ is Variable),
    {
        match self {
            TripleTerm::Variable(_) => true,
            TripleTerm::Constant(_) => false,
        }
    }

    /// Whether the term has a value in the rows of a bag.
    fn is_resolved(&self, input: &BindingBag) -> (r: bool)
        ensures
            r == self@.resolved(input@.variables),
    {
        match self {
            TripleTerm::Variable(v) => contains(&input.variables, v),
            TripleTerm::Constant(_) => true,
        }
    }

    /// The value of the term in a row of a bag, if it has one.
    pub fn resolve(&self, input: &BindingBag, row: &BindingRow) -> (r: Option<Vec<u8>>)
        requires
            input@.wf(),
            row@.len() == input@.variables.len(),
        ensures
            match r {
                Some(value) => self@.resolved(input@.variables) && value@ == self@.bytes(
                    input@.variables,
                    row.deep_view(),
                ),
                None => !self@.resolved(input@.variables),
            },
    {
        match self {
            TripleTerm::Variable(v) => match input.column_index(v) {
                Ok(col) => {
                    proof {
                        byte_string::lemma_deep_bytes(&row@[col as int]);
                        assert(input@.variables.contains(input@.variables[col as int]));
                    }
                    Some(copy_bytes(&row[col]))
                },
                Err(_) => None,
            },
            TripleTerm::Constant(c) => Some(copy_bytes(c)),
        }
    }
}

/// The positions of a triple that a variable can stand in.
#[derive(Clone, Copy, Debug, PartialEq, Eq, Structural)]
pub enum TriplePosition {
    Entity,
    Value,
}

/// A scan of an index: its keys that begin with a prefix. What a cursor over the scan shows of
/// a key is what stands between the prefix and, in an index that keeps them, the transaction
/// and the operation.
#[derive(Debug, PartialEq, Eq)]
pub struct Scan {
    pub index_type: IndexType,
    pub prefix: Vec<u8>,
}

/// What a scan is.
pub struct ScanView {
    pub index_type: IndexType,
    pub prefix: Seq<u8>,
}

impl View for Scan {
    type V = ScanView;

    open spec fn view(&self) -> ScanView {
        ScanView { index_type: self.index_type, prefix: self.prefix@ }
    }
}

/// A pattern that matches the facts of one attribute.
#[derive(Debug)]
pub struct TriplePattern {
    pub id: PatternId,
    pub variables: Vec<Variable>,
    pub entity: TripleTerm,
    pub attribute: i64,
    pub value: TripleTerm,
}

/// The beginning of an attribute's keys in an index.
pub open spec fn base(index_type: IndexType, attribute: i64) -> Seq<u8> {
    seq![codec::index_prefix(index_type)] + codec::i64_bytes(attribute)
}

/// How rows of a layout are checked: the scan, and whether its entries are to hold the entity,
/// the value, or both and in which order.
pub enum Check {
    Value(ScanView),
    Entity(ScanView),
    EntityValue(ScanView),
    ValueEntity(ScanView),
}

impl Check {
    /// The scan.
    pub open spec fn scan(self) -> ScanView {
        match self {
            Check::Value(s) => s,
            Check::Entity(s) => s,
            Check::EntityValue(s) => s,
            Check::ValueEntity(s) => s,
        }
    }

    /// What the scan has to hold of a row.
    pub open spec fn key(self, entity: Seq<u8>, value: Seq<u8>) -> Seq<u8> {
        match self {
            Check::Value(_) => value,
            Check::Entity(_) => entity,
            Check::EntityValue(_) => entity + value,
            Check::ValueEntity(_) => value + entity,
        }
    }
}

/// The index that proposes one position of a triple: with the other position known, the index
/// of both; else the index of the one.
pub open spec fn proposal_index(position: TriplePosition, other_resolved: bool) -> IndexType {
    match (position, other_resolved) {
        (TriplePosition::Entity, false) => IndexType::AE,
        (TriplePosition::Entity, true) => IndexType::AVE,
        (TriplePosition::Value, false) => IndexType::AV,
        (TriplePosition::Value, true) => IndexType::AEV,
    }
}

/// The rows with a key that the scan holds.
pub open spec fn found_rows(
    rows: Seq<Row>,
    keys: Seq<Seq<u8>>,
    entries: Seq<Seq<u8>>,
) -> Seq<Row>
    decreases rows.len(),
{
    if rows.len() == 0 {
        Seq::empty()
    } else {
        let earlier = found_rows(rows.drop_last(), keys.drop_last(), entries);
        if entries.contains(keys.last()) {
            earlier.push(rows.last())
        } else {
            earlier
        }
    }
}

/// The entries that begin with a key.
pub open spec fn beginning_with(entries: Seq<Seq<u8>>, key: Seq<u8>) -> Seq<Seq<u8>>
    decreases entries.len(),
{
    if entries.len() == 0 {
        Seq::empty()
    } else {
        let earlier = beginning_with(entries.drop_last(), key);
        if byte_string::begins_with(entries.last(), key) {
            earlier.push(entries.last())
        } else {
            earlier
        }
    }
}

/// Byte strings without their first bytes, each as a row of one value.
pub open spec fn rests(found: Seq<Seq<u8>>, key: Seq<u8>) -> Seq<Row> {
    Seq::new(found.len(), |i: int| seq![found[i].skip(key.len() as int)])
}

/// What follows the key in each entry that begins with it, as rows of one value.
pub open spec fn continuations(entries: Seq<Seq<u8>>, key: Seq<u8>) -> Seq<Row> {
    rests(beginning_with(entries, key), key)
}

impl TriplePattern {
    /// How rows of a layout are checked, where they can be.
    pub open spec fn check(self, layout: Seq<Name>) -> Option<Check> {
        let e = self.entity@;
        let v = self.value@;
        let aev = ScanView {
            index_type: IndexType::AEV,
            prefix: base(IndexType::AEV, self.attribute),
        };
        let ave = ScanView {
            index_type: IndexType::AVE,
            prefix: base(IndexType::AVE, self.attribute),
        };
        match (e, v) {
            (TermView::Constant(c), TermView::Constant(_)) => Some(
                Check::Value(ScanView { index_type: IndexType::AEV, prefix: aev.prefix + c }),
            ),
            (TermView::Variable(_), TermView::Constant(_)) => if e.resolved(layout) {
                Some(Check::ValueEntity(ave))
            } else {
                None
            },
            (TermView::Constant(_), TermView::Variable(_)) => if v.resolved(layout) {
                Some(Check::EntityValue(aev))
            } else {
                None
            },
            (TermView::Variable(_), TermView::Variable(_)) => if e.resolved(layout) && v.resolved(
                layout,
            ) {
                Some(Check::EntityValue(aev))
            } else if e.resolved(layout) {
                Some(
                    Check::Entity(
                        ScanView {
                            index_type: IndexType::AE,
                            prefix: base(IndexType::AE, self.attribute),
                        },
                    ),
                )
            } else if v.resolved(layout) {
                Some(
                    Check::Value(
                        ScanView {
                            index_type: IndexType::AV,
                            prefix: base(IndexType::AV, self.attribute),
                        },
                    ),
                )
            } else {
                None
            },
        }
    }

    /// What the scan has to hold of each row.
    pub open spec fn check_keys(self, input: Relation) -> Seq<Seq<u8>> {
        Seq::new(
            input.rows.len(),
            |i: int|
                self.check(input.variables).unwrap().key(
                    self.entity@.bytes(input.variables, input.rows[i]),
                    self.value@.bytes(input.variables, input.rows[i]),
                ),
        )
    }

    /// A pattern over two different variables, or fewer.
    pub fn new(id: PatternId, entity: TripleTerm, attribute: i64, value: TripleTerm) -> (r: Result<
        Self,
        Error,
    >)
        ensures
            match r {
                Ok(p) => p.id == id && p.entity == entity && p.value == value && p.attribute
                    == attribute && p.variables.deep_view() == names_of(entity@) + names_of(value@)
                    && variable::unique(p.variables.deep_view()),
                Err(e) => entity@ is Variable && entity@ == value@ && e@
                    == ErrorView::TripleRepeats(id, entity@->Variable_0),
            },
    {
        let mut variables: Vec<Variable> = Vec::new();
        if let TripleTerm::Variable(v) = &entity {
            let copy = v.clone();
            let ghost earlier = variables;
            variables.push(copy);
            proof {
                byte_string::lemma_deep_push(earlier, variables, copy);
            }
        }
        assert(variables.deep_view() =~= names_of(entity@));
        if let TripleTerm::Variable(v) = &value {
            if contains(&variables, v) {
                return Err(Error::TripleRepeats(id, v.name.clone()));
            }
            let copy = v.clone();
            let ghost earlier = variables;
            variables.push(copy);
            proof {
                byte_string::lemma_deep_push(earlier, variables, copy);
                binding_bag::lemma_unique_push(earlier.deep_view(), copy@);
            }
        }
        assert(variables.deep_view() =~= names_of(entity@) + names_of(value@));
        Ok(TriplePattern { id, variables, entity, attribute, value })
    }

    /// The beginning of the attribute's keys in an index.
    fn base_prefix(&self, index_type: IndexType) -> (r: Vec<u8>)
        ensures
            r@ == base(index_type, self.attribute),
    {
        let mut prefix: Vec<u8> = Vec::new();
        prefix.push(index_type_to_prefix(index_type));
        encode_i64(self.attribute, &mut prefix);
        assert(prefix@ =~= base(index_type, self.attribute));
        prefix
    }

    /// The scan with which the rows of an input are checked.
    pub fn validation_scan(&self, input: &BindingBag) -> (r: Result<Scan, Error>)
        ensures
            match r {
                Ok(scan) => self.check(input@.variables) matches Some(check) && check.scan()
                    == scan@,
                Err(e) => e@ == ErrorView::NothingBound(self.id) && self.check(input@.variables) is None,
            },
    {
        let entity_bound = self.entity.is_resolved(input);
        let value_bound = self.value.is_resolved(input);
        match (&self.entity, &self.value) {
            (TripleTerm::Constant(entity), TripleTerm::Constant(_)) => {
                let mut prefix = self.base_prefix(IndexType::AEV);
                append_bytes(&mut prefix, entity);
                Ok(Scan { index_type: IndexType::AEV, prefix })
            },
            (TripleTerm::Variable(_), TripleTerm::Constant(_)) => if entity_bound {
                Ok(Scan { index_type: IndexType::AVE, prefix: self.base_prefix(IndexType::AVE) })
            } else {
                Err(Error::NothingBound(self.id))
            },
            (TripleTerm::Constant(_), TripleTerm::Variable(_)) => if value_bound {
                Ok(Scan { index_type: IndexType::AEV, prefix: self.base_prefix(IndexType::AEV) })
            } else {
                Err(Error::NothingBound(self.id))
            },
            (TripleTerm::Variable(_), TripleTerm::Variable(_)) => if entity_bound && value_bound {
                Ok(Scan { index_type: IndexType::AEV, prefix: self.base_prefix(IndexType::AEV) })
            } else if entity_bound {
                Ok(Scan { index_type: IndexType::AE, prefix: self.base_prefix(IndexType::AE) })
            } else if value_bound {
                Ok(Scan { index_type: IndexType::AV, prefix: self.base_prefix(IndexType::AV) })
            } else {
                Err(Error::NothingBound(self.id))
            },
        }
    }

    /// What the scan has to hold of a row.
    fn check_key(&self, input: &BindingBag, row: &BindingRow) -> (r: Vec<u8>)
        requires
            input@.wf(),
            row@.len() == input@.variables.len(),
            self.check(input@.variables) is Some,
        ensures
            r@ == self.check(input@.variables).unwrap().key(
                self.entity@.bytes(input@.variables, row.deep_view()),
                self.value@.bytes(input@.variables, row.deep_view()),
            ),
    {
        let entity = self.entity.resolve(input, row);
        let value = self.value.resolve(input, row);
        match (entity, value) {
            (Some(e), Some(v)) => {
                if !self.entity.is_variable() && !self.value.is_variable() {
                    v
                } else if self.entity.is_variable() && !self.value.is_variable() {
                    joined(&v, &e)
                } else {
                    joined(&e, &v)
                }
            },
            (Some(e), None) => e,
            (None, Some(v)) => v,
            (None, None) => {
                assert(false);
                Vec::new()
            },
        }
    }

    /// The rows that the stored facts confirm, where the cursor is over the scan that the
    /// pattern asked for. Rows in which one of two variables is bound are kept if any fact has
    /// ever had its value there.
    pub fn validate<I: Index>(&self, input: &BindingBag, iterator: &mut I) -> (r: Result<
        BindingBag,
        Error,
    >)
        requires
            input@.wf(),
            old(iterator).inv(),
            old(iterator).position() == 0,
        ensures
            match r {
                Ok(bag) => bag@.wf() && bag@.variables == input@.variables && if input@.rows.len()
                    == 0 {
                    bag@.rows == input@.rows
                } else {
                    self.check(input@.variables) is Some && bag@.rows == found_rows(
                        input@.rows,
                        self.check_keys(input@),
                        old(iterator).entries(),
                    )
                },
                Err(e) => input@.rows.len() > 0 && (if self.check(input@.variables) is None {
                    e@ == ErrorView::NothingBound(self.id)
                } else {
                    !old(iterator).reliable()
                }),
            },
    {
        assert(input@.rows.len() == input.rows@.len());
        if input.rows.len() == 0 {
            return Ok(input.copy());
        }
        match self.validation_scan(input) {
            Ok(_) => {},
            Err(e) => {
                return Err(e);
            },
        }
        let ghost wanted = self.check_keys(input@);
        let mut keys: Vec<Vec<u8>> = Vec::new();
        let mut i: usize = 0;
        while i < input.rows.len()
            invariant
                i <= input.rows@.len() == input@.rows.len(),
                input@.wf(),
                self.check(input@.variables) is Some,
                wanted == self.check_keys(input@),
                keys.deep_view() == wanted.take(i as int),
            decreases input.rows@.len() - i,
        {
            assert(input@.rows[i as int].len() == input.rows@[i as int]@.len());
            let key = self.check_key(input, &input.rows[i]);
            let ghost earlier = keys;
            keys.push(key);
            proof {
                byte_string::lemma_deep_bytes(&key);
                byte_string::lemma_deep_push(earlier, keys, key);
            }
            i += 1;
            assert(keys.deep_view() =~= wanted.take(i as int));
        }
        assert(wanted.take(i as int) =~= wanted);
        let matches = match look_up(&keys, iterator) {
            Ok(matches) => matches,
            Err(e) => {
                return Err(e);
            },
        };
        let rows = select_matches(input, &matches, Ghost(wanted), Ghost(old(iterator).entries()));
        Ok(BindingBag { variables: copy_all(&input.variables), rows })
    }
}

impl TriplePattern {
    /// The position of a variable.
    pub open spec fn place_of(self, name: Name) -> Option<TriplePosition> {
        if self.entity@ == TermView::Variable(name) {
            Some(TriplePosition::Entity)
        } else if self.value@ == TermView::Variable(name) {
            Some(TriplePosition::Value)
        } else {
            None
        }
    }

    /// What stands in the other position.
    pub open spec fn other(self, position: TriplePosition) -> TermView {
        match position {
            TriplePosition::Entity => self.value@,
            TriplePosition::Value => self.entity@,
        }
    }

    /// The scan that proposes a position for rows of a layout.
    pub open spec fn proposal(self, position: TriplePosition, layout: Seq<Name>) -> ScanView {
        let other = self.other(position);
        let index_type = proposal_index(position, other.resolved(layout));
        let start = base(index_type, self.attribute);
        ScanView {
            index_type,
            prefix: match other {
                TermView::Variable(_) => start,
                TermView::Constant(c) => start + c,
            },
        }
    }

    /// Why variables cannot be proposed for rows of a layout, if they cannot.
    pub open spec fn proposal_fault(self, layout: Seq<Name>, added: Seq<Name>) -> Option<ErrorView> {
        if added.len() != 1 {
            Some(ErrorView::TripleProposesOne(self.id, text::listed(added)))
        } else if layout.contains(added[0]) {
            Some(ErrorView::TripleBound(self.id, added[0]))
        } else if self.place_of(added[0]) is None {
            Some(ErrorView::TripleCannotPropose(self.id, added[0]))
        } else {
            None
        }
    }

    /// What a row is to be looked up by in the scan that proposes a position: the value of
    /// the other position, where it is a bound variable.
    pub open spec fn proposal_key(
        self,
        position: TriplePosition,
        layout: Seq<Name>,
        row: Row,
    ) -> Seq<u8> {
        match self.other(position) {
            TermView::Variable(v) => if layout.contains(v) {
                row[layout.index_of(v)]
            } else {
                Seq::empty()
            },
            TermView::Constant(_) => Seq::empty(),
        }
    }

    /// What the rows are to be looked up by.
    pub open spec fn proposal_keys(self, position: TriplePosition, input: Relation) -> Seq<
        Seq<u8>,
    > {
        Seq::new(
            input.rows.len(),
            |i: int| self.proposal_key(position, input.variables, input.rows[i]),
        )
    }

    /// The ways to extend each row.
    pub open spec fn candidates(
        self,
        position: TriplePosition,
        input: Relation,
        entries: Seq<Seq<u8>>,
    ) -> Seq<Seq<Row>> {
        Seq::new(
            input.rows.len(),
            |i: int|
                continuations(
                    entries,
                    self.proposal_key(position, input.variables, input.rows[i]),
                ),
        )
    }

    /// Why a join is refused, if it is.
    pub open spec fn join_fault(
        self,
        input: Relation,
        added: Seq<Name>,
        target: Seq<Name>,
    ) -> Option<ErrorView> {
        if added.len() == 0 {
            if input.rows.len() > 0 && self.check(input.variables) is None {
                Some(ErrorView::NothingBound(self.id))
            } else {
                reorder_fault(input.variables, target)
            }
        } else {
            match self.proposal_fault(input.variables, added) {
                Some(e) => Some(e),
                None => reorder_fault(input.variables + added, target),
            }
        }
    }

    /// What a join gives before its columns are put in order.
    pub open spec fn joined(
        self,
        input: Relation,
        added: Seq<Name>,
        entries: Seq<Seq<u8>>,
    ) -> Relation {
        if added.len() == 0 {
            Relation {
                variables: input.variables,
                rows: if input.rows.len() == 0 {
                    input.rows
                } else {
                    found_rows(input.rows, self.check_keys(input), entries)
                },
            }
        } else {
            Relation {
                variables: input.variables + added,
                rows: binding_bag::extended(
                    input.rows,
                    self.candidates(self.place_of(added[0]).unwrap(), input, entries),
                ),
            }
        }
    }

    /// The position of a variable.
    fn position_for_variable(&self, variable: &Variable) -> (r: Option<TriplePosition>)
        ensures
            r == self.place_of(variable@),
    {
        if let TripleTerm::Variable(v) = &self.entity {
            if v.same(variable) {
                return Some(TriplePosition::Entity);
            }
        }
        if let TripleTerm::Variable(v) = &self.value {
            if v.same(variable) {
                return Some(TriplePosition::Value);
            }
        }
        None
    }

    /// What stands in the other position.
    fn other_term(&self, position: TriplePosition) -> (r: &TripleTerm)
        ensures
            r@ == self.other(position),
    {
        match position {
            TriplePosition::Entity => &self.value,
            TriplePosition::Value => &self.entity,
        }
    }

    /// The index that proposes a position.
    pub fn index_type(position: TriplePosition, other_resolved: bool) -> (r: IndexType)
        ensures
            r == proposal_index(position, other_resolved),
    {
        match (position, other_resolved) {
            (TriplePosition::Entity, false) => IndexType::AE,
            (TriplePosition::Entity, true) => IndexType::AVE,
            (TriplePosition::Value, false) => IndexType::AV,
            (TriplePosition::Value, true) => IndexType::AEV,
        }
    }

    /// The position of the one variable that is added, where it can be proposed.
    fn proposed_position(&self, input: &BindingBag, added: &[Variable]) -> (r: Result<
        TriplePosition,
        Error,
    >)
        ensures
            match r {
                Ok(position) => self.proposal_fault(input@.variables, added.deep_view()) is None
                    && self.place_of(added.deep_view()[0]) == Some(position),
                Err(e) => self.proposal_fault(input@.variables, added.deep_view()) == Some(e@),
            },
    {
        assert(added.deep_view().len() == added@.len());
        if added.len() != 1 {
            return Err(Error::TripleProposesOne(self.id, list_text(added)));
        }
        if contains(&input.variables, &added[0]) {
            return Err(Error::TripleBound(self.id, added[0].name.clone()));
        }
        match self.position_for_variable(&added[0]) {
            Some(position) => Ok(position),
            None => Err(Error::TripleCannotPropose(self.id, added[0].name.clone())),
        }
    }

    /// The scan that proposes a position.
    fn proposal_scan(&self, input: &BindingBag, position: TriplePosition) -> (r: Scan)
        ensures
            r@ == self.proposal(position, input@.variables),
    {
        let other = self.other_term(position);
        let index_type = Self::index_type(position, other.is_resolved(input));
        let mut prefix = self.base_prefix(index_type);
        if let TripleTerm::Constant(c) = other {
            append_bytes(&mut prefix, c);
        }
        Scan { index_type, prefix }
    }

    /// The scan that a join needs. A join of no rows needs none.
    pub fn scan(&self, input: &BindingBag, added: &[Variable]) -> (r: Result<Scan, Error>)
        ensures
            match r {
                Ok(scan) => if added@.len() == 0 {
                    self.check(input@.variables) matches Some(check) && check.scan() == scan@
                } else {
                    self.proposal_fault(input@.variables, added.deep_view()) is None && scan@
                        == self.proposal(
                        self.place_of(added.deep_view()[0]).unwrap(),
                        input@.variables,
                    )
                },
                Err(e) => if added@.len() == 0 {
                    e@ == ErrorView::NothingBound(self.id) && self.check(input@.variables) is None
                } else {
                    self.proposal_fault(input@.variables, added.deep_view()) == Some(e@)
                },
            },
    {
        if added.len() == 0 {
            return self.validation_scan(input);
        }
        match self.proposed_position(input, added) {
            Ok(position) => Ok(self.proposal_scan(input, position)),
            Err(e) => Err(e),
        }
    }

    /// The ways to extend each row by a value of a position, where the cursor is over the scan
    /// that proposes the position.
    pub fn candidate_extensions<I: Index>(
        &self,
        input: &BindingBag,
        position: TriplePosition,
        iterator: &mut I,
    ) -> (r: Result<Vec<Vec<BindingRow>>, Error>)
        requires
            input@.wf(),
            old(iterator).inv(),
            old(iterator).position() == 0,
        ensures
            match r {
                Ok(extensions) => extensions.deep_view() == self.candidates(
                    position,
                    input@,
                    old(iterator).entries(),
                ),
                Err(_) => !old(iterator).reliable(),
            },
    {
        let ghost wanted = self.proposal_keys(position, input@);
        let other = self.other_term(position);
        let mut keys: Vec<Vec<u8>> = Vec::new();
        let mut i: usize = 0;
        assert(keys.deep_view() =~= wanted.take(0));
        while i < input.rows.len()
            invariant
                i <= input.rows@.len() == input@.rows.len(),
                input@.wf(),
                other@ == self.other(position),
                wanted == self.proposal_keys(position, input@),
                keys.deep_view() == wanted.take(i as int),
            decreases input.rows@.len() - i,
        {
            assert(input@.rows[i as int].len() == input.rows@[i as int]@.len());
            let key = match other {
                TripleTerm::Variable(_) => match other.resolve(input, &input.rows[i]) {
                    Some(value) => value,
                    None => Vec::new(),
                },
                TripleTerm::Constant(_) => Vec::new(),
            };
            assert(key@ =~= wanted[i as int]);
            let ghost earlier = keys;
            keys.push(key);
            proof {
                byte_string::lemma_deep_bytes(&key);
                byte_string::lemma_deep_push(earlier, keys, key);
            }
            i += 1;
            assert(keys.deep_view() =~= wanted.take(i as int));
        }
        assert(wanted.take(i as int) =~= wanted);
        match continue_all(&keys, iterator) {
            Ok(extensions) => {
                assert(extensions.deep_view() =~= self.candidates(
                    position,
                    input@,
                    old(iterator).entries(),
                ));
                Ok(extensions)
            },
            Err(e) => Err(e),
        }
    }

    /// The rows extended by the one added variable, where the cursor is over the scan that
    /// proposes it.
    pub fn propose<I: Index>(
        &self,
        input: &BindingBag,
        added: &[Variable],
        iterator: &mut I,
    ) -> (r: Result<BindingBag, Error>)
        requires
            input@.wf(),
            old(iterator).inv(),
            old(iterator).position() == 0,
        ensures
            match r {
                Ok(bag) => self.proposal_fault(input@.variables, added.deep_view()) is None
                    && bag@.wf() && bag@ == (Relation {
                    variables: input@.variables + added.deep_view(),
                    rows: binding_bag::extended(
                        input@.rows,
                        self.candidates(
                            self.place_of(added.deep_view()[0]).unwrap(),
                            input@,
                            old(iterator).entries(),
                        ),
                    ),
                }),
                Err(e) => match self.proposal_fault(input@.variables, added.deep_view()) {
                    Some(fault) => e@ == fault,
                    None => !old(iterator).reliable(),
                },
            },
    {
        let position = match self.proposed_position(input, added) {
            Ok(position) => position,
            Err(e) => {
                return Err(e);
            },
        };
        let extensions = match self.candidate_extensions(input, position, iterator) {
            Ok(extensions) => extensions,
            Err(e) => {
                return Err(e);
            },
        };
        proof {
            assert(added.deep_view().len() == added@.len());
            assert(added.deep_view() =~= seq![added.deep_view()[0]]);
            assert(input@.variables + added.deep_view() =~= input@.variables.push(
                added.deep_view()[0],
            ));
            binding_bag::lemma_unique_push(input@.variables, added.deep_view()[0]);
            assert(extensions.deep_view().len() == extensions@.len());
            assert forall|i: int| 0 <= i < extensions@.len() implies binding_bag::uniform(
                #[trigger] extensions.deep_view()[i],
                1,
            ) by {}
        }
        input.extend_rows(copy_all(added), extensions)
    }

    /// The prefixes, one for each row, whose keys are counted to estimate in how many ways the
    /// pattern extends the row.
    pub fn count_prefixes(&self, input: &BindingBag, added: &[Variable]) -> (r: Result<
        Vec<Vec<u8>>,
        Error,
    >)
        requires
            input@.wf(),
        ensures
            match r {
                Ok(prefixes) => self.count_fault(added.deep_view()) is None && prefixes.deep_view()
                    == self.counted(added.deep_view()[0], input@),
                Err(e) => self.count_fault(added.deep_view()) == Some(e@),
            },
    {
        assert(added.deep_view().len() == added@.len());
        if added.len() != 1 {
            return Err(Error::TripleCountsOne(self.id, list_text(added)));
        }
        let position = match self.position_for_variable(&added[0]) {
            Some(position) => position,
            None => {
                return Err(
                    Error::TripleCannotCount(added[0].name.clone(), list_text(&self.variables)),
                );
            },
        };
        let ghost wanted = self.counted(added.deep_view()[0], input@);
        let other = self.other_term(position);
        let scan = self.proposal_scan(input, position);
        let mut prefixes: Vec<Vec<u8>> = Vec::new();
        let mut i: usize = 0;
        assert(prefixes.deep_view() =~= wanted.take(0));
        while i < input.rows.len()
            invariant
                i <= input.rows@.len() == input@.rows.len(),
                input@.wf(),
                self.place_of(added.deep_view()[0]) == Some(position),
                other@ == self.other(position),
                scan@ == self.proposal(position, input@.variables),
                wanted == self.counted(added.deep_view()[0], input@),
                prefixes.deep_view() == wanted.take(i as int),
            decreases input.rows@.len() - i,
        {
            assert(input@.rows[i as int].len() == input.rows@[i as int]@.len());
            let mut prefix = copy_bytes(&scan.prefix);
            if let TripleTerm::Variable(_) = other {
                if let Some(value) = other.resolve(input, &input.rows[i]) {
                    append_bytes(&mut prefix, &value);
                }
            }
            assert(prefix@ =~= wanted[i as int]);
            let ghost earlier = prefixes;
            prefixes.push(prefix);
            proof {
                byte_string::lemma_deep_bytes(&prefix);
                byte_string::lemma_deep_push(earlier, prefixes, prefix);
            }
            i += 1;
            assert(prefixes.deep_view() =~= wanted.take(i as int));
        }
        assert(wanted.take(i as int) =~= wanted);
        Ok(prefixes)
    }

    /// Why a variable cannot be counted, if it cannot.
    pub open spec fn count_fault(self, added: Seq<Name>) -> Option<ErrorView> {
        if added.len() != 1 {
            Some(ErrorView::TripleCountsOne(self.id, text::listed(added)))
        } else if self.place_of(added[0]) is None {
            Some(
                ErrorView::TripleCannotCount(added[0], text::listed(self.variables.deep_view())),
            )
        } else {
            None
        }
    }

    /// The beginning of the keys that hold the ways to extend each row.
    pub open spec fn counted(self, added: Name, input: Relation) -> Seq<Seq<u8>> {
        let position = self.place_of(added).unwrap();
        Seq::new(
            input.rows.len(),
            |i: int|
                self.proposal(position, input.variables).prefix + self.proposal_key(
                    position,
                    input.variables,
                    input.rows[i],
                ),
        )
    }

    /// Offers, for each row, the estimated number of ways in which the pattern extends it. The
    /// estimates are those for the prefixes to count, in order.
    pub fn count(
        &self,
        input: &BindingBag,
        added: &[Variable],
        estimates: &[usize],
        proposals: &mut Vec<Proposal>,
    ) -> (r: Result<(), Error>)
        ensures
            final(proposals)@.len() == old(proposals)@.len(),
            match r {
                Ok(_) => self.offer_fault(
                    input@,
                    added.deep_view(),
                    estimates@,
                    old(proposals)@,
                ) is None && forall|i: int|
                    0 <= i < old(proposals)@.len() ==> #[trigger] final(proposals)@[i]
                        == exec_pattern::considered(old(proposals)@[i], self.id, estimates@[i]),
                Err(e) => self.offer_fault(
                    input@,
                    added.deep_view(),
                    estimates@,
                    old(proposals)@,
                ) == Some(e@) && final(proposals)@ == old(proposals)@,
            },
    {
        assert(added.deep_view().len() == added@.len());
        assert(input@.rows.len() == input.rows@.len());
        if proposals.len() != input.rows.len() {
            return Err(
                Error::TripleProposals(self.id, proposals.len(), input.rows.len()),
            );
        }
        if added.len() != 1 {
            return Err(Error::TripleCountsOne(self.id, list_text(added)));
        }
        if self.position_for_variable(&added[0]).is_none() {
            return Err(
                Error::TripleCannotCount(added[0].name.clone(), list_text(&self.variables)),
            );
        }
        if estimates.len() != input.rows.len() {
            return Err(Error::EstimateCount);
        }
        let mut i: usize = 0;
        while i < proposals.len()
            invariant
                i <= proposals@.len() == old(proposals)@.len() == estimates@.len(),
                forall|j: int|
                    0 <= j < i ==> #[trigger] proposals@[j] == exec_pattern::considered(
                        old(proposals)@[j],
                        self.id,
                        estimates@[j],
                    ),
                forall|j: int|
                    i <= j < proposals@.len() ==> #[trigger] proposals@[j] == old(proposals)@[j],
            decreases proposals@.len() - i,
        {
            let mut proposal = proposals[i];
            proposal.consider(self.id, estimates[i]);
            proposals.set(i, proposal);
            i += 1;
        }
        Ok(())
    }

    /// Why an offer is refused, if it is.
    pub open spec fn offer_fault(
        self,
        input: Relation,
        added: Seq<Name>,
        estimates: Seq<usize>,
        proposals: Seq<Proposal>,
    ) -> Option<ErrorView> {
        if proposals.len() != input.rows.len() {
            Some(
                ErrorView::TripleProposals(
                    self.id,
                    proposals.len() as usize,
                    input.rows.len() as usize,
                ),
            )
        } else if self.count_fault(added) is Some {
            self.count_fault(added)
        } else if estimates.len() != input.rows.len() {
            Some(ErrorView::EstimateCount)
        } else {
            None
        }
    }

    /// Extends the rows by the added variable; where none is added, keeps the rows that the
    /// stored facts confirm. The cursor is over the scan that the join needs, and what comes
    /// out has the target layout.
    pub fn join<I: Index>(
        &self,
        input: &BindingBag,
        added: &[Variable],
        target_variables: &[Variable],
        iterator: &mut I,
    ) -> (r: Result<BindingBag, Error>)
        requires
            input@.wf(),
            old(iterator).inv(),
            old(iterator).position() == 0,
        ensures
            match r {
                Ok(bag) => self.join_fault(
                    input@,
                    added.deep_view(),
                    target_variables.deep_view(),
                ) is None && bag@.wf() && bag@ == self.joined(
                    input@,
                    added.deep_view(),
                    old(iterator).entries(),
                ).spec_project(target_variables.deep_view()),
                Err(e) => self.join_fault(
                    input@,
                    added.deep_view(),
                    target_variables.deep_view(),
                ) == Some(e@) || !old(iterator).reliable(),
            },
    {
        assert(added.deep_view().len() == added@.len());
        assert(target_variables.deep_view().len() == target_variables@.len());
        let result = if added.len() == 0 {
            self.validate(input, iterator)
        } else {
            self.propose(input, added, iterator)
        };
        match result {
            Ok(bag) => bag.reorder(target_variables),
            Err(e) => Err(e),
        }
    }
}

/// Why a bag's columns cannot be put in the order of a target, if they cannot.
pub open spec fn reorder_fault(layout: Seq<Name>, target: Seq<Name>) -> Option<ErrorView> {
    if target.len() != layout.len() {
        Some(ErrorView::ReorderLayout)
    } else {
        binding_bag::projection_fault(layout, target)
    }
}

/// The name of a term, if it is a variable.
pub open spec fn names_of(term: TermView) -> Seq<Name> {
    match term {
        TermView::Variable(v) => seq![v],
        TermView::Constant(_) => Seq::empty(),
    }
}

/// The rows with a match.
fn select_matches(
    input: &BindingBag,
    matches: &Vec<bool>,
    Ghost(keys): Ghost<Seq<Seq<u8>>>,
    Ghost(entries): Ghost<Seq<Seq<u8>>>,
) -> (r: Vec<BindingRow>)
    requires
        input@.wf(),
        matches@.len() == input@.rows.len() == keys.len(),
        forall|i: int| 0 <= i < keys.len() ==> #[trigger] matches@[i] == entries.contains(keys[i]),
    ensures
        r.deep_view() == found_rows(input@.rows, keys, entries),
        binding_bag::uniform(r.deep_view(), input@.variables.len()),
{
    let ghost all = input@.rows;
    let mut rows: Vec<BindingRow> = Vec::new();
    let mut i: usize = 0;
    assert(rows.deep_view() =~= found_rows(all.take(0), keys.take(0), entries));
    while i < input.rows.len()
        invariant
            i <= input.rows@.len() == all.len() == keys.len() == matches@.len(),
            all == input@.rows,
            input@.wf(),
            forall|j: int|
                0 <= j < keys.len() ==> #[trigger] matches@[j] == entries.contains(keys[j]),
            rows.deep_view() == found_rows(all.take(i as int), keys.take(i as int), entries),
            binding_bag::uniform(rows.deep_view(), input@.variables.len()),
        decreases input.rows@.len() - i,
    {
        proof {
            assert(all.take(i + 1).drop_last() =~= all.take(i as int));
            assert(keys.take(i + 1).drop_last() =~= keys.take(i as int));
        }
        if matches[i] {
            let row = byte_string::copy_row(&input.rows[i]);
            assert(all[i as int].len() == input@.variables.len());
            let ghost earlier = rows;
            rows.push(row);
            proof {
                byte_string::lemma_deep_push(earlier, rows, row);
            }
        }
        i += 1;
    }
    assert(all.take(i as int) =~= all);
    assert(keys.take(i as int) =~= keys);
    rows
}

/// Tells for each key whether a cursor's list holds it. The keys are looked up in ascending
/// order, so that the cursor only moves forward.
pub fn look_up<I: Index>(keys: &Vec<Vec<u8>>, iterator: &mut I) -> (r: Result<Vec<bool>, Error>)
    requires
        old(iterator).inv(),
        old(iterator).position() == 0,
    ensures
        match r {
            Ok(found) => found@.len() == keys@.len() && forall|i: int|
                0 <= i < found@.len() ==> #[trigger] found@[i] == old(iterator).entries().contains(
                    keys.deep_view()[i],
                ),
            Err(_) => !old(iterator).reliable(),
        },
{
    let ghost wanted = keys.deep_view();
    let ghost entries = iterator.entries();
    let ghost reliable = iterator.reliable();
    let order = ascending_places(keys);
    let mut found: Vec<bool> = Vec::new();
    while found.len() < keys.len()
        invariant
            found@.len() <= keys@.len(),
            forall|i: int| 0 <= i < found@.len() ==> found@[i] == false,
        decreases keys@.len() - found@.len(),
    {
        found.push(false);
    }
    let mut n: usize = 0;
    while n < order.len()
        invariant
            n <= order@.len(),
            wanted == keys.deep_view(),
            byte_string::ascending_order(wanted, order@),
            found@.len() == keys@.len() == wanted.len(),
            iterator.inv(),
            iterator.entries() == entries,
            entries == old(iterator).entries(),
            reliable == old(iterator).reliable(),
            reliable ==> iterator.reliable(),
            forall|i: int|
                0 <= i < n ==> found@[#[trigger] order@[i] as int] == entries.contains(
                    wanted[order@[i] as int],
                ),
            forall|k: int|
                0 <= k < found@.len() ==> #[trigger] found@[k] ==> entries.contains(wanted[k]),
            n > 0 ==> index::splits(entries, wanted[order@[n - 1] as int], iterator.position()),
            n == 0 ==> iterator.position() == 0,
        decreases order@.len() - n,
    {
        let at: usize = order[n];
        let ghost key = wanted[at as int];
        proof {
            iterator.lemma_inv();
            byte_string::lemma_deep_bytes(&keys@[at as int]);
        }
        if !iterator.has_next() {
            proof {
                assert forall|k: int| 0 <= k < wanted.len() implies #[trigger] found@[k]
                    == entries.contains(wanted[k]) by {
                    assert(order@.contains(byte_string::index_of_place(k)));
                    let m = order@.index_of(byte_string::index_of_place(k));
                    if m >= n && entries.contains(wanted[k]) {
                        let e = entries.index_of(wanted[k]);
                        if n > 0 {
                            let last = wanted[order@[n - 1] as int];
                            assert(byte_string::before(entries[e], last));
                            assert(!byte_string::before(
                                wanted[order@[m] as int],
                                wanted[order@[n - 1] as int],
                            ));
                        }
                    }
                }
            }
            return Ok(found);
        }
        let ghost place = iterator.position();
        match iterator.seek(&keys[at]) {
            Ok(_) => {},
            Err(e) => {
                return Err(e);
            },
        }
        proof {
            let p = choose|p: int| #[trigger]
                index::splits(entries, key, p) && (if place <= p {
                    iterator.position() == p
                } else {
                    p <= iterator.position() <= place
                });
            if p < place {
                assert(n > 0);
                let last = wanted[order@[n - 1] as int];
                assert(byte_string::before(entries[p], last));
                assert(!byte_string::before(key, last));
                byte_string::lemma_before_total(last, key);
                if last != key {
                    byte_string::lemma_before_transitive(entries[p], last, key);
                }
            }
            assert(iterator.position() == p);
            iterator.lemma_inv();
        }
        let ghost p = iterator.position();
        let value = match iterator.get_value() {
            Ok(value) => value,
            Err(e) => {
                return Err(e);
            },
        };
        let hit = match &value {
            Some(actual) => same_bytes(actual, &keys[at]),
            None => false,
        };
        proof {
            if entries.contains(key) {
                let e = entries.index_of(key);
                byte_string::lemma_before_irreflexive(key);
                assert(p <= e);
                if p < e {
                    assert(!byte_string::before(entries[e], entries[p]));
                    assert(!byte_string::before(entries[p], key));
                    byte_string::lemma_before_total(entries[p], entries[e]);
                }
                assert(entries[p] == key);
            }
            if hit {
                assert(entries[p] == key);
            }
        }
        let ghost before_set = found@;
        if hit {
            found.set(at, true);
        }
        proof {
            assert forall|i: int| 0 <= i < n + 1 implies found@[#[trigger] order@[i] as int]
                == entries.contains(wanted[order@[i] as int]) by {
                if i < n {
                    assert(before_set[order@[i] as int] == entries.contains(
                        wanted[order@[i] as int],
                    ));
                } else if !hit && before_set[at as int] {
                    assert(entries.contains(wanted[at as int]));
                }
            }
        }
        n += 1;
    }
    proof {
        assert forall|k: int| 0 <= k < wanted.len() implies #[trigger] found@[k]
            == entries.contains(wanted[k]) by {
            assert(order@.contains(byte_string::index_of_place(k)));
            let m = order@.index_of(byte_string::index_of_place(k));
            assert(order@[m] == k);
        }
    }
    Ok(found)
}

/// What begins with a key can be looked for among what begins with a beginning of the key.
proof fn lemma_beginning_of_beginning(entries: Seq<Seq<u8>>, cover: Seq<u8>, key: Seq<u8>)
    requires
        byte_string::begins_with(key, cover),
    ensures
        beginning_with(beginning_with(entries, cover), key) == beginning_with(entries, key),
    decreases entries.len(),
{
    if entries.len() > 0 {
        lemma_beginning_of_beginning(entries.drop_last(), cover, key);
        let last = entries.last();
        if byte_string::begins_with(last, key) {
            assert(last.take(cover.len() as int) =~= key.take(cover.len() as int));
        }
        let found = beginning_with(entries.drop_last(), cover);
        if byte_string::begins_with(last, cover) {
            assert(found.push(last).drop_last() =~= found);
        }
    }
}

/// In an ordered list, what begins with a key is a run.
proof fn lemma_run(entries: Seq<Seq<u8>>, key: Seq<u8>, p: int, q: int)
    requires
        index::sorted(entries),
        index::splits(entries, key, p),
        p <= q <= entries.len(),
        forall|i: int| p <= i < q ==> byte_string::begins_with(#[trigger] entries[i], key),
        q < entries.len() ==> !byte_string::begins_with(entries[q], key),
    ensures
        beginning_with(entries, key) == entries.subrange(p, q),
{
    assert forall|i: int| 0 <= i < entries.len() implies byte_string::begins_with(
        #[trigger] entries[i],
        key,
    ) == (p <= i < q) by {
        if i < p && byte_string::begins_with(entries[i], key) {
            byte_string::lemma_prefix_not_after(entries[i], key);
        }
        if q < i && byte_string::begins_with(entries[i], key) {
            assert(key.take(key.len() as int) =~= key);
            byte_string::lemma_interval(key, entries[q], entries[i], key);
        }
    }
    lemma_run_up_to(entries, key, p, q, entries.len() as int);
    assert(entries.take(entries.len() as int) =~= entries);
}

/// The run within the first entries.
proof fn lemma_run_up_to(entries: Seq<Seq<u8>>, key: Seq<u8>, p: int, q: int, n: int)
    requires
        0 <= n <= entries.len(),
        0 <= p <= q <= entries.len(),
        forall|i: int|
            0 <= i < entries.len() ==> byte_string::begins_with(#[trigger] entries[i], key) == (p
                <= i < q),
    ensures
        beginning_with(entries.take(n), key) == (if n <= p {
            Seq::<Seq<u8>>::empty()
        } else if n <= q {
            entries.subrange(p, n)
        } else {
            entries.subrange(p, q)
        }),
    decreases n,
{
    if n > 0 {
        lemma_run_up_to(entries, key, p, q, n - 1);
        assert(entries.take(n).drop_last() =~= entries.take(n - 1));
        assert(entries.take(n).last() == entries[n - 1]);
        if p <= n - 1 < q {
            if n - 1 <= p {
                assert(entries.subrange(p, n) =~= Seq::<Seq<u8>>::empty().push(entries[n - 1]));
            } else {
                assert(entries.subrange(p, n) =~= entries.subrange(p, n - 1).push(entries[n - 1]));
            }
        }
        if q < n && q == n - 1 && n > p && n - 1 <= p {
            assert(entries.subrange(p, q) =~= Seq::<Seq<u8>>::empty());
        }
    }
}

/// What begins with the key, from a cursor that has not passed any of it.
fn gather<I: Index>(key: &[u8], iterator: &mut I) -> (r: Result<Vec<Vec<u8>>, Error>)
    requires
        old(iterator).inv(),
        forall|i: int|
            0 <= i < old(iterator).position() ==> byte_string::before(
                #[trigger] old(iterator).entries()[i],
                key@,
            ),
    ensures
        match r {
            Ok(found) => {
                &&& found.deep_view() == beginning_with(old(iterator).entries(), key@)
                &&& final(iterator).inv()
                &&& final(iterator).entries() == old(iterator).entries()
                &&& old(iterator).reliable() ==> final(iterator).reliable()
                &&& forall|i: int|
                    0 <= i < final(iterator).position() ==> {
                        ||| byte_string::before(#[trigger] old(iterator).entries()[i], key@)
                        ||| byte_string::begins_with(old(iterator).entries()[i], key@)
                    }
            },
            Err(_) => !old(iterator).reliable(),
        },
{
    let ghost entries = iterator.entries();
    let ghost start = iterator.position();
    proof {
        iterator.lemma_inv();
    }
    let mut found: Vec<Vec<u8>> = Vec::new();
    if !iterator.has_next() {
        proof {
            assert(index::splits(entries, key@, start));
            lemma_run(entries, key@, start, start);
            assert(found.deep_view() =~= entries.subrange(start, start));
        }
        return Ok(found);
    }
    match iterator.seek(key) {
        Ok(_) => {},
        Err(e) => {
            return Err(e);
        },
    }
    let ghost p = iterator.position();
    proof {
        let at = choose|at: int| #[trigger]
            index::splits(entries, key@, at) && (if start <= at {
                iterator.position() == at
            } else {
                at <= iterator.position() <= start
            });
        if at < start {
            assert(byte_string::before(entries[at], key@));
        }
        assert(index::splits(entries, key@, p));
        iterator.lemma_inv();
        assert(found.deep_view() =~= entries.subrange(p, p));
    }
    let mut more = true;
    while more
        invariant
            iterator.inv(),
            iterator.entries() == entries,
            entries == old(iterator).entries(),
            old(iterator).reliable() ==> iterator.reliable(),
            index::sorted(entries),
            index::splits(entries, key@, p),
            p <= iterator.position() <= entries.len(),
            forall|i: int|
                p <= i < iterator.position() ==> byte_string::begins_with(
                    #[trigger] entries[i],
                    key@,
                ),
            found.deep_view() == entries.subrange(p, iterator.position()),
            !more && iterator.position() < entries.len() ==> !byte_string::begins_with(
                entries[iterator.position()],
                key@,
            ),
        decreases entries.len() - iterator.position() + (if more {
            1int
        } else {
            0int
        }),
    {
        let value = match iterator.get_value() {
            Ok(value) => value,
            Err(e) => {
                return Err(e);
            },
        };
        more = false;
        if let Some(entry) = value {
            if has_prefix(&entry, key) {
                let ghost place = iterator.position();
                let ghost earlier = found;
                proof {
                    byte_string::lemma_deep_bytes(&entry);
                }
                found.push(entry);
                proof {
                    byte_string::lemma_deep_push(earlier, found, entry);
                    assert(found.deep_view() =~= entries.subrange(p, place + 1));
                }
                match iterator.next() {
                    Ok(_) => {},
                    Err(e) => {
                        return Err(e);
                    },
                }
                more = true;
            }
        }
    }
    proof {
        lemma_run(entries, key@, p, iterator.position());
    }
    Ok(found)
}

/// What follows the key in each of the byte strings that begin with it.
fn rests_of(found: &Vec<Vec<u8>>, key: &[u8]) -> (r: Vec<BindingRow>)
    ensures
        r.deep_view() == continuations(found.deep_view(), key@),
{
    let ghost all = found.deep_view();
    let mut out: Vec<BindingRow> = Vec::new();
    let mut i: usize = 0;
    assert(all.len() == found@.len());
    assert(out.deep_view() =~= continuations(all.take(0), key@));
    while i < found.len()
        invariant
            i <= found@.len() == all.len(),
            all == found.deep_view(),
            out.deep_view() == continuations(all.take(i as int), key@),
        decreases found@.len() - i,
    {
        proof {
            byte_string::lemma_deep_bytes(&found@[i as int]);
            assert(all.take(i + 1).drop_last() =~= all.take(i as int));
            assert(all.take(i + 1).last() == found@[i as int]@);
        }
        let ghost so_far = beginning_with(all.take(i as int), key@);
        if has_prefix(&found[i], key) {
            let value = slice_of(&found[i], key.len(), found[i].len());
            assert(value@ =~= found@[i as int]@.skip(key@.len() as int));
            let mut row: BindingRow = Vec::new();
            let ghost none = row;
            proof {
                byte_string::lemma_deep_bytes(&value);
            }
            row.push(value);
            proof {
                byte_string::lemma_deep_push(none, row, value);
                assert(row.deep_view() =~= seq![value@]);
            }
            let ghost earlier = out;
            out.push(row);
            proof {
                byte_string::lemma_deep_push(earlier, out, row);
                assert(rests(so_far.push(found@[i as int]@), key@) =~= rests(so_far, key@).push(
                    seq![value@],
                ));
            }
        }
        i += 1;
    }
    assert(all.take(i as int) =~= all);
    out
}

/// What follows each key in the entries that begin with it. The keys are looked up in
/// ascending order, so that the cursor only moves forward; a key that begins with one already
/// looked up is looked up among what was found for that one.
fn continue_all<I: Index>(keys: &Vec<Vec<u8>>, iterator: &mut I) -> (r: Result<
    Vec<Vec<BindingRow>>,
    Error,
>)
    requires
        old(iterator).inv(),
        old(iterator).position() == 0,
    ensures
        match r {
            Ok(out) => out.deep_view() == Seq::new(
                keys.deep_view().len(),
                |i: int| continuations(old(iterator).entries(), keys.deep_view()[i]),
            ),
            Err(_) => !old(iterator).reliable(),
        },
{
    let ghost wanted = keys.deep_view();
    let ghost entries = iterator.entries();
    let order = ascending_places(keys);
    let mut out: Vec<Vec<BindingRow>> = Vec::new();
    while out.len() < keys.len()
        invariant
            out@.len() <= keys@.len(),
        decreases keys@.len() - out@.len(),
    {
        out.push(Vec::new());
    }
    let mut cover: Option<usize> = None;
    let mut found: Vec<Vec<u8>> = Vec::new();
    let mut n: usize = 0;
    while n < order.len()
        invariant
            n <= order@.len(),
            wanted == keys.deep_view(),
            entries == old(iterator).entries(),
            byte_string::ascending_order(wanted, order@),
            out@.len() == keys@.len() == wanted.len(),
            iterator.inv(),
            iterator.entries() == entries,
            old(iterator).reliable() ==> iterator.reliable(),
            forall|i: int|
                0 <= i < n ==> out.deep_view()[#[trigger] order@[i] as int] == continuations(
                    entries,
                    wanted[order@[i] as int],
                ),
            match cover {
                None => iterator.position() == 0 && n == 0,
                Some(m) => {
                    &&& m < n
                    &&& found.deep_view() == beginning_with(entries, wanted[order@[m as int] as int])
                    &&& forall|i: int|
                        0 <= i < iterator.position() ==> {
                            ||| byte_string::before(
                                #[trigger] entries[i],
                                wanted[order@[m as int] as int],
                            )
                            ||| byte_string::begins_with(
                                entries[i],
                                wanted[order@[m as int] as int],
                            )
                        }
                },
            },
        decreases order@.len() - n,
    {
        let at: usize = order[n];
        let ghost key = wanted[at as int];
        proof {
            byte_string::lemma_deep_bytes(&keys@[at as int]);
        }
        let covered = match cover {
            Some(m) => {
                proof {
                    byte_string::lemma_deep_bytes(&keys@[order@[m as int] as int]);
                }
                has_prefix(&keys[at], &keys[order[m]])
            },
            None => false,
        };
        if !covered {
            proof {
                iterator.lemma_inv();
                if let Some(m) = cover {
                    let c = wanted[order@[m as int] as int];
                    assert(!byte_string::before(key, c));
                    assert forall|i: int| 0 <= i < iterator.position() implies byte_string::before(
                        #[trigger] entries[i],
                        key,
                    ) by {
                        byte_string::lemma_before_total(c, key);
                        assert(c.take(c.len() as int) =~= c);
                        if byte_string::begins_with(entries[i], c) {
                            byte_string::lemma_before_total(entries[i], key);
                            if !byte_string::before(entries[i], key) {
                                byte_string::lemma_interval(c, key, entries[i], c);
                            }
                        } else {
                            byte_string::lemma_before_transitive(entries[i], c, key);
                        }
                    }
                }
            }
            found = match gather(&keys[at], iterator) {
                Ok(found) => found,
                Err(e) => {
                    return Err(e);
                },
            };
            cover = Some(n);
        }
        let rows = rests_of(&found, &keys[at]);
        proof {
            let c = wanted[order@[cover.unwrap() as int] as int];
            assert(key.take(key.len() as int) =~= key);
            lemma_beginning_of_beginning(entries, c, key);
        }
        let ghost earlier = out;
        out.set(at, rows);
        proof {
            assert forall|k: int| 0 <= k < out@.len() implies #[trigger] out.deep_view()[k] == (if k
                == at {
                rows.deep_view()
            } else {
                earlier.deep_view()[k]
            }) by {}
            assert forall|i: int| 0 <= i < n + 1 implies out.deep_view()[#[trigger] order@[i] as int]
                == continuations(entries, wanted[order@[i] as int]) by {
                if i < n {
                    assert(earlier.deep_view()[order@[i] as int] == continuations(
                        entries,
                        wanted[order@[i] as int],
                    ));
                }
            }
        }
        n += 1;
    }
    proof {
        assert forall|k: int| 0 <= k < wanted.len() implies #[trigger] out.deep_view()[k]
            == continuations(entries, wanted[k]) by {
            assert(order@.contains(byte_string::index_of_place(k)));
            let m = order@.index_of(byte_string::index_of_place(k));
            assert(order@[m] == k);
        }
        assert(out.deep_view() =~= Seq::new(
            wanted.len(),
            |i: int| continuations(entries, wanted[i]),
        ));
    }
    Ok(out)
}

} // verus!
