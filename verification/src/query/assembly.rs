//! From a logical plan to patterns and stages that can be run.

use vstd::prelude::*;

use crate::byte_string::{self, Row};
use crate::codec;
use crate::error::{self, Error, ErrorView};
use crate::expr::{self, expr_variables, Expr, ExprView};
use crate::query::ast::{Pattern, PatternNonValuePlace, PatternValuePlace, PatternView, PlaceView};
use crate::query::binding_bag::{self, BindingBag, BindingRow, Relation};
use crate::query::convert::{
    self, non_value_place_to_datatype, resolve_attribute_from_pattern, value_place_to_datatype,
};
use crate::query::lower;
use crate::query::patterns::not::{self, NotPattern};
use crate::query::patterns::or::{self, OrPattern, ScopeLayout};
use crate::query::plan::{
    Descriptor, DescriptorKind, LogicalStage, ParticipantRef, PatternId, StageView,
};
use crate::query::shown::{self, entity_text, value_place_text};
use crate::value::{DataType, Keyword, Value};
use crate::text;
use crate::variable::{self, contains, copy_all, list_text, same_all, Name, Variable};

verus! {

/// What stands in a position of an assembled triple: a variable, an encoded constant, or nothing
/// in particular.
#[derive(Debug)]
pub enum PlacedTerm {
    Variable(Variable),
    Constant(Vec<u8>),
    Placeholder,
}

/// What stands in a position of an assembled triple.
pub enum PlacedView {
    Variable(Name),
    Constant(Seq<u8>),
    Placeholder,
}

impl View for PlacedTerm {
    type V = PlacedView;

    open spec fn view(&self) -> PlacedView {
        match self {
            PlacedTerm::Variable(v) => PlacedView::Variable(v@),
            PlacedTerm::Constant(bytes) => PlacedView::Constant(bytes@),
            PlacedTerm::Placeholder => PlacedView::Placeholder,
        }
    }
}

/// The scopes inside a composite pattern: their layouts and their stages.
#[derive(Debug)]
pub enum Nested {
    Or { layouts: Vec<ScopeLayout>, branches: Vec<Vec<LogicalStage>> },
    Not { layout: ScopeLayout, stages: Vec<LogicalStage> },
}

/// Who takes part in a stage: the pattern at a place of the scope, or what comes in.
#[derive(Clone, Copy, Debug, PartialEq, Eq, Structural)]
pub enum Slot {
    Pattern(usize),
    Incoming,
}

/// A stage whose participants are known by their places.
#[derive(Debug)]
pub struct StageTemplate {
    pub added: Vec<Variable>,
    pub participants: Vec<Slot>,
    pub target_variables: Vec<Variable>,
}

/// What a stage is, whose participants are known by their places.
pub struct TemplateView {
    pub added: Seq<Name>,
    pub participants: Seq<Slot>,
    pub target: Seq<Name>,
}

impl View for StageTemplate {
    type V = TemplateView;

    open spec fn view(&self) -> TemplateView {
        TemplateView {
            added: self.added.deep_view(),
            participants: self.participants@,
            target: self.target_variables.deep_view(),
        }
    }
}

impl DeepView for StageTemplate {
    type V = TemplateView;

    open spec fn deep_view(&self) -> TemplateView {
        self@
    }
}

/// A pattern that can be run.
#[derive(Debug)]
pub struct AssembledPattern<'a> {
    pub id: PatternId,
    pub variables: Vec<Variable>,
    pub kind: AssembledKind<'a>,
}

/// What a pattern that can be run works with.
#[derive(Debug)]
pub enum AssembledKind<'a> {
    Triple { entity: PlacedTerm, attribute: i64, value: PlacedTerm },
    Relation(BindingBag),
    Predicate(&'a Expr),
    Function { expression: &'a Expr, output: &'a Variable },
    Or { incoming: Vec<Variable>, branches: Vec<AssembledScope<'a>> },
    Not { incoming: Vec<Variable>, body: AssembledScope<'a> },
}

/// The patterns and stages of a scope.
#[derive(Debug)]
pub struct AssembledScope<'a> {
    pub patterns: Vec<AssembledPattern<'a>>,
    pub stages: Vec<StageTemplate>,
}

/// What a pattern that can be run is.
pub struct PatternForm {
    pub id: PatternId,
    pub names: Seq<Name>,
    pub kind: KindForm,
}

/// What a pattern that can be run works with.
pub enum KindForm {
    Triple(PlacedView, i64, PlacedView),
    Relation(Relation),
    Predicate(ExprView),
    Function(ExprView, Name),
    Or(Seq<Name>, Seq<ScopeForm>),
    Not(Seq<Name>, ScopeForm),
}

/// What the patterns and stages of a scope are.
pub struct ScopeForm {
    pub patterns: Seq<PatternForm>,
    pub stages: Seq<TemplateView>,
}

/// What a pattern is.
pub open spec fn pattern_form(p: AssembledPattern) -> PatternForm
    decreases p, 3int,
{
    PatternForm {
        id: p.id,
        names: p.variables.deep_view(),
        kind: match p.kind {
            AssembledKind::Triple { entity, attribute, value } => KindForm::Triple(
                entity@,
                attribute,
                value@,
            ),
            AssembledKind::Relation(bag) => KindForm::Relation(bag@),
            AssembledKind::Predicate(expression) => KindForm::Predicate(expression@),
            AssembledKind::Function { expression, output } => KindForm::Function(
                expression@,
                output@,
            ),
            AssembledKind::Or { incoming, branches } => KindForm::Or(
                incoming.deep_view(),
                scope_forms(branches@),
            ),
            AssembledKind::Not { incoming, body } => KindForm::Not(
                incoming.deep_view(),
                scope_form(body),
            ),
        },
    }
}

/// What patterns are.
pub open spec fn pattern_forms(ps: Seq<AssembledPattern>) -> Seq<PatternForm>
    decreases ps, 0int,
{
    if ps.len() == 0 {
        Seq::empty()
    } else {
        pattern_forms(ps.drop_last()).push(pattern_form(ps.last()))
    }
}

/// What a scope is.
pub open spec fn scope_form(s: AssembledScope) -> ScopeForm
    decreases s, 1int,
{
    ScopeForm { patterns: pattern_forms(s.patterns@), stages: s.stages.deep_view() }
}

/// What scopes are.
pub open spec fn scope_forms(ss: Seq<AssembledScope>) -> Seq<ScopeForm>
    decreases ss, 2int,
{
    if ss.len() == 0 {
        Seq::empty()
    } else {
        scope_forms(ss.drop_last()).push(scope_form(ss.last()))
    }
}

/// What an entity position of a triple becomes; a constant without a value is refused.
pub open spec fn placed_entity(place: PlaceView) -> Result<PlacedView, ErrorView> {
    match place {
        PlaceView::Variable(v) => Ok(PlacedView::Variable(v)),
        PlaceView::Placeholder => Ok(PlacedView::Placeholder),
        _ => match convert::place_value(place) {
            Some(v) => Ok(PlacedView::Constant(codec::encoding(v))),
            None => Err(ErrorView::UnsupportedEntity(shown::entity_shown(place))),
        },
    }
}

/// What a value position of a triple becomes; a constant without a value is refused.
pub open spec fn placed_value(place: PlaceView) -> Result<PlacedView, ErrorView> {
    match place {
        PlaceView::Variable(v) => Ok(PlacedView::Variable(v)),
        PlaceView::Placeholder => Ok(PlacedView::Placeholder),
        _ => match convert::place_value(place) {
            Some(v) => Ok(PlacedView::Constant(codec::encoding(v))),
            None => Err(ErrorView::UnsupportedValue(shown::value_shown(place))),
        },
    }
}

/// The variable of a position, if one stands there.
pub open spec fn placed_names(term: PlacedView) -> Seq<Name> {
    match term {
        PlacedView::Variable(v) => seq![v],
        _ => Seq::empty(),
    }
}

/// What a position became.
pub open spec fn term_outcome(r: Result<PlacedTerm, Error>) -> Result<PlacedView, ErrorView> {
    match r {
        Ok(term) => Ok(term@),
        Err(e) => Err(e@),
    }
}

/// What an entity position becomes.
pub fn entity_term(place: &PatternNonValuePlace) -> (r: Result<PlacedTerm, Error>)
    ensures
        term_outcome(r) == placed_entity(place@),
{
    match place {
        PatternNonValuePlace::Variable(v) => Ok(PlacedTerm::Variable(v.clone())),
        PatternNonValuePlace::Placeholder => Ok(PlacedTerm::Placeholder),
        _ => match non_value_place_to_datatype(place) {
            Some(value) => Ok(PlacedTerm::Constant(codec::encode(&value))),
            None => Err(Error::UnsupportedEntity(entity_text(place))),
        },
    }
}

/// What a value position becomes.
pub fn value_term(place: &PatternValuePlace) -> (r: Result<PlacedTerm, Error>)
    ensures
        term_outcome(r) == placed_value(place@),
{
    match place {
        PatternValuePlace::Variable(v) => Ok(PlacedTerm::Variable(v.clone())),
        PatternValuePlace::Placeholder => Ok(PlacedTerm::Placeholder),
        _ => match value_place_to_datatype(place) {
            Some(value) => Ok(PlacedTerm::Constant(codec::encode(&value))),
            None => Err(Error::UnsupportedValue(value_place_text(place))),
        },
    }
}

/// Encoded rows.
pub open spec fn encoded_rows(rows: Seq<Seq<Value>>) -> Seq<Row> {
    Seq::new(
        rows.len(),
        |i: int| Seq::new(rows[i].len(), |j: int| codec::encoding(rows[i][j])),
    )
}

/// Encodes the values of a row.
fn encode_row(row: &Vec<DataType>) -> (r: BindingRow)
    ensures
        r.deep_view() == encoded_rows(seq![lower::values(row@)])[0],
{
    let ghost wanted = encoded_rows(seq![lower::values(row@)])[0];
    let mut out: Vec<Vec<u8>> = Vec::new();
    let mut i: usize = 0;
    assert(out.deep_view() =~= wanted.take(0));
    while i < row.len()
        invariant
            i <= row@.len() == wanted.len(),
            wanted == encoded_rows(seq![lower::values(row@)])[0],
            out.deep_view() == wanted.take(i as int),
        decreases row@.len() - i,
    {
        let ghost earlier = out;
        let bytes = codec::encode(&row[i]);
        let ghost added = bytes;
        out.push(bytes);
        proof {
            byte_string::lemma_deep_bytes(&added);
            byte_string::lemma_deep_push(earlier, out, added);
            assert(wanted.take(i + 1) =~= wanted.take(i as int).push(wanted[i as int]));
        }
        i += 1;
    }
    assert(wanted.take(i as int) =~= wanted);
    out
}

/// Encodes the values of rows.
fn encode_rows(rows: &Vec<Vec<DataType>>) -> (r: Vec<BindingRow>)
    ensures
        r.deep_view() == encoded_rows(lower::value_rows(rows@)),
{
    let ghost wanted = encoded_rows(lower::value_rows(rows@));
    let mut out: Vec<BindingRow> = Vec::new();
    let mut i: usize = 0;
    assert(out.deep_view() =~= wanted.take(0));
    while i < rows.len()
        invariant
            i <= rows@.len() == wanted.len(),
            wanted == encoded_rows(lower::value_rows(rows@)),
            out.deep_view() == wanted.take(i as int),
        decreases rows@.len() - i,
    {
        let ghost earlier = out;
        let row = encode_row(&rows[i]);
        let ghost added = row;
        out.push(row);
        proof {
            byte_string::lemma_deep_push(earlier, out, added);
            assert(added.deep_view() =~= wanted[i as int]);
            assert(wanted.take(i + 1) =~= wanted.take(i as int).push(wanted[i as int]));
        }
        i += 1;
    }
    assert(wanted.take(i as int) =~= wanted);
    out
}

/// The first row that does not have one value for each variable.
pub open spec fn arity_fault(rows: Seq<Row>, arity: nat) -> Option<ErrorView>
    decreases rows.len(),
{
    if rows.len() == 0 {
        None
    } else {
        match arity_fault(rows.drop_last(), arity) {
            Some(e) => Some(e),
            None => if rows.last().len() != arity {
                Some(
                    ErrorView::RowArity(
                        (rows.len() - 1) as usize,
                        rows.last().len() as usize,
                        arity as usize,
                    ),
                )
            } else {
                None
            },
        }
    }
}

/// Why rows make no relation, if they make none.
pub open spec fn relation_fault(names: Seq<Name>, rows: Seq<Row>) -> Option<ErrorView> {
    if !variable::unique(names) {
        Some(ErrorView::DuplicateVariable(variable::first_repeated(names).unwrap()))
    } else {
        arity_fault(rows, names.len())
    }
}

/// Rows that all have one value for each variable are without fault.
proof fn lemma_uniform(rows: Seq<Row>, arity: nat)
    requires
        binding_bag::uniform(rows, arity),
    ensures
        arity_fault(rows, arity) is None,
    decreases rows.len(),
{
    if rows.len() > 0 {
        assert forall|i: int| 0 <= i < rows.drop_last().len() implies (
        #[trigger] rows.drop_last()[i]).len() == arity by {
            assert(rows.drop_last()[i] == rows[i]);
        }
        lemma_uniform(rows.drop_last(), arity);
        assert(rows.last() == rows[rows.len() - 1]);
    }
}

/// Rows without fault all have one value for each variable.
proof fn lemma_rows_uniform(rows: Seq<Row>, arity: nat)
    requires
        arity_fault(rows, arity) is None,
    ensures
        binding_bag::uniform(rows, arity),
    decreases rows.len(),
{
    if rows.len() > 0 {
        lemma_rows_uniform(rows.drop_last(), arity);
        assert forall|i: int| 0 <= i < rows.len() implies (#[trigger] rows[i]).len() == arity by {
            if i < rows.len() - 1 {
                assert(rows.drop_last()[i] == rows[i]);
            }
        }
    }
}

/// The first row with another number of values is the fault.
proof fn lemma_first_bad(rows: Seq<Row>, arity: nat, i: int)
    requires
        0 <= i < rows.len(),
        rows[i].len() != arity,
        binding_bag::uniform(rows.take(i), arity),
    ensures
        arity_fault(rows, arity) == Some(
            ErrorView::RowArity(i as usize, rows[i].len() as usize, arity as usize),
        ),
    decreases rows.len(),
{
    if i == rows.len() - 1 {
        assert(rows.drop_last() =~= rows.take(i));
        lemma_uniform(rows.take(i), arity);
    } else {
        assert(rows.drop_last().take(i) =~= rows.take(i));
        lemma_first_bad(rows.drop_last(), arity, i);
    }
}

/// The kind of a triple, whose variables are different ones.
pub open spec fn triple_kind(
    id: PatternId,
    p: PatternView,
    idents: Seq<(Keyword, i64)>,
) -> Result<KindForm, ErrorView> {
    match convert::resolved(p.attribute, idents) {
        Err(e) => Err(e),
        Ok(attribute) => match placed_entity(p.entity) {
            Err(e) => Err(e),
            Ok(entity) => match placed_value(p.value) {
                Err(e) => Err(e),
                Ok(value) => if entity is Variable && entity == value {
                    Err(ErrorView::TripleRepeats(id, placed_names(entity)[0]))
                } else {
                    Ok(KindForm::Triple(entity, attribute, value))
                },
            },
        },
    }
}

/// The variables of a triple's positions.
pub open spec fn triple_names(kind: KindForm) -> Seq<Name> {
    match kind {
        KindForm::Triple(entity, _, value) => placed_names(entity) + placed_names(value),
        _ => Seq::empty(),
    }
}

/// The error of a pattern whose variables are not the descriptor's.
pub open spec fn variables_differ(id: PatternId, names: Seq<Name>, wanted: Seq<Name>) -> ErrorView {
    ErrorView::PatternVariables(id, text::listed(names), text::listed(wanted))
}

/// The error of a pattern whose variables are not the descriptor's.
fn differing(id: PatternId, variables: &[Variable], wanted: &[Variable]) -> (r: Error)
    ensures
        r@ == variables_differ(id, variables.deep_view(), wanted.deep_view()),
{
    Error::PatternVariables(id, list_text(variables), list_text(wanted))
}

/// The scopes inside the pattern of that number.
pub open spec fn scopes_of(nested: Seq<(PatternId, Nested)>, id: PatternId) -> Option<Nested>
    decreases nested.len(),
{
    if nested.len() == 0 {
        None
    } else if nested[0].0 == id {
        Some(nested[0].1)
    } else {
        scopes_of(nested.drop_first(), id)
    }
}

/// Where a number first stands in a list, if it does.
pub open spec fn place_of(ids: Seq<PatternId>, id: PatternId) -> Option<usize>
    decreases ids.len(),
{
    if ids.len() == 0 {
        None
    } else {
        match place_of(ids.drop_last(), id) {
            Some(i) => Some(i),
            None => if ids.last() == id {
                Some((ids.len() - 1) as usize)
            } else {
                None
            },
        }
    }
}

/// The numbers of patterns.
pub open spec fn form_ids(ps: Seq<PatternForm>) -> Seq<PatternId> {
    Seq::new(ps.len(), |i: int| ps[i].id)
}

/// The first proposer that repeats or takes no part.
pub open spec fn proposer_fault(
    proposers: Seq<ParticipantRef>,
    participants: Seq<ParticipantRef>,
) -> Option<ErrorView>
    decreases proposers.len(),
{
    if proposers.len() == 0 {
        None
    } else {
        match proposer_fault(proposers.drop_last(), participants) {
            Some(e) => Some(e),
            None => if proposers.drop_last().contains(proposers.last()) {
                Some(ErrorView::DuplicateProposer(proposers.last()))
            } else if !participants.contains(proposers.last()) {
                Some(ErrorView::ProposerAbsent(proposers.last()))
            } else {
                None
            },
        }
    }
}

/// Why the roles in a stage do not fit, if they do not.
pub open spec fn roles_fault(stage: StageView) -> Option<ErrorView> {
    match proposer_fault(stage.proposers, stage.participants) {
        Some(e) => Some(e),
        None => if stage.added.len() == 0 && stage.proposers.len() > 0 {
            Some(ErrorView::ValidationProposers)
        } else if stage.added.len() > 0 && stage.proposers.len() == 0 {
            Some(ErrorView::NoProposer)
        } else {
            None
        },
    }
}

/// The places of participants; one that is no pattern of the scope is refused.
pub open spec fn slots(participants: Seq<ParticipantRef>, ids: Seq<PatternId>) -> Result<
    Seq<Slot>,
    ErrorView,
>
    decreases participants.len(),
{
    if participants.len() == 0 {
        Ok(Seq::empty())
    } else {
        match slots(participants.drop_last(), ids) {
            Err(e) => Err(e),
            Ok(front) => match participants.last() {
                ParticipantRef::Incoming => Ok(front.push(Slot::Incoming)),
                ParticipantRef::Pattern(id) => match place_of(ids, id) {
                    Some(place) => Ok(front.push(Slot::Pattern(place))),
                    None => Err(ErrorView::UnknownPattern(id)),
                },
            },
        }
    }
}

/// A stage with its participants by place.
pub open spec fn template(stage: StageView, ids: Seq<PatternId>) -> Result<TemplateView, ErrorView> {
    match roles_fault(stage) {
        Some(e) => Err(e),
        None => match slots(stage.participants, ids) {
            Err(e) => Err(e),
            Ok(participants) => Ok(
                TemplateView { added: stage.added, participants, target: stage.target },
            ),
        },
    }
}

/// Stages with their participants by place; the first that does not fit decides the error.
pub open spec fn templates(stages: Seq<StageView>, ids: Seq<PatternId>) -> Result<
    Seq<TemplateView>,
    ErrorView,
>
    decreases stages.len(),
{
    if stages.len() == 0 {
        Ok(Seq::empty())
    } else {
        match templates(stages.drop_last(), ids) {
            Err(e) => Err(e),
            Ok(front) => match template(stages.last(), ids) {
                Err(e) => Err(e),
                Ok(t) => Ok(front.push(t)),
            },
        }
    }
}

/// The pattern of a descriptor. The variables of what was assembled have to be the descriptor's.
pub open spec fn assembled(
    d: Descriptor,
    nested: Seq<(PatternId, Nested)>,
    idents: Seq<(Keyword, i64)>,
) -> Result<PatternForm, ErrorView>
    decreases d, 3int,
{
    let names = d.variables.deep_view();
    match d.kind {
        DescriptorKind::Triple(pattern) => match triple_kind(d.id, pattern@, idents) {
            Err(e) => Err(e),
            Ok(kind) => if triple_names(kind) != names {
                Err(variables_differ(d.id, triple_names(kind), names))
            } else {
                Ok(PatternForm { id: d.id, names, kind })
            },
        },
        DescriptorKind::Relation { rows } => {
            let encoded = encoded_rows(lower::value_rows(rows@));
            match relation_fault(names, encoded) {
                Some(e) => Err(e),
                None => Ok(
                    PatternForm {
                        id: d.id,
                        names,
                        kind: KindForm::Relation(Relation { variables: names, rows: encoded }),
                    },
                ),
            }
        },
        DescriptorKind::Predicate { expression } => if expr::variables_of(expression@) != names {
            Err(variables_differ(d.id, expr::variables_of(expression@), names))
        } else {
            Ok(PatternForm { id: d.id, names, kind: KindForm::Predicate(expression@) })
        },
        DescriptorKind::Function { expression, input_variables: _, output } => {
            let inputs = expr::variables_of(expression@);
            if inputs.contains(output@) {
                Err(ErrorView::OutputIsInput(d.id, output@))
            } else if inputs.push(output@) != names {
                Err(variables_differ(d.id, inputs.push(output@), names))
            } else {
                Ok(PatternForm { id: d.id, names, kind: KindForm::Function(expression@, output@) })
            }
        },
        DescriptorKind::Or { branches } => match scopes_of(nested, d.id) {
            None => Err(ErrorView::NoNestedScope(d.id)),
            Some(Nested::Not { layout: _, stages: _ }) => Err(ErrorView::NotOrScopes(d.id)),
            Some(Nested::Or { layouts, branches: stages }) => if branches@.len() != layouts@.len()
                || branches@.len() != stages@.len() {
                Err(
                    ErrorView::BranchCount(
                        d.id,
                        branches@.len() as usize,
                        layouts@.len() as usize,
                    ),
                )
            } else {
                match assembled_branches(d.id, branches@, layouts@, stages@, nested, idents) {
                    Err(e) => Err(e),
                    Ok(scopes) => match or::or_fault(names, layouts@) {
                        Some(e) => Err(e),
                        None => Ok(
                            PatternForm {
                                id: d.id,
                                names,
                                kind: KindForm::Or(or::incoming_of(layouts@[0]).unwrap(), scopes),
                            },
                        ),
                    },
                }
            },
        },
        DescriptorKind::Not { children } => match scopes_of(nested, d.id) {
            None => Err(ErrorView::NoNestedScope(d.id)),
            Some(Nested::Or { layouts: _, branches: _ }) => Err(ErrorView::NotNotScope(d.id)),
            Some(Nested::Not { layout, stages }) => match or::incoming_of(layout) {
                None => Err(ErrorView::BodyNotNested(d.id)),
                Some(incoming) => if incoming != names {
                    Err(ErrorView::BodyLayout(d.id))
                } else {
                    match assembled_scope(children@, stages.deep_view(), nested, idents) {
                        Err(e) => Err(e),
                        Ok(body) => match not::not_fault(names, layout) {
                            Some(e) => Err(e),
                            None => Ok(
                                PatternForm {
                                    id: d.id,
                                    names,
                                    kind: KindForm::Not(incoming, body),
                                },
                            ),
                        },
                    }
                },
            },
        },
    }
}

/// The patterns of descriptors, each with a number of its own.
pub open spec fn assembled_all(
    ds: Seq<Descriptor>,
    nested: Seq<(PatternId, Nested)>,
    idents: Seq<(Keyword, i64)>,
) -> Result<Seq<PatternForm>, ErrorView>
    decreases ds, 0int,
{
    if ds.len() == 0 {
        Ok(Seq::empty())
    } else {
        match assembled_all(ds.drop_last(), nested, idents) {
            Err(e) => Err(e),
            Ok(front) => match assembled(ds.last(), nested, idents) {
                Err(e) => Err(e),
                Ok(p) => if form_ids(front).contains(p.id) {
                    Err(ErrorView::DuplicateDescriptor(p.id))
                } else {
                    Ok(front.push(p))
                },
            },
        }
    }
}

/// The patterns and stages of a scope.
pub open spec fn assembled_scope(
    ds: Seq<Descriptor>,
    stages: Seq<StageView>,
    nested: Seq<(PatternId, Nested)>,
    idents: Seq<(Keyword, i64)>,
) -> Result<ScopeForm, ErrorView>
    decreases ds, 1int,
{
    match assembled_all(ds, nested, idents) {
        Err(e) => Err(e),
        Ok(patterns) => match templates(stages, form_ids(patterns)) {
            Err(e) => Err(e),
            Ok(stages) => Ok(ScopeForm { patterns, stages }),
        },
    }
}

/// The scopes of branches, which all take in the same layout.
pub open spec fn assembled_branches(
    id: PatternId,
    branches: Seq<Vec<Descriptor>>,
    layouts: Seq<ScopeLayout>,
    stages: Seq<Vec<LogicalStage>>,
    nested: Seq<(PatternId, Nested)>,
    idents: Seq<(Keyword, i64)>,
) -> Result<Seq<ScopeForm>, ErrorView>
    decreases branches, 2int,
{
    if branches.len() == 0 {
        Ok(Seq::empty())
    } else {
        let last = branches.len() - 1;
        match assembled_branches(id, branches.drop_last(), layouts, stages, nested, idents) {
            Err(e) => Err(e),
            Ok(front) => if or::incoming_of(layouts[last]) is None {
                Err(ErrorView::BranchNotNested(id, last as usize))
            } else if or::incoming_of(layouts[last]) != or::incoming_of(layouts[0]) {
                Err(ErrorView::BranchLayouts(id))
            } else {
                match assembled_scope(
                    branches.last()@,
                    stages[last].deep_view(),
                    nested,
                    idents,
                ) {
                    Err(e) => Err(e),
                    Ok(scope) => Ok(front.push(scope)),
                }
            },
        }
    }
}

/// Whether the relations in a pattern are over the variables of their patterns, and well formed.
pub open spec fn sound_form(form: PatternForm) -> bool
    decreases form, 3int,
{
    match form.kind {
        KindForm::Relation(bag) => bag.variables == form.names && bag.wf(),
        KindForm::Or(_, scopes) => sound_scopes(scopes),
        KindForm::Not(_, body) => sound_scope(body),
        _ => true,
    }
}

/// Whether the relations in patterns are.
pub open spec fn sound_forms(forms: Seq<PatternForm>) -> bool
    decreases forms, 0int,
{
    forall|i: int| 0 <= i < forms.len() ==> sound_form(#[trigger] forms[i])
}

/// Whether the relations in a scope are.
pub open spec fn sound_scope(scope: ScopeForm) -> bool
    decreases scope, 1int,
{
    sound_forms(scope.patterns)
}

/// Whether the relations in scopes are.
pub open spec fn sound_scopes(scopes: Seq<ScopeForm>) -> bool
    decreases scopes, 2int,
{
    forall|i: int| 0 <= i < scopes.len() ==> sound_scope(#[trigger] scopes[i])
}

/// A relation without a fault is well formed.
proof fn lemma_no_relation_fault(names: Seq<Name>, rows: Seq<Row>)
    requires
        relation_fault(names, rows) is None,
    ensures
        (Relation { variables: names, rows }).wf(),
{
    lemma_rows_uniform(rows, names.len());
}

/// In what is assembled of a descriptor every relation is over the variables of its pattern, and
/// well formed, also in the scopes inside.
pub proof fn law_assembled_relations(
    d: Descriptor,
    nested: Seq<(PatternId, Nested)>,
    idents: Seq<(Keyword, i64)>,
)
    ensures
        assembled(d, nested, idents) matches Ok(form) ==> sound_form(form),
    decreases d, 3int,
{
    match d.kind {
        DescriptorKind::Relation { rows } => {
            let encoded = encoded_rows(lower::value_rows(rows@));
            if relation_fault(d.variables.deep_view(), encoded) is None {
                lemma_no_relation_fault(d.variables.deep_view(), encoded);
            }
        },
        DescriptorKind::Or { branches } => {
            if let Some(Nested::Or { layouts, branches: stages }) = scopes_of(nested, d.id) {
                lemma_sound_branches(d.id, branches@, layouts@, stages@, nested, idents);
            }
        },
        DescriptorKind::Not { children } => {
            if let Some(Nested::Not { layout, stages }) = scopes_of(nested, d.id) {
                lemma_sound_scope(children@, stages.deep_view(), nested, idents);
            }
        },
        _ => {},
    }
}

/// The same of all descriptors of a scope.
proof fn lemma_sound_all(
    ds: Seq<Descriptor>,
    nested: Seq<(PatternId, Nested)>,
    idents: Seq<(Keyword, i64)>,
)
    ensures
        assembled_all(ds, nested, idents) matches Ok(forms) ==> sound_forms(forms),
    decreases ds, 0int,
{
    if ds.len() > 0 {
        lemma_sound_all(ds.drop_last(), nested, idents);
        law_assembled_relations(ds.last(), nested, idents);
    }
}

/// The same of a scope.
proof fn lemma_sound_scope(
    ds: Seq<Descriptor>,
    stages: Seq<StageView>,
    nested: Seq<(PatternId, Nested)>,
    idents: Seq<(Keyword, i64)>,
)
    ensures
        assembled_scope(ds, stages, nested, idents) matches Ok(scope) ==> sound_scope(scope),
    decreases ds, 1int,
{
    lemma_sound_all(ds, nested, idents);
}

/// The same of the scopes of branches.
proof fn lemma_sound_branches(
    id: PatternId,
    branches: Seq<Vec<Descriptor>>,
    layouts: Seq<ScopeLayout>,
    stages: Seq<Vec<LogicalStage>>,
    nested: Seq<(PatternId, Nested)>,
    idents: Seq<(Keyword, i64)>,
)
    ensures
        assembled_branches(id, branches, layouts, stages, nested, idents) matches Ok(scopes)
            ==> sound_scopes(scopes),
    decreases branches, 2int,
{
    if branches.len() > 0 {
        let last = branches.len() - 1;
        lemma_sound_branches(id, branches.drop_last(), layouts, stages, nested, idents);
        lemma_sound_scope(branches.last()@, stages[last].deep_view(), nested, idents);
    }
}

/// What an assembled pattern is.
pub open spec fn outcome(r: Result<AssembledPattern, Error>) -> Result<PatternForm, ErrorView> {
    match r {
        Ok(p) => Ok(pattern_form(p)),
        Err(e) => Err(e@),
    }
}

/// What an assembled scope is.
pub open spec fn scope_outcome(r: Result<AssembledScope, Error>) -> Result<ScopeForm, ErrorView> {
    match r {
        Ok(s) => Ok(scope_form(s)),
        Err(e) => Err(e@),
    }
}

/// Whether a participant is in a list.
fn is_among(list: &[ParticipantRef], upto: usize, p: ParticipantRef) -> (r: bool)
    requires
        upto <= list@.len(),
    ensures
        r == list@.take(upto as int).contains(p),
{
    let mut i: usize = 0;
    while i < upto
        invariant
            i <= upto <= list@.len(),
            forall|j: int| 0 <= j < i ==> list@[j] != p,
        decreases upto - i,
    {
        if list[i] == p {
            assert(list@.take(upto as int)[i as int] == p);
            return true;
        }
        i += 1;
    }
    false
}

/// A fault of the first proposers is the fault of all of them.
proof fn lemma_proposer_fault(
    proposers: Seq<ParticipantRef>,
    participants: Seq<ParticipantRef>,
    n: int,
)
    requires
        0 <= n <= proposers.len(),
        proposer_fault(proposers.take(n), participants) is Some,
    ensures
        proposer_fault(proposers, participants) == proposer_fault(proposers.take(n), participants),
    decreases proposers.len(),
{
    if n == proposers.len() {
        assert(proposers.take(n) =~= proposers);
    } else {
        assert(proposers.drop_last().take(n) =~= proposers.take(n));
        lemma_proposer_fault(proposers.drop_last(), participants, n);
    }
}

/// Checks the roles in a stage: a proposer takes part and is named once, and there are proposers
/// exactly where variables are added.
pub fn validate_roles(stage: &LogicalStage) -> (r: Result<(), Error>)
    ensures
        error::told(r) == (match roles_fault(stage@) {
            Some(e) => Err::<(), ErrorView>(e),
            None => Ok(()),
        }),
{
    let ghost proposers = stage.proposers@;
    let ghost participants = stage.participants@;
    let mut i: usize = 0;
    assert(proposers.take(0) =~= Seq::empty());
    while i < stage.proposers.len()
        invariant
            i <= stage.proposers@.len(),
            proposers == stage.proposers@,
            participants == stage.participants@,
            proposer_fault(proposers.take(i as int), participants) is None,
        decreases stage.proposers@.len() - i,
    {
        proof {
            assert(proposers.take(i + 1).drop_last() =~= proposers.take(i as int));
            assert(proposers.take(i + 1).last() == proposers[i as int]);
        }
        let proposer = stage.proposers[i];
        if is_among(&stage.proposers, i, proposer) {
            proof {
                lemma_proposer_fault(proposers, participants, i + 1);
            }
            return Err(Error::DuplicateProposer(proposer));
        }
        assert(participants.take(participants.len() as int) =~= participants);
        if !is_among(&stage.participants, stage.participants.len(), proposer) {
            proof {
                lemma_proposer_fault(proposers, participants, i + 1);
            }
            return Err(Error::ProposerAbsent(proposer));
        }
        i += 1;
    }
    assert(proposers.take(i as int) =~= proposers);
    assert(stage.added.deep_view().len() == stage.added@.len());
    if stage.added.len() == 0 && stage.proposers.len() > 0 {
        return Err(Error::ValidationProposers);
    }
    if stage.added.len() > 0 && stage.proposers.len() == 0 {
        return Err(Error::NoProposer);
    }
    Ok(())
}

/// The numbers of patterns are those of what they are.
proof fn lemma_forms(ps: Seq<AssembledPattern>)
    ensures
        pattern_forms(ps).len() == ps.len(),
        forall|i: int|
            0 <= i < ps.len() ==> (#[trigger] pattern_forms(ps)[i]) == pattern_form(ps[i]),
    decreases ps.len(),
{
    if ps.len() > 0 {
        lemma_forms(ps.drop_last());
        assert forall|i: int| 0 <= i < ps.len() implies (#[trigger] pattern_forms(ps)[i])
            == pattern_form(ps[i]) by {
            if i < ps.len() - 1 {
                assert(ps.drop_last()[i] == ps[i]);
                assert(pattern_forms(ps)[i] == pattern_forms(ps.drop_last())[i]);
            }
        }
    }
}

/// A number that is in no place is not in the list.
proof fn lemma_place_of(ids: Seq<PatternId>, id: PatternId, n: int)
    requires
        0 <= n <= ids.len(),
        forall|i: int| 0 <= i < n ==> ids[i] != id,
    ensures
        place_of(ids.take(n), id) is None,
        n < ids.len() && ids[n] == id ==> place_of(ids, id) == Some(n as usize),
    decreases ids.len(),
{
    if n < ids.len() {
        lemma_place_of(ids.drop_last(), id, n);
        assert(ids.drop_last().take(n) =~= ids.take(n));
    } else if n > 0 {
        lemma_place_of(ids.drop_last(), id, n - 1);
        assert(ids.drop_last().take(n - 1) =~= ids.drop_last());
        assert(ids.take(n) =~= ids);
    } else {
        assert(ids.take(n) =~= Seq::empty());
    }
}

/// The place of the pattern of that number.
fn find_pattern(patterns: &Vec<AssembledPattern>, id: PatternId) -> (r: Option<usize>)
    ensures
        r == place_of(form_ids(pattern_forms(patterns@)), id),
{
    let ghost ids = form_ids(pattern_forms(patterns@));
    proof {
        lemma_forms(patterns@);
    }
    let mut i: usize = 0;
    while i < patterns.len()
        invariant
            i <= patterns@.len() == ids.len(),
            ids == form_ids(pattern_forms(patterns@)),
            pattern_forms(patterns@).len() == patterns@.len(),
            forall|k: int|
                0 <= k < patterns@.len() ==> (#[trigger] pattern_forms(patterns@)[k])
                    == pattern_form(patterns@[k]),
            forall|j: int| 0 <= j < i ==> ids[j] != id,
        decreases patterns@.len() - i,
    {
        assert(ids[i as int] == pattern_forms(patterns@)[i as int].id);
        if patterns[i].id == id {
            proof {
                lemma_place_of(ids, id, i as int);
            }
            return Some(i);
        }
        i += 1;
    }
    proof {
        lemma_place_of(ids, id, i as int);
        assert(ids.take(i as int) =~= ids);
    }
    None
}

/// An error of the first participants is the error of all of them.
proof fn lemma_slots(participants: Seq<ParticipantRef>, ids: Seq<PatternId>, n: int)
    requires
        0 <= n <= participants.len(),
        slots(participants.take(n), ids) is Err,
    ensures
        slots(participants, ids) == slots(participants.take(n), ids),
    decreases participants.len(),
{
    if n == participants.len() {
        assert(participants.take(n) =~= participants);
    } else {
        assert(participants.drop_last().take(n) =~= participants.take(n));
        lemma_slots(participants.drop_last(), ids, n);
    }
}

/// A stage with its participants by place.
fn assemble_stage(stage: &LogicalStage, patterns: &Vec<AssembledPattern>) -> (r: Result<
    StageTemplate,
    Error,
>)
    ensures
        match r {
            Ok(t) => template(stage@, form_ids(pattern_forms(patterns@))) == Ok::<
                TemplateView,
                ErrorView,
            >(t@),
            Err(e) => template(stage@, form_ids(pattern_forms(patterns@))) == Err::<
                TemplateView,
                ErrorView,
            >(e@),
        },
{
    let ghost ids = form_ids(pattern_forms(patterns@));
    match validate_roles(stage) {
        Ok(_) => {},
        Err(e) => {
            return Err(e);
        },
    }
    let ghost all = stage.participants@;
    let mut participants: Vec<Slot> = Vec::new();
    let mut i: usize = 0;
    assert(all.take(0) =~= Seq::empty());
    assert(participants@ =~= Seq::empty());
    while i < stage.participants.len()
        invariant
            i <= stage.participants@.len(),
            all == stage.participants@,
            ids == form_ids(pattern_forms(patterns@)),
            roles_fault(stage@) is None,
            slots(all.take(i as int), ids) == Ok::<Seq<Slot>, ErrorView>(participants@),
        decreases stage.participants@.len() - i,
    {
        proof {
            assert(all.take(i + 1).drop_last() =~= all.take(i as int));
            assert(all.take(i + 1).last() == all[i as int]);
        }
        match stage.participants[i] {
            ParticipantRef::Incoming => {
                participants.push(Slot::Incoming);
            },
            ParticipantRef::Pattern(id) => match find_pattern(patterns, id) {
                Some(place) => {
                    participants.push(Slot::Pattern(place));
                },
                None => {
                    proof {
                        lemma_slots(all, ids, i + 1);
                    }
                    return Err(Error::UnknownPattern(id));
                },
            },
        }
        i += 1;
    }
    assert(all.take(i as int) =~= all);
    Ok(
        StageTemplate {
            added: copy_all(&stage.added),
            participants,
            target_variables: copy_all(&stage.target_variables),
        },
    )
}

/// An error of the first stages is the error of all of them.
proof fn lemma_templates(stages: Seq<StageView>, ids: Seq<PatternId>, n: int)
    requires
        0 <= n <= stages.len(),
        templates(stages.take(n), ids) is Err,
    ensures
        templates(stages, ids) == templates(stages.take(n), ids),
    decreases stages.len(),
{
    if n == stages.len() {
        assert(stages.take(n) =~= stages);
    } else {
        assert(stages.drop_last().take(n) =~= stages.take(n));
        lemma_templates(stages.drop_last(), ids, n);
    }
}

/// Stages with their participants by place.
fn assemble_stages(stages: &Vec<LogicalStage>, patterns: &Vec<AssembledPattern>) -> (r: Result<
    Vec<StageTemplate>,
    Error,
>)
    ensures
        match r {
            Ok(list) => templates(stages.deep_view(), form_ids(pattern_forms(patterns@))) == Ok::<
                Seq<TemplateView>,
                ErrorView,
            >(list.deep_view()),
            Err(e) => templates(stages.deep_view(), form_ids(pattern_forms(patterns@))) == Err::<
                Seq<TemplateView>,
                ErrorView,
            >(e@),
        },
{
    let ghost ids = form_ids(pattern_forms(patterns@));
    let ghost all = stages.deep_view();
    assert(all.len() == stages@.len());
    let mut list: Vec<StageTemplate> = Vec::new();
    let mut i: usize = 0;
    assert(all.take(0) =~= Seq::empty());
    assert(list.deep_view() =~= Seq::empty());
    while i < stages.len()
        invariant
            i <= stages@.len() == all.len(),
            all == stages.deep_view(),
            ids == form_ids(pattern_forms(patterns@)),
            templates(all.take(i as int), ids) == Ok::<Seq<TemplateView>, ErrorView>(list.deep_view()),
        decreases stages@.len() - i,
    {
        proof {
            assert(all.take(i + 1).drop_last() =~= all.take(i as int));
            assert(all.take(i + 1).last() == stages@[i as int]@);
        }
        match assemble_stage(&stages[i], patterns) {
            Ok(t) => {
                let ghost earlier = list;
                let ghost added = t;
                list.push(t);
                proof {
                    byte_string::lemma_deep_push(earlier, list, added);
                }
            },
            Err(e) => {
                proof {
                    lemma_templates(all, ids, i + 1);
                }
                return Err(e);
            },
        }
        i += 1;
    }
    assert(all.take(i as int) =~= all);
    Ok(list)
}

/// The kind of a triple, with its variables.
fn assemble_triple<'a>(
    id: PatternId,
    pattern: &Pattern,
    idents: &[(Keyword, i64)],
) -> (r: Result<(AssembledKind<'a>, Vec<Variable>), Error>)
    ensures
        match r {
            Ok((kind, variables)) => (kind matches AssembledKind::Triple {
                entity,
                attribute,
                value,
            } && triple_kind(id, pattern@, idents@) == Ok::<KindForm, ErrorView>(
                KindForm::Triple(entity@, attribute, value@),
            ) && variables.deep_view() == placed_names(entity@) + placed_names(value@)),
            Err(e) => triple_kind(id, pattern@, idents@) == Err::<KindForm, ErrorView>(e@),
        },
{
    let attribute: i64 = match resolve_attribute_from_pattern(&pattern.attribute, idents) {
        Ok(attribute) => attribute,
        Err(e) => {
            return Err(e);
        },
    };
    let entity = match entity_term(&pattern.entity) {
        Ok(entity) => entity,
        Err(e) => {
            return Err(e);
        },
    };
    let value = match value_term(&pattern.value) {
        Ok(value) => value,
        Err(e) => {
            return Err(e);
        },
    };
    let mut variables: Vec<Variable> = Vec::new();
    assert(variables.deep_view() =~= Seq::empty());
    if let PlacedTerm::Variable(v) = &entity {
        let copy = v.clone();
        let ghost earlier = variables;
        variables.push(copy);
        proof {
            byte_string::lemma_deep_push(earlier, variables, copy);
        }
    }
    assert(variables.deep_view() =~= placed_names(entity@));
    if let PlacedTerm::Variable(v) = &value {
        if contains(&variables, v) {
            assert(placed_names(entity@).contains(v@));
            return Err(Error::TripleRepeats(id, v.name.clone()));
        }
        proof {
            if entity@ == value@ {
                assert(placed_names(entity@)[0] == v@);
            }
        }
        let copy = v.clone();
        let ghost earlier = variables;
        variables.push(copy);
        proof {
            byte_string::lemma_deep_push(earlier, variables, copy);
        }
    }
    assert(variables.deep_view() =~= placed_names(entity@) + placed_names(value@));
    Ok((AssembledKind::Triple { entity, attribute, value }, variables))
}

/// The relation of rows of values.
fn assemble_relation(variables: &Vec<Variable>, rows: &Vec<Vec<DataType>>) -> (r: Result<
    BindingBag,
    Error,
>)
    ensures
        match r {
            Ok(bag) => relation_fault(
                variables.deep_view(),
                encoded_rows(lower::value_rows(rows@)),
            ) is None && bag@.rows == encoded_rows(lower::value_rows(rows@)) && bag@.variables
                == variables.deep_view(),
            Err(e) => relation_fault(
                variables.deep_view(),
                encoded_rows(lower::value_rows(rows@)),
            ) == Some(e@),
        },
{
    let ghost encoded = encoded_rows(lower::value_rows(rows@));
    assert(variables.deep_view().len() == variables@.len());
    let r = BindingBag::new(copy_all(variables), encode_rows(rows));
    proof {
        match &r {
            Ok(_) => {
                lemma_uniform(encoded, variables@.len());
            },
            Err(e) => {
                if variable::unique(variables.deep_view()) {
                    let i = choose|i: int|
                        0 <= i < encoded.len() && e@ == ErrorView::RowArity(
                            i as usize,
                            encoded[i].len() as usize,
                            variables@.len() as usize,
                        ) && (
                        #[trigger] encoded[i]).len() != variables@.len() && binding_bag::uniform(
                            encoded.take(i),
                            variables@.len(),
                        );
                    lemma_first_bad(encoded, variables@.len(), i);
                }
            },
        }
    }
    r
}

/// The scopes inside the pattern of that number.
fn nested_scopes(nested: &Vec<(PatternId, Nested)>, id: PatternId) -> (r: Option<&Nested>)
    ensures
        match r {
            Some(n) => scopes_of(nested@, id) == Some(*n),
            None => scopes_of(nested@, id) is None,
        },
{
    let mut i: usize = 0;
    assert(nested@.skip(0) =~= nested@);
    while i < nested.len()
        invariant
            i <= nested@.len(),
            scopes_of(nested@, id) == scopes_of(nested@.skip(i as int), id),
        decreases nested@.len() - i,
    {
        assert(nested@.skip(i as int).drop_first() =~= nested@.skip(i + 1));
        if nested[i].0 == id {
            return Some(&nested[i].1);
        }
        i += 1;
    }
    None
}

/// The pattern of a descriptor.
pub fn assemble_descriptor<'a>(
    descriptor: &'a Descriptor,
    nested: &Vec<(PatternId, Nested)>,
    idents: &[(Keyword, i64)],
) -> (r: Result<AssembledPattern<'a>, Error>)
    ensures
        outcome(r) == assembled(*descriptor, nested@, idents@),
        r matches Ok(p) ==> sound_form(pattern_form(p)),
    decreases *descriptor, 3int,
{
    proof {
        law_assembled_relations(*descriptor, nested@, idents@);
    }
    let id: PatternId = descriptor.id;
    match &descriptor.kind {
        DescriptorKind::Triple(pattern) => {
            let (kind, variables) = match assemble_triple(id, pattern, idents) {
                Ok(found) => found,
                Err(e) => {
                    return Err(e);
                },
            };
            if !same_all(&variables, &descriptor.variables) {
                return Err(differing(id, &variables, &descriptor.variables));
            }
            Ok(AssembledPattern { id, variables, kind })
        },
        DescriptorKind::Relation { rows } => {
            let bag = match assemble_relation(&descriptor.variables, rows) {
                Ok(bag) => bag,
                Err(e) => {
                    return Err(e);
                },
            };
            Ok(
                AssembledPattern {
                    id,
                    variables: copy_all(&descriptor.variables),
                    kind: AssembledKind::Relation(bag),
                },
            )
        },
        DescriptorKind::Predicate { expression } => {
            let variables = expr_variables(expression);
            if !same_all(&variables, &descriptor.variables) {
                return Err(differing(id, &variables, &descriptor.variables));
            }
            Ok(AssembledPattern { id, variables, kind: AssembledKind::Predicate(expression) })
        },
        DescriptorKind::Function { expression, input_variables: _, output } => {
            let mut variables = expr_variables(expression);
            if contains(&variables, output) {
                return Err(Error::OutputIsInput(id, output.name.clone()));
            }
            let copy = output.clone();
            let ghost earlier = variables;
            variables.push(copy);
            proof {
                byte_string::lemma_deep_push(earlier, variables, copy);
            }
            if !same_all(&variables, &descriptor.variables) {
                return Err(differing(id, &variables, &descriptor.variables));
            }
            Ok(
                AssembledPattern {
                    id,
                    variables,
                    kind: AssembledKind::Function { expression, output },
                },
            )
        },
        DescriptorKind::Or { branches } => {
            let (layouts, stages) = match nested_scopes(nested, id) {
                Some(Nested::Or { layouts, branches: stages }) => (layouts, stages),
                Some(_) => {
                    return Err(Error::NotOrScopes(id));
                },
                None => {
                    return Err(Error::NoNestedScope(id));
                },
            };
            if branches.len() != layouts.len() || branches.len() != stages.len() {
                return Err(Error::BranchCount(id, branches.len(), layouts.len()));
            }
            let scopes = match assemble_or(id, branches, layouts, stages, nested, idents) {
                Ok(scopes) => scopes,
                Err(e) => {
                    return Err(e);
                },
            };
            let pattern = match OrPattern::new(id, copy_all(&descriptor.variables), layouts) {
                Ok(pattern) => pattern,
                Err(e) => {
                    return Err(e);
                },
            };
            Ok(
                AssembledPattern {
                    id,
                    variables: pattern.variables,
                    kind: AssembledKind::Or {
                        incoming: pattern.incoming_variables,
                        branches: scopes,
                    },
                },
            )
        },
        DescriptorKind::Not { children } => {
            let (layout, stages) = match nested_scopes(nested, id) {
                Some(Nested::Not { layout, stages }) => (layout, stages),
                Some(_) => {
                    return Err(Error::NotNotScope(id));
                },
                None => {
                    return Err(Error::NoNestedScope(id));
                },
            };
            match &layout.incoming {
                Some(incoming) => {
                    if !same_all(incoming, &descriptor.variables) {
                        return Err(Error::BodyLayout(id));
                    }
                },
                None => {
                    return Err(Error::BodyNotNested(id));
                },
            }
            let body = match assemble_scope(children, stages, nested, idents) {
                Ok(body) => body,
                Err(e) => {
                    return Err(e);
                },
            };
            let pattern = match NotPattern::new(id, copy_all(&descriptor.variables), layout) {
                Ok(pattern) => pattern,
                Err(e) => {
                    return Err(e);
                },
            };
            Ok(
                AssembledPattern {
                    id,
                    variables: pattern.variables,
                    kind: AssembledKind::Not { incoming: pattern.incoming_variables, body },
                },
            )
        },
    }
}

/// An error of the first descriptors is the error of all of them.
proof fn lemma_assembled_all(
    ds: Seq<Descriptor>,
    nested: Seq<(PatternId, Nested)>,
    idents: Seq<(Keyword, i64)>,
    n: int,
)
    requires
        0 <= n <= ds.len(),
        assembled_all(ds.take(n), nested, idents) is Err,
    ensures
        assembled_all(ds, nested, idents) == assembled_all(ds.take(n), nested, idents),
    decreases ds.len(),
{
    if n == ds.len() {
        assert(ds.take(n) =~= ds);
    } else {
        assert(ds.drop_last().take(n) =~= ds.take(n));
        lemma_assembled_all(ds.drop_last(), nested, idents, n);
    }
}

/// A number in a list has a place.
proof fn lemma_placed(ids: Seq<PatternId>, id: PatternId)
    ensures
        (place_of(ids, id) is Some) == ids.contains(id),
    decreases ids.len(),
{
    if ids.len() > 0 {
        lemma_placed(ids.drop_last(), id);
        if ids.contains(id) {
            let i = ids.index_of(id);
            if i < ids.len() - 1 {
                assert(ids.drop_last()[i] == id);
            }
        }
        if ids.drop_last().contains(id) {
            assert(ids[ids.drop_last().index_of(id)] == id);
        }
        if ids.last() == id {
            assert(ids[ids.len() - 1] == id);
        }
    }
}

/// The patterns of descriptors.
fn assemble_patterns<'a>(
    descriptors: &'a Vec<Descriptor>,
    nested: &Vec<(PatternId, Nested)>,
    idents: &[(Keyword, i64)],
) -> (r: Result<Vec<AssembledPattern<'a>>, Error>)
    ensures
        match r {
            Ok(list) => assembled_all(descriptors@, nested@, idents@) == Ok::<
                Seq<PatternForm>,
                ErrorView,
            >(pattern_forms(list@)),
            Err(e) => assembled_all(descriptors@, nested@, idents@) == Err::<
                Seq<PatternForm>,
                ErrorView,
            >(e@),
        },
    decreases descriptors@, 0int,
{
    let mut list: Vec<AssembledPattern<'a>> = Vec::new();
    let mut i: usize = 0;
    assert(descriptors@.take(0) =~= Seq::empty());
    while i < descriptors.len()
        invariant
            i <= descriptors@.len(),
            assembled_all(descriptors@.take(i as int), nested@, idents@) == Ok::<
                Seq<PatternForm>,
                ErrorView,
            >(pattern_forms(list@)),
        decreases descriptors@.len() - i,
    {
        proof {
            assert(descriptors@.take(i + 1).drop_last() =~= descriptors@.take(i as int));
            assert(descriptors@.take(i + 1).last() == descriptors@[i as int]);
        }
        match assemble_descriptor(&descriptors[i], nested, idents) {
            Ok(p) => {
                proof {
                    lemma_placed(form_ids(pattern_forms(list@)), p.id);
                }
                match find_pattern(&list, p.id) {
                    Some(_) => {
                        proof {
                            lemma_assembled_all(descriptors@, nested@, idents@, i + 1);
                        }
                        return Err(Error::DuplicateDescriptor(p.id));
                    },
                    None => {},
                }
                let ghost earlier = list@;
                list.push(p);
                assert(list@.drop_last() =~= earlier);
            },
            Err(e) => {
                proof {
                    lemma_assembled_all(descriptors@, nested@, idents@, i + 1);
                }
                return Err(e);
            },
        }
        i += 1;
    }
    assert(descriptors@.take(i as int) =~= descriptors@);
    Ok(list)
}

/// The patterns and stages of a scope.
fn assemble_scope<'a>(
    descriptors: &'a Vec<Descriptor>,
    stages: &Vec<LogicalStage>,
    nested: &Vec<(PatternId, Nested)>,
    idents: &[(Keyword, i64)],
) -> (r: Result<AssembledScope<'a>, Error>)
    ensures
        scope_outcome(r) == assembled_scope(descriptors@, stages.deep_view(), nested@, idents@),
    decreases descriptors@, 1int,
{
    let patterns = match assemble_patterns(descriptors, nested, idents) {
        Ok(patterns) => patterns,
        Err(e) => {
            return Err(e);
        },
    };
    let stages = match assemble_stages(stages, &patterns) {
        Ok(stages) => stages,
        Err(e) => {
            return Err(e);
        },
    };
    Ok(AssembledScope { patterns, stages })
}

/// An error of the first branches is the error of all of them.
proof fn lemma_assembled_branches(
    id: PatternId,
    branches: Seq<Vec<Descriptor>>,
    layouts: Seq<ScopeLayout>,
    stages: Seq<Vec<LogicalStage>>,
    nested: Seq<(PatternId, Nested)>,
    idents: Seq<(Keyword, i64)>,
    n: int,
)
    requires
        0 <= n <= branches.len(),
        assembled_branches(id, branches.take(n), layouts, stages, nested, idents) is Err,
    ensures
        assembled_branches(id, branches, layouts, stages, nested, idents) == assembled_branches(
            id,
            branches.take(n),
            layouts,
            stages,
            nested,
            idents,
        ),
    decreases branches.len(),
{
    if n == branches.len() {
        assert(branches.take(n) =~= branches);
    } else {
        assert(branches.drop_last().take(n) =~= branches.take(n));
        lemma_assembled_branches(id, branches.drop_last(), layouts, stages, nested, idents, n);
    }
}

/// Whether two layouts take in the same variables in the same order.
fn same_incoming(a: &ScopeLayout, b: &ScopeLayout) -> (r: bool)
    ensures
        r == (or::incoming_of(*a) == or::incoming_of(*b)),
{
    match (&a.incoming, &b.incoming) {
        (Some(x), Some(y)) => same_all(x, y),
        (None, None) => true,
        _ => false,
    }
}

/// The scopes of branches.
fn assemble_or<'a>(
    id: PatternId,
    branches: &'a Vec<Vec<Descriptor>>,
    layouts: &Vec<ScopeLayout>,
    stages: &Vec<Vec<LogicalStage>>,
    nested: &Vec<(PatternId, Nested)>,
    idents: &[(Keyword, i64)],
) -> (r: Result<Vec<AssembledScope<'a>>, Error>)
    requires
        branches@.len() == layouts@.len() == stages@.len(),
    ensures
        match r {
            Ok(list) => assembled_branches(id, branches@, layouts@, stages@, nested@, idents@) == Ok::<
                Seq<ScopeForm>,
                ErrorView,
            >(scope_forms(list@)),
            Err(e) => assembled_branches(id, branches@, layouts@, stages@, nested@, idents@) == Err::<
                Seq<ScopeForm>,
                ErrorView,
            >(e@),
        },
    decreases branches@, 2int,
{
    let mut list: Vec<AssembledScope<'a>> = Vec::new();
    let mut i: usize = 0;
    assert(branches@.take(0) =~= Seq::empty());
    while i < branches.len()
        invariant
            i <= branches@.len(),
            branches@.len() == layouts@.len() == stages@.len(),
            assembled_branches(id, branches@.take(i as int), layouts@, stages@, nested@, idents@)
                == Ok::<Seq<ScopeForm>, ErrorView>(scope_forms(list@)),
        decreases branches@.len() - i,
    {
        proof {
            assert(branches@.take(i + 1).drop_last() =~= branches@.take(i as int));
            assert(branches@.take(i + 1).last() == branches@[i as int]);
            if assembled_branches(
                id,
                branches@.take(i + 1),
                layouts@,
                stages@,
                nested@,
                idents@,
            ) is Err {
                lemma_assembled_branches(
                    id,
                    branches@,
                    layouts@,
                    stages@,
                    nested@,
                    idents@,
                    i + 1,
                );
            }
        }
        if layouts[i].incoming.is_none() {
            return Err(Error::BranchNotNested(id, i));
        }
        if !same_incoming(&layouts[i], &layouts[0]) {
            return Err(Error::BranchLayouts(id));
        }
        match assemble_scope(&branches[i], &stages[i], nested, idents) {
            Ok(scope) => {
                let ghost earlier = list@;
                list.push(scope);
                assert(list@.drop_last() =~= earlier);
            },
            Err(e) => {
                return Err(e);
            },
        }
        i += 1;
    }
    assert(branches@.take(i as int) =~= branches@);
    Ok(list)
}

/// The layout that stages end with.
pub open spec fn final_layout(stages: Seq<TemplateView>) -> Seq<Name> {
    if stages.len() == 0 {
        Seq::empty()
    } else {
        stages.last().target
    }
}

/// A plan that can be run: it takes nothing in, and ends with the variables of the query.
pub open spec fn assembled_plan(
    layout: ScopeLayout,
    order: Seq<Name>,
    ds: Seq<Descriptor>,
    stages: Seq<StageView>,
    nested: Seq<(PatternId, Nested)>,
    idents: Seq<(Keyword, i64)>,
) -> Result<ScopeForm, ErrorView> {
    if or::incoming_of(layout) is Some {
        Err(ErrorView::TopLevelIncoming)
    } else {
        match assembled_scope(ds, stages, nested, idents) {
            Err(e) => Err(e),
            Ok(scope) => if final_layout(scope.stages) != order {
                Err(
                    ErrorView::FinalLayout(
                        text::listed(final_layout(scope.stages)),
                        text::listed(order),
                    ),
                )
            } else {
                Ok(scope)
            },
        }
    }
}

/// Assembles a plan that can be run.
pub fn assemble_plan<'a>(
    layout: &ScopeLayout,
    variable_order: &Vec<Variable>,
    descriptors: &'a Vec<Descriptor>,
    stages: &Vec<LogicalStage>,
    nested: &Vec<(PatternId, Nested)>,
    idents: &[(Keyword, i64)],
) -> (r: Result<AssembledScope<'a>, Error>)
    ensures
        scope_outcome(r) == assembled_plan(
            *layout,
            variable_order.deep_view(),
            descriptors@,
            stages.deep_view(),
            nested@,
            idents@,
        ),
        r matches Ok(scope) ==> sound_scope(scope_form(scope)),
{
    proof {
        lemma_sound_scope(descriptors@, stages.deep_view(), nested@, idents@);
    }
    if layout.incoming.is_some() {
        return Err(Error::TopLevelIncoming);
    }
    let scope = match assemble_scope(descriptors, stages, nested, idents) {
        Ok(scope) => scope,
        Err(e) => {
            return Err(e);
        },
    };
    assert(scope.stages.deep_view().len() == scope.stages@.len());
    assert(variable_order.deep_view().len() == variable_order@.len());
    let fits = if scope.stages.len() == 0 {
        assert(variable_order@.len() == 0 ==> variable_order.deep_view() =~= Seq::empty());
        variable_order.len() == 0
    } else {
        same_all(&scope.stages[scope.stages.len() - 1].target_variables, variable_order)
    };
    if !fits {
        let none: Vec<Variable> = Vec::new();
        assert(none.deep_view() =~= Seq::<Name>::empty());
        let produced = if scope.stages.len() == 0 {
            list_text(&none)
        } else {
            list_text(&scope.stages[scope.stages.len() - 1].target_variables)
        };
        return Err(Error::FinalLayout(produced, list_text(variable_order)));
    }
    Ok(scope)
}

/// The rows of an assembled relation hold the encodings of the given values, row by row and column by
/// column.
pub proof fn law_rows_are_encoded(rows: Seq<Seq<Value>>, i: int, j: int)
    requires
        0 <= i < rows.len(),
        0 <= j < rows[i].len(),
    ensures
        encoded_rows(rows).len() == rows.len(),
        encoded_rows(rows)[i].len() == rows[i].len(),
        encoded_rows(rows)[i][j] == codec::encoding(rows[i][j]),
{
}

} // verus!
