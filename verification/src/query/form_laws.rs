//! When the parts of a plan fit together: laws of stages, of the roles in them, and of nested
//! scopes.

use std::sync::Arc;

use vstd::prelude::*;

use crate::codec;
use crate::error::{Error, ErrorView};
use crate::expr::Expr;
use crate::query::assembly::{
    self, entity_term, validate_roles, value_term, KindForm, Nested, PlacedTerm, PlacedView, Slot,
};
use crate::query::ast::{PatternNonValuePlace, PatternValuePlace};
use crate::query::binding_bag::{self, BindingBag, Relation};
use crate::query::compile::{self, ExtenderPlan, PlanView};
use crate::query::convert;
use crate::query::exec_pattern::ExecPattern;
use crate::query::levels::{self, level_of_negation};
use crate::query::lower;
use crate::query::meaning;
use crate::query::patterns::evaluation;
use crate::query::patterns::function::{self, FunctionPattern};
use crate::query::patterns::not::NotPattern;
use crate::query::patterns::or::{self, OrPattern, ScopeLayout};
use crate::query::patterns::predicate;
use crate::query::patterns::triple::{TermView, TriplePattern, TriplePosition};
use crate::query::plan::{self, Descriptor, DescriptorKind, LogicalStage, ParticipantRef, PatternId};
use crate::query::stage::{self, Stage};
use crate::value::{DataType, Keyword, Value};
use crate::variable::{self, Name, Variable};

verus! {

/// Whether no two elements are equal.
pub open spec fn distinct<A>(s: Seq<A>) -> bool {
    forall|i: int, j: int| 0 <= i < j < s.len() ==> #[trigger] s[i] != #[trigger] s[j]
}

/// Whether each element of one list is among another.
pub open spec fn within<A>(s: Seq<A>, t: Seq<A>) -> bool {
    forall|x: A| #[trigger] s.contains(x) ==> t.contains(x)
}

/// Whether two lists have the same elements.
pub open spec fn same<A>(s: Seq<A>, t: Seq<A>) -> bool {
    forall|x: A| #[trigger] s.contains(x) == t.contains(x)
}

/// Lists that hold one another's elements.
proof fn lemma_within(s: Seq<Name>, t: Seq<Name>)
    ensures
        plan::all_bound(s, t) == within(s, t),
        stage::same_names(s, t) == same(s, t),
{
    lemma_bound(s, t);
    lemma_bound(t, s);
    if within(s, t) && within(t, s) {
        assert forall|x: Name| #[trigger] s.contains(x) == t.contains(x) by {
            if t.contains(x) {
                assert(s.contains(x));
            }
        }
    }
    if same(s, t) {
        assert forall|x: Name| #[trigger] t.contains(x) implies s.contains(x) by {
            assert(s.contains(x) == t.contains(x));
        }
    }
}

/// A list whose elements are all among another.
proof fn lemma_bound(s: Seq<Name>, t: Seq<Name>)
    ensures
        plan::all_bound(s, t) == within(s, t),
{
    if within(s, t) {
        assert forall|i: int| 0 <= i < s.len() implies t.contains(#[trigger] s[i]) by {
            assert(s.contains(s[i]));
        }
    }
    if plan::all_bound(s, t) {
        assert forall|x: Name| #[trigger] s.contains(x) implies t.contains(x) by {
            let i = s.index_of(x);
            assert(t.contains(s[i]));
        }
    }
}

/// A list with nothing twice.
proof fn lemma_distinct<A>(s: Seq<A>)
    ensures
        variable::unique(s) == distinct(s),
{
    if distinct(s) {
        assert forall|i: int, j: int|
            0 <= i < s.len() && 0 <= j < s.len() && i != j implies s[i] != s[j] by {
            if i < j {
                assert(s[i] != s[j]);
            } else {
                assert(s[j] != s[i]);
            }
        }
    }
}

/// Parts make a stage exactly if no variable is added twice and none stands twice in the target
/// layout, somebody takes part and nobody twice, the proposers are participants in ascending order,
/// there are proposers exactly where variables are added, and what is added is in the target layout.
/// Each error tells of what it names.
pub proof fn law_parts_of_a_stage(
    added: Vec<Variable>,
    participants: Vec<Arc<dyn ExecPattern>>,
    positions: Vec<usize>,
    target: Vec<Variable>,
    r: Result<Stage, Error>,
)
    requires
        call_ensures(Stage::new, (added, participants, positions, target), r),
    ensures
        ({
            let ids = stage::ids_of(participants@);
            let told = distinct(added.deep_view());
            let laid = distinct(target.deep_view());
            let upward = forall|i: int, j: int|
                0 <= i < j < positions@.len() ==> #[trigger] positions@[i] < #[trigger] positions@[j];
            let inside = forall|i: int|
                0 <= i < positions@.len() ==> #[trigger] positions@[i] < participants@.len();
            let proposed = (added@.len() == 0) == (positions@.len() == 0);
            let kept = within(added.deep_view(), target.deep_view());
            &&& r is Ok == (told && laid && participants@.len() > 0 && upward && inside && proposed
                && kept && distinct(ids))
            &&& match r {
                Ok(_) => true,
                Err(e) => match e {
                    Error::DuplicateAdded(v) => !told && added.deep_view().contains(v@),
                    Error::DuplicateTarget(v) => !laid && target.deep_view().contains(v@),
                    Error::NoParticipants => participants@.len() == 0,
                    Error::ProposersNotAscending => !upward,
                    Error::ProposerOutOfBounds(p, n) => positions@.contains(p) && p
                        >= participants@.len() && n == participants@.len(),
                    Error::ProposersWithoutAdditions => !proposed,
                    Error::AddedNotInTarget(v) => added.deep_view().contains(v@)
                        && !target.deep_view().contains(v@),
                    Error::DuplicateParticipant(id) => !distinct(ids) && ids.contains(id),
                    _ => false,
                },
            }
        }),
{
    let ids = stage::ids_of(participants@);
    let a = added.deep_view();
    let t = target.deep_view();
    assert(a.len() == added@.len());
    lemma_distinct(a);
    lemma_distinct(t);
    lemma_distinct(ids);
    lemma_bound(a, t);
    variable::lemma_none_repeated(a);
    variable::lemma_none_repeated(t);
    variable::lemma_none_repeated(ids);
    variable::lemma_first_repeated(a);
    variable::lemma_first_repeated(t);
    variable::lemma_first_repeated(ids);
    variable::lemma_none_missing(a, t);
    variable::lemma_first_missing(a, t);
    stage::lemma_none_beyond(positions@, ids.len());
    lemma_beyond(positions@, ids.len());
    if let Ok(made) = r {
        assert(made.ids() == ids);
    }
}

/// The first position without a participant.
proof fn lemma_beyond(positions: Seq<usize>, count: nat)
    ensures
        stage::first_beyond(positions, count) matches Some(p) ==> positions.contains(p) && p
            >= count,
    decreases positions.len(),
{
    if positions.len() > 0 {
        let front = positions.drop_last();
        lemma_beyond(front, count);
        if let Some(p) = stage::first_beyond(front, count) {
            let i = front.index_of(p);
            assert(positions[i] == p);
        } else {
            assert(positions[positions.len() - 1] == positions.last());
        }
    }
}

/// The roles in a planned stage fit exactly if each proposer takes part, none is named twice, and
/// there are proposers exactly where variables are added.
pub proof fn law_roles_in_a_stage(stage: LogicalStage, r: Result<(), Error>)
    requires
        call_ensures(validate_roles, (&stage,), r),
    ensures
        r is Ok == (distinct(stage.proposers@) && within(stage.proposers@, stage.participants@) && (
        stage.added@.len() == 0) == (stage.proposers@.len() == 0)),
{
    assert(stage.added.deep_view().len() == stage.added@.len());
    lemma_proposers(stage.proposers@, stage.participants@);
}

/// Which proposers have no fault.
proof fn lemma_proposers(proposers: Seq<ParticipantRef>, participants: Seq<ParticipantRef>)
    ensures
        assembly::proposer_fault(proposers, participants) is None == (distinct(proposers)
            && within(proposers, participants)),
    decreases proposers.len(),
{
    if proposers.len() > 0 {
        let front = proposers.drop_last();
        let last = proposers.last();
        lemma_proposers(front, participants);
        assert(proposers[proposers.len() - 1] == last);
        assert forall|i: int| 0 <= i < front.len() implies front[i] == #[trigger] proposers[i] by {}
        if distinct(proposers) && within(proposers, participants) {
            assert forall|i: int, j: int| 0 <= i < j < front.len() implies #[trigger] front[i]
                != #[trigger] front[j] by {
                assert(proposers[i] != proposers[j]);
            }
            assert forall|x: ParticipantRef| #[trigger] front.contains(x) implies
                participants.contains(x) by {
                assert(proposers[front.index_of(x)] == x);
                assert(proposers.contains(x));
            }
            assert(proposers.contains(last));
            if front.contains(last) {
                assert(proposers[front.index_of(last)] != proposers[proposers.len() - 1]);
            }
        }
        if assembly::proposer_fault(proposers, participants) is None {
            assert forall|i: int, j: int| 0 <= i < j < proposers.len() implies
                #[trigger] proposers[i] != #[trigger] proposers[j] by {
                assert(front.contains(front[i]));
                if j < front.len() {
                    assert(front[i] != front[j]);
                }
            }
            assert forall|x: ParticipantRef| #[trigger] proposers.contains(x) implies
                participants.contains(x) by {
                let i = proposers.index_of(x);
                if i < front.len() {
                    assert(front.contains(front[i]));
                }
            }
        }
    }
}

/// A position of a pattern is assembled as what it is: a variable, nothing, or the encoding of the
/// constant that it holds.
pub proof fn law_assembled_positions(
    entity: PatternNonValuePlace,
    e: Result<PlacedTerm, Error>,
    value: PatternValuePlace,
    v: Result<PlacedTerm, Error>,
)
    requires
        call_ensures(entity_term, (&entity,), e),
        call_ensures(value_term, (&value,), v),
    ensures
        match entity {
            PatternNonValuePlace::Placeholder => e == Ok::<PlacedTerm, Error>(
                PlacedTerm::Placeholder,
            ),
            PatternNonValuePlace::Variable(x) => e matches Ok(PlacedTerm::Variable(y)) && x.name@
                == y.name@,
            PatternNonValuePlace::Entid(x) => e matches Ok(PlacedTerm::Constant(bytes)) && bytes@
                == codec::encoding(Value::Long(x)),
            PatternNonValuePlace::Ident(k) => e matches Ok(PlacedTerm::Constant(bytes)) && bytes@
                == codec::encoding(Value::Keyword(k.name@)),
        },
        match value {
            PatternValuePlace::Placeholder => v == Ok::<PlacedTerm, Error>(PlacedTerm::Placeholder),
            PatternValuePlace::Variable(x) => v matches Ok(PlacedTerm::Variable(y)) && x.name@
                == y.name@,
            PatternValuePlace::EntidOrInteger(x) => v matches Ok(PlacedTerm::Constant(bytes))
                && bytes@ == codec::encoding(Value::Long(x)),
            PatternValuePlace::IdentOrKeyword(k) => v matches Ok(PlacedTerm::Constant(bytes))
                && bytes@ == codec::encoding(Value::Keyword(k.name@)),
            PatternValuePlace::Constant(c) => match convert::constant_value(c@) {
                Some(held) => v matches Ok(PlacedTerm::Constant(bytes)) && bytes@
                    == codec::encoding(held),
                None => v matches Err(Error::UnsupportedValue(_)),
            },
        },
{
}

/// A negation fits exactly if no variable of it stands twice, and what is inside takes in just its
/// variables and gives just these.
pub proof fn law_negations_that_fit(
    id: PatternId,
    variables: Vec<Variable>,
    body: ScopeLayout,
    r: Result<NotPattern, Error>,
)
    requires
        call_ensures(NotPattern::new, (id, variables, &body), r),
    ensures
        r is Ok == (distinct(variables.deep_view()) && (body.incoming matches Some(incoming)
            && same(incoming.deep_view(), variables.deep_view())) && same(
            body.output.deep_view(),
            variables.deep_view(),
        )),
{
    let names = variables.deep_view();
    lemma_distinct(names);
    lemma_within(body.output.deep_view(), names);
    if let Some(incoming) = body.incoming {
        lemma_within(incoming.deep_view(), names);
    }
}

/// A negation joins rows exactly if it adds nothing, leaves the layout, and all its variables are
/// bound.
pub proof fn law_when_a_negation_joins(
    pattern: NotPattern,
    input: BindingBag,
    added: &[Variable],
    target: &[Variable],
    r: Result<(), Error>,
)
    requires
        call_ensures(NotPattern::check_join, (&pattern, &input, added, target), r),
    ensures
        r is Ok == (added@.len() == 0 && target.deep_view() == input@.variables && within(
            pattern.variables.deep_view(),
            input@.variables,
        )),
{
    assert(added.deep_view().len() == added@.len());
    lemma_bound(pattern.variables.deep_view(), input@.variables);
}

/// A disjunction fits exactly if no variable of it stands twice, there is a branch, and each branch
/// takes in the same layout, of variables of the disjunction none of which stands twice, and gives just
/// the variables of the disjunction.
pub proof fn law_disjunctions_that_fit(
    id: PatternId,
    variables: Vec<Variable>,
    branches: &[ScopeLayout],
    r: Result<OrPattern, Error>,
)
    requires
        call_ensures(OrPattern::new, (id, variables, branches), r),
    ensures
        r is Ok == (distinct(variables.deep_view()) && branches@.len() > 0
            && (branches@[0].incoming matches Some(incoming) && distinct(incoming.deep_view())
            && within(incoming.deep_view(), variables.deep_view()) && forall|i: int|
            0 <= i < branches@.len() ==> fits(
                #[trigger] branches@[i],
                incoming.deep_view(),
                variables.deep_view(),
            ))),
{
    let names = variables.deep_view();
    lemma_distinct(names);
    if branches@.len() > 0 {
        if let Some(incoming) = branches@[0].incoming {
            lemma_distinct(incoming.deep_view());
            lemma_bound(incoming.deep_view(), names);
            lemma_branches(names, incoming.deep_view(), branches@);
        }
    }
}

/// Whether a branch takes in a layout and gives just the given variables.
pub open spec fn fits(branch: ScopeLayout, incoming: Seq<Name>, names: Seq<Name>) -> bool {
    &&& branch.incoming matches Some(own) && own.deep_view() == incoming
    &&& same(branch.output.deep_view(), names)
}

/// Which branches have no fault.
proof fn lemma_branches(names: Seq<Name>, incoming: Seq<Name>, branches: Seq<ScopeLayout>)
    ensures
        or::branch_fault(names, incoming, branches) is None == (forall|i: int|
            0 <= i < branches.len() ==> fits(#[trigger] branches[i], incoming, names)),
    decreases branches.len(),
{
    if branches.len() > 0 {
        let front = branches.drop_last();
        lemma_branches(names, incoming, front);
        lemma_within(branches.last().output.deep_view(), names);
        assert(branches[branches.len() - 1] == branches.last());
        assert forall|i: int| 0 <= i < front.len() implies front[i] == #[trigger] branches[i] by {}
        if forall|i: int| 0 <= i < branches.len() ==> fits(#[trigger] branches[i], incoming, names) {
            assert forall|i: int| 0 <= i < front.len() implies fits(
                #[trigger] front[i],
                incoming,
                names,
            ) by {
                assert(fits(branches[i], incoming, names));
            }
            assert(fits(branches[branches.len() - 1], incoming, names));
        }
        if or::branch_fault(names, incoming, branches) is None {
            assert forall|i: int| 0 <= i < branches.len() implies fits(
                #[trigger] branches[i],
                incoming,
                names,
            ) by {
                if i < front.len() {
                    assert(fits(front[i], incoming, names));
                }
            }
        }
    }
}

/// What is among the names that another list does not hold.
proof fn lemma_open(names: Seq<Name>, other: Seq<Name>, x: Name)
    ensures
        binding_bag::missing(names, other).contains(x) == (names.contains(x) && !other.contains(x)),
    decreases names.len(),
{
    if names.len() > 0 {
        let front = names.drop_last();
        let last = names.last();
        let open = binding_bag::missing(front, other);
        lemma_open(front, other, x);
        assert(names =~= front.push(last));
        lemma_pushed(front, last, x);
        lemma_pushed(open, last, x);
    }
}

/// What a list holds with one more element.
proof fn lemma_pushed(s: Seq<Name>, last: Name, x: Name)
    ensures
        s.push(last).contains(x) == (s.contains(x) || x == last),
{
    let all = s.push(last);
    if s.contains(x) {
        assert(all[s.index_of(x)] == x);
    }
    if x == last {
        assert(all[s.len() as int] == x);
    }
    if all.contains(x) {
        let i = all.index_of(x);
        if i < s.len() {
            assert(s[i] == x);
        }
    }
}

/// A disjunction joins rows exactly if it adds nothing, leaves the layout, and all its variables are
/// bound; or if it adds just those of its variables that are not bound, and what its branches take in is
/// bound.
pub proof fn law_when_a_disjunction_joins(
    pattern: OrPattern,
    input: BindingBag,
    added: &[Variable],
    target: &[Variable],
    r: Result<(), Error>,
)
    requires
        call_ensures(OrPattern::check_join, (&pattern, &input, added, target), r),
    ensures
        ({
            let names = pattern.variables.deep_view();
            r is Ok == if added@.len() == 0 {
                target.deep_view() == input@.variables && within(names, input@.variables)
            } else {
                (forall|x: Name| #[trigger]
                    added.deep_view().contains(x) == (names.contains(x)
                        && !input@.variables.contains(x))) && within(
                    pattern.incoming_variables.deep_view(),
                    input@.variables,
                )
            }
        }),
{
    let names = pattern.variables.deep_view();
    let layout = input@.variables;
    assert(added.deep_view().len() == added@.len());
    lemma_bound(names, layout);
    lemma_bound(pattern.incoming_variables.deep_view(), layout);
    let open = binding_bag::missing(names, layout);
    lemma_within(added.deep_view(), open);
    assert forall|x: Name| #[trigger] open.contains(x) == (names.contains(x) && !layout.contains(
        x,
    )) by {
        lemma_open(names, layout, x);
    }
    if forall|x: Name| #[trigger]
        added.deep_view().contains(x) == (names.contains(x) && !layout.contains(x)) {
        assert forall|x: Name| #[trigger] added.deep_view().contains(x) == open.contains(x) by {}
    }
    if same(added.deep_view(), open) {
        assert forall|x: Name| #[trigger]
            added.deep_view().contains(x) == (names.contains(x) && !layout.contains(x)) by {
            assert(open.contains(x) == (names.contains(x) && !layout.contains(x)));
        }
    }
}

/// A negation is decided at the last of the levels in which something inside it takes part, or at the
/// last level of all where nothing does.
pub proof fn law_level_of_a_negation(plans: Vec<ExtenderPlan>, count: usize, r: usize)
    requires
        count > 0,
        call_ensures(level_of_negation, (&plans, count), r),
    ensures
        r < count,
        ({
            let inside = compile::plan_views(plans@);
            &&& forall|level: int|
                r < level < count ==> !#[trigger] meaning::some_joins(inside, level)
            &&& meaning::some_joins(inside, r as int) || (r == count - 1 && forall|level: int|
                0 <= level < count ==> !#[trigger] meaning::some_joins(inside, level))
        }),
{
    lemma_last_joined(compile::plan_views(plans@), count as int);
}

/// The last level that something takes part in.
proof fn lemma_last_joined(plans: Seq<PlanView>, count: int)
    requires
        count >= 0,
    ensures
        match levels::last_joined(plans, count) {
            Some(r) => 0 <= r < count && meaning::some_joins(plans, r) && forall|level: int|
                r < level < count ==> !#[trigger] meaning::some_joins(plans, level),
            None => forall|level: int|
                0 <= level < count ==> !#[trigger] meaning::some_joins(plans, level),
        },
    decreases count,
{
    if count > 0 && !meaning::some_joins(plans, count - 1) {
        lemma_last_joined(plans, count - 1);
    }
}

/// A condition joins rows exactly if it adds nothing, leaves the layout, all its variables are bound, and
/// their values can be read.
pub proof fn law_when_a_condition_joins(
    id: PatternId,
    names: Seq<Name>,
    input: Relation,
    added: Seq<Name>,
    target: Seq<Name>,
)
    ensures
        predicate::refusal(id, names, input, added, target) is None == (added.len() == 0 && target
            == input.variables && within(names, input.variables) && forall|i: int|
            0 <= i < input.rows.len() ==> evaluation::readable(
                #[trigger] input.rows[i],
                binding_bag::columns(input.variables, names),
            )),
{
    lemma_bound(names, input.variables);
}

/// A function joins rows exactly if all that it reads is bound and can be read, and it either adds nothing
/// to a layout that has its output, whose values can be read; or adds just its output to a layout that
/// lacks it.
pub proof fn law_when_a_function_joins<
    F: Fn(&Expr, &Vec<Variable>, &Vec<DataType>) -> Option<DataType>,
>(f: FunctionPattern<F>, input: Relation, added: Seq<Name>, target: Seq<Name>)
    ensures
        ({
            let layout = input.variables;
            let output = f.output.name@;
            f.refusal(input, added, target) is None == (within(
                f.input_variables.deep_view(),
                layout,
            ) && function::all_readable(input.rows, f.input_columns(input)) && if added.len() == 0 {
                target == layout && layout.contains(output) && forall|i: int|
                    0 <= i < input.rows.len() ==> codec::decoded(
                        (#[trigger] input.rows[i])[layout.index_of(output) as usize as int],
                    ) is Some
            } else {
                added == seq![output] && !layout.contains(output) && target.len() == layout.len() + 1
                    && binding_bag::projection_fault(layout + added, target) is None
            })
        }),
{
    let layout = input.variables;
    let at = seq![layout.index_of(f.output.name@) as usize];
    lemma_bound(f.input_variables.deep_view(), layout);
    assert(at[0] == layout.index_of(f.output.name@) as usize);
    if function::all_readable(input.rows, at) {
        assert forall|i: int| 0 <= i < input.rows.len() implies codec::decoded(
            (#[trigger] input.rows[i])[at[0] as int],
        ) is Some by {
            assert(evaluation::readable(input.rows[i], at));
        }
    }
    if forall|i: int|
        0 <= i < input.rows.len() ==> codec::decoded(
            (#[trigger] input.rows[i])[layout.index_of(f.output.name@) as usize as int],
        ) is Some {
        assert forall|i: int| 0 <= i < input.rows.len() implies evaluation::readable(
            #[trigger] input.rows[i],
            at,
        ) by {
            assert(codec::decoded(input.rows[i][at[0] as int]) is Some);
        }
    }
}

/// A triple proposes exactly one variable that it has and that is not bound, and counts for exactly one
/// that it has.
pub proof fn law_when_a_triple_proposes(p: TriplePattern, layout: Seq<Name>, added: Seq<Name>)
    ensures
        ({
            let has = added.len() == 1 && (p.entity@ == TermView::Variable(added[0]) || p.value@
                == TermView::Variable(added[0]));
            &&& p.proposal_fault(layout, added) is None == (has && !layout.contains(added[0]))
            &&& p.count_fault(added) is None == has
            &&& has ==> p.place_of(added[0]) == Some(
                if p.entity@ == TermView::Variable(added[0]) {
                    TriplePosition::Entity
                } else {
                    TriplePosition::Value
                },
            )
        }),
{
}

/// What a stage is assembled to: it adds the same variables and has the same target layout, and everyone
/// who takes part has a place in turn, a pattern that of the pattern with its identity. It is assembled
/// exactly if the roles in it fit and everyone is known.
pub proof fn law_assembled_stages(stage: plan::StageView, ids: Seq<PatternId>)
    requires
        ids.len() <= usize::MAX,
    ensures
        assembly::template(stage, ids) is Ok == (assembly::roles_fault(stage) is None && forall|i: int|
            0 <= i < stage.participants.len() ==> (#[trigger] stage.participants[i] matches
                ParticipantRef::Pattern(id) ==> ids.contains(id))),
        assembly::template(stage, ids) matches Ok(t) ==> t.added == stage.added && t.target
            == stage.target && t.participants.len() == stage.participants.len() && forall|i: int|
            0 <= i < t.participants.len() ==> (match stage.participants[i] {
                ParticipantRef::Incoming => #[trigger] t.participants[i] == Slot::Incoming,
                ParticipantRef::Pattern(id) => t.participants[i] matches Slot::Pattern(at) && at
                    < ids.len() && ids[at as int] == id,
            }),
{
    lemma_slots(stage.participants, ids);
}

/// The places of those who take part.
proof fn lemma_slots(participants: Seq<ParticipantRef>, ids: Seq<PatternId>)
    requires
        ids.len() <= usize::MAX,
    ensures
        assembly::slots(participants, ids) is Ok == (forall|i: int|
            0 <= i < participants.len() ==> (#[trigger] participants[i] matches
                ParticipantRef::Pattern(id) ==> ids.contains(id))),
        assembly::slots(participants, ids) matches Ok(list) ==> list.len() == participants.len()
            && forall|i: int|
            0 <= i < list.len() ==> (match participants[i] {
                ParticipantRef::Incoming => #[trigger] list[i] == Slot::Incoming,
                ParticipantRef::Pattern(id) => list[i] matches Slot::Pattern(at) && at < ids.len()
                    && ids[at as int] == id,
            }),
    decreases participants.len(),
{
    if participants.len() > 0 {
        let front = participants.drop_last();
        let last = participants.last();
        lemma_slots(front, ids);
        assert(participants[participants.len() - 1] == last);
        assert forall|i: int| 0 <= i < front.len() implies front[i]
            == #[trigger] participants[i] by {}
        if let ParticipantRef::Pattern(id) = last {
            lemma_place(ids, id);
        }
        if forall|i: int|
            0 <= i < participants.len() ==> (#[trigger] participants[i] matches
                ParticipantRef::Pattern(id) ==> ids.contains(id)) {
            assert forall|i: int| 0 <= i < front.len() implies (#[trigger] front[i] matches
                ParticipantRef::Pattern(id) ==> ids.contains(id)) by {
                assert(participants[i] matches ParticipantRef::Pattern(id) ==> ids.contains(id));
            }
            assert(participants[participants.len() - 1] matches ParticipantRef::Pattern(id)
                ==> ids.contains(id));
        }
        if assembly::slots(participants, ids) is Ok {
            assert forall|i: int| 0 <= i < participants.len() implies (
            #[trigger] participants[i] matches ParticipantRef::Pattern(id) ==> ids.contains(id)) by {
                if i < front.len() {
                    assert(front[i] matches ParticipantRef::Pattern(id) ==> ids.contains(id));
                }
            }
        }
    }
}

/// Where a pattern stands.
proof fn lemma_place(ids: Seq<PatternId>, id: PatternId)
    requires
        ids.len() <= usize::MAX,
    ensures
        assembly::place_of(ids, id) is Some == ids.contains(id),
        assembly::place_of(ids, id) matches Some(at) ==> at < ids.len() && ids[at as int] == id,
    decreases ids.len(),
{
    if ids.len() > 0 {
        let front = ids.drop_last();
        lemma_place(front, id);
        assert(ids[ids.len() - 1] == ids.last());
        if front.contains(id) {
            assert(ids[front.index_of(id)] == id);
        }
        if ids.contains(id) {
            let i = ids.index_of(id);
            if i < front.len() {
                assert(front[i] == id);
            }
        }
    }
}

/// A plan is assembled only where nothing comes in, and where the last stage leaves the variables of the
/// query in their order.
pub proof fn law_assembled_plans(
    layout: ScopeLayout,
    order: Seq<Name>,
    ds: Seq<Descriptor>,
    stages: Seq<plan::StageView>,
    nested: Seq<(PatternId, Nested)>,
    idents: Seq<(Keyword, i64)>,
)
    ensures
        assembly::assembled_plan(layout, order, ds, stages, nested, idents) matches Ok(scope) ==> {
            &&& layout.incoming is None
            &&& scope.stages.len() == 0 ==> order.len() == 0
            &&& scope.stages.len() > 0 ==> scope.stages[scope.stages.len() - 1].target == order
        },
        assembly::assembled_plan(layout, order, ds, stages, nested, idents) is Err ==> layout.incoming is Some
            || assembly::assembled_scope(ds, stages, nested, idents) is Err || (
        assembly::assembled_scope(ds, stages, nested, idents) matches Ok(scope) && (
        scope.stages.len() == 0 && order.len() > 0 || scope.stages.len() > 0
            && scope.stages[scope.stages.len() - 1].target != order)),
{
    if let Ok(scope) = assembly::assembled_scope(ds, stages, nested, idents) {
        if scope.stages.len() == 0 && order.len() == 0 {
            assert(order =~= Seq::empty());
        }
    }
}

/// What is assembled of a pattern keeps its identity and its variables, and works with what the pattern
/// holds: the rows of a relation, the expression of a condition or of a function and what this binds, and
/// what a triple has in its positions.
pub proof fn law_assembled_patterns(
    d: Descriptor,
    nested: Seq<(PatternId, Nested)>,
    idents: Seq<(Keyword, i64)>,
)
    ensures
        assembly::assembled(d, nested, idents) matches Ok(form) ==> {
            &&& form.id == d.id
            &&& form.names == d.variables.deep_view()
            &&& match d.kind {
                DescriptorKind::Triple(p) => form.kind matches KindForm::Triple(e, a, v)
                    && convert::resolved(p.attribute@, idents) == Ok::<i64, ErrorView>(a)
                    && assembly::placed_entity(p.entity@) == Ok::<PlacedView, ErrorView>(e)
                    && assembly::placed_value(p.value@) == Ok::<PlacedView, ErrorView>(v),
                DescriptorKind::Relation { rows } => form.kind matches KindForm::Relation(held)
                    && held.variables == d.variables.deep_view() && held.rows
                    == assembly::encoded_rows(lower::value_rows(rows@)),
                DescriptorKind::Predicate { expression } => form.kind == KindForm::Predicate(
                    expression@,
                ),
                DescriptorKind::Function { expression, input_variables: _, output } => form.kind
                    == KindForm::Function(expression@, output.name@),
                DescriptorKind::Or { .. } => form.kind is Or,
                DescriptorKind::Not { .. } => form.kind is Not,
            }
        },
{
}

} // verus!
