//! Who can bind which variables in a plan.

use vstd::prelude::*;

use crate::error::{Error, ErrorView};
use crate::expr;
use crate::query::binding_bag;
use crate::query::plan::{
    self, plan_scope, Descriptor, DescriptorKind, LogicalStage, ParticipantRef, StageView,
};
use crate::query::plan_laws;
use crate::variable::{Name, Variable};

verus! {

/// Whether a list of columns can bind a variable next: the columns before it are bound, and neither
/// it nor any behind it is.
pub open spec fn next_column(names: Seq<Name>, bound: Seq<Name>, x: Name) -> bool {
    exists|n: int|
        0 <= n < names.len() && #[trigger] names[n] == x && (forall|i: int|
            0 <= i < n ==> bound.contains(#[trigger] names[i])) && forall|i: int|
            n <= i < names.len() ==> !bound.contains(#[trigger] names[i])
}

/// Whether a pattern can bind a variable where these are bound: a triple any of its own that is not
/// bound, a relation its next column, a function its output once its inputs are bound, a disjunction
/// any of its own once every branch can derive all that it lacks. Conditions and negations bind
/// nothing.
pub open spec fn can_bind(d: Descriptor, bound: Seq<Name>, x: Name) -> bool {
    let names = d.variables.deep_view();
    match d.kind {
        DescriptorKind::Triple(_) => names.contains(x) && !bound.contains(x),
        DescriptorKind::Relation { .. } => next_column(names, bound, x),
        DescriptorKind::Function { input_variables, output, .. } => x == output.name@
            && !bound.contains(x) && forall|i: int|
            0 <= i < input_variables@.len() ==> bound.contains(
                #[trigger] input_variables.deep_view()[i],
            ),
        DescriptorKind::Or { branches } => names.contains(x) && !bound.contains(x)
            && plan::all_derive(branches@, bound, binding_bag::missing(names, bound)),
        DescriptorKind::Predicate { .. } => false,
        DescriptorKind::Not { .. } => false,
    }
}

/// How many of the first columns are bound.
proof fn lemma_bound_prefix(names: Seq<Name>, bound: Seq<Name>)
    ensures
        ({
            let n = plan::bound_prefix(names, bound) as int;
            &&& 0 <= n <= names.len()
            &&& forall|i: int| 0 <= i < n ==> bound.contains(#[trigger] names[i])
            &&& n < names.len() ==> !bound.contains(names[n])
        }),
    decreases names.len(),
{
    if names.len() > 0 && bound.contains(names[0]) {
        let rest = names.drop_first();
        lemma_bound_prefix(rest, bound);
        let n = plan::bound_prefix(names, bound) as int;
        assert forall|i: int| 0 <= i < n implies bound.contains(#[trigger] names[i]) by {
            if i > 0 {
                assert(rest[i - 1] == names[i]);
            }
        }
        if n < names.len() {
            assert(rest[n - 1] == names[n]);
        }
    }
}

/// The next column of a relation.
proof fn lemma_relation_next(names: Seq<Name>, bound: Seq<Name>, x: Name)
    ensures
        plan::relation_next(names, bound).contains(x) == next_column(names, bound, x),
{
    lemma_bound_prefix(names, bound);
    let n = plan::bound_prefix(names, bound) as int;
    let next = plan::relation_next(names, bound);
    if next.contains(x) {
        assert(next[0] == names[n]);
        assert(names[n] == x);
    }
    if next_column(names, bound, x) {
        let m = choose|m: int|
            0 <= m < names.len() && #[trigger] names[m] == x && (forall|i: int|
                0 <= i < m ==> bound.contains(#[trigger] names[i])) && forall|i: int|
                m <= i < names.len() ==> !bound.contains(#[trigger] names[i]);
        if m < n {
            assert(bound.contains(names[m]));
        }
        if n < m {
            assert(bound.contains(names[n]));
        }
        assert(next[0] == x);
    }
}

/// What a pattern is taken to bind next is what it can bind.
pub proof fn law_what_a_pattern_can_bind(d: Descriptor, bound: Seq<Name>, x: Name)
    ensures
        plan::grounds(d, bound).contains(x) == can_bind(d, bound, x),
{
    let names = d.variables.deep_view();
    match d.kind {
        DescriptorKind::Triple(_) => {
            plan::lemma_missing_contains(names, bound, x);
        },
        DescriptorKind::Relation { .. } => {
            lemma_relation_next(names, bound, x);
        },
        DescriptorKind::Function { input_variables, output, .. } => {
            assert(seq![output@][0] == output@);
            assert(input_variables.deep_view().len() == input_variables@.len());
        },
        DescriptorKind::Or { branches } => {
            plan::lemma_missing_contains(names, bound, x);
        },
        _ => {},
    }
}

/// Whether a participant can bind all the variables.
pub open spec fn can_bind_all(
    p: ParticipantRef,
    ds: Seq<Descriptor>,
    incoming: Option<Seq<Name>>,
    bound: Seq<Name>,
    added: Seq<Name>,
) -> bool {
    match p {
        ParticipantRef::Incoming => incoming matches Some(names) && forall|x: Name| #[trigger]
            added.contains(x) ==> next_column(names, bound, x),
        ParticipantRef::Pattern(id) => exists|k: int|
            0 <= k < ds.len() && (#[trigger] ds[k]).id == id && forall|x: Name| #[trigger]
                added.contains(x) ==> can_bind(ds[k], bound, x),
    }
}

/// Whether whoever proposes in a stage can bind what it adds.
pub open spec fn able(
    stage: StageView,
    ds: Seq<Descriptor>,
    incoming: Option<Seq<Name>>,
    bound: Seq<Name>,
) -> bool {
    forall|i: int|
        0 <= i < stage.proposers.len() ==> can_bind_all(
            #[trigger] stage.proposers[i],
            ds,
            incoming,
            bound,
            stage.added,
        )
}

/// What is bound before a stage.
pub open spec fn bound_before(stages: Seq<StageView>, start: Seq<Name>, i: int) -> Seq<Name> {
    if i == 0 {
        start
    } else {
        stages[i - 1].target
    }
}

/// Whether that holds in every stage.
pub open spec fn all_able(
    stages: Seq<StageView>,
    ds: Seq<Descriptor>,
    incoming: Option<Seq<Name>>,
    start: Seq<Name>,
) -> bool {
    forall|i: int|
        0 <= i < stages.len() ==> able(
            #[trigger] stages[i],
            ds,
            incoming,
            bound_before(stages, start, i),
        )
}

/// Who proposes in a stage that is found.
proof fn lemma_stage_able(
    v: Name,
    ds: Seq<Descriptor>,
    incoming: Option<Seq<Name>>,
    order: Seq<Name>,
    bound: Seq<Name>,
    completed: Seq<ParticipantRef>,
)
    requires
        plan::stage_for(v, ds, incoming, order, bound, completed) is Some,
    ensures
        able(
            plan::stage_for(v, ds, incoming, order, bound, completed).unwrap().0,
            ds,
            incoming,
            bound,
        ),
{
    let stage = plan::stage_for(v, ds, incoming, order, bound, completed).unwrap().0;
    let proposers = plan::proposers_of(v, ds, incoming, bound, completed);
    let condition = plan::proposes(v, bound, completed);
    plan_laws::lemma_chosen(ds, condition);
    let incoming_proposes = incoming is Some && !completed.contains(ParticipantRef::Incoming)
        && plan::relation_next(plan::names_in(incoming), bound).contains(v);
    plan_laws::lemma_incoming_if(incoming_proposes, plan::chosen(ds, condition));
    if proposers.len() > 0 {
        assert forall|i: int| 0 <= i < stage.proposers.len() implies can_bind_all(
            #[trigger] stage.proposers[i],
            ds,
            incoming,
            bound,
            stage.added,
        ) by {
            let p = proposers[i];
            assert(proposers.contains(p));
            assert forall|x: Name| #[trigger] stage.added.contains(x) implies x == v by {}
            match p {
                ParticipantRef::Incoming => {
                    lemma_relation_next(plan::names_in(incoming), bound, v);
                },
                ParticipantRef::Pattern(id) => {
                    let k = choose|k: int|
                        0 <= k < ds.len() && condition(#[trigger] ds[k]) && p
                            == ParticipantRef::Pattern(ds[k].id);
                    law_what_a_pattern_can_bind(ds[k], bound, v);
                },
            }
        }
    } else {
        plan::lemma_first_or(ds, v, bound, completed, 0);
        let k = plan::first_or(ds, v, bound, completed, 0).unwrap();
        assert forall|i: int| 0 <= i < stage.proposers.len() implies can_bind_all(
            #[trigger] stage.proposers[i],
            ds,
            incoming,
            bound,
            stage.added,
        ) by {
            assert(stage.proposers[i] == ParticipantRef::Pattern(ds[k].id));
            assert forall|x: Name| #[trigger] stage.added.contains(x) implies can_bind(
                ds[k],
                bound,
                x,
            ) by {
                law_what_a_pattern_can_bind(ds[k], bound, x);
            }
        }
    }
}

/// Who proposes in the rest of a plan.
proof fn lemma_rest_able(
    ds: Seq<Descriptor>,
    incoming: Option<Seq<Name>>,
    order: Seq<Name>,
    bound: Seq<Name>,
    completed: Seq<ParticipantRef>,
)
    ensures
        plan::plan_rest(ds, incoming, order, bound, completed) matches Ok(stages) ==> all_able(
            stages,
            ds,
            incoming,
            bound,
        ),
        plan::plan_rest(ds, incoming, order, bound, completed) matches Err(
            ErrorView::InsufficientBinding(v),
        ) ==> ends_stuck(ds, incoming, order, v),
    decreases binding_bag::missing(order, bound).len(),
{
    let valid = plan::validators(ds, incoming, bound, completed);
    let done = expr::with_new(completed, valid);
    let remaining = binding_bag::missing(order, bound);
    let first = plan::validation_stage(valid, bound);
    let whole = plan::plan_rest(ds, incoming, order, bound, completed);
    if remaining.len() == 0 {
        assert(!(whole matches Err(ErrorView::InsufficientBinding(_))));
    } else {
        match plan::first_stage(remaining, ds, incoming, order, bound, done, 0) {
            None => {
                lemma_stuck(ds, incoming, order, bound, done);
                assert(ends_stuck(ds, incoming, order, remaining[0]));
                assert(whole == Err::<Seq<StageView>, ErrorView>(
                    ErrorView::InsufficientBinding(remaining[0]),
                ));
            },
            Some((stage, newly)) => {
                plan::lemma_first_stage_progress(ds, incoming, order, bound, done);
                plan::lemma_first_stage(remaining, ds, incoming, order, bound, done, 0);
                let v = choose|i: int|
                    0 <= i < remaining.len() && #[trigger] plan::stage_for(
                        remaining[i],
                        ds,
                        incoming,
                        order,
                        bound,
                        done,
                    ) == Some((stage, newly));
                lemma_stage_able(remaining[v], ds, incoming, order, bound, done);
                let next = expr::with_new(done, newly);
                lemma_rest_able(ds, incoming, order, stage.target, next);
                let rest = plan::plan_rest(ds, incoming, order, stage.target, next);
                assert(whole == plan::after(first.push(stage), rest));
                if let Err(ErrorView::InsufficientBinding(v)) = rest {
                    assert(ends_stuck(ds, incoming, order, v));
                }
                if let Ok(more) = rest {
                    let stages = first.push(stage) + more;
                    let at = first.len() as int;
                    assert(stages[at] == stage);
                    assert forall|i: int| 0 <= i < stages.len() implies able(
                        #[trigger] stages[i],
                        ds,
                        incoming,
                        bound_before(stages, bound, i),
                    ) by {
                        if i < at {
                            assert(stages[i] == first[0]);
                        } else if i == at {
                            if at > 0 {
                                assert(stages[at - 1] == first[0]);
                            }
                        } else {
                            assert(stages[i] == more[i - at - 1]);
                            if i > at + 1 {
                                assert(stages[i - 1] == more[i - at - 2]);
                            }
                        }
                    }
                }
            },
        }
    }
}

/// Whether nobody who has work left can bind any variable that is not bound, though this one is not.
pub open spec fn stuck(
    ds: Seq<Descriptor>,
    incoming: Option<Seq<Name>>,
    order: Seq<Name>,
    bound: Seq<Name>,
    done: Seq<ParticipantRef>,
    v: Name,
) -> bool {
    &&& order.contains(v) && !bound.contains(v)
    &&& forall|k: int, x: Name|
        0 <= k < ds.len() && order.contains(x) && !bound.contains(x) && !done.contains(
            ParticipantRef::Pattern(ds[k].id),
        ) ==> !#[trigger] can_bind(ds[k], bound, x)
    &&& incoming is Some && !done.contains(ParticipantRef::Incoming) ==> forall|x: Name|
        order.contains(x) && !bound.contains(x) ==> !#[trigger] next_column(
            incoming.unwrap(),
            bound,
            x,
        )
}

/// Whether planning can come to where nobody can bind anything.
pub open spec fn ends_stuck(
    ds: Seq<Descriptor>,
    incoming: Option<Seq<Name>>,
    order: Seq<Name>,
    v: Name,
) -> bool {
    exists|held: Seq<Name>, done: Seq<ParticipantRef>| #[trigger]
        stuck(ds, incoming, order, held, done, v)
}

/// Where no stage is found, nobody can bind anything.
proof fn lemma_stuck(
    ds: Seq<Descriptor>,
    incoming: Option<Seq<Name>>,
    order: Seq<Name>,
    bound: Seq<Name>,
    done: Seq<ParticipantRef>,
)
    requires
        binding_bag::missing(order, bound).len() > 0,
        plan::first_stage(
            binding_bag::missing(order, bound),
            ds,
            incoming,
            order,
            bound,
            done,
            0,
        ) is None,
    ensures
        stuck(ds, incoming, order, bound, done, binding_bag::missing(order, bound)[0]),
{
    let remaining = binding_bag::missing(order, bound);
    assert(remaining.contains(remaining[0]));
    plan::lemma_missing_contains(order, bound, remaining[0]);
    assert forall|k: int, x: Name|
        0 <= k < ds.len() && order.contains(x) && !bound.contains(x) && !done.contains(
            ParticipantRef::Pattern(ds[k].id),
        ) implies !#[trigger] can_bind(ds[k], bound, x) by {
        plan::lemma_missing_contains(order, bound, x);
        let i = remaining.index_of(x);
        lemma_no_stage(remaining, ds, incoming, order, bound, done, 0, i);
        law_what_a_pattern_can_bind(ds[k], bound, x);
        if can_bind(ds[k], bound, x) {
            if ds[k].kind is Or {
                lemma_some_or(ds, x, bound, done, 0, k);
            } else {
                let condition = plan::proposes(x, bound, done);
                plan_laws::lemma_chosen(ds, condition);
                let p = ParticipantRef::Pattern(ds[k].id);
                assert(condition(ds[k]));
                assert(plan::chosen(ds, condition).contains(p));
                let incoming_proposes = incoming is Some && !done.contains(
                    ParticipantRef::Incoming,
                ) && plan::relation_next(plan::names_in(incoming), bound).contains(x);
                plan_laws::lemma_incoming_if(incoming_proposes, plan::chosen(ds, condition));
                assert(plan::proposers_of(x, ds, incoming, bound, done).contains(p));
                let j = plan::proposers_of(x, ds, incoming, bound, done).index_of(p);
            }
        }
    }
    if let Some(names) = incoming {
        if !done.contains(ParticipantRef::Incoming) {
            assert forall|x: Name| order.contains(x) && !bound.contains(x) implies !#[trigger]
            next_column(names, bound, x) by {
                plan::lemma_missing_contains(order, bound, x);
                let i = remaining.index_of(x);
                lemma_no_stage(remaining, ds, incoming, order, bound, done, 0, i);
                lemma_relation_next(names, bound, x);
                if next_column(names, bound, x) {
                    let condition = plan::proposes(x, bound, done);
                    plan_laws::lemma_incoming_if(true, plan::chosen(ds, condition));
                    let proposers = plan::proposers_of(x, ds, incoming, bound, done);
                    assert(proposers.contains(ParticipantRef::Incoming));
                    let j = proposers.index_of(ParticipantRef::Incoming);
                }
            }
        }
    }
}

/// Where no stage is found, there is none for any of the variables.
proof fn lemma_no_stage(
    remaining: Seq<Name>,
    ds: Seq<Descriptor>,
    incoming: Option<Seq<Name>>,
    order: Seq<Name>,
    bound: Seq<Name>,
    done: Seq<ParticipantRef>,
    from: int,
    i: int,
)
    requires
        0 <= from <= i < remaining.len(),
        plan::first_stage(remaining, ds, incoming, order, bound, done, from) is None,
    ensures
        plan::stage_for(remaining[i], ds, incoming, order, bound, done) is None,
    decreases i - from,
{
    if from < i {
        lemma_no_stage(remaining, ds, incoming, order, bound, done, from + 1, i);
    }
}

/// Where a disjunction can bind a variable, one is found.
proof fn lemma_some_or(
    ds: Seq<Descriptor>,
    v: Name,
    bound: Seq<Name>,
    done: Seq<ParticipantRef>,
    from: int,
    k: int,
)
    requires
        0 <= from <= k < ds.len(),
        plan::or_fits(ds[k], v, bound, done),
    ensures
        plan::first_or(ds, v, bound, done, from) is Some,
    decreases k - from,
{
    if from < k && !plan::or_fits(ds[from], v, bound, done) {
        lemma_some_or(ds, v, bound, done, from + 1, k);
    }
}

/// In a plan whoever proposes in a stage can bind what the stage adds, by what is bound before it. A
/// plan is refused for want of a binding only where nobody who has work left can bind any variable
/// that is not bound.
pub proof fn law_proposers_can_bind(
    descriptors: &[Descriptor],
    variable_order: &[Variable],
    incoming: Option<&[Variable]>,
    r: Result<Vec<LogicalStage>, Error>,
)
    requires
        call_ensures(plan_scope, (descriptors, variable_order, incoming), r),
    ensures
        ({
            let names = plan::incoming_view(incoming);
            let order = plan::scope_order(descriptors@, variable_order.deep_view(), names);
            let known = plan::relevant_incoming(names, order);
            match r {
                Ok(stages) => all_able(stages.deep_view(), descriptors@, known, Seq::empty()),
                Err(e) => e@ matches ErrorView::InsufficientBinding(v) ==> ends_stuck(
                    descriptors@,
                    known,
                    order,
                    v,
                ),
            }
        }),
{
    let names = plan::incoming_view(incoming);
    let order = plan::scope_order(descriptors@, variable_order.deep_view(), names);
    lemma_rest_able(
        descriptors@,
        plan::relevant_incoming(names, order),
        order,
        Seq::empty(),
        Seq::empty(),
    );
}

} // verus!
