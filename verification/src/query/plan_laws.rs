//! What holds of every plan.

use vstd::prelude::*;

use crate::expr;
use crate::query::binding_bag;
use crate::query::plan::{self, Descriptor, ParticipantRef, PatternId, StageView};
use crate::variable::{self, Name};

verus! {

/// A stage that fits behind what is bound: somebody takes part, there are proposers exactly
/// where variables are added, they take part themselves, what is added was not bound, and the
/// layout that comes out holds what was bound and what was added, in the order of the scope.
pub open spec fn sound_stage(stage: StageView, bound: Seq<Name>, order: Seq<Name>) -> bool {
    &&& stage.participants.len() > 0
    &&& stage.added.len() == 0 <==> stage.proposers.len() == 0
    &&& forall|i: int|
        0 <= i < stage.proposers.len() ==> stage.participants.contains(
            #[trigger] stage.proposers[i],
        )
    &&& forall|i: int|
        0 <= i < stage.added.len() ==> !bound.contains(#[trigger] stage.added[i])
            && stage.target.contains(stage.added[i])
    &&& if stage.added.len() == 0 {
        stage.target == bound
    } else {
        stage.target == binding_bag::common(order, bound + stage.added)
    }
}

/// Stages that fit behind one another, the first behind what is bound.
pub open spec fn chained(stages: Seq<StageView>, bound: Seq<Name>, order: Seq<Name>) -> bool
    decreases stages.len(),
{
    stages.len() == 0 || (sound_stage(stages[0], bound, order) && chained(
        stages.drop_first(),
        stages[0].target,
        order,
    ))
}

/// What is bound after the stages.
pub open spec fn bound_after(stages: Seq<StageView>, bound: Seq<Name>) -> Seq<Name> {
    if stages.len() == 0 {
        bound
    } else {
        stages.last().target
    }
}

/// Whether a participant takes part in some stage whose layout covers these variables.
pub open spec fn placed(stages: Seq<StageView>, p: ParticipantRef, variables: Seq<Name>) -> bool {
    exists|i: int|
        0 <= i < stages.len() && (#[trigger] stages[i]).participants.contains(p) && plan::all_bound(
            variables,
            stages[i].target,
        )
}

/// Whether a layout covers all variables of a participant.
spec fn covered(
    p: ParticipantRef,
    ds: Seq<Descriptor>,
    incoming: Option<Seq<Name>>,
    target: Seq<Name>,
) -> bool {
    match p {
        ParticipantRef::Incoming => incoming is Some && plan::all_bound(
            plan::names_in(incoming),
            target,
        ),
        ParticipantRef::Pattern(id) => exists|k: int|
            0 <= k < ds.len() && (#[trigger] ds[k]).id == id && plan::all_bound(
                ds[k].variables.deep_view(),
                target,
            ),
    }
}

/// Whether a participant takes part in some stage whose layout covers its variables.
spec fn covering(
    stages: Seq<StageView>,
    p: ParticipantRef,
    ds: Seq<Descriptor>,
    incoming: Option<Seq<Name>>,
) -> bool {
    exists|i: int|
        0 <= i < stages.len() && (#[trigger] stages[i]).participants.contains(p) && covered(
            p,
            ds,
            incoming,
            stages[i].target,
        )
}

/// Everyone who has to take part.
pub open spec fn everyone(
    ds: Seq<Descriptor>,
    incoming: Option<Seq<Name>>,
) -> Seq<ParticipantRef> {
    plan::incoming_if(incoming is Some) + plan::chosen(ds, |d: Descriptor| true)
}

/// Who a condition selects.
pub proof fn lemma_chosen(ds: Seq<Descriptor>, condition: spec_fn(Descriptor) -> bool)
    ensures
        forall|p: ParticipantRef| #[trigger]
            plan::chosen(ds, condition).contains(p) <==> exists|i: int|
                0 <= i < ds.len() && condition(#[trigger] ds[i]) && p == ParticipantRef::Pattern(
                    ds[i].id,
                ),
        plan::chosen(ds, condition).len() <= ds.len(),
        (forall|d: Descriptor| #[trigger] condition(d)) ==> plan::chosen(ds, condition).len()
            == ds.len(),
    decreases ds.len(),
{
    if ds.len() > 0 {
        let earlier = ds.drop_last();
        lemma_chosen(earlier, condition);
        let all = plan::chosen(ds, condition);
        let last = ds.last();
        assert forall|p: ParticipantRef| #[trigger] all.contains(p) <==> exists|i: int|
            0 <= i < ds.len() && condition(#[trigger] ds[i]) && p == ParticipantRef::Pattern(
                ds[i].id,
            ) by {
            if condition(last) {
                binding_bag::lemma_contains_split(all, p);
                assert(all.drop_last() =~= plan::chosen(earlier, condition));
            }
            if all.contains(p) {
                if plan::chosen(earlier, condition).contains(p) {
                    let i = choose|i: int|
                        0 <= i < earlier.len() && condition(#[trigger] earlier[i]) && p
                            == ParticipantRef::Pattern(earlier[i].id);
                    assert(ds[i] == earlier[i]);
                } else {
                    assert(ds[ds.len() - 1] == last);
                }
            }
            if exists|i: int|
                0 <= i < ds.len() && condition(#[trigger] ds[i]) && p == ParticipantRef::Pattern(
                    ds[i].id,
                ) {
                let i = choose|i: int|
                    0 <= i < ds.len() && condition(#[trigger] ds[i]) && p
                        == ParticipantRef::Pattern(ds[i].id);
                if i < earlier.len() {
                    assert(earlier[i] == ds[i]);
                }
            }
        }
    }
}

/// Who stands in a list behind the incoming bindings.
pub proof fn lemma_incoming_if(selected: bool, rest: Seq<ParticipantRef>)
    ensures
        forall|p: ParticipantRef| #[trigger]
            (plan::incoming_if(selected) + rest).contains(p) <==> (selected && p
                == ParticipantRef::Incoming || rest.contains(p)),
{
    assert forall|p: ParticipantRef| #[trigger]
        (plan::incoming_if(selected) + rest).contains(p) <==> (selected && p
            == ParticipantRef::Incoming || rest.contains(p)) by {
        plan::lemma_concat_contains(plan::incoming_if(selected), rest, p);
        if selected {
            assert(seq![ParticipantRef::Incoming][0] == ParticipantRef::Incoming);
        }
    }
}

/// A stage that is found fits, and whoever is done after it takes part in it.
proof fn lemma_stage_sound(
    v: Name,
    ds: Seq<Descriptor>,
    incoming: Option<Seq<Name>>,
    order: Seq<Name>,
    bound: Seq<Name>,
    completed: Seq<ParticipantRef>,
)
    requires
        order.contains(v),
        !bound.contains(v),
        forall|x: Name| #[trigger] plan::variables_of_all(ds).contains(x) ==> order.contains(x),
        plan::stage_for(v, ds, incoming, order, bound, completed) is Some,
    ensures
        ({
            let found = plan::stage_for(v, ds, incoming, order, bound, completed).unwrap();
            &&& sound_stage(found.0, bound, order)
            &&& found.0.added.len() > 0
            &&& forall|p: ParticipantRef| #[trigger]
                found.1.contains(p) ==> found.0.participants.contains(p) && covered(
                    p,
                    ds,
                    incoming,
                    found.0.target,
                )
            &&& forall|p: ParticipantRef| #[trigger]
                found.0.participants.contains(p) ==> everyone(ds, incoming).contains(p)
        }),
{
    let found = plan::stage_for(v, ds, incoming, order, bound, completed).unwrap();
    let stage = found.0;
    lemma_everyone(ds, incoming);
    let proposers = plan::proposers_of(v, ds, incoming, bound, completed);
    lemma_chosen(ds, plan::proposes(v, bound, completed));
    let incoming_proposes = incoming is Some && !completed.contains(ParticipantRef::Incoming)
        && plan::relation_next(plan::names_in(incoming), bound).contains(v);
    lemma_incoming_if(
        incoming_proposes,
        plan::chosen(ds, plan::proposes(v, bound, completed)),
    );
    if proposers.len() > 0 {
        let target = stage.target;
        let condition = plan::takes_part(proposers, target, completed);
        lemma_chosen(ds, condition);
        let incoming_joins = incoming is Some && !completed.contains(ParticipantRef::Incoming) && (
        proposers.contains(ParticipantRef::Incoming) || plan::all_bound(
            plan::names_in(incoming),
            target,
        ));
        lemma_incoming_if(incoming_joins, plan::chosen(ds, condition));
        assert forall|i: int| 0 <= i < proposers.len() implies stage.participants.contains(
            #[trigger] proposers[i],
        ) by {
            let p = proposers[i];
            assert(proposers.contains(p));
            if p != ParticipantRef::Incoming {
                let k = choose|k: int|
                    0 <= k < ds.len() && plan::proposes(v, bound, completed)(#[trigger] ds[k]) && p
                        == ParticipantRef::Pattern(ds[k].id);
                assert(condition(ds[k]));
            }
        }
        assert(stage.participants.contains(proposers[0]));
        assert(seq![v][0] == v);
        plan::lemma_concat_contains(bound, seq![v], v);
        plan::lemma_common_contains(order, bound + seq![v], v);
        lemma_finished(stage.participants, ds, incoming, target);
    } else {
        plan::lemma_first_or(ds, v, bound, completed, 0);
        let k = plan::first_or(ds, v, bound, completed, 0).unwrap();
        let added = plan::grounds(ds[k], bound);
        assert(stage.added == added);
        assert(added.contains(v));
        let own = seq![ParticipantRef::Pattern(ds[k].id)];
        assert(stage.proposers == own);
        let incoming_checks = incoming is Some && !completed.contains(ParticipantRef::Incoming)
            && plan::checks(plan::relation_next(plan::names_in(incoming), bound), added);
        let condition = plan::checks_or(bound, added, completed);
        let condition_done = plan::completes_or(bound, added, stage.target, completed);
        lemma_chosen(ds, condition);
        lemma_chosen(ds, condition_done);
        lemma_incoming_if(incoming_checks, plan::chosen(ds, condition));
        let incoming_done = incoming_checks && plan::all_bound(
            plan::names_in(incoming),
            stage.target,
        );
        lemma_incoming_if(incoming_done, plan::chosen(ds, condition_done));
        let rest = plan::incoming_if(incoming_checks) + plan::chosen(ds, condition);
        let rest_done = plan::incoming_if(incoming_done) + plan::chosen(ds, condition_done);
        assert(stage.participants =~= own + rest);
        assert(found.1 =~= own + rest_done);
        assert(stage.participants[0] == own[0]);
        assert forall|i: int| 0 <= i < own.len() implies stage.participants.contains(
            #[trigger] own[i],
        ) by {
            assert(stage.participants[0] == own[i]);
        }
        assert forall|p: ParticipantRef| #[trigger]
            found.1.contains(p) implies stage.participants.contains(p) && covered(
            p,
            ds,
            incoming,
            stage.target,
        ) by {
            plan::lemma_concat_contains(own, rest, p);
            plan::lemma_concat_contains(own, rest_done, p);
            if own.contains(p) {
                lemma_disjunction_covered(ds, k, bound, order);
                assert(ds[k].id == p->Pattern_0);
            }
            if plan::chosen(ds, condition_done).contains(p) {
                let j = choose|j: int|
                    0 <= j < ds.len() && condition_done(#[trigger] ds[j]) && p
                        == ParticipantRef::Pattern(ds[j].id);
                assert(condition(ds[j]));
            }
        }
        assert forall|p: ParticipantRef| #[trigger]
            stage.participants.contains(p) implies everyone(ds, incoming).contains(p) by {
            plan::lemma_concat_contains(own, rest, p);
            if own.contains(p) {
                assert(p == ParticipantRef::Pattern(ds[k].id));
            }
        }
        assert forall|i: int| 0 <= i < added.len() implies !bound.contains(#[trigger] added[i])
            && stage.target.contains(added[i]) by {
            let x = added[i];
            assert(added.contains(x));
            plan::lemma_grounds(ds[k], bound, x);
            lemma_variable_of_all(ds, k, x);
            plan::lemma_concat_contains(bound, added, x);
            plan::lemma_common_contains(order, bound + added, x);
        }
    }
}

/// Everyone who has to take part: each pattern, and the incoming bindings if there are any.
proof fn lemma_everyone(ds: Seq<Descriptor>, incoming: Option<Seq<Name>>)
    ensures
        forall|p: ParticipantRef| #[trigger]
            everyone(ds, incoming).contains(p) <==> (incoming is Some && p
                == ParticipantRef::Incoming || exists|i: int|
                0 <= i < ds.len() && p == ParticipantRef::Pattern((#[trigger] ds[i]).id)),
        everyone(ds, incoming).len() == plan::participant_count(ds, incoming),
{
    let always = |d: Descriptor| true;
    lemma_chosen(ds, always);
    lemma_incoming_if(incoming is Some, plan::chosen(ds, always));
    assert forall|p: ParticipantRef| #[trigger]
        everyone(ds, incoming).contains(p) <==> (incoming is Some && p == ParticipantRef::Incoming
            || exists|i: int|
            0 <= i < ds.len() && p == ParticipantRef::Pattern((#[trigger] ds[i]).id)) by {
        if exists|i: int| 0 <= i < ds.len() && p == ParticipantRef::Pattern((#[trigger] ds[i]).id) {
            let i = choose|i: int|
                0 <= i < ds.len() && p == ParticipantRef::Pattern((#[trigger] ds[i]).id);
            assert(always(ds[i]));
        }
    }
}

/// What is bound beside the variables that a pattern lacks covers the pattern.
proof fn lemma_disjunction_covered(
    ds: Seq<Descriptor>,
    k: int,
    bound: Seq<Name>,
    order: Seq<Name>,
)
    requires
        0 <= k < ds.len(),
        ds[k].kind is Or,
        plan::grounds(ds[k], bound).len() > 0,
        forall|x: Name| #[trigger] plan::variables_of_all(ds).contains(x) ==> order.contains(x),
    ensures
        plan::all_bound(
            ds[k].variables.deep_view(),
            plan::layout(order, bound, plan::grounds(ds[k], bound)),
        ),
{
    let names = ds[k].variables.deep_view();
    let added = plan::grounds(ds[k], bound);
    assert forall|i: int| 0 <= i < names.len() implies plan::layout(order, bound, added).contains(
        #[trigger] names[i],
    ) by {
        let x = names[i];
        assert(names.contains(x));
        lemma_variable_of_all(ds, k, x);
        plan::lemma_missing_contains(names, bound, x);
        plan::lemma_concat_contains(bound, added, x);
        plan::lemma_common_contains(order, bound + added, x);
    }
}

/// A variable of a pattern is one of all.
proof fn lemma_variable_of_all(ds: Seq<Descriptor>, k: int, x: Name)
    requires
        0 <= k < ds.len(),
        ds[k].variables.deep_view().contains(x),
    ensures
        plan::variables_of_all(ds).contains(x),
    decreases ds.len(),
{
    let earlier = plan::variables_of_all(ds.drop_last());
    let last = ds.last().variables.deep_view();
    plan::lemma_concat_contains(earlier, last, x);
    if k < ds.len() - 1 {
        assert(ds.drop_last()[k] == ds[k]);
        lemma_variable_of_all(ds.drop_last(), k, x);
    }
}

/// The first pattern of an identity is one of the patterns.
proof fn lemma_done_covered(ds: Seq<Descriptor>, id: PatternId, target: Seq<Name>)
    requires
        plan::pattern_done(ds, id, target),
    ensures
        exists|k: int|
            0 <= k < ds.len() && (#[trigger] ds[k]).id == id && plan::all_bound(
                ds[k].variables.deep_view(),
                target,
            ),
    decreases ds.len(),
{
    if ds[0].id != id {
        let rest = ds.drop_first();
        lemma_done_covered(rest, id, target);
        let k = choose|k: int|
            0 <= k < rest.len() && (#[trigger] rest[k]).id == id && plan::all_bound(
                rest[k].variables.deep_view(),
                target,
            );
        assert(ds[k + 1] == rest[k]);
    }
}

/// Whoever is done takes part, and their variables are covered.
proof fn lemma_finished(
    participants: Seq<ParticipantRef>,
    ds: Seq<Descriptor>,
    incoming: Option<Seq<Name>>,
    target: Seq<Name>,
)
    ensures
        forall|p: ParticipantRef| #[trigger]
            plan::finished(participants, ds, incoming, target).contains(p)
                ==> participants.contains(p) && covered(p, ds, incoming, target),
    decreases participants.len(),
{
    if participants.len() > 0 {
        let earlier = participants.drop_last();
        lemma_finished(earlier, ds, incoming, target);
        let all = plan::finished(participants, ds, incoming, target);
        assert forall|p: ParticipantRef| #[trigger] all.contains(p) implies participants.contains(
            p,
        ) && covered(p, ds, incoming, target) by {
            binding_bag::lemma_contains_split(participants, p);
            if plan::participant_done(participants.last(), ds, incoming, target) {
                if participants.last() is Pattern {
                    lemma_done_covered(ds, participants.last()->Pattern_0, target);
                }
                binding_bag::lemma_contains_split(all, p);
                assert(all.drop_last() =~= plan::finished(earlier, ds, incoming, target));
            }
            assert(plan::finished(earlier, ds, incoming, target).contains(p) ==> earlier.contains(p)
                && covered(p, ds, incoming, target));
        }
    }
}

/// What holds of the rest of a plan, whatever is bound and done before it.
proof fn lemma_plan_rest(
    ds: Seq<Descriptor>,
    incoming: Option<Seq<Name>>,
    order: Seq<Name>,
    bound: Seq<Name>,
    completed: Seq<ParticipantRef>,
)
    requires
        forall|x: Name| #[trigger] plan::variables_of_all(ds).contains(x) ==> order.contains(x),
        variable::unique(completed),
        forall|p: ParticipantRef| #[trigger]
            completed.contains(p) ==> everyone(ds, incoming).contains(p),
    ensures
        plan::plan_rest(ds, incoming, order, bound, completed) matches Ok(stages) ==> {
            &&& chained(stages, bound, order)
            &&& plan::all_bound(order, bound_after(stages, bound))
            &&& forall|p: ParticipantRef| #[trigger]
                everyone(ds, incoming).contains(p) ==> completed.contains(p) || covering(
                    stages,
                    p,
                    ds,
                    incoming,
                )
            &&& distinct_ids(ds)
        },
    decreases binding_bag::missing(order, bound).len(),
{
    let valid = plan::validators(ds, incoming, bound, completed);
    let done = expr::with_new(completed, valid);
    let remaining = binding_bag::missing(order, bound);
    let first = plan::validation_stage(valid, bound);
    expr::lemma_with_new(completed, valid);
    lemma_everyone(ds, incoming);
    lemma_chosen(ds, plan::ready(bound, completed));
    lemma_incoming_if(
        plan::incoming_ready(incoming, bound, completed),
        plan::chosen(ds, plan::ready(bound, completed)),
    );
    assert forall|p: ParticipantRef| #[trigger] done.contains(p) implies everyone(
        ds,
        incoming,
    ).contains(p) by {
        if !completed.contains(p) {
            assert(valid.contains(p));
        }
    }
    let nobody = Seq::<StageView>::empty();
    assert(chained(nobody, bound, order));
    if first.len() > 0 {
        assert(first.drop_first() =~= nobody);
    } else {
        assert(first =~= nobody);
    }
    assert(chained(first, bound, order));
    assert(bound_after(first, bound) == bound);
    assert forall|p: ParticipantRef| valid.contains(p) implies #[trigger] covering(
        first,
        p,
        ds,
        incoming,
    ) by {
        assert(valid.len() > 0) by {
            let i = valid.index_of(p);
        }
        assert(first[0].participants.contains(p));
        assert(covered(p, ds, incoming, bound));
    }
    if remaining.len() == 0 {
        if done.len() == plan::participant_count(ds, incoming) {
            lemma_all_done(done, everyone(ds, incoming));
            lemma_distinct(ds, incoming);
            assert forall|x: int| 0 <= x < order.len() implies bound.contains(
                #[trigger] order[x],
            ) by {
                plan::lemma_missing_contains(order, bound, order[x]);
                if !bound.contains(order[x]) {
                    assert(order.contains(order[x]));
                    let i = remaining.index_of(order[x]);
                }
            }
            assert forall|p: ParticipantRef| #[trigger]
                everyone(ds, incoming).contains(p) implies completed.contains(p) || covering(
                first,
                p,
                ds,
                incoming,
            ) by {
                let all = everyone(ds, incoming);
                let i = all.index_of(p);
                assert(done.contains(all[i]));
                if !completed.contains(p) {
                    assert(valid.contains(p));
                }
            }
        }
    } else {
        match plan::first_stage(remaining, ds, incoming, order, bound, done, 0) {
            None => {},
            Some((stage, newly)) => {
                plan::lemma_first_stage_progress(ds, incoming, order, bound, done);
                plan::lemma_first_stage(remaining, ds, incoming, order, bound, done, 0);
                let i = choose|i: int|
                    0 <= i < remaining.len() && #[trigger] plan::stage_for(
                        remaining[i],
                        ds,
                        incoming,
                        order,
                        bound,
                        done,
                    ) == Some((stage, newly));
                assert(remaining.contains(remaining[i]));
                plan::lemma_missing_contains(order, bound, remaining[i]);
                lemma_stage_sound(remaining[i], ds, incoming, order, bound, done);
                let next = expr::with_new(done, newly);
                expr::lemma_with_new(done, newly);
                assert forall|p: ParticipantRef| #[trigger] next.contains(p) implies everyone(
                    ds,
                    incoming,
                ).contains(p) by {
                    if !done.contains(p) {
                        assert(newly.contains(p));
                        assert(stage.participants.contains(p));
                    }
                }
                lemma_plan_rest(ds, incoming, order, stage.target, next);
                match plan::plan_rest(ds, incoming, order, stage.target, next) {
                    Err(_) => {},
                    Ok(more) => {
                        let stages = first.push(stage) + more;
                        lemma_chain_front(first, stage, more, bound, order);
                        assert forall|p: ParticipantRef| #[trigger]
                            everyone(ds, incoming).contains(p) implies completed.contains(p)
                            || covering(stages, p, ds, incoming) by {
                            if next.contains(p) {
                                if done.contains(p) {
                                    if !completed.contains(p) {
                                        assert(valid.contains(p));
                                        assert(covering(first, p, ds, incoming));
                                        assert(stages[0] == first[0]);
                                        assert(stages[0].participants.contains(p));
                                    }
                                } else {
                                    assert(newly.contains(p));
                                    assert(stages[first.len() as int] == stage);
                                    assert(stages[first.len() as int].participants.contains(p));
                                }
                            } else {
                                assert(covering(more, p, ds, incoming));
                                let j = choose|j: int|
                                    0 <= j < more.len() && (
                                    #[trigger] more[j]).participants.contains(p) && covered(
                                        p,
                                        ds,
                                        incoming,
                                        more[j].target,
                                    );
                                assert(stages[first.len() + 1 + j] == more[j]);
                                assert(stages[first.len() + 1 + j].participants.contains(p));
                            }
                        }
                    },
                }
            },
        }
    }
}

/// A chain behind the stages that come before it.
proof fn lemma_chain_front(
    first: Seq<StageView>,
    stage: StageView,
    more: Seq<StageView>,
    bound: Seq<Name>,
    order: Seq<Name>,
)
    requires
        first.len() <= 1,
        chained(first, bound, order),
        bound_after(first, bound) == bound,
        sound_stage(stage, bound, order),
        chained(more, stage.target, order),
    ensures
        chained(first.push(stage) + more, bound, order),
        bound_after(first.push(stage) + more, bound) == bound_after(more, stage.target),
{
    let tail = seq![stage] + more;
    assert(tail.drop_first() =~= more);
    assert(chained(tail, bound, order));
    let stages = first.push(stage) + more;
    if first.len() == 0 {
        assert(stages =~= tail);
    } else {
        assert(stages.drop_first() =~= tail);
        assert(stages[0] == first[0]);
        assert(first[0] == first.last());
    }
    if more.len() == 0 {
        assert(stages.last() == stage);
    } else {
        assert(stages.last() == more.last());
    }
}

/// Distinct elements drawn from as many are all of them.
proof fn lemma_all_done(done: Seq<ParticipantRef>, all: Seq<ParticipantRef>)
    requires
        variable::unique(done),
        done.len() == all.len(),
        forall|p: ParticipantRef| #[trigger] done.contains(p) ==> all.contains(p),
    ensures
        forall|i: int| 0 <= i < all.len() ==> done.contains(#[trigger] all[i]),
        all.no_duplicates(),
{
    assert(done.no_duplicates()) by {
        assert forall|i: int, j: int|
            0 <= i < done.len() && 0 <= j < done.len() && i != j implies done[i] != done[j] by {
            if i < j {
                assert(done[i] != done[j]);
            } else {
                assert(done[j] != done[i]);
            }
        }
    }
    done.unique_seq_to_set();
    all.lemma_cardinality_of_set();
    assert(done.to_set().subset_of(all.to_set())) by {
        assert forall|p: ParticipantRef| done.to_set().contains(p) implies all.to_set().contains(
            p,
        ) by {
            assert(done.contains(p));
        }
    }
    vstd::set_lib::lemma_len_subset(done.to_set(), all.to_set());
    vstd::set_lib::lemma_subset_equality(done.to_set(), all.to_set());
    assert forall|i: int| 0 <= i < all.len() implies done.contains(#[trigger] all[i]) by {
        assert(all.contains(all[i]));
        assert(done.to_set().contains(all[i]));
    }
    all.lemma_no_dup_set_cardinality();
}

/// Patterns among which nobody stands twice have distinct identities.
proof fn lemma_distinct(ds: Seq<Descriptor>, incoming: Option<Seq<Name>>)
    requires
        everyone(ds, incoming).no_duplicates(),
    ensures
        distinct_ids(ds),
{
    let all = plan::chosen(ds, |d: Descriptor| true);
    let front = plan::incoming_if(incoming is Some);
    lemma_all_chosen(ds);
    assert forall|i: int, j: int| 0 <= i < j < ds.len() implies (#[trigger] ds[i]).id != (
    #[trigger] ds[j]).id by {
        assert(all[i] == ParticipantRef::Pattern(ds[i].id));
        assert(all[j] == ParticipantRef::Pattern(ds[j].id));
        assert(everyone(ds, incoming)[front.len() + i] == all[i]);
        assert(everyone(ds, incoming)[front.len() + j] == all[j]);
    }
}

/// All patterns, in order.
proof fn lemma_all_chosen(ds: Seq<Descriptor>)
    ensures
        ({
            let all = plan::chosen(ds, |d: Descriptor| true);
            &&& all.len() == ds.len()
            &&& forall|i: int|
                0 <= i < ds.len() ==> #[trigger] all[i] == ParticipantRef::Pattern(ds[i].id)
        }),
    decreases ds.len(),
{
    if ds.len() > 0 {
        lemma_all_chosen(ds.drop_last());
    }
}

/// Every stage of a plan fits behind the ones before it, and together they bind every
/// variable of the scope.
pub proof fn law_plan_is_chained(
    ds: Seq<Descriptor>,
    query_order: Seq<Name>,
    incoming: Option<Seq<Name>>,
)
    ensures
        plan::planned(ds, query_order, incoming) matches Ok(stages) ==> {
            let order = plan::scope_order(ds, query_order, incoming);
            chained(stages, Seq::empty(), order) && plan::all_bound(
                order,
                bound_after(stages, Seq::empty()),
            )
        },
{
    lemma_planned(ds, query_order, incoming);
}

/// In a plan every pattern takes part in a stage whose layout covers all its variables, and so do
/// the incoming bindings, if there are any, with the variables of the scope among theirs. A plan
/// comes only of patterns with distinct identities.
pub proof fn law_plan_places_everyone(
    ds: Seq<Descriptor>,
    query_order: Seq<Name>,
    incoming: Option<Seq<Name>>,
)
    ensures
        plan::planned(ds, query_order, incoming) matches Ok(stages) ==> {
            let order = plan::scope_order(ds, query_order, incoming);
            &&& distinct_ids(ds)
            &&& forall|i: int|
                0 <= i < ds.len() ==> placed(
                    stages,
                    ParticipantRef::Pattern((#[trigger] ds[i]).id),
                    ds[i].variables.deep_view(),
                )
            &&& incoming matches Some(names) ==> placed(
                stages,
                ParticipantRef::Incoming,
                binding_bag::common(names, order),
            )
        },
{
    let order = plan::scope_order(ds, query_order, incoming);
    let relevant = plan::relevant_incoming(incoming, order);
    lemma_planned(ds, query_order, incoming);
    lemma_everyone(ds, relevant);
    match plan::planned(ds, query_order, incoming) {
        Err(_) => {},
        Ok(stages) => {
            assert forall|i: int| 0 <= i < ds.len() implies placed(
                stages,
                ParticipantRef::Pattern((#[trigger] ds[i]).id),
                ds[i].variables.deep_view(),
            ) by {
                let p = ParticipantRef::Pattern(ds[i].id);
                assert(everyone(ds, relevant).contains(p));
                assert(covering(stages, p, ds, relevant));
            }
            if incoming is Some {
                assert(everyone(ds, relevant).contains(ParticipantRef::Incoming));
            }
        },
    }
}

proof fn lemma_planned(
    ds: Seq<Descriptor>,
    query_order: Seq<Name>,
    incoming: Option<Seq<Name>>,
)
    ensures
        plan::planned(ds, query_order, incoming) matches Ok(stages) ==> {
            let order = plan::scope_order(ds, query_order, incoming);
            &&& chained(stages, Seq::empty(), order)
            &&& plan::all_bound(order, bound_after(stages, Seq::empty()))
            &&& forall|p: ParticipantRef| #[trigger]
                everyone(ds, plan::relevant_incoming(incoming, order)).contains(p) ==> covering(
                    stages,
                    p,
                    ds,
                    plan::relevant_incoming(incoming, order),
                )
            &&& distinct_ids(ds)
        },
{
    let order = plan::scope_order(ds, query_order, incoming);
    let relevant = plan::variables_of_all(ds);
    let head = expr::with_new(
        expr::with_new(
            Seq::empty(),
            binding_bag::common(plan::names_in(incoming), relevant),
        ),
        binding_bag::common(query_order, relevant),
    );
    expr::lemma_with_new(head, relevant);
    assert forall|x: Name| #[trigger] relevant.contains(x) implies order.contains(x) by {}
    lemma_plan_rest(
        ds,
        plan::relevant_incoming(incoming, order),
        order,
        Seq::empty(),
        Seq::empty(),
    );
}

/// Whether no two patterns have the same identity.
pub open spec fn distinct_ids(ds: Seq<Descriptor>) -> bool {
    forall|i: int, j: int|
        0 <= i < j < ds.len() ==> (#[trigger] ds[i]).id != (#[trigger] ds[j]).id
}

/// A pattern that alone has its identity is fully bound where its variables are.
proof fn lemma_pattern_done(ds: Seq<Descriptor>, k: int, target: Seq<Name>)
    requires
        distinct_ids(ds),
        0 <= k < ds.len(),
    ensures
        plan::pattern_done(ds, ds[k].id, target) == plan::all_bound(
            ds[k].variables.deep_view(),
            target,
        ),
    decreases ds.len(),
{
    if k > 0 {
        let rest = ds.drop_first();
        assert(ds[0].id != ds[k].id);
        assert forall|i: int, j: int| 0 <= i < j < rest.len() implies (#[trigger] rest[i]).id != (
        #[trigger] rest[j]).id by {
            assert(ds[i + 1].id != ds[j + 1].id);
        }
        assert(rest[k - 1] == ds[k]);
        lemma_pattern_done(rest, k - 1, target);
    }
}

/// Whoever takes part and is fully bound is finished.
proof fn lemma_finished_all(
    participants: Seq<ParticipantRef>,
    ds: Seq<Descriptor>,
    incoming: Option<Seq<Name>>,
    target: Seq<Name>,
)
    ensures
        forall|p: ParticipantRef| #[trigger]
            participants.contains(p) && plan::participant_done(p, ds, incoming, target)
                ==> plan::finished(participants, ds, incoming, target).contains(p),
    decreases participants.len(),
{
    if participants.len() > 0 {
        let earlier = participants.drop_last();
        lemma_finished_all(earlier, ds, incoming, target);
        let all = plan::finished(participants, ds, incoming, target);
        assert forall|p: ParticipantRef| #[trigger]
            participants.contains(p) && plan::participant_done(
                p,
                ds,
                incoming,
                target,
            ) implies all.contains(p) by {
            binding_bag::lemma_contains_split(participants, p);
            if plan::participant_done(participants.last(), ds, incoming, target) {
                binding_bag::lemma_contains_split(all, p);
                assert(all.drop_last() =~= plan::finished(earlier, ds, incoming, target));
            }
        }
    }
}

/// Whoever takes part in a stage that is found had work left, and has none after it where the
/// stage leaves them fully bound.
proof fn lemma_stage_work(
    v: Name,
    ds: Seq<Descriptor>,
    incoming: Option<Seq<Name>>,
    order: Seq<Name>,
    bound: Seq<Name>,
    completed: Seq<ParticipantRef>,
    p: ParticipantRef,
)
    requires
        distinct_ids(ds),
        plan::stage_for(v, ds, incoming, order, bound, completed) matches Some(found)
            && found.0.participants.contains(p),
    ensures
        !completed.contains(p),
        ({
            let found = plan::stage_for(v, ds, incoming, order, bound, completed).unwrap();
            plan::participant_done(p, ds, incoming, found.0.target) ==> found.1.contains(p)
        }),
{
    let found = plan::stage_for(v, ds, incoming, order, bound, completed).unwrap();
    let stage = found.0;
    let proposers = plan::proposers_of(v, ds, incoming, bound, completed);
    if proposers.len() > 0 {
        let condition = plan::takes_part(proposers, stage.target, completed);
        lemma_chosen(ds, condition);
        let incoming_joins = incoming is Some && !completed.contains(ParticipantRef::Incoming) && (
        proposers.contains(ParticipantRef::Incoming) || plan::all_bound(
            plan::names_in(incoming),
            stage.target,
        ));
        lemma_incoming_if(incoming_joins, plan::chosen(ds, condition));
        lemma_finished_all(stage.participants, ds, incoming, stage.target);
    } else {
        plan::lemma_first_or(ds, v, bound, completed, 0);
        let k = plan::first_or(ds, v, bound, completed, 0).unwrap();
        let added = plan::grounds(ds[k], bound);
        let own = seq![ParticipantRef::Pattern(ds[k].id)];
        let incoming_checks = incoming is Some && !completed.contains(ParticipantRef::Incoming)
            && plan::checks(plan::relation_next(plan::names_in(incoming), bound), added);
        let condition = plan::checks_or(bound, added, completed);
        let condition_done = plan::completes_or(bound, added, stage.target, completed);
        lemma_chosen(ds, condition);
        lemma_chosen(ds, condition_done);
        lemma_incoming_if(incoming_checks, plan::chosen(ds, condition));
        let incoming_done = incoming_checks && plan::all_bound(
            plan::names_in(incoming),
            stage.target,
        );
        lemma_incoming_if(incoming_done, plan::chosen(ds, condition_done));
        let rest = plan::incoming_if(incoming_checks) + plan::chosen(ds, condition);
        let rest_done = plan::incoming_if(incoming_done) + plan::chosen(ds, condition_done);
        assert(stage.participants =~= own + rest);
        assert(found.1 =~= own + rest_done);
        plan::lemma_concat_contains(own, rest, p);
        plan::lemma_concat_contains(own, rest_done, p);
        if own.contains(p) {
            assert(p == ParticipantRef::Pattern(ds[k].id));
        } else if plan::chosen(ds, condition).contains(p) {
            let j = choose|j: int|
                0 <= j < ds.len() && condition(#[trigger] ds[j]) && p == ParticipantRef::Pattern(
                    ds[j].id,
                );
            lemma_pattern_done(ds, j, stage.target);
            if plan::participant_done(p, ds, incoming, stage.target) {
                assert(condition_done(ds[j]));
            }
        }
    }
}

/// Whether nobody takes part again who took part where they were fully bound, and none of those
/// who are done already take part at all.
spec fn done_once(
    stages: Seq<StageView>,
    ds: Seq<Descriptor>,
    incoming: Option<Seq<Name>>,
    completed: Seq<ParticipantRef>,
) -> bool {
    &&& forall|k: int, p: ParticipantRef|
        0 <= k < stages.len() && completed.contains(p) ==> !(
        #[trigger] stages[k].participants.contains(p))
    &&& forall|i: int, j: int, p: ParticipantRef|
        #![trigger stages[i].participants.contains(p), stages[j].participants.contains(p)]
        0 <= i < j < stages.len() && stages[i].participants.contains(p) && plan::participant_done(
            p,
            ds,
            incoming,
            stages[i].target,
        ) ==> !stages[j].participants.contains(p)
}

/// What holds of the rest of a plan.
proof fn lemma_rest_done_once(
    ds: Seq<Descriptor>,
    incoming: Option<Seq<Name>>,
    order: Seq<Name>,
    bound: Seq<Name>,
    completed: Seq<ParticipantRef>,
)
    requires
        distinct_ids(ds),
    ensures
        plan::plan_rest(ds, incoming, order, bound, completed) matches Ok(stages) ==> done_once(
            stages,
            ds,
            incoming,
            completed,
        ),
    decreases binding_bag::missing(order, bound).len(),
{
    let valid = plan::validators(ds, incoming, bound, completed);
    let done = expr::with_new(completed, valid);
    let remaining = binding_bag::missing(order, bound);
    let first = plan::validation_stage(valid, bound);
    expr::lemma_with_new(completed, valid);
    lemma_chosen(ds, plan::ready(bound, completed));
    lemma_incoming_if(
        plan::incoming_ready(incoming, bound, completed),
        plan::chosen(ds, plan::ready(bound, completed)),
    );
    assert forall|p: ParticipantRef| #[trigger] valid.contains(p) implies !completed.contains(
        p,
    ) by {}
    if remaining.len() > 0 {
        match plan::first_stage(remaining, ds, incoming, order, bound, done, 0) {
            None => {},
            Some((stage, newly)) => {
                plan::lemma_first_stage_progress(ds, incoming, order, bound, done);
                plan::lemma_first_stage(remaining, ds, incoming, order, bound, done, 0);
                let v = choose|i: int|
                    0 <= i < remaining.len() && #[trigger] plan::stage_for(
                        remaining[i],
                        ds,
                        incoming,
                        order,
                        bound,
                        done,
                    ) == Some((stage, newly));
                let next = expr::with_new(done, newly);
                expr::lemma_with_new(done, newly);
                lemma_rest_done_once(ds, incoming, order, stage.target, next);
                match plan::plan_rest(ds, incoming, order, stage.target, next) {
                    Err(_) => {},
                    Ok(more) => {
                        let stages = first.push(stage) + more;
                        let at = first.len() as int;
                        assert(stages[at] == stage);
                        assert forall|p: ParticipantRef| #[trigger]
                            stage.participants.contains(p) implies !done.contains(p) && (
                        plan::participant_done(p, ds, incoming, stage.target) ==> next.contains(
                            p,
                        )) by {
                            lemma_stage_work(remaining[v], ds, incoming, order, bound, done, p);
                        }
                        assert forall|k: int, p: ParticipantRef|
                            0 <= k < stages.len() && completed.contains(p) implies !(
                        #[trigger] stages[k].participants.contains(p)) by {
                            if k > at {
                                assert(stages[k] == more[k - at - 1]);
                                assert(next.contains(p));
                            } else if k < at {
                                assert(stages[k] == first[0]);
                            }
                        }
                        assert forall|i: int, j: int, p: ParticipantRef|
                            #![trigger stages[i].participants.contains(p), stages[j].participants.contains(p)]
                            0 <= i < j < stages.len() && stages[i].participants.contains(p)
                                && plan::participant_done(
                                p,
                                ds,
                                incoming,
                                stages[i].target,
                            ) implies !stages[j].participants.contains(p) by {
                            if i < at {
                                assert(stages[i] == first[0]);
                                assert(valid.contains(p));
                                assert(done.contains(p) && next.contains(p));
                            }
                            if j > at {
                                assert(stages[j] == more[j - at - 1]);
                            }
                            if i > at {
                                assert(stages[i] == more[i - at - 1]);
                            }
                        }
                    },
                }
            },
        }
    }
}

/// Whoever takes part in a stage that leaves all their variables bound takes part in no later
/// stage of the plan.
pub proof fn law_done_take_part_no_more(
    ds: Seq<Descriptor>,
    query_order: Seq<Name>,
    incoming: Option<Seq<Name>>,
    i: int,
    j: int,
    p: ParticipantRef,
)
    requires
        plan::planned(ds, query_order, incoming) matches Ok(stages) && 0 <= i < j < stages.len()
            && stages[i].participants.contains(p) && plan::participant_done(
            p,
            ds,
            plan::relevant_incoming(incoming, plan::scope_order(ds, query_order, incoming)),
            stages[i].target,
        ),
    ensures
        !plan::planned(ds, query_order, incoming)->Ok_0[j].participants.contains(p),
{
    let order = plan::scope_order(ds, query_order, incoming);
    lemma_planned(ds, query_order, incoming);
    lemma_rest_done_once(
        ds,
        plan::relevant_incoming(incoming, order),
        order,
        Seq::empty(),
        Seq::empty(),
    );
}

/// The variables of a scope stand in its order once each, those that come from outside first.
pub proof fn law_scope_order(
    ds: Seq<Descriptor>,
    query_order: Seq<Name>,
    incoming: Option<Seq<Name>>,
    x: Name,
)
    ensures
        variable::unique(plan::scope_order(ds, query_order, incoming)),
        plan::scope_order(ds, query_order, incoming).contains(x)
            == plan::variables_of_all(ds).contains(x),
{
    let relevant = plan::variables_of_all(ds);
    let none = Seq::<Name>::empty();
    let a = expr::with_new(none, binding_bag::common(plan::names_in(incoming), relevant));
    let b = expr::with_new(a, binding_bag::common(query_order, relevant));
    expr::lemma_with_new(none, binding_bag::common(plan::names_in(incoming), relevant));
    expr::lemma_with_new(a, binding_bag::common(query_order, relevant));
    expr::lemma_with_new(b, relevant);
    plan::lemma_common_contains(plan::names_in(incoming), relevant, x);
    plan::lemma_common_contains(query_order, relevant, x);
    assert(expr::with_new(b, relevant).contains(x) == (b.contains(x) || relevant.contains(x)));
    assert(b.contains(x) == (a.contains(x) || binding_bag::common(query_order, relevant).contains(
        x,
    )));
    assert(a.contains(x) == (none.contains(x) || binding_bag::common(
        plan::names_in(incoming),
        relevant,
    ).contains(x)));
}

} // verus!
