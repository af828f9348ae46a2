//! Executable stages.

use std::sync::Arc;

use vstd::prelude::*;

use crate::error::{Error, ErrorView};
use crate::query::binding_bag::BindingBag;
use crate::query::exec_pattern::ExecPattern;
use crate::query::plan::{self, fully_bound, PatternId};
use crate::variable::{self, all_unique, contains, Name, Variable};

verus! {

/// A step of a plan with the patterns that take part in it.
pub struct Stage {
    pub added: Vec<Variable>,
    pub participants: Vec<Arc<dyn ExecPattern>>,
    pub proposer_positions: Vec<usize>,
    pub target_variables: Vec<Variable>,
}

/// What identifies the participants.
pub open spec fn ids_of(participants: Seq<Arc<dyn ExecPattern>>) -> Seq<PatternId> {
    Seq::new(participants.len(), |i: int| participants[i].pattern_id())
}

/// Whether positions stand in strictly ascending order.
pub open spec fn ascending(positions: Seq<usize>) -> bool {
    forall|i: int, j: int| 0 <= i < j < positions.len() ==> positions[i] < positions[j]
}

/// The first position with no participant at it.
pub open spec fn first_beyond(positions: Seq<usize>, count: nat) -> Option<usize>
    decreases positions.len(),
{
    if positions.len() == 0 {
        None
    } else {
        match first_beyond(positions.drop_last(), count) {
            Some(p) => Some(p),
            None => if positions.last() >= count {
                Some(positions.last())
            } else {
                None
            },
        }
    }
}

/// A position that the first ones lead to is that of all.
proof fn lemma_first_beyond(positions: Seq<usize>, count: nat, n: int)
    requires
        0 <= n <= positions.len(),
        first_beyond(positions.take(n), count) is Some,
    ensures
        first_beyond(positions, count) == first_beyond(positions.take(n), count),
    decreases positions.len(),
{
    if n < positions.len() {
        assert(positions.drop_last().take(n) =~= positions.take(n));
        lemma_first_beyond(positions.drop_last(), count, n);
    } else {
        assert(positions.take(n) =~= positions);
    }
}

/// There is a participant at each position just where none is beyond them.
pub proof fn lemma_none_beyond(positions: Seq<usize>, count: nat)
    ensures
        first_beyond(positions, count) is None == (forall|i: int|
            0 <= i < positions.len() ==> #[trigger] positions[i] < count),
    decreases positions.len(),
{
    if positions.len() > 0 {
        lemma_none_beyond(positions.drop_last(), count);
        assert forall|i: int| 0 <= i < positions.len() - 1 implies positions.drop_last()[i]
            == #[trigger] positions[i] by {}
        assert(positions[positions.len() - 1] == positions.last());
    }
}

/// Why the parts do not make a stage, if they do not.
pub open spec fn stage_fault(
    added: Seq<Name>,
    ids: Seq<PatternId>,
    positions: Seq<usize>,
    target: Seq<Name>,
) -> Option<ErrorView> {
    if !variable::unique(added) {
        Some(ErrorView::DuplicateAdded(variable::first_repeated(added).unwrap()))
    } else if !variable::unique(target) {
        Some(ErrorView::DuplicateTarget(variable::first_repeated(target).unwrap()))
    } else if ids.len() == 0 {
        Some(ErrorView::NoParticipants)
    } else if !ascending(positions) {
        Some(ErrorView::ProposersNotAscending)
    } else if first_beyond(positions, ids.len()) is Some {
        Some(
            ErrorView::ProposerOutOfBounds(
                first_beyond(positions, ids.len()).unwrap(),
                ids.len() as usize,
            ),
        )
    } else if (added.len() == 0) != (positions.len() == 0) {
        Some(ErrorView::ProposersWithoutAdditions)
    } else if !plan::all_bound(added, target) {
        Some(ErrorView::AddedNotInTarget(variable::first_missing(added, target).unwrap()))
    } else if !variable::unique(ids) {
        Some(ErrorView::DuplicateParticipant(variable::first_repeated(ids).unwrap()))
    } else {
        None
    }
}

/// Checks the positions of the proposers against the additions and the participants.
fn check_positions(
    added: &[Variable],
    participant_count: usize,
    proposer_positions: &[usize],
) -> (r: Result<(), Error>)
    ensures
        match r {
            Ok(_) => ascending(proposer_positions@) && (forall|i: int|
                0 <= i < proposer_positions@.len() ==> #[trigger] proposer_positions@[i]
                    < participant_count) && (added@.len() == 0) == (proposer_positions@.len() == 0),
            Err(e) => {
                ||| e@ == ErrorView::ProposersNotAscending && !ascending(proposer_positions@)
                ||| ascending(proposer_positions@) && first_beyond(
                    proposer_positions@,
                    participant_count as nat,
                ) is Some && e@ == ErrorView::ProposerOutOfBounds(
                    first_beyond(proposer_positions@, participant_count as nat).unwrap(),
                    participant_count,
                )
                ||| e@ == ErrorView::ProposersWithoutAdditions && ascending(proposer_positions@) && (
                forall|i: int|
                    0 <= i < proposer_positions@.len() ==> #[trigger] proposer_positions@[i]
                        < participant_count) && (added@.len() == 0) != (proposer_positions@.len()
                    == 0)
            },
        },
{
    let mut i: usize = 1;
    while i < proposer_positions.len()
        invariant
            1 <= i,
            i <= proposer_positions@.len() || proposer_positions@.len() == 0,
            forall|a: int, b: int|
                0 <= a < b < i && b < proposer_positions@.len() ==> proposer_positions@[a]
                    < proposer_positions@[b],
        decreases proposer_positions@.len() - i,
    {
        if proposer_positions[i - 1] >= proposer_positions[i] {
            assert(!(proposer_positions@[i - 1] < proposer_positions@[i as int]));
            return Err(Error::ProposersNotAscending);
        }
        assert forall|a: int, b: int|
            0 <= a < b < i + 1 && b < proposer_positions@.len() implies proposer_positions@[a]
            < proposer_positions@[b] by {
            if b == i && a < i - 1 {
                assert(proposer_positions@[a] < proposer_positions@[i - 1]);
            }
        }
        i += 1;
    }
    let mut k: usize = 0;
    assert(proposer_positions@.take(0) =~= Seq::<usize>::empty());
    while k < proposer_positions.len()
        invariant
            k <= proposer_positions@.len(),
            ascending(proposer_positions@),
            first_beyond(proposer_positions@.take(k as int), participant_count as nat) is None,
        decreases proposer_positions@.len() - k,
    {
        proof {
            let next = proposer_positions@.take(k + 1);
            assert(next.drop_last() =~= proposer_positions@.take(k as int));
            assert(next.last() == proposer_positions@[k as int]);
        }
        if proposer_positions[k] >= participant_count {
            proof {
                lemma_first_beyond(proposer_positions@, participant_count as nat, k + 1);
            }
            return Err(Error::ProposerOutOfBounds(proposer_positions[k], participant_count));
        }
        k += 1;
    }
    proof {
        assert(proposer_positions@.take(k as int) =~= proposer_positions@);
        lemma_none_beyond(proposer_positions@, participant_count as nat);
    }
    if (added.len() == 0) != (proposer_positions.len() == 0) {
        return Err(Error::ProposersWithoutAdditions);
    }
    Ok(())
}

impl Stage {
    /// What identifies the participants.
    pub open spec fn ids(self) -> Seq<PatternId> {
        ids_of(self.participants@)
    }

    /// The parts make a stage.
    pub open spec fn wf(self) -> bool {
        stage_fault(
            self.added.deep_view(),
            self.ids(),
            self.proposer_positions@,
            self.target_variables.deep_view(),
        ) is None
    }

    /// A stage of these parts, where they make one.
    pub fn new(
        added: Vec<Variable>,
        participants: Vec<Arc<dyn ExecPattern>>,
        proposer_positions: Vec<usize>,
        target_variables: Vec<Variable>,
    ) -> (r: Result<Self, Error>)
        ensures
            match r {
                Ok(stage) => stage.wf() && stage.added == added && stage.participants
                    == participants && stage.proposer_positions == proposer_positions
                    && stage.target_variables == target_variables,
                Err(e) => stage_fault(
                    added.deep_view(),
                    ids_of(participants@),
                    proposer_positions@,
                    target_variables.deep_view(),
                ) == Some(e@),
            },
    {
        let ghost ids = ids_of(participants@);
        assert(added.deep_view().len() == added@.len());
        if let Some(v) = variable::repeated(&added) {
            return Err(Error::DuplicateAdded(v.name));
        }
        if let Some(v) = variable::repeated(&target_variables) {
            return Err(Error::DuplicateTarget(v.name));
        }
        if participants.len() == 0 {
            return Err(Error::NoParticipants);
        }
        proof {
            lemma_none_beyond(proposer_positions@, ids.len());
            variable::lemma_none_missing(added.deep_view(), target_variables.deep_view());
            variable::lemma_none_repeated(ids);
        }
        match check_positions(&added, participants.len(), &proposer_positions) {
            Ok(_) => {},
            Err(e) => {
                return Err(e);
            },
        }
        if let Some(v) = variable::missing(&added, &target_variables) {
            return Err(Error::AddedNotInTarget(v.name));
        }
        let mut seen: Vec<PatternId> = Vec::new();
        let mut i: usize = 0;
        while i < participants.len()
            invariant
                i <= participants@.len(),
                ids == ids_of(participants@),
                seen@ == ids.take(i as int),
                variable::unique(ids.take(i as int)),
                variable::first_repeated(ids) is None == variable::unique(ids),
                stage_fault(
                    added.deep_view(),
                    ids,
                    proposer_positions@,
                    target_variables.deep_view(),
                ) == (if variable::unique(ids) {
                    None::<ErrorView>
                } else {
                    Some(ErrorView::DuplicateParticipant(variable::first_repeated(ids).unwrap()))
                }),
            decreases participants@.len() - i,
        {
            let id: PatternId = participants[i].id();
            let mut j: usize = 0;
            while j < seen.len()
                invariant
                    j <= seen@.len(),
                    i < participants@.len(),
                    ids == ids_of(participants@),
                    seen@ == ids.take(i as int),
                    variable::unique(ids.take(i as int)),
                    id == ids[i as int],
                    forall|k: int| 0 <= k < j ==> seen@[k] != id,
                    stage_fault(
                        added.deep_view(),
                        ids,
                        proposer_positions@,
                        target_variables.deep_view(),
                    ) == (if variable::unique(ids) {
                        None::<ErrorView>
                    } else {
                        Some(ErrorView::DuplicateParticipant(variable::first_repeated(ids).unwrap()))
                    }),
                decreases seen@.len() - j,
            {
                if seen[j] == id {
                    proof {
                        assert(ids[j as int] == ids[i as int]);
                        let next = ids.take(i + 1);
                        assert(next.drop_last() =~= ids.take(i as int));
                        assert(ids.take(i as int)[j as int] == next.last());
                        variable::lemma_none_repeated(ids.take(i as int));
                        variable::lemma_repeated(ids, i + 1);
                    }
                    return Err(Error::DuplicateParticipant(id));
                }
                j += 1;
            }
            seen.push(id);
            proof {
                assert(seen@ =~= ids.take(i + 1));
                let next = ids.take(i + 1);
                assert forall|a: int, b: int| 0 <= a < b < next.len() implies next[a]
                    != next[b] by {
                    assert(next[a] == ids.take(i as int)[a]);
                    if b < i {
                        assert(next[b] == ids.take(i as int)[b]);
                    }
                }
            }
            i += 1;
        }
        assert(ids.take(i as int) =~= ids);
        Ok(Stage { added, participants, proposer_positions, target_variables })
    }

    /// The variables that the stage adds.
    pub fn added(&self) -> (r: &[Variable])
        ensures
            r@ == self.added@,
    {
        &self.added
    }

    /// Who takes part.
    pub fn participants(&self) -> (r: &[Arc<dyn ExecPattern>])
        ensures
            r@ == self.participants@,
    {
        &self.participants
    }

    /// Who may propose the added variables.
    pub fn proposers(&self) -> (r: Vec<&Arc<dyn ExecPattern>>)
        requires
            self.wf(),
        ensures
            r@.len() == self.proposer_positions@.len(),
            forall|i: int|
                0 <= i < r@.len() ==> *(#[trigger] r@[i])
                    == self.participants@[self.proposer_positions@[i] as int],
    {
        let mut out: Vec<&Arc<dyn ExecPattern>> = Vec::new();
        let mut i: usize = 0;
        while i < self.proposer_positions.len()
            invariant
                i <= self.proposer_positions@.len(),
                self.wf(),
                out@.len() == i,
                forall|j: int|
                    0 <= j < i ==> *(#[trigger] out@[j])
                        == self.participants@[self.proposer_positions@[j] as int],
            decreases self.proposer_positions@.len() - i,
        {
            assert(self.proposer_positions@[i as int] < self.ids().len());
            out.push(&self.participants[self.proposer_positions[i]]);
            i += 1;
        }
        out
    }

    /// The layout of what comes out.
    pub fn target_variables(&self) -> (r: &[Variable])
        ensures
            r@ == self.target_variables@,
    {
        &self.target_variables
    }

    /// Whether the stage fits behind an input: what it adds is not bound, and the target
    /// layout holds what is bound and what is added.
    pub fn validate_input(&self, input: &BindingBag) -> (r: Result<(), Error>)
        ensures
            match r {
                Ok(_) => (forall|i: int|
                    0 <= i < self.added@.len() ==> !input@.variables.contains(
                        #[trigger] self.added.deep_view()[i],
                    )) && same_names(
                    self.target_variables.deep_view(),
                    input@.variables + self.added.deep_view(),
                ),
                Err(e) => {
                    ||| exists|i: int|
                        0 <= i < self.added@.len() && input@.variables.contains(
                            #[trigger] self.added.deep_view()[i],
                        ) && e@ == ErrorView::AlreadyBound(self.added.deep_view()[i]) && forall|
                            j: int,
                        |
                            0 <= j < i ==> !input@.variables.contains(
                                #[trigger] self.added.deep_view()[j],
                            )
                    ||| e@ == ErrorView::StageLayout && (forall|i: int|
                        0 <= i < self.added@.len() ==> !input@.variables.contains(
                            #[trigger] self.added.deep_view()[i],
                        )) && !same_names(
                        self.target_variables.deep_view(),
                        input@.variables + self.added.deep_view(),
                    )
                },
            },
    {
        let ghost names = self.added.deep_view();
        let mut i: usize = 0;
        while i < self.added.len()
            invariant
                i <= self.added@.len(),
                names == self.added.deep_view(),
                forall|j: int| 0 <= j < i ==> !input@.variables.contains(#[trigger] names[j]),
            decreases self.added@.len() - i,
        {
            if contains(&input.variables, &self.added[i]) {
                assert(input@.variables.contains(names[i as int]));
                return Err(Error::AlreadyBound(self.added[i].name.clone()));
            }
            i += 1;
        }
        let mut expected = variable::copy_all(&input.variables);
        let mut more = variable::copy_all(&self.added);
        let ghost head = expected;
        let ghost tail = more;
        expected.append(&mut more);
        assert(expected.deep_view() =~= head.deep_view() + tail.deep_view());
        if fully_bound(&expected, &self.target_variables) && fully_bound(
            &self.target_variables,
            &expected,
        ) {
            return Ok(());
        }
        Err(Error::StageLayout)
    }
}

/// Whether two lists hold the same names.
pub open spec fn same_names(a: Seq<Name>, b: Seq<Name>) -> bool {
    plan::all_bound(a, b) && plan::all_bound(b, a)
}

} // verus!
