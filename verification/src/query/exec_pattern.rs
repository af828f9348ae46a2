//! What a stage asks of the patterns that take part in it.

use vstd::prelude::*;

use crate::error::Error;
use crate::query::binding_bag::BindingBag;
use crate::query::plan::PatternId;
use crate::variable::{Name, Variable};

verus! {

/// Who extends a row most cheaply, and in how many ways.
#[derive(Clone, Copy, Debug, PartialEq, Eq, Structural)]
pub struct Proposal {
    pub proposer: Option<PatternId>,
    pub count: usize,
}

/// The proposal after a pattern has been considered: the first of the patterns with the
/// smallest positive count stands.
pub open spec fn considered(p: Proposal, proposer: PatternId, count: usize) -> Proposal {
    if 0 < count < p.count {
        Proposal { proposer: Some(proposer), count }
    } else {
        p
    }
}

impl Proposal {
    /// Who extends the row.
    pub fn proposer(&self) -> (r: Option<PatternId>)
        ensures
            r == self.proposer,
    {
        self.proposer
    }

    /// In how many ways.
    pub fn count(&self) -> (r: usize)
        ensures
            r == self.count,
    {
        self.count
    }

    /// Takes a pattern into account.
    pub fn consider(&mut self, proposer: PatternId, count: usize)
        ensures
            *final(self) == considered(*old(self), proposer, count),
    {
        if count > 0 && count < self.count {
            self.proposer = Some(proposer);
            self.count = count;
        }
    }
}

impl Default for Proposal {
    fn default() -> (r: Self)
        ensures
            r == (Proposal { proposer: None, count: usize::MAX }),
    {
        Proposal { proposer: None, count: usize::MAX }
    }
}

/// The proposal after all the patterns have been considered in order.
pub open spec fn considered_all(start: Proposal, offers: Seq<(PatternId, usize)>) -> Proposal
    decreases offers.len(),
{
    if offers.len() == 0 {
        start
    } else {
        considered(
            considered_all(start, offers.drop_last()),
            offers.last().0,
            offers.last().1,
        )
    }
}

/// Of all the patterns that were considered, the proposal keeps the first with the smallest
/// positive count; where no count is positive and below the start, the start stands.
pub proof fn law_first_cheapest_stands(start: Proposal, offers: Seq<(PatternId, usize)>)
    ensures
        ({
            let best = considered_all(start, offers);
            &&& forall|i: int|
                0 <= i < offers.len() && (#[trigger] offers[i]).1 > 0 ==> best.count
                    <= offers[i].1
            &&& best == start || exists|i: int|
                0 <= i < offers.len() && best.proposer == Some((#[trigger] offers[i]).0)
                    && best.count == offers[i].1 && best.count > 0 && best.count < start.count
                    && forall|j: int|
                    0 <= j < i && (#[trigger] offers[j]).1 > 0 ==> offers[j].1 > best.count
        }),
    decreases offers.len(),
{
    if offers.len() > 0 {
        let earlier = offers.drop_last();
        law_first_cheapest_stands(start, earlier);
        let before = considered_all(start, earlier);
        let last = offers.last();
        let best = considered_all(start, offers);
        assert forall|i: int| 0 <= i < offers.len() && (#[trigger] offers[i]).1 > 0 implies best.count
            <= offers[i].1 by {
            if i < earlier.len() {
                assert(earlier[i] == offers[i]);
            }
        }
        if 0 < last.1 < before.count {
            let i = offers.len() - 1;
            assert(offers[i] == last);
            assert forall|j: int| 0 <= j < i && (#[trigger] offers[j]).1 > 0 implies offers[j].1
                > best.count by {
                assert(earlier[j] == offers[j]);
            }
        } else if best != start {
            let i = choose|i: int|
                0 <= i < earlier.len() && before.proposer == Some((#[trigger] earlier[i]).0)
                    && before.count == earlier[i].1 && before.count > 0 && before.count
                    < start.count && forall|j: int|
                    0 <= j < i && (#[trigger] earlier[j]).1 > 0 ==> earlier[j].1 > before.count;
            assert(offers[i] == earlier[i]);
            assert forall|j: int| 0 <= j < i && (#[trigger] offers[j]).1 > 0 implies offers[j].1
                > best.count by {
                assert(earlier[j] == offers[j]);
            }
        }
    }
}

/// A pattern that takes part in the stages of a plan.
pub trait ExecPattern {
    /// What identifies the pattern.
    spec fn pattern_id(&self) -> PatternId;

    /// The variables of the pattern.
    spec fn names(&self) -> Seq<Name>;

    /// What has to hold of the pattern itself.
    spec fn inv(&self) -> bool;

    /// What identifies the pattern.
    fn id(&self) -> (r: PatternId)
        ensures
            r == self.pattern_id(),
    ;

    /// The variables of the pattern.
    fn variables(&self) -> (r: &[Variable])
        ensures
            r.deep_view() == self.names(),
    ;

    /// Offers, for each row, the number of ways in which the pattern extends it. An offer
    /// stands only where it is cheaper than what stands already.
    fn count(
        &self,
        input: &BindingBag,
        added: &[Variable],
        proposals: &mut Vec<Proposal>,
    ) -> (r: Result<(), Error>)
        requires
            self.inv(),
            input@.wf(),
        ensures
            final(proposals)@.len() == old(proposals)@.len(),
            r is Ok ==> forall|i: int|
                0 <= i < final(proposals)@.len() ==> {
                    ||| #[trigger] final(proposals)@[i] == old(proposals)@[i]
                    ||| final(proposals)@[i].proposer == Some(self.pattern_id())
                        && final(proposals)@[i].count < old(proposals)@[i].count
                },
    ;

    /// Extends the rows by the added variables; where none are added, keeps the rows that the
    /// pattern accepts. What comes out has the target layout.
    fn join(
        &self,
        input: &BindingBag,
        added: &[Variable],
        target_variables: &[Variable],
    ) -> (r: Result<BindingBag, Error>)
        requires
            self.inv(),
            input@.wf(),
        ensures
            r matches Ok(bag) ==> bag@.wf() && bag@.variables == target_variables.deep_view(),
    ;
}

} // verus!
