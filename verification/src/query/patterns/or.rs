//! Patterns that hold where one of several branches holds.
//!
//! The branches are run outside, each from the rows that the pattern hands on; the pattern
//! combines what they give with its input.

use vstd::prelude::*;

use crate::error::{Error, ErrorView};
use crate::query::binding_bag::{self, BindingBag, Relation};
use crate::query::patterns::triple;
use crate::query::plan::{self, fully_bound, PatternId};
use crate::query::stage;
use crate::variable::{self, copy_all, same_all, Name, Variable};

verus! {

/// What a nested scope takes in and what it gives.
#[derive(Debug)]
pub struct ScopeLayout {
    pub incoming: Option<Vec<Variable>>,
    pub output: Vec<Variable>,
}

/// A pattern that holds where one of its branches holds.
#[derive(Debug)]
pub struct OrPattern {
    pub id: PatternId,
    pub variables: Vec<Variable>,
    pub incoming_variables: Vec<Variable>,
}

/// The layout that a scope takes in, if it takes one.
pub open spec fn incoming_of(layout: ScopeLayout) -> Option<Seq<Name>> {
    match layout.incoming {
        Some(names) => Some(names.deep_view()),
        None => None,
    }
}

/// Why the first branches do not fit, if they do not: the first that gives other variables, or
/// takes another layout, decides.
pub open spec fn branch_fault(
    names: Seq<Name>,
    incoming: Seq<Name>,
    branches: Seq<ScopeLayout>,
) -> Option<ErrorView>
    decreases branches.len(),
{
    if branches.len() == 0 {
        None
    } else {
        match branch_fault(names, incoming, branches.drop_last()) {
            Some(e) => Some(e),
            None => if !stage::same_names(branches.last().output.deep_view(), names) {
                Some(ErrorView::BranchOutput((branches.len() - 1) as usize))
            } else if incoming_of(branches.last()) != Some(incoming) {
                Some(ErrorView::BranchIncoming((branches.len() - 1) as usize))
            } else {
                None
            },
        }
    }
}

/// Why branches make no pattern, if they make none.
pub open spec fn or_fault(names: Seq<Name>, branches: Seq<ScopeLayout>) -> Option<ErrorView> {
    if !variable::unique(names) {
        Some(ErrorView::DuplicateOr(variable::first_repeated(names).unwrap()))
    } else if branches.len() == 0 || incoming_of(branches[0]) is None {
        Some(ErrorView::NoBranches)
    } else {
        let incoming = incoming_of(branches[0]).unwrap();
        if !variable::unique(incoming) {
            Some(ErrorView::DuplicateOrIncoming(variable::first_repeated(incoming).unwrap()))
        } else if !plan::all_bound(incoming, names) {
            Some(ErrorView::OrIncoming)
        } else {
            branch_fault(names, incoming, branches)
        }
    }
}

/// The rows of all the branches, each once.
pub open spec fn merged(names: Seq<Name>, branches: Seq<Relation>) -> Relation
    decreases branches.len(),
{
    if branches.len() == 0 {
        Relation::spec_empty(names)
    } else {
        merged(names, branches.drop_last()).spec_union(
            branches.last().spec_project(names),
        ).spec_distinct()
    }
}

/// Why what the branches gave cannot be combined, if it cannot: the first that does not have
/// exactly the pattern's variables decides.
pub open spec fn merge_fault(names: Seq<Name>, branches: Seq<Relation>) -> Option<ErrorView>
    decreases branches.len(),
{
    if branches.len() == 0 {
        None
    } else {
        match merge_fault(names, branches.drop_last()) {
            Some(e) => Some(e),
            None => triple::reorder_fault(branches.last().variables, names),
        }
    }
}

/// A fault among the first branches is the fault of all of them.
proof fn lemma_branch_fault(
    names: Seq<Name>,
    incoming: Seq<Name>,
    branches: Seq<ScopeLayout>,
    n: int,
)
    requires
        0 <= n <= branches.len(),
        branch_fault(names, incoming, branches.take(n)) is Some,
    ensures
        branch_fault(names, incoming, branches) == branch_fault(names, incoming, branches.take(n)),
    decreases branches.len(),
{
    if n < branches.len() {
        assert(branches.drop_last().take(n) =~= branches.take(n));
        lemma_branch_fault(names, incoming, branches.drop_last(), n);
    } else {
        assert(branches.take(n) =~= branches);
    }
}

/// A fault among the first bags is the fault of all of them.
proof fn lemma_merge_fault(names: Seq<Name>, branches: Seq<Relation>, n: int)
    requires
        0 <= n <= branches.len(),
        merge_fault(names, branches.take(n)) is Some,
    ensures
        merge_fault(names, branches) == merge_fault(names, branches.take(n)),
    decreases branches.len(),
{
    if n < branches.len() {
        assert(branches.drop_last().take(n) =~= branches.take(n));
        lemma_merge_fault(names, branches.drop_last(), n);
    } else {
        assert(branches.take(n) =~= branches);
    }
}

/// What the bags hold.
pub open spec fn relations(bags: Seq<BindingBag>) -> Seq<Relation> {
    Seq::new(bags.len(), |i: int| bags[i]@)
}

/// Whether every bag is well formed.
pub open spec fn all_wf(bags: Seq<BindingBag>) -> bool {
    forall|i: int| 0 <= i < bags.len() ==> (#[trigger] bags[i])@.wf()
}

impl OrPattern {
    /// The variables are distinct, and so are those that the branches start from, which are
    /// among them.
    pub open spec fn inv(self) -> bool {
        &&& variable::unique(self.variables.deep_view())
        &&& variable::unique(self.incoming_variables.deep_view())
        &&& plan::all_bound(self.incoming_variables.deep_view(), self.variables.deep_view())
    }

    /// A pattern whose branches all start from the same layout and give all its variables.
    pub fn new(id: PatternId, variables: Vec<Variable>, branches: &[ScopeLayout]) -> (r: Result<
        Self,
        Error,
    >)
        ensures
            match r {
                Ok(p) => or_fault(variables.deep_view(), branches@) is None && p.inv() && p.id == id
                    && p.variables == variables && Some(p.incoming_variables.deep_view())
                    == incoming_of(branches@[0]),
                Err(e) => or_fault(variables.deep_view(), branches@) == Some(e@),
            },
    {
        if let Some(v) = variable::repeated(&variables) {
            return Err(Error::DuplicateOr(v.name));
        }
        if branches.len() == 0 {
            return Err(Error::NoBranches);
        }
        let incoming_variables = match &branches[0].incoming {
            Some(incoming) => copy_all(incoming),
            None => {
                return Err(Error::NoBranches);
            },
        };
        if let Some(v) = variable::repeated(&incoming_variables) {
            return Err(Error::DuplicateOrIncoming(v.name));
        }
        if !fully_bound(&incoming_variables, &variables) {
            return Err(Error::OrIncoming);
        }
        let ghost names = variables.deep_view();
        let ghost incoming = incoming_variables.deep_view();
        let mut i: usize = 0;
        while i < branches.len()
            invariant
                i <= branches@.len(),
                names == variables.deep_view(),
                incoming == incoming_variables.deep_view(),
                variable::unique(names),
                branches@.len() > 0,
                incoming_of(branches@[0]) == Some(incoming),
                variable::unique(incoming),
                plan::all_bound(incoming, names),
                branch_fault(names, incoming, branches@.take(i as int)) is None,
            decreases branches@.len() - i,
        {
            assert(branches@.take(i + 1).drop_last() =~= branches@.take(i as int));
            assert(branches@.take(i + 1).last() == branches@[i as int]);
            let output = &branches[i].output;
            if !(fully_bound(output, &variables) && fully_bound(&variables, output)) {
                proof {
                    lemma_branch_fault(names, incoming, branches@, i + 1);
                }
                return Err(Error::BranchOutput(i));
            }
            let same = match &branches[i].incoming {
                Some(other) => same_all(other, &incoming_variables),
                None => false,
            };
            if !same {
                proof {
                    lemma_branch_fault(names, incoming, branches@, i + 1);
                }
                return Err(Error::BranchIncoming(i));
            }
            i += 1;
        }
        assert(branches@.take(i as int) =~= branches@);
        Ok(OrPattern { id, variables, incoming_variables })
    }

    /// Why a join is refused before the branches are run, if it is.
    pub open spec fn refusal(
        self,
        layout: Seq<Name>,
        added: Seq<Name>,
        target: Seq<Name>,
    ) -> Option<ErrorView> {
        let names = self.variables.deep_view();
        if added.len() == 0 {
            if target != layout {
                Some(ErrorView::OrLayout(self.id))
            } else if !plan::all_bound(names, layout) {
                Some(ErrorView::OrUnbound(self.id))
            } else {
                None
            }
        } else if !stage::same_names(added, binding_bag::missing(names, layout)) {
            Some(ErrorView::OrMustPropose(self.id))
        } else if !plan::all_bound(self.incoming_variables.deep_view(), layout) {
            Some(
                ErrorView::OrMissingIncoming(
                    self.id,
                    variable::first_missing(self.incoming_variables.deep_view(), layout).unwrap(),
                ),
            )
        } else {
            None
        }
    }

    /// What the join gives, before its columns are put in order.
    pub open spec fn joined(self, input: Relation, added: Seq<Name>, branches: Seq<Relation>) -> Relation {
        let result = merged(self.variables.deep_view(), branches);
        if added.len() == 0 {
            input.spec_semijoin(result)
        } else {
            input.spec_natural_join(result)
        }
    }

    /// Whether the pattern can be joined with an input.
    pub fn check_join(&self, input: &BindingBag, added: &[Variable], target_variables: &[Variable]) -> (r:
        Result<(), Error>)
        requires
            self.inv(),
        ensures
            match r {
                Ok(_) => self.refusal(
                    input@.variables,
                    added.deep_view(),
                    target_variables.deep_view(),
                ) is None,
                Err(e) => self.refusal(
                    input@.variables,
                    added.deep_view(),
                    target_variables.deep_view(),
                ) == Some(e@),
            },
    {
        assert(added.deep_view().len() == added@.len());
        if added.len() == 0 {
            if !same_all(target_variables, &input.variables) {
                return Err(Error::OrLayout(self.id));
            }
            if !fully_bound(&self.variables, &input.variables) {
                return Err(Error::OrUnbound(self.id));
            }
            return Ok(());
        }
        let expected = plan::unbound_of(&self.variables, &input.variables);
        if !(fully_bound(added, &expected) && fully_bound(&expected, added)) {
            return Err(Error::OrMustPropose(self.id));
        }
        proof {
            variable::lemma_none_missing(self.incoming_variables.deep_view(), input@.variables);
        }
        if let Some(v) = variable::missing(&self.incoming_variables, &input.variables) {
            return Err(Error::OrMissingIncoming(self.id, v.name));
        }
        Ok(())
    }

    /// What the branches start from.
    pub fn incoming(&self, input: &BindingBag) -> (r: Result<BindingBag, Error>)
        requires
            self.inv(),
            input@.wf(),
        ensures
            match r {
                Ok(bag) => plan::all_bound(self.incoming_variables.deep_view(), input@.variables)
                    && bag@ == input@.spec_project(self.incoming_variables.deep_view()) && bag@.wf(),
                Err(e) => !plan::all_bound(
                    self.incoming_variables.deep_view(),
                    input@.variables,
                ) && e@ == ErrorView::OrMissingIncoming(
                    self.id,
                    variable::first_missing(
                        self.incoming_variables.deep_view(),
                        input@.variables,
                    ).unwrap(),
                ),
            },
    {
        proof {
            variable::lemma_none_missing(self.incoming_variables.deep_view(), input@.variables);
        }
        if let Some(v) = variable::missing(&self.incoming_variables, &input.variables) {
            return Err(Error::OrMissingIncoming(self.id, v.name));
        }
        proof {
            binding_bag::lemma_no_fault(input@.variables, self.incoming_variables.deep_view());
        }
        input.project(&self.incoming_variables)
    }

    /// Each row that some branch gave, once.
    pub fn merge(&self, branches: &[BindingBag]) -> (r: Result<BindingBag, Error>)
        requires
            self.inv(),
            all_wf(branches@),
        ensures
            match r {
                Ok(bag) => merge_fault(self.variables.deep_view(), relations(branches@)) is None
                    && bag@ == merged(self.variables.deep_view(), relations(branches@))
                    && bag@.wf(),
                Err(e) => merge_fault(self.variables.deep_view(), relations(branches@)) == Some(e@),
            },
    {
        let ghost names = self.variables.deep_view();
        let ghost all = relations(branches@);
        assert(names.len() == self.variables@.len());
        let mut result = match BindingBag::empty(copy_all(&self.variables)) {
            Ok(bag) => bag,
            Err(e) => {
                return Err(e);
            },
        };
        let mut i: usize = 0;
        while i < branches.len()
            invariant
                i <= branches@.len() == all.len(),
                all == relations(branches@),
                names == self.variables.deep_view(),
                names.len() == self.variables@.len(),
                variable::unique(names),
                all_wf(branches@),
                merge_fault(names, all.take(i as int)) is None,
                result@ == merged(names, all.take(i as int)),
                result@.variables == names,
                result@.wf(),
            decreases branches@.len() - i,
        {
            proof {
                assert(all.take(i + 1).drop_last() =~= all.take(i as int));
                assert(all.take(i + 1).last() == branches@[i as int]@);
            }
            let branch = match branches[i].reorder(&self.variables) {
                Ok(branch) => branch,
                Err(e) => {
                    proof {
                        lemma_merge_fault(names, all, i + 1);
                    }
                    return Err(e);
                },
            };
            result = match result.distinct_union(&branch) {
                Ok(bag) => bag,
                Err(e) => {
                    return Err(e);
                },
            };
            i += 1;
        }
        assert(all.take(i as int) =~= all);
        Ok(result)
    }

    /// Extends the rows by what the branches gave; where no variable is added, keeps the rows
    /// that some branch confirms.
    pub fn join(
        &self,
        input: &BindingBag,
        added: &[Variable],
        target_variables: &[Variable],
        branches: &[BindingBag],
    ) -> (r: Result<BindingBag, Error>)
        requires
            self.inv(),
            input@.wf(),
            all_wf(branches@),
        ensures
            match r {
                Ok(bag) => self.join_fault(
                    input@,
                    added.deep_view(),
                    target_variables.deep_view(),
                    relations(branches@),
                ) is None && bag@.wf() && bag@ == self.joined(
                    input@,
                    added.deep_view(),
                    relations(branches@),
                ).spec_project(target_variables.deep_view()),
                Err(e) => self.join_fault(
                    input@,
                    added.deep_view(),
                    target_variables.deep_view(),
                    relations(branches@),
                ) == Some(e@),
            },
    {
        assert(added.deep_view().len() == added@.len());
        assert(target_variables.deep_view().len() == target_variables@.len());
        match self.check_join(input, added, target_variables) {
            Ok(_) => {},
            Err(e) => {
                return Err(e);
            },
        }
        let result = match self.merge(branches) {
            Ok(result) => result,
            Err(e) => {
                return Err(e);
            },
        };
        if added.len() == 0 {
            let kept = input.semijoin(&result);
            proof {
                assert(input.variables.len() <= usize::MAX);
                assert(input@.variables.len() == input.variables.len());
                binding_bag::lemma_project_all(input@.spec_semijoin(result@));
            }
            kept
        } else {
            match input.natural_join(&result) {
                Ok(bag) => bag.reorder(target_variables),
                Err(e) => Err(e),
            }
        }
    }

    /// Why a join is refused, if it is.
    pub open spec fn join_fault(
        self,
        input: Relation,
        added: Seq<Name>,
        target: Seq<Name>,
        branches: Seq<Relation>,
    ) -> Option<ErrorView> {
        match self.refusal(input.variables, added, target) {
            Some(e) => Some(e),
            None => match merge_fault(self.variables.deep_view(), branches) {
                Some(e) => Some(e),
                None => if added.len() == 0 {
                    None
                } else {
                    triple::reorder_fault(self.joined(input, added, branches).variables, target)
                },
            },
        }
    }
}

} // verus!
