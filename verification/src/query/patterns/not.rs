//! Patterns that hold where their body does not.
//!
//! The body is run outside, from the rows that the pattern hands on; the pattern drops the rows
//! of its input that the body confirms.

use vstd::prelude::*;

use crate::error::{Error, ErrorView};
use crate::query::binding_bag::{self, BindingBag, Relation};
use crate::query::patterns::or::{self, ScopeLayout};
use crate::query::patterns::triple;
use crate::query::plan::{self, fully_bound, PatternId};
use crate::query::stage;
use crate::text;
use crate::variable::{self, copy_all, list_text, same_all, Name, Variable};

verus! {

/// A pattern that holds where its body does not.
#[derive(Debug)]
pub struct NotPattern {
    pub id: PatternId,
    pub variables: Vec<Variable>,
    pub incoming_variables: Vec<Variable>,
}

/// Why a body makes no pattern, if it makes none.
pub open spec fn not_fault(names: Seq<Name>, body: ScopeLayout) -> Option<ErrorView> {
    if !variable::unique(names) {
        Some(ErrorView::DuplicateNot(variable::first_repeated(names).unwrap()))
    } else {
        match or::incoming_of(body) {
            None => Some(ErrorView::NotNested),
            Some(incoming) => if !stage::same_names(incoming, names) {
                Some(ErrorView::NotIncoming)
            } else if !stage::same_names(body.output.deep_view(), names) {
                Some(ErrorView::NotOutput)
            } else {
                None
            },
        }
    }
}

impl NotPattern {
    /// The variables are distinct, and the body starts from just these.
    pub open spec fn inv(self) -> bool {
        &&& variable::unique(self.variables.deep_view())
        &&& stage::same_names(self.incoming_variables.deep_view(), self.variables.deep_view())
    }

    /// A pattern whose body starts from its variables and gives them.
    pub fn new(id: PatternId, variables: Vec<Variable>, body: &ScopeLayout) -> (r: Result<
        Self,
        Error,
    >)
        ensures
            match r {
                Ok(p) => not_fault(variables.deep_view(), *body) is None && p.inv() && p.id == id
                    && p.variables == variables && Some(p.incoming_variables.deep_view())
                    == or::incoming_of(*body),
                Err(e) => not_fault(variables.deep_view(), *body) == Some(e@),
            },
    {
        if let Some(v) = variable::repeated(&variables) {
            return Err(Error::DuplicateNot(v.name));
        }
        let incoming_variables = match &body.incoming {
            Some(incoming) => copy_all(incoming),
            None => {
                return Err(Error::NotNested);
            },
        };
        if !(fully_bound(&incoming_variables, &variables) && fully_bound(
            &variables,
            &incoming_variables,
        )) {
            return Err(Error::NotIncoming);
        }
        if !(fully_bound(&body.output, &variables) && fully_bound(&variables, &body.output)) {
            return Err(Error::NotOutput);
        }
        Ok(NotPattern { id, variables, incoming_variables })
    }

    /// Why a join is refused before the body is run, if it is.
    pub open spec fn refusal(
        self,
        layout: Seq<Name>,
        added: Seq<Name>,
        target: Seq<Name>,
    ) -> Option<ErrorView> {
        if added.len() > 0 {
            Some(ErrorView::NotCannotPropose(self.id, text::listed(added)))
        } else if target != layout {
            Some(ErrorView::NotLayout(self.id))
        } else if !plan::all_bound(self.variables.deep_view(), layout) {
            Some(ErrorView::NotUnbound(self.id))
        } else {
            None
        }
    }

    /// Whether the pattern can be joined with an input.
    pub fn check_join(&self, input: &BindingBag, added: &[Variable], target_variables: &[Variable]) -> (r:
        Result<(), Error>)
        ensures
            match r {
                Ok(_) => self.refusal(
                    input@.variables,
                    added.deep_view(),
                    target_variables.deep_view(),
                ) is None,
                Err(e) => self.refusal(
                    input@.variables,
                    added.deep_view(),
                    target_variables.deep_view(),
                ) == Some(e@),
            },
    {
        assert(added.deep_view().len() == added@.len());
        if added.len() > 0 {
            return Err(Error::NotCannotPropose(self.id, list_text(added)));
        }
        if !same_all(target_variables, &input.variables) {
            return Err(Error::NotLayout(self.id));
        }
        if !fully_bound(&self.variables, &input.variables) {
            return Err(Error::NotUnbound(self.id));
        }
        Ok(())
    }

    /// What the body starts from.
    pub fn incoming(&self, input: &BindingBag) -> (r: Result<BindingBag, Error>)
        requires
            input@.wf(),
        ensures
            match r {
                Ok(bag) => binding_bag::projection_fault(
                    input@.variables,
                    self.incoming_variables.deep_view(),
                ) is None && bag@ == input@.spec_project(self.incoming_variables.deep_view())
                    && bag@.wf(),
                Err(e) => binding_bag::projection_fault(
                    input@.variables,
                    self.incoming_variables.deep_view(),
                ) == Some(e@),
            },
    {
        input.project(&self.incoming_variables)
    }

    /// Why a join is refused, if it is.
    pub open spec fn join_fault(
        self,
        input: Relation,
        added: Seq<Name>,
        target: Seq<Name>,
        body: Relation,
    ) -> Option<ErrorView> {
        match self.refusal(input.variables, added, target) {
            Some(e) => Some(e),
            None => triple::reorder_fault(body.variables, self.variables.deep_view()),
        }
    }

    /// The rows that the body, run from what they hold, does not confirm.
    pub fn join(
        &self,
        input: &BindingBag,
        added: &[Variable],
        target_variables: &[Variable],
        body: &BindingBag,
    ) -> (r: Result<BindingBag, Error>)
        requires
            input@.wf(),
            body@.wf(),
        ensures
            match r {
                Ok(bag) => self.join_fault(
                    input@,
                    added.deep_view(),
                    target_variables.deep_view(),
                    body@,
                ) is None && bag@.wf() && bag@ == input@.spec_antijoin(
                    body@.spec_project(self.variables.deep_view()),
                ),
                Err(e) => self.join_fault(
                    input@,
                    added.deep_view(),
                    target_variables.deep_view(),
                    body@,
                ) == Some(e@),
            },
    {
        assert(self.variables.deep_view().len() == self.variables@.len());
        match self.check_join(input, added, target_variables) {
            Ok(_) => {},
            Err(e) => {
                return Err(e);
            },
        }
        match body.reorder(&self.variables) {
            Ok(result) => input.antijoin(&result),
            Err(e) => Err(e),
        }
    }
}

} // verus!
