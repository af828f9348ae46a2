//! What the described extenders allow: the meaning of a compiled query.

use vstd::prelude::*;

use crate::byte_string::Row;
use crate::codec;
use crate::error::ErrorView;
use crate::expr::{Expr, ExprView};
use crate::iterator::generic_prefix_extender;
use crate::iterator::stored_pattern;
use crate::query::compile::PlanView;
use crate::query::patterns::triple::ScanView;
use crate::query::patterns::{evaluation, function, predicate};
use crate::value::{DataType, IndexType, Value};
use crate::variable::{Name, Variable};

verus! {

/// Whether an error is one with which a search can end: a variable that nothing can list, or a
/// value that is not bound or cannot be read.
pub open spec fn search_error(e: ErrorView) -> bool {
    ||| e == ErrorView::PredicateProposes
    ||| e == ErrorView::NegationProposes
    ||| e == ErrorView::CannotPropose
    ||| e == ErrorView::Unbound
    ||| e == ErrorView::Decode
}

/// What a query is asked of: the keys of the indexes, the transaction as of which they are read,
/// and what evaluates conditions and functions.
pub struct Setting<H, E> {
    pub keys: Seq<Seq<u8>>,
    pub as_of: i64,
    pub holds: H,
    pub compute: E,
}

/// The variables of a list with levels.
pub open spec fn names(vars: Seq<(Name, usize)>) -> Seq<Name> {
    Seq::new(vars.len(), |i: int| vars[i].0)
}

/// The levels of a list of variables.
pub open spec fn levels(vars: Seq<(Name, usize)>) -> Seq<usize> {
    Seq::new(vars.len(), |i: int| vars[i].1)
}

/// Whether the values of variables are bound and can be read.
pub open spec fn usable(vars: Seq<(Name, usize)>, prefix: Row) -> bool {
    &&& forall|i: int| 0 <= i < vars.len() ==> (#[trigger] vars[i]).1 < prefix.len()
    &&& evaluation::readable(prefix, levels(vars))
}

/// The scan of a pattern behind a prefix.
pub open spec fn pattern_scan(
    indexes: Seq<IndexType>,
    constant: Seq<u8>,
    at: Seq<usize>,
    prefix: Row,
) -> ScanView {
    let index_type = indexes[generic_prefix_extender::levels_before(
        at,
        prefix.len() as int,
    ) as int];
    ScanView {
        index_type,
        prefix: seq![codec::index_prefix(index_type)] + constant
            + generic_prefix_extender::bound_values(at, prefix),
    }
}

/// Whether a level is one of a pattern's.
pub open spec fn at_level(at: Seq<usize>, level: int) -> bool {
    exists|i: int| 0 <= i < at.len() && #[trigger] at[i] == level
}

/// Whether one of the extenders takes part in a level.
pub open spec fn some_joins(plans: Seq<PlanView>, level: int) -> bool
    decreases plans, 0int,
{
    exists|i: int| 0 <= i < plans.len() && joins(#[trigger] plans[i], level)
}

/// Whether an extender takes part in a level: a conjunction where one of its clauses does, a
/// disjunction where its first branch does.
pub open spec fn joins(plan: PlanView, level: int) -> bool
    decreases plan, 1int,
{
    match plan {
        PlanView::Values(_, at) => level == at,
        PlanView::Pattern(_, _, at) => at_level(at, level),
        PlanView::And(children) => some_joins(children, level),
        PlanView::Or(children) => children.len() > 0 && joins(children[0], level),
        PlanView::Not(_, at) => level == at,
        PlanView::Predicate(_, _, _, at) => level == at,
        PlanView::Function(_, _, at) => level == at,
    }
}

impl<
    H: Fn(&Expr, &Vec<Variable>, &Vec<DataType>) -> bool,
    E: Fn(&Expr, &Vec<Variable>, &Vec<DataType>) -> Option<DataType>,
> Setting<H, E> {
    /// What a pattern shows behind a prefix.
    pub open spec fn shows(
        self,
        indexes: Seq<IndexType>,
        constant: Seq<u8>,
        at: Seq<usize>,
        prefix: Row,
    ) -> Seq<Seq<u8>> {
        stored_pattern::scanned(self.keys, pattern_scan(indexes, constant, at, prefix), self.as_of)
    }

    /// Whether an expression has a value where variables are bound.
    pub open spec fn computes(
        self,
        expr: ExprView,
        vars: Seq<(Name, usize)>,
        prefix: Row,
        value: Value,
    ) -> bool {
        function::gives(
            self.compute,
            expr,
            names(vars),
            evaluation::values_at(prefix, levels(vars)),
            Some(value),
        )
    }

    /// Whether a value is the encoded one of an expression.
    pub open spec fn computed(
        self,
        expr: ExprView,
        vars: Seq<(Name, usize)>,
        prefix: Row,
        value: Seq<u8>,
    ) -> bool {
        exists|v: Value| #[trigger]
            self.computes(expr, vars, prefix, v) && value == codec::encoding(v)
    }

    /// Whether a value may follow the values before it: for a negation, if the tuple does not
    /// satisfy all its clauses.
    pub open spec fn accepts(self, plan: PlanView, prefix: Row, value: Seq<u8>) -> bool
        decreases plan, 1int,
    {
        match plan {
            PlanView::Values(values, _) => values.contains(value),
            PlanView::Pattern(indexes, constant, at) => self.shows(
                indexes,
                constant,
                at,
                prefix,
            ).contains(value),
            PlanView::And(children) => self.all_accept(children, prefix, value),
            PlanView::Or(children) => self.some_accept(children, prefix, value),
            PlanView::Not(children, _) => !(self.bound_accept(children, prefix)
                && self.all_accept(children, prefix, value)),
            PlanView::Predicate(expr, vars, last, _) => predicate::says(
                self.holds,
                expr,
                names(vars).push(last),
                evaluation::values_at(prefix, levels(vars)).push(codec::decoded(value).unwrap().0),
                true,
            ),
            PlanView::Function(expr, vars, _) => self.computed(expr, vars, prefix, value),
        }
    }

    /// Whether one of the extenders accepts a value.
    pub open spec fn some_accept(self, plans: Seq<PlanView>, prefix: Row, value: Seq<u8>) -> bool
        decreases plans, 0int,
    {
        exists|i: int| 0 <= i < plans.len() && self.accepts(#[trigger] plans[i], prefix, value)
    }

    /// Whether the values that are bound satisfy the extenders at their levels.
    pub open spec fn bound_accept(self, plans: Seq<PlanView>, prefix: Row) -> bool
        decreases plans, 1int,
    {
        forall|l: int|
            0 <= l < prefix.len() ==> self.all_accept(plans, prefix.take(l), #[trigger] prefix[l])
    }

    /// Whether all the extenders that take part in a level accept a value of it.
    pub open spec fn all_accept(self, plans: Seq<PlanView>, prefix: Row, value: Seq<u8>) -> bool
        decreases plans, 0int,
    {
        forall|i: int|
            0 <= i < plans.len() && joins(#[trigger] plans[i], prefix.len() as int)
                ==> self.accepts(plans[i], prefix, value)
    }

    /// Whether it can be told if a value may follow.
    pub open spec fn judges(self, plan: PlanView, prefix: Row, value: Seq<u8>) -> bool
        decreases plan, 1int,
    {
        match plan {
            PlanView::Values(_, _) => true,
            PlanView::Pattern(_, _, _) => true,
            PlanView::And(children) => self.all_judge(children, prefix, value),
            PlanView::Or(children) => self.every_judge(children, prefix, value),
            PlanView::Not(children, _) => self.bound_judge(children, prefix) && self.all_judge(
                children,
                prefix,
                value,
            ),
            PlanView::Predicate(_, vars, _, _) => usable(vars, prefix) && codec::decoded(
                value,
            ) is Some,
            PlanView::Function(_, vars, _) => usable(vars, prefix),
        }
    }

    /// Whether all the extenders that take part in a level can judge a value of it.
    pub open spec fn all_judge(self, plans: Seq<PlanView>, prefix: Row, value: Seq<u8>) -> bool
        decreases plans, 0int,
    {
        forall|i: int|
            0 <= i < plans.len() && joins(#[trigger] plans[i], prefix.len() as int)
                ==> self.judges(plans[i], prefix, value)
    }

    /// Whether every extender can judge a value.
    pub open spec fn every_judge(self, plans: Seq<PlanView>, prefix: Row, value: Seq<u8>) -> bool
        decreases plans, 0int,
    {
        forall|i: int| 0 <= i < plans.len() ==> self.judges(#[trigger] plans[i], prefix, value)
    }

    /// Whether the values that are bound can be judged at their levels.
    pub open spec fn bound_judge(self, plans: Seq<PlanView>, prefix: Row) -> bool
        decreases plans, 1int,
    {
        forall|l: int|
            0 <= l < prefix.len() ==> self.all_judge(plans, prefix.take(l), #[trigger] prefix[l])
    }

    /// How many values are said to follow.
    pub open spec fn counted(self, plan: PlanView, prefix: Row) -> usize
        decreases plan, 1int,
    {
        match plan {
            PlanView::Values(values, _) => values.to_set().len() as usize,
            PlanView::Pattern(indexes, constant, at) => if joins(plan, prefix.len() as int) {
                self.shows(indexes, constant, at, prefix).len() as usize
            } else {
                usize::MAX
            },
            PlanView::And(children) => match self.least(children, prefix) {
                Some(n) => n,
                None => 0,
            },
            PlanView::Or(children) => self.total(children, prefix),
            PlanView::Not(_, _) => usize::MAX,
            PlanView::Predicate(_, _, _, _) => usize::MAX,
            PlanView::Function(_, _, _) => 1,
        }
    }

    /// The smallest count of those that take part in the level, if any does.
    pub open spec fn least(self, plans: Seq<PlanView>, prefix: Row) -> Option<usize>
        decreases plans, 0int,
    {
        if plans.len() == 0 {
            None
        } else {
            let earlier = self.least(plans.drop_last(), prefix);
            let count = self.counted(plans.last(), prefix);
            if joins(plans.last(), prefix.len() as int) && (earlier is None || count
                < earlier.unwrap()) {
                Some(count)
            } else {
                earlier
            }
        }
    }

    /// The sum of the counts, cut off at the largest number.
    pub open spec fn total(self, plans: Seq<PlanView>, prefix: Row) -> usize
        decreases plans, 0int,
    {
        if plans.len() == 0 {
            0
        } else {
            let sum = self.total(plans.drop_last(), prefix) + self.counted(plans.last(), prefix);
            if sum > usize::MAX {
                usize::MAX
            } else {
                sum as usize
            }
        }
    }

    /// Whether an extender is the one that proposes: of those that take part in the level, the
    /// first with the smallest count.
    pub open spec fn cheapest(self, plans: Seq<PlanView>, prefix: Row, k: int) -> bool {
        &&& 0 <= k < plans.len()
        &&& joins(plans[k], prefix.len() as int)
        &&& forall|i: int|
            0 <= i < plans.len() && joins(#[trigger] plans[i], prefix.len() as int)
                ==> self.counted(plans[k], prefix) <= self.counted(plans[i], prefix) && (i < k
                ==> self.counted(plans[k], prefix) < self.counted(plans[i], prefix))
    }

    /// Whether the values that may follow can be listed.
    pub open spec fn offers(self, plan: PlanView, prefix: Row) -> bool
        decreases plan, 1int,
    {
        match plan {
            PlanView::Values(_, _) => true,
            PlanView::Pattern(_, _, _) => true,
            PlanView::And(children) => self.resolvable(children, prefix),
            PlanView::Or(children) => self.every_offer(children, prefix),
            PlanView::Not(_, _) => false,
            PlanView::Predicate(_, _, _, _) => false,
            PlanView::Function(_, vars, _) => usable(vars, prefix),
        }
    }

    /// Whether every extender can list the values that may follow.
    pub open spec fn every_offer(self, plans: Seq<PlanView>, prefix: Row) -> bool
        decreases plans, 0int,
    {
        forall|i: int| 0 <= i < plans.len() ==> self.offers(#[trigger] plans[i], prefix)
    }

    /// Whether the values that may follow can be found: who proposes can do so, and all the
    /// others can judge what is proposed.
    pub open spec fn resolvable(self, plans: Seq<PlanView>, prefix: Row) -> bool
        decreases plans, 0int,
    {
        forall|k: int| #[trigger]
            self.cheapest(plans, prefix, k) ==> self.offers(plans[k], prefix) && forall|
                e: Seq<u8>,
                i: int,
            |
                0 <= i < plans.len() && joins(plans[i], prefix.len() as int) && self.accepts(
                    plans[k],
                    prefix,
                    e,
                ) ==> #[trigger] self.judges(plans[i], prefix, e)
    }

    /// Whether a value may follow: some extender takes part in its level, and all that do accept
    /// it.
    pub open spec fn may_follow(self, plans: Seq<PlanView>, prefix: Row, value: Seq<u8>) -> bool {
        &&& some_joins(plans, prefix.len() as int)
        &&& self.all_accept(plans, prefix, value)
    }

    /// Whether each value of a tuple may follow those before it.
    pub open spec fn satisfies(self, plans: Seq<PlanView>, tuple: Row) -> bool {
        forall|l: int|
            0 <= l < tuple.len() ==> self.may_follow(plans, tuple.take(l), #[trigger] tuple[l])
    }
}

} // verus!
