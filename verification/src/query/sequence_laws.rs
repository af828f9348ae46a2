//! In what order the variables of a query and of a scope stand.

use vstd::prelude::*;

use crate::expr;
use crate::query::ast::{Binding, WhereClause};
use crate::query::binding_bag;
use crate::query::convert::{self, query_variable_order};
use crate::query::convert_laws;
use crate::query::plan::{self, scope_variable_order, Descriptor};
use crate::variable::{Name, Variable};

verus! {

/// Whether one name occurs in a list in front of every occurrence of another, if there are any.
pub open spec fn earlier(names: Seq<Name>, x: Name, y: Name) -> bool {
    exists|i: int|
        0 <= i < names.len() && #[trigger] names[i] == x && forall|j: int|
            0 <= j <= i ==> #[trigger] names[j] != y
}

/// What holds of the first names holds with one more.
proof fn lemma_still_earlier(names: Seq<Name>, x: Name, y: Name)
    requires
        names.len() > 0,
        earlier(names.drop_last(), x, y),
    ensures
        earlier(names, x, y),
{
    let front = names.drop_last();
    let i = choose|i: int|
        0 <= i < front.len() && #[trigger] front[i] == x && forall|j: int|
            0 <= j <= i ==> #[trigger] front[j] != y;
    assert(names[i] == x);
    assert forall|j: int| 0 <= j <= i implies #[trigger] names[j] != y by {
        assert(front[j] == names[j]);
    }
}

/// Where one name is earlier in a list, it is so before the last element or it is the last one.
proof fn lemma_earlier_or_last(names: Seq<Name>, x: Name, y: Name)
    requires
        earlier(names, x, y),
    ensures
        names.len() > 0,
        earlier(names.drop_last(), x, y) || (names.last() == x && !names.contains(y)),
{
    let front = names.drop_last();
    let i = choose|i: int|
        0 <= i < names.len() && #[trigger] names[i] == x && forall|j: int|
            0 <= j <= i ==> #[trigger] names[j] != y;
    if i < front.len() {
        assert(front[i] == x);
        assert forall|j: int| 0 <= j <= i implies #[trigger] front[j] != y by {
            assert(front[j] == names[j]);
        }
    } else {
        if names.contains(y) {
            assert(names[names.index_of(y)] == y);
        }
    }
}

/// A name that is there, in front of one that is not.
proof fn lemma_alone(names: Seq<Name>, x: Name, y: Name)
    requires
        names.contains(x),
        !names.contains(y),
    ensures
        earlier(names, x, y),
{
    let i = names.index_of(x);
    assert(names[i] == x);
    assert forall|j: int| 0 <= j <= i implies #[trigger] names[j] != y by {
        assert(names.contains(names[j]));
    }
}

/// Names that follow a list leave the order in it.
proof fn lemma_order_kept(names: Seq<Name>, more: Seq<Name>, x: Name, y: Name)
    requires
        earlier(names, x, y),
    ensures
        earlier(expr::with_new(names, more), x, y),
    decreases more.len(),
{
    if more.len() > 0 {
        let front = expr::with_new(names, more.drop_last());
        lemma_order_kept(names, more.drop_last(), x, y);
        if !front.contains(more.last()) {
            assert(front.push(more.last()).drop_last() =~= front);
            lemma_still_earlier(front.push(more.last()), x, y);
        }
    }
}

/// Names that a list lacks follow in the order in which they first occur.
proof fn lemma_order_of_new(names: Seq<Name>, more: Seq<Name>, x: Name, y: Name)
    requires
        !names.contains(y),
        earlier(more, x, y),
    ensures
        earlier(expr::with_new(names, more), x, y),
    decreases more.len(),
{
    let rest = more.drop_last();
    lemma_earlier_or_last(more, x, y);
    expr::lemma_with_new(names, rest);
    expr::lemma_with_new(names, more);
    if earlier(rest, x, y) {
        let front = expr::with_new(names, rest);
        lemma_order_of_new(names, rest, x, y);
        if !front.contains(more.last()) {
            assert(front.push(more.last()).drop_last() =~= front);
            lemma_still_earlier(front.push(more.last()), x, y);
        }
    } else {
        assert(more[more.len() - 1] == more.last());
        assert(more.contains(x));
        lemma_alone(expr::with_new(names, more), x, y);
    }
}

/// Names that a list has in common with another stand in their order.
proof fn lemma_order_of_common(names: Seq<Name>, other: Seq<Name>, x: Name, y: Name)
    requires
        earlier(names, x, y),
        other.contains(x),
    ensures
        earlier(binding_bag::common(names, other), x, y),
    decreases names.len(),
{
    lemma_earlier_or_last(names, x, y);
    let rest = names.drop_last();
    if earlier(rest, x, y) {
        let front = binding_bag::common(rest, other);
        lemma_order_of_common(rest, other, x, y);
        if other.contains(names.last()) {
            assert(front.push(names.last()).drop_last() =~= front);
            lemma_still_earlier(front.push(names.last()), x, y);
        }
    } else {
        plan::lemma_common_contains(names, other, x);
        plan::lemma_common_contains(names, other, y);
        assert(names[names.len() - 1] == names.last());
        assert(names.contains(x));
        lemma_alone(binding_bag::common(names, other), x, y);
    }
}

/// The variables of a scope stand in this order: those that come from outside, as they come; then those
/// of the query, in its order; then the others, as they occur in the patterns.
pub proof fn law_order_in_a_scope(
    descriptors: &[Descriptor],
    variable_order: &[Variable],
    incoming: Option<&[Variable]>,
    r: Vec<Variable>,
    x: Name,
    y: Name,
)
    requires
        call_ensures(scope_variable_order, (descriptors, variable_order, incoming), r),
        plan::variables_of_all(descriptors@).contains(x),
    ensures
        ({
            let outer = match incoming {
                Some(list) => list.deep_view(),
                None => Seq::empty(),
            };
            let asked = variable_order.deep_view();
            let own = plan::variables_of_all(descriptors@);
            earlier(outer, x, y) || (!outer.contains(y) && (earlier(asked, x, y) || (
            !asked.contains(y) && earlier(own, x, y)))) ==> earlier(r.deep_view(), x, y)
        }),
{
    let outer = match incoming {
        Some(list) => list.deep_view(),
        None => Seq::empty(),
    };
    let asked = variable_order.deep_view();
    let own = plan::variables_of_all(descriptors@);
    let none = Seq::<Name>::empty();
    let a = binding_bag::common(outer, own);
    let b = binding_bag::common(asked, own);
    let first = expr::with_new(none, a);
    let second = expr::with_new(first, b);
    plan::lemma_common_contains(outer, own, y);
    plan::lemma_common_contains(asked, own, y);
    expr::lemma_with_new(none, a);
    expr::lemma_with_new(first, b);
    assert(first.contains(y) == (none.contains(y) || a.contains(y)));
    assert(second.contains(y) == (first.contains(y) || b.contains(y)));
    if earlier(outer, x, y) {
        lemma_order_of_common(outer, own, x, y);
        lemma_order_of_new(none, a, x, y);
        lemma_order_kept(first, b, x, y);
        lemma_order_kept(second, own, x, y);
    } else if !outer.contains(y) {
        if earlier(asked, x, y) {
            lemma_order_of_common(asked, own, x, y);
            lemma_order_of_new(first, b, x, y);
            lemma_order_kept(second, own, x, y);
        } else if !asked.contains(y) && earlier(own, x, y) {
            lemma_order_of_new(second, own, x, y);
        }
    }
}

/// Whether an input binds a variable.
pub open spec fn is_input(bindings: Seq<Binding>, x: Name) -> bool {
    exists|i: int|
        0 <= i < bindings.len() && convert::binding_names(#[trigger] bindings[i]).contains(x)
}

/// Whether a clause of a group brings in one variable, and neither it nor an earlier clause of the group
/// another one. The functions are one group, the other clauses the other.
pub open spec fn first_brings_in(
    clauses: Seq<WhereClause>,
    functions: bool,
    x: Name,
    y: Name,
) -> bool {
    exists|i: int|
        0 <= i < clauses.len() && convert_laws::brings_in(#[trigger] clauses[i], x) && (
        clauses[i] is WhereFn) == functions && forall|j: int|
            0 <= j <= i && (clauses[j] is WhereFn) == functions ==> !convert_laws::brings_in(
                #[trigger] clauses[j],
                y,
            )
}

/// Whether a clause of a group brings in a variable.
pub open spec fn group_brings_in(clauses: Seq<WhereClause>, functions: bool, y: Name) -> bool {
    exists|i: int|
        0 <= i < clauses.len() && convert_laws::brings_in(#[trigger] clauses[i], y) && (
        clauses[i] is WhereFn) == functions
}

/// The names of a group follow the order of its clauses.
proof fn lemma_order_of_group(clauses: Seq<WhereClause>, functions: bool, x: Name, y: Name)
    requires
        first_brings_in(clauses, functions, x, y),
    ensures
        earlier(convert::grouped_names(clauses, functions), x, y),
    decreases clauses.len(),
{
    let i = choose|i: int|
        0 <= i < clauses.len() && convert_laws::brings_in(#[trigger] clauses[i], x) && (
        clauses[i] is WhereFn) == functions && forall|j: int|
            0 <= j <= i && (clauses[j] is WhereFn) == functions ==> !convert_laws::brings_in(
                #[trigger] clauses[j],
                y,
            );
    let front = clauses.drop_last();
    let last = clauses.last();
    let names = convert::grouped_names(front, functions);
    if i < front.len() {
        assert(front[i] == clauses[i]);
        assert forall|j: int| 0 <= j <= i && (front[j] is WhereFn) == functions implies
            !convert_laws::brings_in(#[trigger] front[j], y) by {
            assert(front[j] == clauses[j]);
        }
        lemma_order_of_group(front, functions, x, y);
        if (last is WhereFn) == functions {
            lemma_order_followed(names, convert::clause_names(last), x, y);
        }
    } else {
        convert_laws::lemma_grouped(clauses, functions, x);
        convert_laws::lemma_grouped(clauses, functions, y);
        lemma_alone(convert::grouped_names(clauses, functions), x, y);
    }
}

/// What follows a list leaves the order in it.
proof fn lemma_order_followed(names: Seq<Name>, more: Seq<Name>, x: Name, y: Name)
    requires
        earlier(names, x, y),
    ensures
        earlier(names + more, x, y),
{
    let all = names + more;
    let i = choose|i: int|
        0 <= i < names.len() && #[trigger] names[i] == x && forall|j: int|
            0 <= j <= i ==> #[trigger] names[j] != y;
    assert(all[i] == x);
    assert forall|j: int| 0 <= j <= i implies #[trigger] all[j] != y by {
        assert(all[j] == names[j]);
    }
}

/// The variables of a query stand in this order: those of the inputs; then those that clauses other
/// than functions bring in; then those that functions bind; and in each of the latter two groups by the
/// first clause that brings them in.
pub proof fn law_order_in_a_query(
    bindings: &[Binding],
    clauses: &[WhereClause],
    r: Vec<Variable>,
    x: Name,
    y: Name,
)
    requires
        call_ensures(query_variable_order, (bindings, clauses), r),
        !is_input(bindings@, y),
        is_input(bindings@, x) || first_brings_in(clauses@, false, x, y) || (!group_brings_in(
            clauses@,
            false,
            y,
        ) && first_brings_in(clauses@, true, x, y)),
    ensures
        earlier(r.deep_view(), x, y),
{
    let none = Seq::<Name>::empty();
    let a = convert::all_binding_names(bindings@);
    let b = convert::grouped_names(clauses@, false);
    let c = convert::grouped_names(clauses@, true);
    let first = expr::with_new(none, a);
    let second = expr::with_new(first, b);
    convert_laws::lemma_bound(bindings@, x);
    convert_laws::lemma_bound(bindings@, y);
    convert_laws::lemma_grouped(clauses@, false, y);
    expr::lemma_with_new(none, a);
    expr::lemma_with_new(first, b);
    assert(first.contains(x) == (none.contains(x) || a.contains(x)));
    assert(first.contains(y) == (none.contains(y) || a.contains(y)));
    assert(second.contains(y) == (first.contains(y) || b.contains(y)));
    if is_input(bindings@, x) {
        lemma_alone(first, x, y);
        lemma_order_kept(first, b, x, y);
        lemma_order_kept(second, c, x, y);
    } else if first_brings_in(clauses@, false, x, y) {
        lemma_order_of_group(clauses@, false, x, y);
        lemma_order_of_new(first, b, x, y);
        lemma_order_kept(second, c, x, y);
    } else {
        lemma_order_of_group(clauses@, true, x, y);
        lemma_order_of_new(second, c, x, y);
    }
}

} // verus!
