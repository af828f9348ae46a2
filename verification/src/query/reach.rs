//! Which stored keys a query can reach.

use vstd::prelude::*;

use crate::byte_string::{self, append_bytes, Row};
use crate::codec::{self, index_type_to_prefix};
use crate::expr::Expr;
use crate::iterator::generic_prefix_extender::{self, GenericPrefixExtender};
use crate::iterator::stored_pattern;
use crate::query::compile::{self, ExtenderPlan, PlanView};
use crate::query::levels;
use crate::query::meaning::{self, Setting};
use crate::value::{DataType, IndexType, Value};
use crate::variable::Variable;

verus! {

/// What the keys of a pattern begin with, for each of its indexes.
pub open spec fn pattern_starts(indexes: Seq<IndexType>, constant: Seq<u8>) -> Seq<Seq<u8>> {
    Seq::new(indexes.len(), |i: int| seq![codec::index_prefix(indexes[i])] + constant)
}

/// What the keys that an extender can reach begin with.
pub open spec fn starts(plan: PlanView) -> Seq<Seq<u8>>
    decreases plan, 1int,
{
    match plan {
        PlanView::Pattern(indexes, constant, _) => pattern_starts(indexes, constant),
        PlanView::And(children) => all_starts(children),
        PlanView::Or(children) => all_starts(children),
        PlanView::Not(children, _) => all_starts(children),
        _ => Seq::empty(),
    }
}

/// What the keys that extenders can reach begin with.
pub open spec fn all_starts(plans: Seq<PlanView>) -> Seq<Seq<u8>>
    decreases plans, 0int,
{
    if plans.len() == 0 {
        Seq::empty()
    } else {
        all_starts(plans.drop_last()) + starts(plans.last())
    }
}

/// Adds what the keys of a pattern begin with.
fn add_pattern_starts(pattern: &GenericPrefixExtender, out: &mut Vec<Vec<u8>>)
    ensures
        final(out).deep_view() == old(out).deep_view() + pattern_starts(
            pattern.index_types@,
            pattern.constant_prefix@,
        ),
{
    let ghost begun = out.deep_view();
    let ghost wanted = pattern_starts(pattern.index_types@, pattern.constant_prefix@);
    let mut i: usize = 0;
    assert(out.deep_view() =~= begun + wanted.take(0));
    while i < pattern.index_types.len()
        invariant
            i <= pattern.index_types@.len(),
            wanted == pattern_starts(pattern.index_types@, pattern.constant_prefix@),
            out.deep_view() == begun + wanted.take(i as int),
        decreases pattern.index_types@.len() - i,
    {
        let mut start: Vec<u8> = Vec::new();
        start.push(index_type_to_prefix(pattern.index_types[i]));
        append_bytes(&mut start, &pattern.constant_prefix);
        let ghost earlier = *out;
        assert(start@ =~= wanted[i as int]);
        out.push(start);
        proof {
            byte_string::lemma_deep_bytes(&start);
            byte_string::lemma_deep_push(earlier, *out, start);
        }
        i += 1;
        assert(out.deep_view() =~= begun + wanted.take(i as int));
    }
    assert(wanted.take(i as int) =~= wanted);
}

/// Adds what the keys that an extender can reach begin with.
fn add_starts(plan: &ExtenderPlan, out: &mut Vec<Vec<u8>>)
    ensures
        final(out).deep_view() == old(out).deep_view() + starts(plan@),
    decreases *plan, 1int,
{
    match plan {
        ExtenderPlan::Pattern(pattern) => {
            add_pattern_starts(pattern, out);
        },
        ExtenderPlan::And(children) => {
            add_all_starts(children, out);
        },
        ExtenderPlan::Or(children) => {
            add_all_starts(children, out);
        },
        ExtenderPlan::Not { children, .. } => {
            add_all_starts(children, out);
        },
        _ => {
            assert(out.deep_view() =~= out.deep_view() + Seq::<Seq<u8>>::empty());
        },
    }
}

/// Adds what the keys that extenders can reach begin with.
pub(crate) fn add_all_starts(plans: &Vec<ExtenderPlan>, out: &mut Vec<Vec<u8>>)
    ensures
        final(out).deep_view() == old(out).deep_view() + all_starts(compile::plan_views(plans@)),
    decreases plans@, 0int,
{
    let ghost begun = out.deep_view();
    let mut i: usize = 0;
    assert(plans@.take(0) =~= Seq::<ExtenderPlan>::empty());
    assert(out.deep_view() =~= begun + Seq::<Seq<u8>>::empty());
    while i < plans.len()
        invariant
            i <= plans@.len(),
            out.deep_view() == begun + all_starts(compile::plan_views(plans@.take(i as int))),
        decreases plans@.len() - i,
    {
        let ghost front = compile::plan_views(plans@.take(i as int));
        add_starts(&plans[i], out);
        proof {
            assert(plans@.take(i + 1).drop_last() =~= plans@.take(i as int));
            let next = compile::plan_views(plans@.take(i + 1));
            assert(next == front.push(plans@[i as int]@));
            assert(next.drop_last() =~= front);
            assert(begun + (all_starts(front) + starts(plans@[i as int]@)) =~= (begun + all_starts(
                front,
            )) + starts(plans@[i as int]@));
        }
        i += 1;
    }
    assert(plans@.take(i as int) =~= plans@);
}

/// Whether a key begins with one of these.
pub open spec fn reachable(key: Seq<u8>, from: Seq<Seq<u8>>) -> bool {
    exists|i: int| 0 <= i < from.len() && byte_string::begins_with(key, #[trigger] from[i])
}

/// The keys that begin with one of these.
pub open spec fn reached(keys: Seq<Seq<u8>>, from: Seq<Seq<u8>>) -> Seq<Seq<u8>>
    decreases keys.len(),
{
    if keys.len() == 0 {
        Seq::empty()
    } else if reachable(keys.last(), from) {
        reached(keys.drop_last(), from).push(keys.last())
    } else {
        reached(keys.drop_last(), from)
    }
}

/// A scan sees the same among the keys that can be reached.
proof fn lemma_selected_reached(
    keys: Seq<Seq<u8>>,
    from: Seq<Seq<u8>>,
    prefix: Seq<u8>,
    least: int,
)
    requires
        reachable(prefix, from),
    ensures
        stored_pattern::selected(reached(keys, from), prefix, least) == stored_pattern::selected(
            keys,
            prefix,
            least,
        ),
    decreases keys.len(),
{
    if keys.len() > 0 {
        let front = keys.drop_last();
        lemma_selected_reached(front, from, prefix, least);
        let key = keys.last();
        if reachable(key, from) {
            assert(reached(keys, from).drop_last() =~= reached(front, from));
        } else if byte_string::begins_with(key, prefix) {
            let i = choose|i: int|
                0 <= i < from.len() && byte_string::begins_with(prefix, #[trigger] from[i]);
            let n = from[i].len() as int;
            assert(key.take(n) =~= key.take(prefix.len() as int).take(n));
            assert(byte_string::begins_with(key, from[i]));
        }
    }
}

/// The setting with just the keys that can be reached.
pub open spec fn narrowed<H, E>(setting: Setting<H, E>, from: Seq<Seq<u8>>) -> Setting<H, E> {
    Setting { keys: reached(setting.keys, from), ..setting }
}

/// Whether a list holds all that another holds.
pub open spec fn within(some: Seq<Seq<u8>>, all: Seq<Seq<u8>>) -> bool {
    forall|start: Seq<u8>| #[trigger] some.contains(start) ==> all.contains(start)
}

/// A scan of a pattern can be reached.
proof fn lemma_shows<
    H: Fn(&Expr, &Vec<Variable>, &Vec<DataType>) -> bool,
    E: Fn(&Expr, &Vec<Variable>, &Vec<DataType>) -> Option<DataType>,
>(
    setting: Setting<H, E>,
    from: Seq<Seq<u8>>,
    indexes: Seq<IndexType>,
    constant: Seq<u8>,
    at: Seq<usize>,
    prefix: Row,
    n: int,
)
    requires
        n == generic_prefix_extender::levels_before(at, prefix.len() as int),
        n < indexes.len(),
        within(pattern_starts(indexes, constant), from),
    ensures
        narrowed(setting, from).shows(indexes, constant, at, prefix) == setting.shows(
            indexes,
            constant,
            at,
            prefix,
        ),
{
    let scan = meaning::pattern_scan(indexes, constant, at, prefix);
    let start = pattern_starts(indexes, constant)[n];
    assert(pattern_starts(indexes, constant).contains(start));
    assert(from.contains(start));
    let i = from.index_of(start);
    assert(scan.prefix.take(start.len() as int) =~= start);
    assert(byte_string::begins_with(scan.prefix, from[i]));
    lemma_selected_reached(setting.keys, from, scan.prefix, 9);
    lemma_selected_reached(setting.keys, from, scan.prefix, 0);
}

/// What one of the extenders can reach is what all can reach.
proof fn lemma_starts_within(plans: Seq<PlanView>, from: Seq<Seq<u8>>, i: int)
    requires
        0 <= i < plans.len(),
        within(all_starts(plans), from),
    ensures
        within(starts(plans[i]), from),
    decreases plans.len(),
{
    let front = all_starts(plans.drop_last());
    let own = starts(plans.last());
    if i < plans.len() - 1 {
        assert forall|start: Seq<u8>| #[trigger] front.contains(start) implies from.contains(
            start,
        ) by {
            let k = front.index_of(start);
            assert((front + own)[k] == start);
            assert(all_starts(plans).contains(start));
        }
        lemma_starts_within(plans.drop_last(), from, i);
        assert(plans.drop_last()[i] == plans[i]);
    } else {
        assert forall|start: Seq<u8>| #[trigger] own.contains(start) implies from.contains(
            start,
        ) by {
            let k = own.index_of(start);
            assert((front + own)[front.len() + k] == start);
            assert(all_starts(plans).contains(start));
        }
    }
}

/// An extender accepts the same among the keys that can be reached.
proof fn lemma_accepts<
    H: Fn(&Expr, &Vec<Variable>, &Vec<DataType>) -> bool,
    E: Fn(&Expr, &Vec<Variable>, &Vec<DataType>) -> Option<DataType>,
>(
    setting: Setting<H, E>,
    from: Seq<Seq<u8>>,
    plan: PlanView,
    count: int,
    prefix: Row,
    value: Seq<u8>,
)
    requires
        levels::formed(plan, count),
        levels::agreeing(plan, count),
        within(starts(plan), from),
        meaning::joins(plan, prefix.len() as int),
    ensures
        narrowed(setting, from).accepts(plan, prefix, value) == setting.accepts(
            plan,
            prefix,
            value,
        ),
    decreases plan, 1int,
{
    let narrow = narrowed(setting, from);
    match plan {
        PlanView::Pattern(indexes, constant, at) => {
            let n = generic_prefix_extender::levels_before(at, prefix.len() as int);
            assert(meaning::at_level(at, prefix.len() as int));
            generic_prefix_extender::lemma_depth(at, prefix);
            lemma_shows(setting, from, indexes, constant, at, prefix, n as int);
        },
        PlanView::And(children) => {
            lemma_all_accept(setting, from, children, count, prefix, value);
        },
        PlanView::Or(children) => {
            assert forall|i: int| 0 <= i < children.len() implies narrow.accepts(
                #[trigger] children[i],
                prefix,
                value,
            ) == setting.accepts(children[i], prefix, value) by {
                lemma_starts_within(children, from, i);
                levels::lemma_same_levels(children, count, i, prefix.len() as int);
                assert(levels::formed(children[i], count) && levels::agreeing(children[i], count));
                lemma_accepts(setting, from, children[i], count, prefix, value);
            }
            if narrow.some_accept(children, prefix, value) {
                let i = choose|i: int|
                    0 <= i < children.len() && narrow.accepts(#[trigger] children[i], prefix, value);
                assert(setting.accepts(children[i], prefix, value));
            }
            if setting.some_accept(children, prefix, value) {
                let i = choose|i: int|
                    0 <= i < children.len() && setting.accepts(
                        #[trigger] children[i],
                        prefix,
                        value,
                    );
                assert(narrow.accepts(children[i], prefix, value));
            }
        },
        PlanView::Not(children, _) => {
            lemma_all_accept(setting, from, children, count, prefix, value);
            assert forall|l: int| 0 <= l < prefix.len() implies narrow.all_accept(
                children,
                prefix.take(l),
                #[trigger] prefix[l],
            ) == setting.all_accept(children, prefix.take(l), prefix[l]) by {
                lemma_all_accept(setting, from, children, count, prefix.take(l), prefix[l]);
            }
            assert(narrow.bound_accept(children, prefix) == setting.bound_accept(children, prefix));
        },
        PlanView::Function(expr, vars, _) => {
            assert forall|v: Value| #[trigger] narrow.computes(expr, vars, prefix, v)
                == setting.computes(expr, vars, prefix, v) by {}
            if narrow.computed(expr, vars, prefix, value) {
                let v = choose|v: Value| #[trigger]
                    narrow.computes(expr, vars, prefix, v) && value == codec::encoding(v);
                assert(setting.computes(expr, vars, prefix, v));
            }
            if setting.computed(expr, vars, prefix, value) {
                let v = choose|v: Value| #[trigger]
                    setting.computes(expr, vars, prefix, v) && value == codec::encoding(v);
                assert(narrow.computes(expr, vars, prefix, v));
            }
        },
        _ => {},
    }
}

/// Extenders accept the same among the keys that can be reached.
proof fn lemma_all_accept<
    H: Fn(&Expr, &Vec<Variable>, &Vec<DataType>) -> bool,
    E: Fn(&Expr, &Vec<Variable>, &Vec<DataType>) -> Option<DataType>,
>(
    setting: Setting<H, E>,
    from: Seq<Seq<u8>>,
    plans: Seq<PlanView>,
    count: int,
    prefix: Row,
    value: Seq<u8>,
)
    requires
        levels::all_formed(plans, count),
        levels::all_agreeing(plans, count),
        within(all_starts(plans), from),
    ensures
        narrowed(setting, from).all_accept(plans, prefix, value) == setting.all_accept(
            plans,
            prefix,
            value,
        ),
    decreases plans, 0int,
{
    let narrow = narrowed(setting, from);
    assert forall|i: int| 0 <= i < plans.len() && meaning::joins(
        #[trigger] plans[i],
        prefix.len() as int,
    ) implies narrow.accepts(plans[i], prefix, value) == setting.accepts(
        plans[i],
        prefix,
        value,
    ) by {
        lemma_starts_within(plans, from, i);
        assert(levels::formed(plans[i], count) && levels::agreeing(plans[i], count));
        lemma_accepts(setting, from, plans[i], count, prefix, value);
    }
}

/// The tuples of a join depend only on the keys that its extenders can reach.
pub proof fn law_reachable_keys_suffice<
    H: Fn(&Expr, &Vec<Variable>, &Vec<DataType>) -> bool,
    E: Fn(&Expr, &Vec<Variable>, &Vec<DataType>) -> Option<DataType>,
>(
    setting: Setting<H, E>,
    plans: Seq<PlanView>,
    from: Seq<Seq<u8>>,
    count: int,
    tuple: Row,
)
    requires
        levels::all_formed(plans, count),
        levels::all_agreeing(plans, count),
        within(all_starts(plans), from),
    ensures
        narrowed(setting, from).satisfies(plans, tuple) == setting.satisfies(plans, tuple),
{
    let narrow = narrowed(setting, from);
    assert forall|l: int| 0 <= l < tuple.len() implies narrow.may_follow(
        plans,
        tuple.take(l),
        #[trigger] tuple[l],
    ) == setting.may_follow(plans, tuple.take(l), tuple[l]) by {
        lemma_all_accept(setting, from, plans, count, tuple.take(l), tuple[l]);
    }
}

} // verus!
