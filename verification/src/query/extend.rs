//! From the descriptions of extenders to the extenders.

use vstd::prelude::*;

use crate::algo::generic_join::{self, PrefixExtender, SingleLevelExtender};
use crate::byte_string::{self, copy_row, Row};
use crate::iterator::generic_prefix_extender::GenericPrefixExtender;
use crate::codec;
use crate::error::ErrorView;
use crate::expr::Expr;
use crate::iterator::generic_and_prefix_extender::{self, GenericAndPrefixExtender};
use crate::iterator::generic_fn_prefix_extender::{self, GenericFnPrefixExtender};
use crate::iterator::generic_not_prefix_extender::{self, GenericNotPrefixExtender};
use crate::iterator::generic_or_prefix_extender::{self, GenericOrPrefixExtender};
use crate::iterator::generic_predicate_prefix_extender::{self, GenericPredicatePrefixExtender};
use crate::iterator::prefix_values;
use crate::iterator::stored_pattern::{self, StoredPattern};
use crate::query::compile::{self, ExtenderPlan, PlanView};
use crate::query::levels;
use crate::query::meaning::{self, Setting};
use crate::value::{DataType, Value};
use crate::variable::Variable;

verus! {

/// Whether an extender does what its description says.
pub open spec fn agrees<
    H: Fn(&Expr, &Vec<Variable>, &Vec<DataType>) -> bool,
    E: Fn(&Expr, &Vec<Variable>, &Vec<DataType>) -> Option<DataType>,
>(setting: Setting<H, E>, plan: PlanView, extender: &Box<dyn PrefixExtender>) -> bool {
    &&& extender.inv()
    &&& forall|level: int| #[trigger] extender.joins(level) == meaning::joins(plan, level)
    &&& forall|prefix: Row, value: Seq<u8>| #[trigger]
        extender.accepts(prefix, value) == setting.accepts(plan, prefix, value)
    &&& forall|prefix: Row, value: Seq<u8>| #[trigger]
        extender.judges(prefix, value) == setting.judges(plan, prefix, value)
    &&& forall|prefix: Row| #[trigger] extender.offers(prefix) == setting.offers(plan, prefix)
    &&& forall|prefix: Row| #[trigger] extender.counted(prefix) == setting.counted(plan, prefix)
    &&& forall|prefix: Row| #[trigger] extender.counts(prefix)
    &&& forall|prefix: Row, e: ErrorView| #[trigger]
        extender.refuses(prefix, e) ==> meaning::search_error(e)
    &&& forall|prefix: Row, values: Seq<Seq<u8>>, e: ErrorView| #[trigger]
        extender.objects(prefix, values, e) ==> meaning::search_error(e)
}

/// Whether extenders do what their descriptions say.
pub open spec fn all_agree<
    H: Fn(&Expr, &Vec<Variable>, &Vec<DataType>) -> bool,
    E: Fn(&Expr, &Vec<Variable>, &Vec<DataType>) -> Option<DataType>,
>(
    setting: Setting<H, E>,
    plans: Seq<PlanView>,
    extenders: Seq<Box<dyn PrefixExtender>>,
) -> bool {
    &&& extenders.len() == plans.len()
    &&& forall|i: int|
        #![trigger extenders[i]]
        #![trigger plans[i]]
        0 <= i < plans.len() ==> agrees(setting, plans[i], &extenders[i])
}

/// What extenders pass on are errors of a search.
pub proof fn lemma_passed_on<
    H: Fn(&Expr, &Vec<Variable>, &Vec<DataType>) -> bool,
    E: Fn(&Expr, &Vec<Variable>, &Vec<DataType>) -> Option<DataType>,
>(
    setting: Setting<H, E>,
    plans: Seq<PlanView>,
    extenders: Seq<Box<dyn PrefixExtender>>,
    prefix: Row,
    e: ErrorView,
)
    requires
        all_agree(setting, plans, extenders),
        generic_join::passes_on(extenders, prefix, e),
    ensures
        meaning::search_error(e),
{
    let i = choose|i: int|
        0 <= i < extenders.len() && (#[trigger] extenders[i]).joins(prefix.len() as int) && (
        extenders[i].refuses(prefix, e) || generic_join::objects_to_some(
            &*extenders[i],
            prefix,
            e,
        ));
    assert(agrees(setting, plans[i], &extenders[i]));
    if !extenders[i].refuses(prefix, e) {
        let values = choose|values: Seq<Seq<u8>>| #[trigger]
            extenders[i].objects(prefix, values, e);
        assert(extenders[i].objects(prefix, values, e));
    }
}

/// Adds an element.
fn put<T>(list: &mut Vec<T>, last: T)
    ensures
        final(list)@.len() == old(list)@.len() + 1,
        final(list)@[old(list)@.len() as int] == last,
        forall|i: int| 0 <= i < old(list)@.len() ==> #[trigger] final(list)@[i] == old(list)@[i],
{
    list.push(last);
}

/// Adds the extender of an input.
fn build_values<
    H: Fn(&Expr, &Vec<Variable>, &Vec<DataType>) -> bool,
    E: Fn(&Expr, &Vec<Variable>, &Vec<DataType>) -> Option<DataType>,
>(
    values: Vec<Vec<u8>>,
    level: usize,
    setting: Ghost<Setting<H, E>>,
    plans: Ghost<Seq<PlanView>>,
    out: &mut Vec<Box<dyn PrefixExtender>>,
)
    requires
        all_agree(setting@, plans@, old(out)@),
    ensures
        all_agree(
            setting@,
            plans@.push(PlanView::Values(values.deep_view(), level)),
            final(out)@,
        ),
{
    let ghost plan = PlanView::Values(values.deep_view(), level);
    let ghost given = values.deep_view();
    let single = SingleLevelExtender::new(values, level);
    proof {
        let list = single.values.deep_view();
        assert(list.len() == single.values@.len());
        assert(list.no_duplicates()) by {
            assert forall|i: int, j: int| 0 <= i < j < list.len() implies list[i] != list[j] by {
                assert(byte_string::before(list[i], list[j]));
                byte_string::lemma_before_asymmetric(list[i], list[j]);
            }
        }
        list.unique_seq_to_set();
        assert(list.to_set() =~= given.to_set()) by {
            assert forall|e: Seq<u8>| list.to_set().contains(e) == given.to_set().contains(e) by {
                assert(list.contains(e) == given.contains(e));
            }
        }
    }
    let ghost before = out@;
    let ghost made = single;
    put(out, Box::new(single));
    proof {
        assert(out@.len() == before.len() + 1);
        assert(forall|i: int| 0 <= i < before.len() ==> #[trigger] out@[i] == before[i]);
        assert forall|e: Seq<u8>| #[trigger] made.values.deep_view().contains(e) == given.contains(e) by {}
        assert(agrees(setting@, plan, &out@[before.len() as int]));
    }
}

/// Adds the extender of a condition.
fn build_predicate<
    H: Fn(&Expr, &Vec<Variable>, &Vec<DataType>) -> bool + 'static,
    E: Fn(&Expr, &Vec<Variable>, &Vec<DataType>) -> Option<DataType>,
>(
    expr: Expr,
    prefix_vars: Vec<(Variable, usize)>,
    extension_var: Variable,
    level: usize,
    holds: H,
    setting: Ghost<Setting<H, E>>,
    plans: Ghost<Seq<PlanView>>,
    out: &mut Vec<Box<dyn PrefixExtender>>,
)
    requires
        generic_predicate_prefix_extender::decides(holds),
        setting@.holds == holds,
        all_agree(setting@, plans@, old(out)@),
    ensures
        all_agree(
            setting@,
            plans@.push(
                PlanView::Predicate(
                    expr@,
                    compile::leveled(prefix_vars@),
                    extension_var@,
                    level,
                ),
            ),
            final(out)@,
        ),
{
    let ghost vars = compile::leveled(prefix_vars@);
    let ghost plan = PlanView::Predicate(expr@, vars, extension_var@, level);
    proof {
        lemma_vars(prefix_vars@);
    }
    let made = GenericPredicatePrefixExtender::new(expr, prefix_vars, extension_var, level, holds);
    let ghost before = out@;
    let ghost it = made;
    put(out, Box::new(made));
    proof {
        assert forall|prefix: Row, value: Seq<u8>| #[trigger]
            it.judges(prefix, value) == setting@.judges(plan, prefix, value) by {
            lemma_usable(it.prefix_vars@, prefix);
        }
        assert(agrees(setting@, plan, &out@[before.len() as int]));
    }
}

/// The names and levels of variables are those of their list.
proof fn lemma_vars(vars: Seq<(Variable, usize)>)
    ensures
        prefix_values::names_of(vars) == meaning::names(compile::leveled(vars)),
        prefix_values::levels_of(vars) == meaning::levels(compile::leveled(vars)),
{
    assert(prefix_values::names_of(vars) =~= meaning::names(compile::leveled(vars)));
    assert(prefix_values::levels_of(vars) =~= meaning::levels(compile::leveled(vars)));
}

/// Variables can be read where those of their list can.
proof fn lemma_usable(vars: Seq<(Variable, usize)>, prefix: Row)
    ensures
        prefix_values::usable(vars, prefix) == meaning::usable(compile::leveled(vars), prefix),
{
    lemma_vars(vars);
    let listed = compile::leveled(vars);
    if prefix_values::usable(vars, prefix) {
        assert forall|i: int| 0 <= i < listed.len() implies (#[trigger] listed[i]).1
            < prefix.len() by {
            assert(vars[i].1 < prefix.len());
        }
    }
    if meaning::usable(listed, prefix) {
        assert forall|i: int| 0 <= i < vars.len() implies (#[trigger] vars[i]).1
            < prefix.len() by {
            assert(listed[i].1 < prefix.len());
        }
    }
}

/// Adds the extender of a function.
fn build_function<
    H: Fn(&Expr, &Vec<Variable>, &Vec<DataType>) -> bool,
    E: Fn(&Expr, &Vec<Variable>, &Vec<DataType>) -> Option<DataType> + 'static,
>(
    expr: Expr,
    prefix_vars: Vec<(Variable, usize)>,
    output_level: usize,
    compute: E,
    setting: Ghost<Setting<H, E>>,
    plans: Ghost<Seq<PlanView>>,
    out: &mut Vec<Box<dyn PrefixExtender>>,
)
    requires
        generic_fn_prefix_extender::determines(compute),
        setting@.compute == compute,
        all_agree(setting@, plans@, old(out)@),
    ensures
        all_agree(
            setting@,
            plans@.push(
                PlanView::Function(expr@, compile::leveled(prefix_vars@), output_level),
            ),
            final(out)@,
        ),
{
    let ghost vars = compile::leveled(prefix_vars@);
    let ghost plan = PlanView::Function(expr@, vars, output_level);
    proof {
        lemma_vars(prefix_vars@);
    }
    let made = GenericFnPrefixExtender::new(expr, prefix_vars, output_level, compute);
    let ghost before = out@;
    let ghost it = made;
    put(out, Box::new(made));
    proof {
        assert forall|prefix: Row| #[trigger] it.offers(prefix) == setting@.offers(plan, prefix) by {
            lemma_usable(it.prefix_vars@, prefix);
        }
        assert forall|prefix: Row, value: Seq<u8>| #[trigger]
            it.judges(prefix, value) == setting@.judges(plan, prefix, value) by {
            lemma_usable(it.prefix_vars@, prefix);
        }
        assert forall|prefix: Row, value: Seq<u8>| #[trigger]
            it.accepts(prefix, value) == setting@.accepts(plan, prefix, value) by {
            assert forall|v: Value| #[trigger] it.gives(prefix, Some(v)) == setting@.computes(
                expr@,
                vars,
                prefix,
                v,
            ) by {}
            if it.accepts(prefix, value) {
                let v = choose|v: Value| #[trigger]
                    it.gives(prefix, Some(v)) && value == codec::encoding(v);
                assert(setting@.computes(expr@, vars, prefix, v));
            }
            if setting@.accepts(plan, prefix, value) {
                let v = choose|v: Value| #[trigger]
                    setting@.computes(expr@, vars, prefix, v) && value == codec::encoding(v);
                assert(it.gives(prefix, Some(v)));
            }
        }
        assert(agrees(setting@, plan, &out@[before.len() as int]));
    }
}

/// Adds the extender of a pattern over the stored keys.
fn build_pattern<
    H: Fn(&Expr, &Vec<Variable>, &Vec<DataType>) -> bool,
    E: Fn(&Expr, &Vec<Variable>, &Vec<DataType>) -> Option<DataType>,
>(
    pattern: GenericPrefixExtender,
    keys: &Vec<Vec<u8>>,
    as_of: i64,
    setting: Ghost<Setting<H, E>>,
    plans: Ghost<Seq<PlanView>>,
    out: &mut Vec<Box<dyn PrefixExtender>>,
)
    requires
        pattern.inv(),
        stored_pattern::index_keys(keys.deep_view()),
        setting@.keys == keys.deep_view(),
        setting@.as_of == as_of,
        all_agree(setting@, plans@, old(out)@),
    ensures
        all_agree(
            setting@,
            plans@.push(compile::plan_view(ExtenderPlan::Pattern(pattern))),
            final(out)@,
        ),
{
    let ghost plan = compile::plan_view(ExtenderPlan::Pattern(pattern));
    let made = StoredPattern::new(pattern, copy_row(keys), as_of);
    let ghost before = out@;
    let ghost it = made;
    put(out, Box::new(made));
    proof {
        assert forall|prefix: Row| #[trigger]
            it.pattern.scan_for(prefix) == meaning::pattern_scan(
                pattern.index_types@,
                pattern.constant_prefix@,
                pattern.participating_levels@,
                prefix,
            ) by {}
        assert(plan == PlanView::Pattern(
            pattern.index_types@,
            pattern.constant_prefix@,
            pattern.participating_levels@,
        ));
        assert forall|level: int| #[trigger] it.joins(level) == meaning::joins(plan, level) by {
            let at = pattern.participating_levels@;
            if it.joins(level) {
                let i = choose|i: int| 0 <= i < at.len() && #[trigger] at[i] == level;
                assert(at[i] == level);
            }
            if meaning::joins(plan, level) {
                let i = choose|i: int| 0 <= i < at.len() && #[trigger] at[i] == level;
                assert(at[i] == level);
            }
        }
        assert forall|prefix: Row, value: Seq<u8>| #[trigger]
            it.accepts(prefix, value) == setting@.accepts(plan, prefix, value) by {}
        assert forall|prefix: Row| #[trigger]
            it.counted(prefix) == setting@.counted(plan, prefix) by {
            assert(it.joins(prefix.len() as int) == meaning::joins(plan, prefix.len() as int));
        }
        assert(agrees(setting@, plan, &out@[before.len() as int]));
    }
}

/// What extenders accept and judge is what their descriptions say.
proof fn lemma_accept<
    H: Fn(&Expr, &Vec<Variable>, &Vec<DataType>) -> bool,
    E: Fn(&Expr, &Vec<Variable>, &Vec<DataType>) -> Option<DataType>,
>(
    setting: Setting<H, E>,
    plans: Seq<PlanView>,
    extenders: Seq<Box<dyn PrefixExtender>>,
    prefix: Row,
    value: Seq<u8>,
)
    requires
        all_agree(setting, plans, extenders),
    ensures
        generic_not_prefix_extender::level_holds(extenders, prefix, value) == setting.all_accept(
            plans,
            prefix,
            value,
        ),
        generic_not_prefix_extender::level_judged(extenders, prefix, value) == setting.all_judge(
            plans,
            prefix,
            value,
        ),
        generic_or_prefix_extender::some_accept(extenders, prefix, value) == setting.some_accept(
            plans,
            prefix,
            value,
        ),
{
    let at = prefix.len() as int;
    if generic_not_prefix_extender::level_holds(extenders, prefix, value) {
        assert forall|i: int| 0 <= i < plans.len() && meaning::joins(
            #[trigger] plans[i],
            at,
        ) implies setting.accepts(plans[i], prefix, value) by {
            assert(extenders[i].joins(at));
            assert(extenders[i].accepts(prefix, value));
        }
    }
    if setting.all_accept(plans, prefix, value) {
        assert forall|i: int| 0 <= i < extenders.len() && (#[trigger] extenders[i]).joins(
            at,
        ) implies extenders[i].accepts(prefix, value) by {
            assert(meaning::joins(plans[i], at));
        }
    }
    if generic_not_prefix_extender::level_judged(extenders, prefix, value) {
        assert forall|i: int| 0 <= i < plans.len() && meaning::joins(
            #[trigger] plans[i],
            at,
        ) implies setting.judges(plans[i], prefix, value) by {
            assert(extenders[i].joins(at));
            assert(extenders[i].judges(prefix, value));
        }
    }
    if setting.all_judge(plans, prefix, value) {
        assert forall|i: int| 0 <= i < extenders.len() && (#[trigger] extenders[i]).joins(
            at,
        ) implies extenders[i].judges(prefix, value) by {
            assert(meaning::joins(plans[i], at));
        }
    }
    if generic_or_prefix_extender::some_accept(extenders, prefix, value) {
        let i = choose|i: int|
            0 <= i < extenders.len() && (#[trigger] extenders[i]).accepts(prefix, value);
        assert(setting.accepts(plans[i], prefix, value));
    }
    if setting.some_accept(plans, prefix, value) {
        let i = choose|i: int|
            0 <= i < plans.len() && setting.accepts(#[trigger] plans[i], prefix, value);
        assert(extenders[i].accepts(prefix, value));
    }
}

/// One of the extenders takes part in a level where one of the descriptions says so.
proof fn lemma_some_joins<
    H: Fn(&Expr, &Vec<Variable>, &Vec<DataType>) -> bool,
    E: Fn(&Expr, &Vec<Variable>, &Vec<DataType>) -> Option<DataType>,
>(
    setting: Setting<H, E>,
    plans: Seq<PlanView>,
    extenders: Seq<Box<dyn PrefixExtender>>,
    level: int,
)
    requires
        all_agree(setting, plans, extenders),
    ensures
        generic_join::constrained(extenders, level) == meaning::some_joins(plans, level),
{
    if generic_join::constrained(extenders, level) {
        let i = choose|i: int| 0 <= i < extenders.len() && (#[trigger] extenders[i]).joins(level);
        assert(meaning::joins(plans[i], level));
    }
    if meaning::some_joins(plans, level) {
        let i = choose|i: int| 0 <= i < plans.len() && meaning::joins(#[trigger] plans[i], level);
        assert(extenders[i].joins(level));
    }
}

/// The smallest count and the sum of the counts are those of the descriptions.
proof fn lemma_counts<
    H: Fn(&Expr, &Vec<Variable>, &Vec<DataType>) -> bool,
    E: Fn(&Expr, &Vec<Variable>, &Vec<DataType>) -> Option<DataType>,
>(
    setting: Setting<H, E>,
    plans: Seq<PlanView>,
    extenders: Seq<Box<dyn PrefixExtender>>,
    prefix: Row,
)
    requires
        all_agree(setting, plans, extenders),
    ensures
        generic_and_prefix_extender::least(extenders, prefix) == setting.least(plans, prefix),
        generic_or_prefix_extender::total(extenders, prefix) == setting.total(plans, prefix),
    decreases plans.len(),
{
    if plans.len() > 0 {
        let n = plans.len() - 1;
        assert(extenders.drop_last().len() == n);
        assert forall|i: int| 0 <= i < n implies agrees(
            setting,
            plans.drop_last()[i],
            &extenders.drop_last()[i],
        ) by {
            assert(plans.drop_last()[i] == plans[i]);
            assert(extenders.drop_last()[i] == extenders[i]);
        }
        lemma_counts(setting, plans.drop_last(), extenders.drop_last(), prefix);
        assert(extenders.last() == extenders[n]);
        assert(plans.last() == plans[n]);
        assert(extenders[n].counted(prefix) == setting.counted(plans[n], prefix));
        assert(extenders[n].joins(prefix.len() as int) == meaning::joins(
            plans[n],
            prefix.len() as int,
        ));
    }
}

/// Who proposes is who the descriptions say.
proof fn lemma_cheapest<
    H: Fn(&Expr, &Vec<Variable>, &Vec<DataType>) -> bool,
    E: Fn(&Expr, &Vec<Variable>, &Vec<DataType>) -> Option<DataType>,
>(
    setting: Setting<H, E>,
    plans: Seq<PlanView>,
    extenders: Seq<Box<dyn PrefixExtender>>,
    prefix: Row,
    k: int,
)
    requires
        all_agree(setting, plans, extenders),
    ensures
        generic_join::cheapest(extenders, prefix, k) == setting.cheapest(plans, prefix, k),
{
    let at = prefix.len() as int;
    if 0 <= k < plans.len() {
        assert(extenders[k].joins(at) == meaning::joins(plans[k], at));
        assert(extenders[k].counted(prefix) == setting.counted(plans[k], prefix));
        if generic_join::cheapest(extenders, prefix, k) {
            assert forall|i: int| 0 <= i < plans.len() && meaning::joins(
                #[trigger] plans[i],
                at,
            ) implies setting.counted(plans[k], prefix) <= setting.counted(plans[i], prefix) && (i
                < k ==> setting.counted(plans[k], prefix) < setting.counted(
                plans[i],
                prefix,
            )) by {
                assert(extenders[i].joins(at));
                assert(extenders[i].counted(prefix) == setting.counted(plans[i], prefix));
            }
        }
        if setting.cheapest(plans, prefix, k) {
            assert forall|i: int| 0 <= i < extenders.len() && (#[trigger] extenders[i]).joins(
                at,
            ) implies extenders[k].counted(prefix) <= extenders[i].counted(prefix) && (i < k
                ==> extenders[k].counted(prefix) < extenders[i].counted(prefix)) by {
                assert(meaning::joins(plans[i], at));
                assert(extenders[i].counted(prefix) == setting.counted(plans[i], prefix));
            }
        }
    }
}

/// What can be found is what the descriptions say.
pub proof fn lemma_resolvable<
    H: Fn(&Expr, &Vec<Variable>, &Vec<DataType>) -> bool,
    E: Fn(&Expr, &Vec<Variable>, &Vec<DataType>) -> Option<DataType>,
>(
    setting: Setting<H, E>,
    plans: Seq<PlanView>,
    extenders: Seq<Box<dyn PrefixExtender>>,
    prefix: Row,
)
    requires
        all_agree(setting, plans, extenders),
    ensures
        generic_join::resolvable(extenders, prefix) == setting.resolvable(plans, prefix),
{
    let at = prefix.len() as int;
    if generic_join::resolvable(extenders, prefix) {
        assert forall|k: int| #[trigger] setting.cheapest(plans, prefix, k) implies setting.offers(
            plans[k],
            prefix,
        ) && forall|e: Seq<u8>, i: int|
            0 <= i < plans.len() && meaning::joins(plans[i], at) && setting.accepts(
                plans[k],
                prefix,
                e,
            ) ==> #[trigger] setting.judges(plans[i], prefix, e) by {
            lemma_cheapest(setting, plans, extenders, prefix, k);
            assert(generic_join::cheapest(extenders, prefix, k));
            assert(extenders[k].offers(prefix));
            assert forall|e: Seq<u8>, i: int|
                0 <= i < plans.len() && meaning::joins(plans[i], at) && setting.accepts(
                    plans[k],
                    prefix,
                    e,
                ) implies #[trigger] setting.judges(plans[i], prefix, e) by {
                assert(extenders[i].joins(at));
                assert(extenders[k].accepts(prefix, e));
                assert(extenders[i].judges(prefix, e));
            }
        }
    }
    if setting.resolvable(plans, prefix) {
        assert forall|k: int| #[trigger] generic_join::cheapest(
            extenders,
            prefix,
            k,
        ) implies extenders[k].offers(prefix) && forall|e: Seq<u8>, i: int|
            0 <= i < extenders.len() && extenders[i].joins(at) && extenders[k].accepts(prefix, e)
                ==> #[trigger] extenders[i].judges(prefix, e) by {
            lemma_cheapest(setting, plans, extenders, prefix, k);
            assert(setting.cheapest(plans, prefix, k));
            assert forall|e: Seq<u8>, i: int|
                0 <= i < extenders.len() && extenders[i].joins(at) && extenders[k].accepts(
                    prefix,
                    e,
                ) implies #[trigger] extenders[i].judges(prefix, e) by {
                assert(meaning::joins(plans[i], at));
                assert(setting.accepts(plans[k], prefix, e));
                assert(setting.judges(plans[i], prefix, e));
            }
        }
    }
}

/// Extenders that do what their descriptions say are sound.
pub proof fn lemma_all_inv<
    H: Fn(&Expr, &Vec<Variable>, &Vec<DataType>) -> bool,
    E: Fn(&Expr, &Vec<Variable>, &Vec<DataType>) -> Option<DataType>,
>(
    setting: Setting<H, E>,
    plans: Seq<PlanView>,
    extenders: Seq<Box<dyn PrefixExtender>>,
)
    requires
        all_agree(setting, plans, extenders),
    ensures
        generic_join::all_inv(extenders),
{
    assert forall|i: int| 0 <= i < extenders.len() implies (#[trigger] extenders[i]).inv() by {
        assert(agrees(setting, plans[i], &extenders[i]));
    }
}

/// A tuple satisfies the extenders where the descriptions say so.
pub proof fn lemma_satisfies<
    H: Fn(&Expr, &Vec<Variable>, &Vec<DataType>) -> bool,
    E: Fn(&Expr, &Vec<Variable>, &Vec<DataType>) -> Option<DataType>,
>(
    setting: Setting<H, E>,
    plans: Seq<PlanView>,
    extenders: Seq<Box<dyn PrefixExtender>>,
    tuple: Row,
)
    requires
        all_agree(setting, plans, extenders),
    ensures
        generic_join::satisfies(extenders, tuple) == setting.satisfies(plans, tuple),
{
    assert forall|l: int| 0 <= l < tuple.len() implies generic_join::may_follow(
        extenders,
        tuple.take(l),
        #[trigger] tuple[l],
    ) == setting.may_follow(plans, tuple.take(l), tuple[l]) by {
        lemma_some_joins(setting, plans, extenders, l);
        lemma_accept(setting, plans, extenders, tuple.take(l), tuple[l]);
        assert(generic_join::may_follow(extenders, tuple.take(l), tuple[l]) == (
        generic_join::constrained(extenders, l) && generic_not_prefix_extender::level_holds(
            extenders,
            tuple.take(l),
            tuple[l],
        )));
    }
}

/// Adds the extender of a conjunction.
fn build_and<
    H: Fn(&Expr, &Vec<Variable>, &Vec<DataType>) -> bool,
    E: Fn(&Expr, &Vec<Variable>, &Vec<DataType>) -> Option<DataType>,
>(
    children: Vec<Box<dyn PrefixExtender>>,
    views: Ghost<Seq<PlanView>>,
    setting: Ghost<Setting<H, E>>,
    plans: Ghost<Seq<PlanView>>,
    out: &mut Vec<Box<dyn PrefixExtender>>,
)
    requires
        views@.len() > 0,
        all_agree(setting@, views@, children@),
        all_agree(setting@, plans@, old(out)@),
    ensures
        all_agree(setting@, plans@.push(PlanView::And(views@)), final(out)@),
{
    let ghost plan = PlanView::And(views@);
    proof {
        lemma_all_inv(setting@, views@, children@);
    }
    let made = GenericAndPrefixExtender::new(children);
    let ghost before = out@;
    let ghost it = made;
    put(out, Box::new(made));
    proof {
        assert forall|level: int| #[trigger] it.joins(level) == meaning::joins(plan, level) by {
            lemma_some_joins(setting@, views@, children@, level);
            assert(it.joins(level) == generic_join::constrained(children@, level));
        }
        assert forall|prefix: Row, value: Seq<u8>| #[trigger]
            it.accepts(prefix, value) == setting@.accepts(plan, prefix, value) by {
            lemma_accept(setting@, views@, children@, prefix, value);
            assert(it.accepts(prefix, value) == generic_not_prefix_extender::level_holds(
                children@,
                prefix,
                value,
            ));
        }
        assert forall|prefix: Row, value: Seq<u8>| #[trigger]
            it.judges(prefix, value) == setting@.judges(plan, prefix, value) by {
            lemma_accept(setting@, views@, children@, prefix, value);
            assert(it.judges(prefix, value) == generic_not_prefix_extender::level_judged(
                children@,
                prefix,
                value,
            ));
        }
        assert forall|prefix: Row| #[trigger] it.offers(prefix) == setting@.offers(plan, prefix) by {
            lemma_resolvable(setting@, views@, children@, prefix);
        }
        assert forall|prefix: Row| #[trigger]
            it.counted(prefix) == setting@.counted(plan, prefix) by {
            lemma_counts(setting@, views@, children@, prefix);
        }
        assert forall|prefix: Row, e: ErrorView| #[trigger]
            it.refuses(prefix, e) implies meaning::search_error(e) by {
            lemma_passed_on(setting@, views@, children@, prefix, e);
        }
        assert forall|prefix: Row, values: Seq<Seq<u8>>, e: ErrorView| #[trigger]
            it.objects(prefix, values, e) implies meaning::search_error(e) by {
            lemma_passed_on(setting@, views@, children@, prefix, e);
        }
        assert(agrees(setting@, plan, &out@[before.len() as int]));
    }
}

/// Adds the extender of a disjunction.
fn build_or<
    H: Fn(&Expr, &Vec<Variable>, &Vec<DataType>) -> bool,
    E: Fn(&Expr, &Vec<Variable>, &Vec<DataType>) -> Option<DataType>,
>(
    children: Vec<Box<dyn PrefixExtender>>,
    count: Ghost<int>,
    views: Ghost<Seq<PlanView>>,
    setting: Ghost<Setting<H, E>>,
    plans: Ghost<Seq<PlanView>>,
    out: &mut Vec<Box<dyn PrefixExtender>>,
)
    requires
        views@.len() > 0,
        levels::all_formed(views@, count@),
        levels::as_the_first(views@, count@),
        all_agree(setting@, views@, children@),
        all_agree(setting@, plans@, old(out)@),
    ensures
        all_agree(setting@, plans@.push(PlanView::Or(views@)), final(out)@),
{
    let ghost plan = PlanView::Or(views@);
    proof {
        lemma_all_inv(setting@, views@, children@);
        assert forall|i: int, level: int| 0 <= i < children@.len() implies (
        #[trigger] children@[i].joins(level)) == children@[0].joins(level) by {
            levels::lemma_same_levels(views@, count@, i, level);
            assert(children@[i].joins(level) == meaning::joins(views@[i], level));
            assert(children@[0].joins(level) == meaning::joins(views@[0], level));
        }
    }
    let made = GenericOrPrefixExtender::new(children);
    let ghost before = out@;
    let ghost it = made;
    put(out, Box::new(made));
    proof {
        assert forall|level: int| #[trigger] it.joins(level) == meaning::joins(plan, level) by {
            assert(children@[0].joins(level) == meaning::joins(views@[0], level));
        }
        assert forall|prefix: Row, value: Seq<u8>| #[trigger]
            it.accepts(prefix, value) == setting@.accepts(plan, prefix, value) by {
            lemma_accept(setting@, views@, children@, prefix, value);
        }
        assert forall|prefix: Row, value: Seq<u8>| #[trigger]
            it.judges(prefix, value) == setting@.judges(plan, prefix, value) by {
            lemma_every(setting@, views@, children@, prefix, value);
        }
        assert forall|prefix: Row| #[trigger] it.offers(prefix) == setting@.offers(plan, prefix) by {
            lemma_every(setting@, views@, children@, prefix, Seq::empty());
        }
        assert forall|prefix: Row| #[trigger]
            it.counted(prefix) == setting@.counted(plan, prefix) by {
            lemma_counts(setting@, views@, children@, prefix);
        }
        assert forall|prefix: Row, e: ErrorView| #[trigger]
            it.refuses(prefix, e) implies meaning::search_error(e) by {
            let i = choose|i: int|
                0 <= i < children@.len() && (#[trigger] children@[i]).refuses(prefix, e);
            assert(agrees(setting@, views@[i], &children@[i]));
        }
        assert forall|prefix: Row, values: Seq<Seq<u8>>, e: ErrorView| #[trigger]
            it.objects(prefix, values, e) implies meaning::search_error(e) by {
            let i = choose|i: int|
                0 <= i < children@.len() && (#[trigger] children@[i]).objects(prefix, values, e);
            assert(agrees(setting@, views@[i], &children@[i]));
        }
        assert(agrees(setting@, plan, &out@[before.len() as int]));
    }
}

/// What every extender can judge and list is what the descriptions say.
proof fn lemma_every<
    H: Fn(&Expr, &Vec<Variable>, &Vec<DataType>) -> bool,
    E: Fn(&Expr, &Vec<Variable>, &Vec<DataType>) -> Option<DataType>,
>(
    setting: Setting<H, E>,
    plans: Seq<PlanView>,
    extenders: Seq<Box<dyn PrefixExtender>>,
    prefix: Row,
    value: Seq<u8>,
)
    requires
        all_agree(setting, plans, extenders),
    ensures
        (forall|i: int|
            0 <= i < extenders.len() ==> (#[trigger] extenders[i]).judges(prefix, value))
            == setting.every_judge(plans, prefix, value),
        (forall|i: int| 0 <= i < extenders.len() ==> (#[trigger] extenders[i]).offers(prefix))
            == setting.every_offer(plans, prefix),
{
    assert forall|i: int| 0 <= i < extenders.len() implies #[trigger] extenders[i].judges(
        prefix,
        value,
    ) == setting.judges(plans[i], prefix, value) && extenders[i].offers(prefix) == setting.offers(
        plans[i],
        prefix,
    ) by {}
    if setting.every_judge(plans, prefix, value) {
        assert forall|i: int| 0 <= i < extenders.len() implies (#[trigger] extenders[i]).judges(
            prefix,
            value,
        ) by {
            assert(setting.judges(plans[i], prefix, value));
        }
    }
    if forall|i: int| 0 <= i < extenders.len() ==> (#[trigger] extenders[i]).judges(prefix, value) {
        assert forall|i: int| 0 <= i < plans.len() implies setting.judges(
            #[trigger] plans[i],
            prefix,
            value,
        ) by {
            assert(extenders[i].judges(prefix, value));
        }
    }
    if setting.every_offer(plans, prefix) {
        assert forall|i: int| 0 <= i < extenders.len() implies (#[trigger] extenders[i]).offers(
            prefix,
        ) by {
            assert(setting.offers(plans[i], prefix));
        }
    }
    if forall|i: int| 0 <= i < extenders.len() ==> (#[trigger] extenders[i]).offers(prefix) {
        assert forall|i: int| 0 <= i < plans.len() implies setting.offers(
            #[trigger] plans[i],
            prefix,
        ) by {
            assert(extenders[i].offers(prefix));
        }
    }
}

/// What is bound satisfies the extenders where the descriptions say so.
proof fn lemma_bound<
    H: Fn(&Expr, &Vec<Variable>, &Vec<DataType>) -> bool,
    E: Fn(&Expr, &Vec<Variable>, &Vec<DataType>) -> Option<DataType>,
>(
    setting: Setting<H, E>,
    plans: Seq<PlanView>,
    extenders: Seq<Box<dyn PrefixExtender>>,
    prefix: Row,
)
    requires
        all_agree(setting, plans, extenders),
    ensures
        generic_not_prefix_extender::bound_holds(extenders, prefix) == setting.bound_accept(
            plans,
            prefix,
        ),
        (forall|l: int|
            0 <= l < prefix.len() ==> generic_not_prefix_extender::level_judged(
                extenders,
                prefix.take(l),
                #[trigger] prefix[l],
            )) == setting.bound_judge(plans, prefix),
{
    assert forall|l: int| 0 <= l < prefix.len() implies generic_not_prefix_extender::level_holds(
        extenders,
        prefix.take(l),
        #[trigger] prefix[l],
    ) == setting.all_accept(plans, prefix.take(l), prefix[l])
        && generic_not_prefix_extender::level_judged(extenders, prefix.take(l), prefix[l])
        == setting.all_judge(plans, prefix.take(l), prefix[l]) by {
        lemma_accept(setting, plans, extenders, prefix.take(l), prefix[l]);
    }
}

/// Adds the extender of a negation.
fn build_not<
    H: Fn(&Expr, &Vec<Variable>, &Vec<DataType>) -> bool,
    E: Fn(&Expr, &Vec<Variable>, &Vec<DataType>) -> Option<DataType>,
>(
    children: Vec<Box<dyn PrefixExtender>>,
    level: usize,
    views: Ghost<Seq<PlanView>>,
    setting: Ghost<Setting<H, E>>,
    plans: Ghost<Seq<PlanView>>,
    out: &mut Vec<Box<dyn PrefixExtender>>,
)
    requires
        all_agree(setting@, views@, children@),
        all_agree(setting@, plans@, old(out)@),
    ensures
        all_agree(setting@, plans@.push(PlanView::Not(views@, level)), final(out)@),
{
    let ghost plan = PlanView::Not(views@, level);
    proof {
        lemma_all_inv(setting@, views@, children@);
    }
    let made = GenericNotPrefixExtender::new(children, level);
    let ghost before = out@;
    let ghost it = made;
    put(out, Box::new(made));
    proof {
        assert forall|prefix: Row, value: Seq<u8>| #[trigger]
            it.accepts(prefix, value) == setting@.accepts(plan, prefix, value) by {
            lemma_accept(setting@, views@, children@, prefix, value);
            lemma_bound(setting@, views@, children@, prefix);
        }
        assert forall|prefix: Row, value: Seq<u8>| #[trigger]
            it.judges(prefix, value) == setting@.judges(plan, prefix, value) by {
            lemma_accept(setting@, views@, children@, prefix, value);
            lemma_bound(setting@, views@, children@, prefix);
        }
        assert forall|prefix: Row, values: Seq<Seq<u8>>, e: ErrorView| #[trigger]
            it.objects(prefix, values, e) implies meaning::search_error(e) by {
            let l = choose|l: int|
                0 <= l <= prefix.len() && #[trigger] generic_join::passes_on(
                    children@,
                    prefix.take(l),
                    e,
                );
            lemma_passed_on(setting@, views@, children@, prefix.take(l), e);
        }
        assert(agrees(setting@, plan, &out@[before.len() as int]));
    }
}

/// Adds the extender that a plan describes.
fn build<
    H: Fn(&Expr, &Vec<Variable>, &Vec<DataType>) -> bool + Copy + 'static,
    E: Fn(&Expr, &Vec<Variable>, &Vec<DataType>) -> Option<DataType> + Copy + 'static,
>(
    plan: ExtenderPlan,
    keys: &Vec<Vec<u8>>,
    as_of: i64,
    holds: H,
    compute: E,
    count: Ghost<int>,
    plans: Ghost<Seq<PlanView>>,
    out: &mut Vec<Box<dyn PrefixExtender>>,
)
    requires
        stored_pattern::index_keys(keys.deep_view()),
        generic_predicate_prefix_extender::decides(holds),
        generic_fn_prefix_extender::determines(compute),
        levels::formed(plan@, count@),
        levels::agreeing(plan@, count@),
        all_agree(
            (Setting { keys: keys.deep_view(), as_of, holds, compute }),
            plans@,
            old(out)@,
        ),
    ensures
        all_agree(
            (Setting { keys: keys.deep_view(), as_of, holds, compute }),
            plans@.push(plan@),
            final(out)@,
        ),
    decreases plan, 1int,
{
    let ghost setting = Setting { keys: keys.deep_view(), as_of, holds, compute };
    match plan {
        ExtenderPlan::Values { values, level } => {
            build_values::<H, E>(values, level, Ghost(setting), plans, out);
        },
        ExtenderPlan::Pattern(pattern) => {
            build_pattern::<H, E>(pattern, keys, as_of, Ghost(setting), plans, out);
        },
        ExtenderPlan::And(children) => {
            let ghost views = compile::plan_views(children@);
            let built = build_all(children, keys, as_of, holds, compute, count);
            build_and::<H, E>(built, Ghost(views), Ghost(setting), plans, out);
        },
        ExtenderPlan::Or(children) => {
            let ghost views = compile::plan_views(children@);
            let built = build_all(children, keys, as_of, holds, compute, count);
            build_or::<H, E>(built, count, Ghost(views), Ghost(setting), plans, out);
        },
        ExtenderPlan::Not { children, level } => {
            let ghost views = compile::plan_views(children@);
            let built = build_all(children, keys, as_of, holds, compute, count);
            build_not::<H, E>(built, level, Ghost(views), Ghost(setting), plans, out);
        },
        ExtenderPlan::Predicate { expr, prefix_vars, extension_var, level } => {
            build_predicate::<H, E>(
                expr,
                prefix_vars,
                extension_var,
                level,
                holds,
                Ghost(setting),
                plans,
                out,
            );
        },
        ExtenderPlan::Function { expr, prefix_vars, output_level } => {
            build_function::<H, E>(
                expr,
                prefix_vars,
                output_level,
                compute,
                Ghost(setting),
                plans,
                out,
            );
        },
    }
}

/// The extenders that plans describe.
pub(crate) fn build_all<
    H: Fn(&Expr, &Vec<Variable>, &Vec<DataType>) -> bool + Copy + 'static,
    E: Fn(&Expr, &Vec<Variable>, &Vec<DataType>) -> Option<DataType> + Copy + 'static,
>(
    plans: Vec<ExtenderPlan>,
    keys: &Vec<Vec<u8>>,
    as_of: i64,
    holds: H,
    compute: E,
    count: Ghost<int>,
) -> (r: Vec<Box<dyn PrefixExtender>>)
    requires
        stored_pattern::index_keys(keys.deep_view()),
        generic_predicate_prefix_extender::decides(holds),
        generic_fn_prefix_extender::determines(compute),
        levels::all_formed(compile::plan_views(plans@), count@),
        levels::all_agreeing(compile::plan_views(plans@), count@),
    ensures
        all_agree(
            (Setting { keys: keys.deep_view(), as_of, holds, compute }),
            compile::plan_views(plans@),
            r@,
        ),
    decreases plans@, 0int,
{
    let ghost views = compile::plan_views(plans@);
    let ghost given = plans@;
    proof {
        compile::lemma_plan_views(plans@);
    }
    let mut rest = plans;
    match rest.pop() {
        None => Vec::new(),
        Some(last) => {
            proof {
                assert(rest@ =~= given.drop_last());
                compile::lemma_plan_views(rest@);
                let front = compile::plan_views(rest@);
                assert forall|i: int| 0 <= i < front.len() implies levels::formed(
                    #[trigger] front[i],
                    count@,
                ) && levels::agreeing(front[i], count@) by {
                    assert(front[i] == views[i]);
                }
                assert(views[views.len() - 1] == last@);
            }
            let ghost front = compile::plan_views(rest@);
            let mut out = build_all(rest, keys, as_of, holds, compute, count);
            build(last, keys, as_of, holds, compute, count, Ghost(front), &mut out);
            out
        },
    }
}

} // verus!
