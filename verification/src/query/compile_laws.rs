//! How patterns, conditions, functions and inputs are compiled.

use vstd::prelude::*;

use crate::codec;
use crate::error::Error;
use crate::expr::{self, Expr};
use crate::query::ast::{Binding, Pattern, PatternNonValuePlace, PatternValuePlace, QueryArg};
use crate::query::compile::{
    self, compile_fn_expr, compile_in_bindings, compile_predicate, compute_constant_prefix,
    determine_index_types, pattern_index_type, ExtenderPlan, PlanView,
};
use crate::query::convert::{self, FnExpr};
use crate::value::{IndexType, Value};
use crate::variable::{self, Name, Variable};

verus! {

/// Whether one name stands in front of another.
pub open spec fn in_front(order: Seq<Name>, a: Name, b: Name) -> bool {
    exists|i: int, j: int|
        0 <= i < j < order.len() && #[trigger] order[i] == a && #[trigger] order[j] == b
}

/// Which of two places is in front.
proof fn lemma_in_front(order: Seq<Name>, a: Name, b: Name)
    requires
        variable::unique(order),
        order.contains(a),
        order.contains(b),
    ensures
        in_front(order, a, b) == (order.index_of(a) < order.index_of(b)),
{
    let i = order.index_of(a);
    let j = order.index_of(b);
    assert(order[i] == a && order[j] == b);
    if in_front(order, a, b) {
        let (k, l) = choose|k: int, l: int|
            0 <= k < l < order.len() && #[trigger] order[k] == a && #[trigger] order[l] == b;
        assert(k == i && l == j);
    }
}

/// The index of a pattern starts with the attribute, and goes on with what is known: with the entity
/// where that is a constant; with the value where that is one and the entity is a variable; and of two
/// variables with the one in front. A position that is left open is not in the index. The attribute has
/// to be known.
pub proof fn law_index_of_a_pattern(p: Pattern, order: &[Variable], r: Result<IndexType, Error>)
    requires
        variable::unique(order.deep_view()),
        order@.len() <= usize::MAX,
        call_ensures(pattern_index_type, (&p, order), r),
    ensures
        p.attribute is Placeholder || p.attribute is Variable ==> r == Err::<IndexType, Error>(
            Error::AttributePosition,
        ),
        p.attribute is Entid || p.attribute is Ident ==> match p.entity {
            PatternNonValuePlace::Entid(_) => r == Ok::<IndexType, Error>(IndexType::AEV),
            PatternNonValuePlace::Ident(_) => r == Ok::<IndexType, Error>(IndexType::AEV),
            PatternNonValuePlace::Placeholder => r == Ok::<IndexType, Error>(IndexType::AV),
            PatternNonValuePlace::Variable(a) => match p.value {
                PatternValuePlace::Placeholder => r == Ok::<IndexType, Error>(IndexType::AE),
                PatternValuePlace::Variable(b) => if order.deep_view().contains(a.name@)
                    && order.deep_view().contains(b.name@) {
                    r == Ok::<IndexType, Error>(
                        if in_front(order.deep_view(), a.name@, b.name@) {
                            IndexType::AEV
                        } else {
                            IndexType::AVE
                        },
                    )
                } else {
                    r == Err::<IndexType, Error>(Error::PatternUnplaced)
                },
                _ => r == Ok::<IndexType, Error>(IndexType::AVE),
            },
        },
{
    assert(order@.len() == order.deep_view().len());
    if let PatternNonValuePlace::Variable(a) = p.entity {
        if let PatternValuePlace::Variable(b) = p.value {
            if order.deep_view().contains(a.name@) && order.deep_view().contains(b.name@) {
                lemma_in_front(order.deep_view(), a.name@, b.name@);
            }
        }
    }
}

/// A pattern of two variables, the entity and the value, is read by one after the other: the one in front
/// by the index of the attribute and it, and then the other by the index that has both. A pattern without
/// a variable needs no index.
pub proof fn law_indexes_of_a_pattern(
    p: Pattern,
    order: &[Variable],
    r: Result<Vec<IndexType>, Error>,
)
    requires
        variable::unique(order.deep_view()),
        order@.len() <= usize::MAX,
        call_ensures(determine_index_types, (&p, order), r),
        !(p.attribute is Variable),
    ensures
        ({
            let known = order.deep_view();
            match (p.entity, p.value) {
                (PatternNonValuePlace::Variable(a), PatternValuePlace::Variable(b)) => {
                    if known.contains(a.name@) && known.contains(b.name@) {
                        r matches Ok(list) && list@ == (if in_front(known, a.name@, b.name@) {
                            seq![IndexType::AE, IndexType::AEV]
                        } else {
                            seq![IndexType::AV, IndexType::AVE]
                        })
                    } else {
                        r == Err::<Vec<IndexType>, Error>(Error::PatternUnplaced)
                    }
                },
                (PatternNonValuePlace::Variable(_), _) => if p.attribute is Placeholder {
                    r == Err::<Vec<IndexType>, Error>(Error::AttributePosition)
                } else {
                    r matches Ok(list) && list@ == seq![
                        if p.value is Placeholder {
                            IndexType::AE
                        } else {
                            IndexType::AVE
                        },
                    ]
                },
                (_, PatternValuePlace::Variable(_)) => if p.attribute is Placeholder {
                    r == Err::<Vec<IndexType>, Error>(Error::AttributePosition)
                } else {
                    r matches Ok(list) && list@ == seq![
                        if p.entity is Placeholder {
                            IndexType::AV
                        } else {
                            IndexType::AEV
                        },
                    ]
                },
                _ => r matches Ok(list) && list@ == Seq::<IndexType>::empty(),
            }
        }),
{
    let known = order.deep_view();
    assert(order@.len() == known.len());
    let e = convert::place_names(p@.entity);
    let a = convert::place_names(p@.attribute);
    let v = convert::place_names(p@.value);
    assert(a =~= Seq::<Name>::empty());
    assert(convert::pattern_names(p@) =~= e + v);
    match (p.entity, p.value) {
        (PatternNonValuePlace::Variable(x), PatternValuePlace::Variable(y)) => {
            assert(e + v =~= seq![x.name@, y.name@]);
            if known.contains(x.name@) && known.contains(y.name@) {
                lemma_in_front(known, x.name@, y.name@);
            }
        },
        (PatternNonValuePlace::Variable(x), _) => {
            assert(e + v =~= seq![x.name@]);
        },
        (_, PatternValuePlace::Variable(y)) => {
            assert(e + v =~= seq![y.name@]);
        },
        _ => {
            assert(e + v =~= Seq::<Name>::empty());
        },
    }
}

/// What stands constant behind the attribute: the value in the index that goes on with the value, the
/// entity in the one that goes on with the entity.
pub proof fn law_constant_in_front(p: Pattern, index_type: IndexType, r: Vec<u8>)
    requires
        call_ensures(compute_constant_prefix, (&p, index_type), r),
    ensures
        r@ == (match index_type {
            IndexType::AVE => match p.value {
                PatternValuePlace::EntidOrInteger(x) => codec::encoding(Value::Long(x)),
                PatternValuePlace::IdentOrKeyword(k) => codec::encoding(Value::Keyword(k.name@)),
                PatternValuePlace::Constant(c) => match convert::constant_value(c@) {
                    Some(held) => codec::encoding(held),
                    None => Seq::empty(),
                },
                _ => Seq::empty(),
            },
            IndexType::AEV => match p.entity {
                PatternNonValuePlace::Entid(x) => codec::encoding(Value::Long(x)),
                PatternNonValuePlace::Ident(k) => codec::encoding(Value::Keyword(k.name@)),
                _ => Seq::empty(),
            },
            _ => Seq::empty(),
        }),
{
}

/// An input is compiled to the encodings of its values, in their order, at the place of its variable.
pub proof fn law_inputs_are_compiled(
    bindings: &[Binding],
    args: &[QueryArg],
    order: &[Variable],
    r: Vec<ExtenderPlan>,
    i: int,
)
    requires
        variable::unique(order.deep_view()),
        order@.len() <= usize::MAX,
        call_ensures(compile_in_bindings, (bindings, args, order), r),
        0 <= i < bindings@.len(),
        i < args@.len(),
        bindings@[i] is BindScalar || bindings@[i] is BindColl,
        order.deep_view().contains(convert::binding_names(bindings@[i])[0]),
    ensures
        i < r@.len(),
        compile::plan_views(r@)[i] matches PlanView::Values(values, level) && level
            < order.deep_view().len() && order.deep_view()[level as int] == (
        match bindings@[i] {
            Binding::BindScalar(v) => v.name@,
            Binding::BindColl(v) => v.name@,
            _ => Seq::empty(),
        }) && values == (match args@[i] {
            QueryArg::Scalar(value) => seq![codec::encoding(value@)],
            QueryArg::Collection(list) => Seq::new(
                list@.len(),
                |k: int| codec::encoding(list@[k]@),
            ),
        }),
{
    let name = convert::binding_names(bindings@[i])[0];
    compile::lemma_plan_views(r@);
    assert(order.deep_view()[order.deep_view().index_of(name)] == name);
    assert(order@.len() == order.deep_view().len());
}

/// The places of names.
proof fn lemma_levels(order: Seq<Name>, names: Seq<Name>)
    ensures
        compile::levels_of(order, names) is Some == (forall|i: int|
            0 <= i < names.len() ==> order.contains(#[trigger] names[i])),
        compile::levels_of(order, names) matches Some(levels) ==> levels.len() == names.len()
            && forall|i: int|
            0 <= i < levels.len() ==> (#[trigger] levels[i]).0 == names[i] && levels[i].1
                == order.index_of(names[i]) as usize,
    decreases names.len(),
{
    if names.len() > 0 {
        let front = names.drop_last();
        lemma_levels(order, front);
        assert(names[names.len() - 1] == names.last());
        assert forall|i: int| 0 <= i < front.len() implies front[i] == #[trigger] names[i] by {}
        if forall|i: int| 0 <= i < names.len() ==> order.contains(#[trigger] names[i]) {
            assert forall|i: int| 0 <= i < front.len() implies order.contains(
                #[trigger] front[i],
            ) by {
                assert(order.contains(names[i]));
            }
            assert(order.contains(names[names.len() - 1]));
        }
        if compile::levels_of(order, names) is Some {
            assert forall|i: int| 0 <= i < names.len() implies order.contains(
                #[trigger] names[i],
            ) by {
                if i < front.len() {
                    assert(order.contains(front[i]));
                }
            }
        }
    }
}

/// The place of the highest level.
proof fn lemma_highest_of(levels: Seq<(Name, usize)>)
    requires
        levels.len() > 0,
    ensures
        0 <= compile::highest(levels) < levels.len(),
        forall|i: int|
            0 <= i < levels.len() ==> (#[trigger] levels[i]).1 <= levels[compile::highest(
                levels,
            )].1,
    decreases levels.len(),
{
    if levels.len() > 1 {
        let front = levels.drop_last();
        lemma_highest_of(front);
        assert forall|i: int| 0 <= i < levels.len() implies (#[trigger] levels[i]).1
            <= levels[compile::highest(levels)].1 by {
            if i < front.len() {
                assert(front[i] == levels[i]);
                assert(front[i].1 <= front[compile::highest(front)].1);
            }
        }
    }
}

/// A condition is compiled exactly if it has a variable and all its variables have a place. It is decided
/// at the last of these places, by the variable there.
pub proof fn law_place_of_a_condition(expr: Expr, order: &[Variable], r: Result<ExtenderPlan, Error>)
    requires
        variable::unique(order.deep_view()),
        order@.len() <= usize::MAX,
        call_ensures(compile_predicate, (expr, order), r),
    ensures
        ({
            let known = order.deep_view();
            let read = expr::occurrences(expr@);
            &&& r is Ok == (read.len() > 0 && forall|x: Name| #[trigger]
                read.contains(x) ==> known.contains(x))
            &&& r matches Ok(plan) ==> (plan@ matches PlanView::Predicate(e, others, name, level)
                && e == expr@ && read.contains(name) && known[level as int] == name && (forall|x:
                Name| #[trigger] read.contains(x) ==> known.index_of(x) <= level) && (forall|i: int|
                0 <= i < others.len() ==> read.contains((#[trigger] others[i]).0)
                    && known[others[i].1 as int] == others[i].0))
        }),
{
    let known = order.deep_view();
    let read = expr::occurrences(expr@);
    let names = expr::variables_of(expr@);
    assert(order@.len() == known.len());
    lemma_read(expr@);
    lemma_levels(known, names);
    if read.len() > 0 {
        assert(read.contains(read[0]));
        assert(names.contains(read[0]));
    }
    if names.len() > 0 {
        assert(names.contains(names[0]));
        assert(read.contains(names[0]));
    }
    if forall|x: Name| #[trigger] read.contains(x) ==> known.contains(x) {
        assert forall|i: int| 0 <= i < names.len() implies known.contains(#[trigger] names[i]) by {
            assert(names.contains(names[i]));
        }
    }
    if let Ok(plan) = r {
        let levels = compile::levels_of(known, names).unwrap();
        let k = compile::highest(levels);
        lemma_highest_of(levels);
        assert(levels[k].0 == names[k]);
        assert(names.contains(names[k]));
        assert(known.contains(names[k]));
        assert forall|x: Name| #[trigger] read.contains(x) implies known.contains(x)
            && known.index_of(x) <= levels[k].1 by {
            assert(names.contains(x));
            let i = names.index_of(x);
            assert(levels[i].1 <= levels[k].1);
            assert(known.contains(names[i]));
        }
        let others = levels.remove(k);
        assert forall|i: int| 0 <= i < others.len() implies read.contains((#[trigger] others[i]).0)
            && known[others[i].1 as int] == others[i].0 by {
            let j = if i < k {
                i
            } else {
                i + 1
            };
            assert(others[i] == levels[j]);
            assert(levels[j].0 == names[j]);
            assert(names.contains(names[j]));
            assert(known.contains(names[j]));
        }
    }
}

/// The variables of an expression are those that occur in it.
proof fn lemma_read(e: expr::ExprView)
    ensures
        forall|x: Name| #[trigger]
            expr::variables_of(e).contains(x) == expr::occurrences(e).contains(x),
{
    expr::lemma_with_new(Seq::<Name>::empty(), expr::occurrences(e));
    assert forall|x: Name| #[trigger] expr::variables_of(e).contains(x) == expr::occurrences(
        e,
    ).contains(x) by {
        assert(!Seq::<Name>::empty().contains(x));
    }
}

/// A function is compiled exactly if all variables that it reads and the one that it binds have a place.
/// It reads each variable at its place, and binds at the place of the one that it binds.
pub proof fn law_places_of_a_function(f: FnExpr, order: &[Variable], r: Result<ExtenderPlan, Error>)
    requires
        variable::unique(order.deep_view()),
        order@.len() <= usize::MAX,
        call_ensures(compile_fn_expr, (f, order), r),
    ensures
        ({
            let known = order.deep_view();
            let read = expr::occurrences(f.expr@);
            &&& r is Ok == (known.contains(f.output.name@) && forall|x: Name| #[trigger]
                read.contains(x) ==> known.contains(x))
            &&& r matches Ok(plan) ==> (plan@ matches PlanView::Function(e, inputs, level) && e
                == f.expr@ && known[level as int] == f.output.name@ && (forall|i: int|
                0 <= i < inputs.len() ==> read.contains((#[trigger] inputs[i]).0)
                    && known[inputs[i].1 as int] == inputs[i].0))
        }),
{
    let known = order.deep_view();
    let read = expr::occurrences(f.expr@);
    let names = expr::variables_of(f.expr@);
    assert(order@.len() == known.len());
    lemma_read(f.expr@);
    lemma_levels(known, names);
    if forall|x: Name| #[trigger] read.contains(x) ==> known.contains(x) {
        assert forall|i: int| 0 <= i < names.len() implies known.contains(#[trigger] names[i]) by {
            assert(names.contains(names[i]));
        }
    }
    if compile::levels_of(known, names) is Some {
        let levels = compile::levels_of(known, names).unwrap();
        assert forall|x: Name| #[trigger] read.contains(x) implies known.contains(x) by {
            assert(names.contains(x));
            let i = names.index_of(x);
            assert(known.contains(names[i]));
        }
        assert forall|i: int| 0 <= i < levels.len() implies read.contains((#[trigger] levels[i]).0)
            && known[levels[i].1 as int] == levels[i].0 by {
            assert(names.contains(names[i]));
            assert(known.contains(names[i]));
        }
    }
}

} // verus!
