//! The variables of a pattern in the order of a join.

use vstd::prelude::*;

use crate::variable::{contains, Name, Variable};

verus! {

broadcast use vstd::seq_lib::group_to_multiset_ensures;

/// The last place of a name in an order, if it has one.
pub open spec fn last_place(order: Seq<Name>, name: Name) -> Option<int>
    decreases order.len(),
{
    if order.len() == 0 {
        None
    } else if order.last() == name {
        Some(order.len() - 1)
    } else {
        last_place(order.drop_last(), name)
    }
}

/// Whether names stand in the order of a join.
pub open spec fn in_join_order(names: Seq<Name>, order: Seq<Name>) -> bool {
    forall|i: int, j: int|
        0 <= i < j < names.len() ==> last_place(order, #[trigger] names[i]).unwrap() <= last_place(
            order,
            #[trigger] names[j],
        ).unwrap()
}

/// Whether every name has a place in an order.
pub open spec fn all_placed(names: Seq<Name>, order: Seq<Name>) -> bool {
    forall|i: int| 0 <= i < names.len() ==> last_place(order, #[trigger] names[i]) is Some
}

/// The variables of a pattern, in the order of a join.
#[derive(Debug)]
pub struct PatternPrefixExtender {
    pub join_order: Vec<Variable>,
    pub vars: Vec<Variable>,
}

/// The last place of a variable in an order, if it has one.
fn place_of(order: &[Variable], variable: &Variable) -> (r: Option<usize>)
    ensures
        match r {
            Some(i) => last_place(order.deep_view(), variable@) == Some(i as int),
            None => last_place(order.deep_view(), variable@) is None,
        },
{
    let ghost names = order.deep_view();
    let mut i: usize = order.len();
    assert(names.take(i as int) =~= names);
    while i > 0
        invariant
            i <= order@.len(),
            names == order.deep_view(),
            names.len() == order@.len(),
            last_place(names, variable@) == last_place(names.take(i as int), variable@),
        decreases i,
    {
        assert(names.take(i as int).drop_last() =~= names.take(i - 1));
        assert(names.take(i as int).last() == names[i - 1]);
        if order[i - 1].same(variable) {
            return Some(i - 1);
        }
        i -= 1;
    }
    None
}

impl PatternPrefixExtender {
    /// The variables of a pattern, put in the order of a join. Two or more have to be in it.
    pub fn new(join_order: Vec<Variable>, variables: Vec<Variable>) -> (r: Self)
        requires
            variables@.len() < 2 || all_placed(variables.deep_view(), join_order.deep_view()),
        ensures
            r.join_order == join_order,
            r.vars.deep_view().to_multiset() == variables.deep_view().to_multiset(),
            in_join_order(r.vars.deep_view(), join_order.deep_view()),
    {
        let ghost order = join_order.deep_view();
        let ghost names = variables.deep_view();
        assert(names.len() == variables@.len());
        if variables.len() < 2 {
            return PatternPrefixExtender { join_order, vars: variables };
        }
        let mut vars: Vec<Variable> = Vec::new();
        let mut i: usize = 0;
        assert(vars.deep_view() =~= names.take(0));
        while i < variables.len()
            invariant
                i <= variables@.len() == names.len(),
                names == variables.deep_view(),
                order == join_order.deep_view(),
                all_placed(names, order),
                all_placed(vars.deep_view(), order),
                vars@.len() == i,
                vars.deep_view().to_multiset() == names.take(i as int).to_multiset(),
                in_join_order(vars.deep_view(), order),
            decreases variables@.len() - i,
        {
            let ghost name = names[i as int];
            let ghost before = vars.deep_view();
            assert(before.len() == vars@.len());
            let place: usize = match place_of(&join_order, &variables[i]) {
                Some(place) => place,
                None => 0,
            };
            assert(last_place(order, name) == Some(place as int));
            let mut at: usize = vars.len();
            while at > 0
                invariant
                    at <= vars@.len() == before.len(),
                    before == vars.deep_view(),
                    order == join_order.deep_view(),
                    all_placed(before, order),
                    forall|k: int|
                        at <= k < before.len() ==> place < last_place(
                            order,
                            #[trigger] before[k],
                        ).unwrap(),
                ensures
                    at <= vars@.len(),
                    at > 0 ==> last_place(order, before[at - 1]).unwrap() <= place,
                decreases at,
            {
                assert(before[at - 1] == vars@[at - 1]@);
                let other: usize = match place_of(&join_order, &vars[at - 1]) {
                    Some(other) => other,
                    None => 0,
                };
                if other <= place {
                    break ;
                }
                at -= 1;
            }
            vars.insert(at, variables[i].clone());
            proof {
                let after = vars.deep_view();
                assert(after =~= before.insert(at as int, name));
                vstd::seq_lib::to_multiset_insert(before, at as int, name);
                assert(names.take(i + 1) =~= names.take(i as int).push(name));
                assert forall|a: int, b: int| 0 <= a < b < after.len() implies last_place(
                    order,
                    #[trigger] after[a],
                ).unwrap() <= last_place(order, #[trigger] after[b]).unwrap() by {
                    let x = if a < at {
                        a
                    } else {
                        a - 1
                    };
                    let y = if b < at {
                        b
                    } else {
                        b - 1
                    };
                    if a != at {
                        assert(after[a] == before[x]);
                    }
                    if b != at {
                        assert(after[b] == before[y]);
                    }
                    if a == at {
                        assert(place < last_place(order, before[y]).unwrap());
                    } else if b == at {
                        if a < at - 1 {
                            assert(last_place(order, before[a]).unwrap() <= last_place(
                                order,
                                before[at - 1],
                            ).unwrap());
                        }
                    } else {
                        assert(last_place(order, before[x]).unwrap() <= last_place(
                            order,
                            before[y],
                        ).unwrap());
                    }
                }
                assert forall|k: int| 0 <= k < after.len() implies last_place(
                    order,
                    #[trigger] after[k],
                ) is Some by {
                    if k < at {
                        assert(after[k] == before[k]);
                    } else if k > at {
                        assert(after[k] == before[k - 1]);
                    }
                }
            }
            i += 1;
        }
        assert(names.take(i as int) =~= names);
        PatternPrefixExtender { join_order, vars }
    }

    /// Whether a variable is one of the pattern's.
    pub fn participates(&self, var: &Variable) -> (r: bool)
        ensures
            r == self.vars.deep_view().contains(var@),
    {
        contains(&self.vars, var)
    }
}

} // verus!
