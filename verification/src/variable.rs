//! Logic variables.

use vstd::prelude::*;

use crate::byte_string;
use crate::text;

verus! {

/// A logic variable, known by its name (`?x`, say).
#[derive(Debug, PartialEq, Eq, Hash)]
pub struct Variable {
    pub name: String,
}

/// The name of a variable, as contracts speak of it.
pub type Name = Seq<char>;

impl View for Variable {
    type V = Seq<char>;

    open spec fn view(&self) -> Seq<char> {
        self.name@
    }
}

impl DeepView for Variable {
    type V = Seq<char>;

    open spec fn deep_view(&self) -> Seq<char> {
        self.name@
    }
}

impl Clone for Variable {
    fn clone(&self) -> (r: Self)
        ensures
            r@ == self@,
    {
        Variable { name: self.name.clone() }
    }
}

impl Variable {
    /// The variable of that name.
    pub fn new(name: &str) -> (r: Self)
        ensures
            r@ == name@,
    {
        Variable { name: name.to_owned() }
    }

    /// Whether two variables are the same one.
    pub fn same(&self, other: &Variable) -> (r: bool)
        ensures
            r == (self@ == other@),
    {
        self.name == other.name
    }
}

/// Whether a list holds each of its elements once.
pub open spec fn unique<A>(names: Seq<A>) -> bool {
    forall|i: int, j: int| 0 <= i < j < names.len() ==> names[i] != names[j]
}

/// The first name that a list lacks.
pub open spec fn first_missing(names: Seq<Name>, bound: Seq<Name>) -> Option<Name>
    decreases names.len(),
{
    if names.len() == 0 {
        None
    } else {
        match first_missing(names.drop_last(), bound) {
            Some(v) => Some(v),
            None => if bound.contains(names.last()) {
                None
            } else {
                Some(names.last())
            },
        }
    }
}

/// A missing name that the first ones lead to is that of all.
pub proof fn lemma_missing(names: Seq<Name>, bound: Seq<Name>, n: int)
    requires
        0 <= n <= names.len(),
        first_missing(names.take(n), bound) is Some,
    ensures
        first_missing(names, bound) == first_missing(names.take(n), bound),
    decreases names.len(),
{
    if n < names.len() {
        assert(names.drop_last().take(n) =~= names.take(n));
        lemma_missing(names.drop_last(), bound, n);
    } else {
        assert(names.take(n) =~= names);
    }
}

/// A list lacks no name just where it holds each.
pub proof fn lemma_none_missing(names: Seq<Name>, bound: Seq<Name>)
    ensures
        first_missing(names, bound) is None == (forall|i: int|
            0 <= i < names.len() ==> bound.contains(#[trigger] names[i])),
    decreases names.len(),
{
    if names.len() > 0 {
        lemma_none_missing(names.drop_last(), bound);
        assert forall|i: int| 0 <= i < names.len() - 1 implies names.drop_last()[i]
            == #[trigger] names[i] by {}
    }
}

/// The first element that stands in a list before.
pub open spec fn first_repeated<A>(names: Seq<A>) -> Option<A>
    decreases names.len(),
{
    if names.len() == 0 {
        None
    } else {
        match first_repeated(names.drop_last()) {
            Some(v) => Some(v),
            None => if names.drop_last().contains(names.last()) {
                Some(names.last())
            } else {
                None
            },
        }
    }
}

/// A repeated element that the first ones lead to is that of all.
pub proof fn lemma_repeated<A>(names: Seq<A>, n: int)
    requires
        0 <= n <= names.len(),
        first_repeated(names.take(n)) is Some,
    ensures
        first_repeated(names) == first_repeated(names.take(n)),
    decreases names.len(),
{
    if n < names.len() {
        assert(names.drop_last().take(n) =~= names.take(n));
        lemma_repeated(names.drop_last(), n);
    } else {
        assert(names.take(n) =~= names);
    }
}

/// A list repeats nothing just where it holds each of its elements once.
pub proof fn lemma_none_repeated<A>(names: Seq<A>)
    ensures
        first_repeated(names) is None == unique(names),
    decreases names.len(),
{
    if names.len() > 0 {
        let front = names.drop_last();
        lemma_none_repeated(front);
        if unique(names) {
            assert forall|i: int, j: int| 0 <= i < j < front.len() implies front[i] != front[j] by {
                assert(names[i] != names[j]);
            }
        } else if unique(front) {
            let (i, j) = choose|i: int, j: int| 0 <= i < j < names.len() && names[i] == names[j];
            if j < front.len() {
                assert(front[i] != front[j]);
            }
            assert(front[i] == names.last());
        }
    }
}

/// Where a variable first stands in a list, if it does.
pub fn position(variables: &[Variable], variable: &Variable) -> (r: Option<usize>)
    ensures
        match r {
            Some(i) => i < variables@.len() && variables.deep_view()[i as int] == variable@
                && forall|j: int| 0 <= j < i ==> variables.deep_view()[j] != variable@,
            None => !variables.deep_view().contains(variable@),
        },
{
    let mut i: usize = 0;
    while i < variables.len()
        invariant
            i <= variables@.len(),
            forall|j: int| 0 <= j < i ==> variables.deep_view()[j] != variable@,
        decreases variables@.len() - i,
    {
        if variables[i].same(variable) {
            return Some(i);
        }
        i += 1;
    }
    None
}

/// Whether a variable stands in a list.
pub fn contains(variables: &[Variable], variable: &Variable) -> (r: bool)
    ensures
        r == variables.deep_view().contains(variable@),
{
    match position(variables, variable) {
        Some(i) => {
            assert(variables.deep_view()[i as int] == variable@);
            true
        },
        None => false,
    }
}

/// The first of some variables that a list lacks.
pub fn missing(names: &[Variable], bound: &[Variable]) -> (r: Option<Variable>)
    ensures
        match r {
            Some(v) => first_missing(names.deep_view(), bound.deep_view()) == Some(v@),
            None => first_missing(names.deep_view(), bound.deep_view()) is None,
        },
{
    let ghost all = names.deep_view();
    let mut i: usize = 0;
    assert(all.take(0) =~= Seq::<Name>::empty());
    while i < names.len()
        invariant
            i <= names@.len(),
            all == names.deep_view(),
            first_missing(all.take(i as int), bound.deep_view()) is None,
        decreases names@.len() - i,
    {
        proof {
            assert(all.take(i + 1).drop_last() =~= all.take(i as int));
            assert(all[i as int] == names@[i as int]@);
        }
        if !contains(bound, &names[i]) {
            proof {
                lemma_missing(all, bound.deep_view(), i + 1);
            }
            return Some(names[i].clone());
        }
        i += 1;
    }
    assert(all.take(i as int) =~= all);
    None
}

/// The first variable that stands in a list before.
pub fn repeated(variables: &[Variable]) -> (r: Option<Variable>)
    ensures
        match r {
            Some(v) => first_repeated(variables.deep_view()) == Some(v@),
            None => first_repeated(variables.deep_view()) is None,
        },
        r is None == unique(variables.deep_view()),
{
    let ghost names = variables.deep_view();
    proof {
        lemma_none_repeated(names);
    }
    let mut i: usize = 0;
    assert(names.take(0) =~= Seq::<Name>::empty());
    while i < variables.len()
        invariant
            i <= variables@.len(),
            names == variables.deep_view(),
            first_repeated(names.take(i as int)) is None,
            first_repeated(names) is None == unique(names),
        decreases variables@.len() - i,
    {
        proof {
            assert(names.take(i + 1).drop_last() =~= names.take(i as int));
            assert(names[i as int] == variables@[i as int]@);
        }
        let found = position(variables, &variables[i]);
        match found {
            Some(j) => {
                if j < i {
                    proof {
                        assert(names.take(i as int)[j as int] == names[i as int]);
                        lemma_repeated(names, i + 1);
                    }
                    return Some(variables[i].clone());
                }
            },
            None => {
                assert(names.contains(names[i as int]));
            },
        }
        proof {
            let before = names.take(i as int);
            if before.contains(names[i as int]) {
                let k = choose|k: int| 0 <= k < before.len() && before[k] == names[i as int];
                assert(names[k] == names[i as int]);
            }
        }
        i += 1;
    }
    assert(names.take(i as int) =~= names);
    None
}

/// Whether a list holds each variable once.
pub fn all_unique(variables: &[Variable]) -> (r: bool)
    ensures
        r == unique(variables.deep_view()),
{
    repeated(variables).is_none()
}

/// A list of variables, as texts show it.
pub fn list_text(variables: &[Variable]) -> (r: String)
    ensures
        r@ == text::listed(variables.deep_view()),
{
    let mut parts: Vec<String> = Vec::new();
    let mut i: usize = 0;
    while i < variables.len()
        invariant
            i <= variables@.len(),
            text::held(parts@) == variables.deep_view().take(i as int),
            parts@.len() == i,
        decreases variables@.len() - i,
    {
        parts.push(variables[i].name.clone());
        i += 1;
        assert(text::held(parts@) =~= variables.deep_view().take(i as int));
    }
    assert(variables.deep_view().take(i as int) =~= variables.deep_view());
    text::list_text(&parts)
}

/// A copy of a list of variables.
pub fn copy_all(variables: &[Variable]) -> (r: Vec<Variable>)
    ensures
        r.deep_view() == variables.deep_view(),
{
    let mut out: Vec<Variable> = Vec::new();
    let mut i: usize = 0;
    while i < variables.len()
        invariant
            i <= variables@.len(),
            out.deep_view() == variables.deep_view().take(i as int),
        decreases variables@.len() - i,
    {
        let ghost earlier = out;
        let variable = variables[i].clone();
        out.push(variable);
        proof {
            byte_string::lemma_deep_push(earlier, out, variable);
        }
        i += 1;
        assert(out.deep_view() =~= variables.deep_view().take(i as int));
    }
    assert(variables.deep_view().take(i as int) =~= variables.deep_view());
    out
}

/// Whether two lists hold the same variables in the same order.
pub fn same_all(a: &[Variable], b: &[Variable]) -> (r: bool)
    ensures
        r == (a.deep_view() == b.deep_view()),
{
    if a.len() != b.len() {
        assert(a.deep_view().len() != b.deep_view().len());
        return false;
    }
    let mut i: usize = 0;
    while i < a.len()
        invariant
            i <= a@.len(),
            a@.len() == b@.len(),
            forall|j: int| 0 <= j < i ==> a.deep_view()[j] == b.deep_view()[j],
        decreases a@.len() - i,
    {
        if !a[i].same(&b[i]) {
            assert(a.deep_view()[i as int] != b.deep_view()[i as int]);
            return false;
        }
        i += 1;
    }
    assert(a.deep_view() =~= b.deep_view());
    true
}

/// Where the first missing name stands.
pub proof fn lemma_first_missing(names: Seq<Name>, bound: Seq<Name>)
    ensures
        first_missing(names, bound) matches Some(v) ==> exists|i: int|
            0 <= i < names.len() && #[trigger] names[i] == v && !bound.contains(v) && forall|j: int|
                0 <= j < i ==> bound.contains(#[trigger] names[j]),
    decreases names.len(),
{
    if names.len() > 0 {
        let front = names.drop_last();
        lemma_first_missing(front, bound);
        lemma_none_missing(front, bound);
        if let Some(v) = first_missing(front, bound) {
            let i = choose|i: int|
                0 <= i < front.len() && #[trigger] front[i] == v && !bound.contains(v) && forall|
                    j: int,
                |
                    0 <= j < i ==> bound.contains(#[trigger] front[j]);
            assert(names[i] == v);
            assert forall|j: int| 0 <= j < i implies bound.contains(#[trigger] names[j]) by {
                assert(names[j] == front[j]);
            }
        } else {
            assert(names[names.len() - 1] == names.last());
            assert forall|j: int| 0 <= j < names.len() - 1 implies bound.contains(
                #[trigger] names[j],
            ) by {
                assert(names[j] == front[j]);
            }
        }
    }
}

/// A missing variable is the first one that is not bound; none is missing if all are bound.
pub proof fn law_missing_variables(names: &[Variable], bound: &[Variable], r: Option<Variable>)
    requires
        call_ensures(missing, (names, bound), r),
    ensures
        match r {
            None => forall|i: int|
                0 <= i < names@.len() ==> bound.deep_view().contains(
                    (#[trigger] names@[i]).name@,
                ),
            Some(v) => exists|i: int|
                0 <= i < names@.len() && (#[trigger] names@[i]).name@ == v.name@
                    && !bound.deep_view().contains(v.name@) && forall|j: int|
                    0 <= j < i ==> bound.deep_view().contains((#[trigger] names@[j]).name@),
        },
{
    let all = names.deep_view();
    assert(all.len() == names@.len());
    assert forall|i: int| 0 <= i < all.len() implies all[i] == (#[trigger] names@[i]).name@ by {}
    lemma_none_missing(all, bound.deep_view());
    lemma_first_missing(all, bound.deep_view());
    if let Some(v) = r {
        let i = choose|i: int|
            0 <= i < all.len() && #[trigger] all[i] == v@ && !bound.deep_view().contains(v@)
                && forall|j: int|
                0 <= j < i ==> bound.deep_view().contains(#[trigger] all[j]);
        assert(names@[i].name@ == v.name@);
        assert forall|j: int| 0 <= j < i implies bound.deep_view().contains(
            (#[trigger] names@[j]).name@,
        ) by {
            assert(bound.deep_view().contains(all[j]));
        }
    } else {
        assert forall|i: int| 0 <= i < names@.len() implies bound.deep_view().contains(
            (#[trigger] names@[i]).name@,
        ) by {
            assert(bound.deep_view().contains(all[i]));
        }
    }
}

/// Where the first repeated element stands.
pub proof fn lemma_first_repeated<A>(names: Seq<A>)
    ensures
        first_repeated(names) matches Some(v) ==> exists|i: int, j: int|
            0 <= i < j < names.len() && #[trigger] names[i] == v && #[trigger] names[j] == v
                && unique(names.take(j)),
    decreases names.len(),
{
    if names.len() > 0 {
        let front = names.drop_last();
        lemma_first_repeated(front);
        lemma_none_repeated(front);
        if let Some(v) = first_repeated(front) {
            let (i, j) = choose|i: int, j: int|
                0 <= i < j < front.len() && #[trigger] front[i] == v && #[trigger] front[j] == v
                    && unique(front.take(j));
            assert(names[i] == v && names[j] == v);
            assert(names.take(j) =~= front.take(j));
        } else if front.contains(names.last()) {
            let i = front.index_of(names.last());
            assert(names[i] == names.last());
            assert(names[names.len() - 1] == names.last());
            assert(names.take(names.len() - 1) =~= front);
        }
    }
}

/// A repeated variable is the first one that stands a second time; none is repeated if they are all
/// different.
pub proof fn law_repeated_variables(variables: &[Variable], r: Option<Variable>)
    requires
        call_ensures(repeated, (variables,), r),
    ensures
        match r {
            None => forall|i: int, j: int|
                0 <= i < j < variables@.len() ==> (#[trigger] variables@[i]).name@ != (
                #[trigger] variables@[j]).name@,
            Some(v) => exists|i: int, j: int|
                0 <= i < j < variables@.len() && (#[trigger] variables@[i]).name@ == v.name@ && (
                #[trigger] variables@[j]).name@ == v.name@ && unique(
                    variables.deep_view().take(j),
                ),
        },
{
    let all = variables.deep_view();
    assert(all.len() == variables@.len());
    assert forall|i: int| 0 <= i < all.len() implies all[i] == (
    #[trigger] variables@[i]).name@ by {}
    lemma_none_repeated(all);
    lemma_first_repeated(all);
    if let Some(v) = r {
        let (i, j) = choose|i: int, j: int|
            0 <= i < j < all.len() && #[trigger] all[i] == v@ && #[trigger] all[j] == v@ && unique(
                all.take(j),
            );
        assert(variables@[i].name@ == v.name@ && variables@[j].name@ == v.name@);
    } else {
        assert forall|i: int, j: int| 0 <= i < j < variables@.len() implies (
        #[trigger] variables@[i]).name@ != (#[trigger] variables@[j]).name@ by {
            assert(all[i] != all[j]);
        }
    }
}

} // verus!
