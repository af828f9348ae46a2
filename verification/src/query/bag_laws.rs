//! What the operations on bags of bindings give.

use vstd::prelude::*;

use crate::byte_string::Row;
use crate::error::Error;
use crate::query::binding_bag::{self, BindingBag, BindingRow, Relation};
use crate::query::plan;
use crate::variable::{self, Name, Variable};

verus! {

/// The value of a variable in a row.
pub open spec fn value_in(names: Seq<Name>, row: Row, x: Name) -> Seq<u8> {
    row[names.index_of(x)]
}

/// Whether two rows have the same value for every variable that both have.
pub open spec fn agree(a: Seq<Name>, left: Row, b: Seq<Name>, right: Row) -> bool {
    forall|x: Name| #[trigger]
        a.contains(x) && b.contains(x) ==> value_in(a, left, x) == value_in(b, right, x)
}

/// Whether a row gives the variables of another layout the values of another row.
pub open spec fn keeps(names: Seq<Name>, row: Row, of: Seq<Name>, other: Row) -> bool {
    forall|x: Name| #[trigger]
        of.contains(x) ==> names.contains(x) && value_in(names, row, x) == value_in(of, other, x)
}

/// Rows agree just where their values at the shared variables are the same.
proof fn lemma_agree(a: Seq<Name>, left: Row, b: Seq<Name>, right: Row)
    requires
        a.len() <= usize::MAX,
        b.len() <= usize::MAX,
    ensures
        ({
            let shared = binding_bag::common(a, b);
            (binding_bag::pick(left, binding_bag::columns(a, shared)) == binding_bag::pick(
                right,
                binding_bag::columns(b, shared),
            )) == agree(a, left, b, right)
        }),
{
    let shared = binding_bag::common(a, b);
    let p = binding_bag::pick(left, binding_bag::columns(a, shared));
    let q = binding_bag::pick(right, binding_bag::columns(b, shared));
    assert forall|i: int| 0 <= i < shared.len() implies #[trigger] p[i] == value_in(
        a,
        left,
        shared[i],
    ) && q[i] == value_in(b, right, shared[i]) by {
        assert(shared.contains(shared[i]));
        plan::lemma_common_contains(a, b, shared[i]);
        let k = a.index_of(shared[i]);
        let l = b.index_of(shared[i]);
        assert(0 <= k < a.len() && 0 <= l < b.len());
    }
    if agree(a, left, b, right) {
        assert forall|i: int| 0 <= i < shared.len() implies #[trigger] p[i] == q[i] by {
            assert(shared.contains(shared[i]));
            plan::lemma_common_contains(a, b, shared[i]);
            assert(a.contains(shared[i]) && b.contains(shared[i]));
        }
        assert(p =~= q);
    }
    if p == q {
        assert forall|x: Name| #[trigger] a.contains(x) && b.contains(x) implies value_in(
            a,
            left,
            x,
        ) == value_in(b, right, x) by {
            plan::lemma_common_contains(a, b, x);
            let i = shared.index_of(x);
            assert(p[i] == q[i]);
        }
    }
}

/// The matches of a row.
proof fn lemma_matches(
    left: Row,
    key: Row,
    right: Seq<Row>,
    rkey: Seq<usize>,
    rest: Seq<usize>,
    t: Row,
)
    ensures
        binding_bag::matches_of(left, key, right, rkey, rest).contains(t) == exists|j: int|
            0 <= j < right.len() && binding_bag::pick(#[trigger] right[j], rkey) == key && t == left
                + binding_bag::pick(right[j], rest),
    decreases right.len(),
{
    let all = binding_bag::matches_of(left, key, right, rkey, rest);
    if right.len() > 0 {
        let front = right.drop_last();
        let earlier = binding_bag::matches_of(left, key, front, rkey, rest);
        lemma_matches(left, key, front, rkey, rest, t);
        if binding_bag::pick(right.last(), rkey) == key {
            binding_bag::lemma_contains_split(all, t);
            assert(all.drop_last() =~= earlier);
        }
        if earlier.contains(t) {
            let j = choose|j: int|
                0 <= j < front.len() && binding_bag::pick(#[trigger] front[j], rkey) == key && t
                    == left + binding_bag::pick(front[j], rest);
            assert(right[j] == front[j]);
        }
        if all.contains(t) && !earlier.contains(t) {
            assert(right[right.len() - 1] == right.last());
        }
        if exists|j: int|
            0 <= j < right.len() && binding_bag::pick(#[trigger] right[j], rkey) == key && t == left
                + binding_bag::pick(right[j], rest) {
            let j = choose|j: int|
                0 <= j < right.len() && binding_bag::pick(#[trigger] right[j], rkey) == key && t
                    == left + binding_bag::pick(right[j], rest);
            if j < front.len() {
                assert(front[j] == right[j]);
            }
        }
    }
}

/// The rows of a join.
proof fn lemma_joined(
    left: Seq<Row>,
    right: Seq<Row>,
    lkey: Seq<usize>,
    rkey: Seq<usize>,
    rest: Seq<usize>,
    t: Row,
)
    ensures
        binding_bag::joined_rows(left, right, lkey, rkey, rest).contains(t) == exists|
            i: int,
            j: int,
        |
            0 <= i < left.len() && 0 <= j < right.len() && binding_bag::pick(
                #[trigger] left[i],
                lkey,
            ) == binding_bag::pick(#[trigger] right[j], rkey) && t == left[i] + binding_bag::pick(
                right[j],
                rest,
            ),
    decreases left.len(),
{
    if left.len() > 0 {
        let front = left.drop_last();
        let last = left.last();
        let earlier = binding_bag::joined_rows(front, right, lkey, rkey, rest);
        let own = binding_bag::matches_of(last, binding_bag::pick(last, lkey), right, rkey, rest);
        lemma_joined(front, right, lkey, rkey, rest, t);
        lemma_matches(last, binding_bag::pick(last, lkey), right, rkey, rest, t);
        plan::lemma_concat_contains(earlier, own, t);
        if earlier.contains(t) {
            let (i, j) = choose|i: int, j: int|
                0 <= i < front.len() && 0 <= j < right.len() && binding_bag::pick(
                    #[trigger] front[i],
                    lkey,
                ) == binding_bag::pick(#[trigger] right[j], rkey) && t == front[i]
                    + binding_bag::pick(right[j], rest);
            assert(left[i] == front[i]);
        }
        if own.contains(t) {
            let j = choose|j: int|
                0 <= j < right.len() && binding_bag::pick(#[trigger] right[j], rkey)
                    == binding_bag::pick(last, lkey) && t == last + binding_bag::pick(
                    right[j],
                    rest,
                );
            assert(left[left.len() - 1] == last);
        }
        if exists|i: int, j: int|
            0 <= i < left.len() && 0 <= j < right.len() && binding_bag::pick(
                #[trigger] left[i],
                lkey,
            ) == binding_bag::pick(#[trigger] right[j], rkey) && t == left[i] + binding_bag::pick(
                right[j],
                rest,
            ) {
            let (i, j) = choose|i: int, j: int|
                0 <= i < left.len() && 0 <= j < right.len() && binding_bag::pick(
                    #[trigger] left[i],
                    lkey,
                ) == binding_bag::pick(#[trigger] right[j], rkey) && t == left[i]
                    + binding_bag::pick(right[j], rest);
            if i < front.len() {
                assert(front[i] == left[i]);
            }
        }
    } else {
        assert(!Seq::<Row>::empty().contains(t));
    }
}

/// A row with what an agreeing row adds keeps the values of both.
proof fn lemma_put_together(a: Seq<Name>, left: Row, b: Seq<Name>, right: Row)
    requires
        variable::unique(a),
        variable::unique(b),
        a.len() == left.len() <= usize::MAX,
        b.len() == right.len() <= usize::MAX,
        agree(a, left, b, right),
    ensures
        ({
            let added = binding_bag::missing(b, a);
            let row = left + binding_bag::pick(right, binding_bag::columns(b, added));
            keeps(a + added, row, a, left) && keeps(a + added, row, b, right)
        }),
{
    let added = binding_bag::missing(b, a);
    let names = a + added;
    let row = left + binding_bag::pick(right, binding_bag::columns(b, added));
    assert forall|x: Name| #[trigger] a.contains(x) implies names.contains(x) && value_in(
        names,
        row,
        x,
    ) == value_in(a, left, x) by {
        plan::lemma_concat_contains(a, added, x);
        let k = names.index_of(x);
        let i = a.index_of(x);
        if k < a.len() {
            assert(a[k] == x);
            binding_bag::lemma_index_of(a, k);
        } else {
            assert(added[k - a.len()] == x);
            assert(added.contains(x));
            plan::lemma_missing_contains(b, a, x);
        }
    }
    assert forall|x: Name| #[trigger] b.contains(x) implies names.contains(x) && value_in(
        names,
        row,
        x,
    ) == value_in(b, right, x) by {
        plan::lemma_concat_contains(a, added, x);
        plan::lemma_missing_contains(b, a, x);
        if a.contains(x) {
            assert(value_in(names, row, x) == value_in(a, left, x));
        } else {
            let k = names.index_of(x);
            if k < a.len() {
                assert(a[k] == x);
            }
            assert(added[k - a.len()] == x);
            let l = b.index_of(x);
            assert(0 <= l < b.len());
        }
    }
}

/// The join of two bags has the variables of both, each once. Its rows are those that keep the
/// values of a row of each, where these have the same values for the variables that both have: for
/// every two such rows there is one, and there is no other.
pub proof fn law_natural_join(left: BindingBag, right: BindingBag, r: Result<BindingBag, Error>)
    requires
        call_ensures(BindingBag::natural_join, (&left, &right), r),
        left@.wf(),
        right@.wf(),
    ensures
        r is Ok,
        ({
            let bag = r->Ok_0@;
            &&& forall|x: Name| #[trigger]
                bag.variables.contains(x) == (left@.variables.contains(x)
                    || right@.variables.contains(x))
            &&& variable::unique(bag.variables)
            &&& forall|i: int, j: int|
                0 <= i < left@.rows.len() && 0 <= j < right@.rows.len() && #[trigger] agree(
                    left@.variables,
                    left@.rows[i],
                    right@.variables,
                    right@.rows[j],
                ) ==> exists|k: int|
                    0 <= k < bag.rows.len() && puts_together(
                        bag.variables,
                        #[trigger] bag.rows[k],
                        left@,
                        i,
                        right@,
                        j,
                    )
            &&& forall|k: int|
                0 <= k < bag.rows.len() ==> comes_of_two(
                    bag.variables,
                    #[trigger] bag.rows[k],
                    left@,
                    right@,
                )
        }),
{
    let a = left@.variables;
    let b = right@.variables;
    let bag = r->Ok_0@;
    assert(left.variables.len() == a.len() && right.variables.len() == b.len());
    let shared = binding_bag::common(a, b);
    let added = binding_bag::missing(b, a);
    let lkey = binding_bag::columns(a, shared);
    let rkey = binding_bag::columns(b, shared);
    let rest = binding_bag::columns(b, added);
    assert forall|x: Name| #[trigger] bag.variables.contains(x) == (a.contains(x) || b.contains(
        x,
    )) by {
        plan::lemma_concat_contains(a, added, x);
        plan::lemma_missing_contains(b, a, x);
    }
    assert forall|i: int, j: int|
        0 <= i < left@.rows.len() && 0 <= j < right@.rows.len() && #[trigger] agree(
            a,
            left@.rows[i],
            b,
            right@.rows[j],
        ) implies exists|k: int|
        0 <= k < bag.rows.len() && puts_together(
            bag.variables,
            #[trigger] bag.rows[k],
            left@,
            i,
            right@,
            j,
        ) by {
        let t = left@.rows[i] + binding_bag::pick(right@.rows[j], rest);
        lemma_agree(a, left@.rows[i], b, right@.rows[j]);
        lemma_joined(left@.rows, right@.rows, lkey, rkey, rest, t);
        lemma_put_together(a, left@.rows[i], b, right@.rows[j]);
        assert(bag.rows.contains(t));
        let k = bag.rows.index_of(t);
        assert(puts_together(bag.variables, bag.rows[k], left@, i, right@, j));
    }
    assert forall|k: int| 0 <= k < bag.rows.len() implies comes_of_two(
        bag.variables,
        #[trigger] bag.rows[k],
        left@,
        right@,
    ) by {
        let t = bag.rows[k];
        assert(bag.rows.contains(t));
        lemma_joined(left@.rows, right@.rows, lkey, rkey, rest, t);
        let (i, j) = choose|i: int, j: int|
            0 <= i < left@.rows.len() && 0 <= j < right@.rows.len() && binding_bag::pick(
                #[trigger] left@.rows[i],
                lkey,
            ) == binding_bag::pick(#[trigger] right@.rows[j], rkey) && t == left@.rows[i]
                + binding_bag::pick(right@.rows[j], rest);
        lemma_agree(a, left@.rows[i], b, right@.rows[j]);
        lemma_put_together(a, left@.rows[i], b, right@.rows[j]);
        assert(puts_together(bag.variables, bag.rows[k], left@, i, right@, j));
    }
}

/// Whether a row keeps the values of a row of each of two relations, and has no other.
pub open spec fn puts_together(
    names: Seq<Name>,
    row: Row,
    left: Relation,
    i: int,
    right: Relation,
    j: int,
) -> bool {
    &&& keeps(names, row, left.variables, left.rows[i])
    &&& keeps(names, row, right.variables, right.rows[j])
    &&& row.len() == names.len()
}

/// Whether a row keeps the values of two rows that agree, one of each relation.
pub open spec fn comes_of_two(names: Seq<Name>, row: Row, left: Relation, right: Relation) -> bool {
    exists|i: int, j: int|
        0 <= i < left.rows.len() && 0 <= j < right.rows.len() && #[trigger] agree(
            left.variables,
            left.rows[i],
            right.variables,
            right.rows[j],
        ) && puts_together(names, row, left, i, right, j)
}

/// Whether some row of a relation agrees with a row.
pub open spec fn has_agreeing(names: Seq<Name>, row: Row, other: Relation) -> bool {
    exists|j: int|
        0 <= j < other.rows.len() && agree(names, row, other.variables, #[trigger] other.rows[j])
}

/// A row has a match just where some row agrees with it.
proof fn lemma_has_match(right: Seq<Row>, rkey: Seq<usize>, key: Row)
    ensures
        binding_bag::has_match(right, rkey, key) == exists|j: int|
            0 <= j < right.len() && binding_bag::pick(#[trigger] right[j], rkey) == key,
    decreases right.len(),
{
    if right.len() > 0 {
        let front = right.drop_last();
        lemma_has_match(front, rkey, key);
        if exists|j: int| 0 <= j < front.len() && binding_bag::pick(#[trigger] front[j], rkey)
            == key {
            let j = choose|j: int|
                0 <= j < front.len() && binding_bag::pick(#[trigger] front[j], rkey) == key;
            assert(right[j] == front[j]);
        }
        if binding_bag::pick(right.last(), rkey) == key {
            assert(right[right.len() - 1] == right.last());
        }
        if exists|j: int| 0 <= j < right.len() && binding_bag::pick(#[trigger] right[j], rkey)
            == key {
            let j = choose|j: int|
                0 <= j < right.len() && binding_bag::pick(#[trigger] right[j], rkey) == key;
            if j < front.len() {
                assert(front[j] == right[j]);
            }
        }
    }
}

/// The rows that have a match, or those that have none.
pub proof fn lemma_by_match(left: Relation, right: Relation, wanted: bool, rows: Seq<Row>)
    requires
        left.variables.len() <= usize::MAX,
        right.variables.len() <= usize::MAX,
    ensures
        ({
            let shared = binding_bag::common(left.variables, right.variables);
            binding_bag::rows_by_match(
                rows,
                right.rows,
                binding_bag::columns(left.variables, shared),
                binding_bag::columns(right.variables, shared),
                wanted,
            ) == rows.filter(|row: Row| has_agreeing(left.variables, row, right) == wanted)
        }),
    decreases rows.len(),
{
    reveal(Seq::filter);
    if rows.len() > 0 {
        let shared = binding_bag::common(left.variables, right.variables);
        let lkey = binding_bag::columns(left.variables, shared);
        let rkey = binding_bag::columns(right.variables, shared);
        let row = rows.last();
        let key = binding_bag::pick(row, lkey);
        lemma_by_match(left, right, wanted, rows.drop_last());
        lemma_has_match(right.rows, rkey, key);
        assert(binding_bag::has_match(right.rows, rkey, key) == has_agreeing(
            left.variables,
            row,
            right,
        )) by {
            assert forall|j: int| 0 <= j < right.rows.len() implies (binding_bag::pick(
                #[trigger] right.rows[j],
                rkey,
            ) == key) == agree(left.variables, row, right.variables, right.rows[j]) by {
                lemma_agree(left.variables, row, right.variables, right.rows[j]);
            }
        }
        assert(rows =~= rows.drop_last().push(row));
    }
}

/// A semijoin keeps exactly the rows with which some row of the other bag agrees, an antijoin
/// exactly those with which none does, both in their order and under the same variables.
pub proof fn law_semijoin_and_antijoin(
    left: BindingBag,
    right: BindingBag,
    with: Result<BindingBag, Error>,
    without: Result<BindingBag, Error>,
)
    requires
        call_ensures(BindingBag::semijoin, (&left, &right), with),
        call_ensures(BindingBag::antijoin, (&left, &right), without),
        left@.wf(),
        right@.wf(),
    ensures
        with is Ok,
        without is Ok,
        with->Ok_0@.variables == left@.variables,
        without->Ok_0@.variables == left@.variables,
        with->Ok_0@.rows == left@.rows.filter(
            |row: Row| has_agreeing(left@.variables, row, right@),
        ),
        without->Ok_0@.rows == left@.rows.filter(
            |row: Row| !has_agreeing(left@.variables, row, right@),
        ),
{
    assert(left.variables.len() == left@.variables.len());
    assert(right.variables.len() == right@.variables.len());
    lemma_by_match(left@, right@, true, left@.rows);
    lemma_by_match(left@, right@, false, left@.rows);
    lemma_same_filter(
        left@.rows,
        |row: Row| has_agreeing(left@.variables, row, right@) == true,
        |row: Row| has_agreeing(left@.variables, row, right@),
    );
    lemma_same_filter(
        left@.rows,
        |row: Row| has_agreeing(left@.variables, row, right@) == false,
        |row: Row| !has_agreeing(left@.variables, row, right@),
    );
}

/// Conditions that hold of the same rows keep the same ones.
pub proof fn lemma_same_filter(rows: Seq<Row>, p: spec_fn(Row) -> bool, q: spec_fn(Row) -> bool)
    requires
        forall|row: Row| #[trigger] p(row) == q(row),
    ensures
        rows.filter(p) == rows.filter(q),
    decreases rows.len(),
{
    reveal(Seq::filter);
    if rows.len() > 0 {
        lemma_same_filter(rows.drop_last(), p, q);
        assert(p(rows.last()) == q(rows.last()));
    }
}

/// A projection keeps every row, with the values of the named variables.
pub proof fn law_projection(
    bag: BindingBag,
    variables: &[Variable],
    r: Result<BindingBag, Error>,
    i: int,
    x: Name,
)
    requires
        call_ensures(BindingBag::project, (&bag, variables), r),
        bag@.wf(),
        r is Ok,
        0 <= i < bag@.rows.len(),
        variables.deep_view().contains(x),
    ensures
        r->Ok_0@.variables == variables.deep_view(),
        r->Ok_0@.rows.len() == bag@.rows.len(),
        bag@.variables.contains(x),
        value_in(variables.deep_view(), r->Ok_0@.rows[i], x) == value_in(
            bag@.variables,
            bag@.rows[i],
            x,
        ),
{
    let names = variables.deep_view();
    assert(bag.variables.len() == bag@.variables.len());
    lemma_known(bag@.variables, names, names.index_of(x));
    let k = names.index_of(x);
    let l = bag@.variables.index_of(x);
    assert(0 <= l < bag@.variables.len());
    assert(names[k] == x);
}

/// What is projected without a fault is there.
proof fn lemma_known(layout: Seq<Name>, names: Seq<Name>, k: int)
    requires
        binding_bag::projection_fault(layout, names) is None,
        0 <= k < names.len(),
    ensures
        layout.contains(names[k]),
    decreases names.len(),
{
    if k < names.len() - 1 {
        lemma_known(layout, names.drop_last(), k);
    }
}

/// A projection is refused exactly if a variable is named twice or is none of the bag's.
pub proof fn law_projections_refused(
    bag: BindingBag,
    variables: &[Variable],
    r: Result<BindingBag, Error>,
)
    requires
        call_ensures(BindingBag::project, (&bag, variables), r),
        bag@.wf(),
    ensures
        r is Ok == (variable::unique(variables.deep_view()) && forall|i: int|
            0 <= i < variables@.len() ==> bag@.variables.contains(
                #[trigger] variables.deep_view()[i],
            )),
{
    lemma_projection_fault(bag@.variables, variables.deep_view());
    assert(variables.deep_view().len() == variables@.len());
}

/// When names cannot be projected.
pub proof fn lemma_projection_fault(layout: Seq<Name>, names: Seq<Name>)
    ensures
        binding_bag::projection_fault(layout, names) is None == (variable::unique(names) && forall|
            i: int,
        |
            0 <= i < names.len() ==> layout.contains(#[trigger] names[i])),
    decreases names.len(),
{
    if names.len() > 0 {
        let front = names.drop_last();
        let n = names.len() - 1;
        lemma_projection_fault(layout, front);
        assert forall|i: int| 0 <= i < n implies front[i] == #[trigger] names[i] by {}
        assert(names[n] == names.last());
        if binding_bag::projection_fault(layout, names) is None {
            assert forall|i: int, j: int| 0 <= i < j < names.len() implies names[i] != names[j] by {
                if j < n {
                    assert(front[i] != front[j]);
                } else {
                    assert(front.contains(front[i]));
                }
            }
        }
        if variable::unique(names) && forall|i: int|
            0 <= i < names.len() ==> layout.contains(#[trigger] names[i]) {
            assert forall|i: int, j: int| 0 <= i < j < front.len() implies front[i]
                != front[j] by {
                assert(names[i] != names[j]);
            }
            assert forall|i: int| 0 <= i < front.len() implies layout.contains(
                #[trigger] front[i],
            ) by {
                assert(layout.contains(names[i]));
            }
            if front.contains(names.last()) {
                let i = front.index_of(names.last());
                assert(names[i] != names[n]);
            }
        }
    }
}

/// Putting bags together gives the rows of the first and then those of the second; with each row
/// once, exactly the rows that one of them has.
pub proof fn law_unions(
    left: BindingBag,
    right: BindingBag,
    all: Result<BindingBag, Error>,
    once: Result<BindingBag, Error>,
    row: Row,
)
    requires
        call_ensures(BindingBag::union, (&left, &right), all),
        call_ensures(BindingBag::distinct_union, (&left, &right), once),
        left@.wf(),
        right@.wf(),
    ensures
        all is Ok == (left@.variables == right@.variables),
        once is Ok == (left@.variables == right@.variables),
        all is Ok ==> all->Ok_0@.variables == left@.variables && all->Ok_0@.rows == left@.rows
            + right@.rows,
        once is Ok ==> once->Ok_0@.variables == left@.variables && once->Ok_0@.rows.no_duplicates() && once->Ok_0@.rows.contains(row) == (left@.rows.contains(row) || right@.rows.contains(
            row,
        )),
{
    if once is Ok {
        binding_bag::law_distinct(left@.spec_union(right@));
        plan::lemma_concat_contains(left@.rows, right@.rows, row);
        binding_bag::lemma_distinct_contains(left@.rows + right@.rows, row);
    }
}

/// Extending rows gives each row followed by each of its own extensions, and nothing else.
pub proof fn law_extensions(
    bag: BindingBag,
    added: Vec<Variable>,
    extensions: Vec<Vec<BindingRow>>,
    r: Result<BindingBag, Error>,
    row: Row,
)
    requires
        call_ensures(BindingBag::extend_rows, (&bag, added, extensions), r),
        bag@.wf(),
        r is Ok,
    ensures
        r->Ok_0@.variables == bag@.variables + added.deep_view(),
        r->Ok_0@.rows.contains(row) == exists|i: int, j: int|
            0 <= i < bag@.rows.len() && 0 <= j < extensions.deep_view()[i].len() && row
                == bag@.rows[i] + #[trigger] extensions.deep_view()[i][j],
{
    lemma_extended(bag@.rows, extensions.deep_view(), row);
}

/// The rows that extensions make.
pub proof fn lemma_extended(rows: Seq<Row>, extensions: Seq<Seq<Row>>, row: Row)
    requires
        rows.len() == extensions.len(),
    ensures
        binding_bag::extended(rows, extensions).contains(row) == exists|i: int, j: int|
            0 <= i < rows.len() && 0 <= j < extensions[i].len() && row == rows[i]
                + #[trigger] extensions[i][j],
    decreases rows.len(),
{
    if rows.len() > 0 {
        let front = rows.drop_last();
        let before = extensions.drop_last();
        let own = binding_bag::extended_row(rows.last(), extensions.last());
        let n = rows.len() - 1;
        lemma_extended(front, before, row);
        plan::lemma_concat_contains(binding_bag::extended(front, before), own, row);
        if binding_bag::extended(front, before).contains(row) {
            let (i, j) = choose|i: int, j: int|
                0 <= i < front.len() && 0 <= j < before[i].len() && row == front[i]
                    + #[trigger] before[i][j];
            assert(row == rows[i] + extensions[i][j]);
        }
        if own.contains(row) {
            let j = own.index_of(row);
            assert(row == rows[n] + extensions[n][j]);
        }
        if exists|i: int, j: int|
            0 <= i < rows.len() && 0 <= j < extensions[i].len() && row == rows[i]
                + #[trigger] extensions[i][j] {
            let (i, j) = choose|i: int, j: int|
                0 <= i < rows.len() && 0 <= j < extensions[i].len() && row == rows[i]
                    + #[trigger] extensions[i][j];
            if i < n {
                assert(row == front[i] + before[i][j]);
            } else {
                assert(own[j] == row);
            }
        }
    } else {
        assert(!Seq::<Row>::empty().contains(row));
    }
}

} // verus!
