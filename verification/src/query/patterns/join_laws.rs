//! Which rows negations, disjunctions, conditions and functions keep or make.

use vstd::prelude::*;

use crate::byte_string::Row;
use crate::codec;
use crate::error::Error;
use crate::query::bag_laws::{self, value_in};
use crate::query::binding_bag::{self, BindingBag, Relation};
use crate::query::patterns::function;
use crate::query::patterns::not::NotPattern;
use crate::query::patterns::or::{self, OrPattern};
use crate::query::patterns::predicate;
use crate::query::plan;
use crate::value::Value;
use crate::variable::{Name, Variable};

verus! {

/// Whether two rows have the same values for the named variables.
pub open spec fn same_for(
    names: Seq<Name>,
    a: Seq<Name>,
    left: Row,
    b: Seq<Name>,
    right: Row,
) -> bool {
    forall|x: Name| #[trigger]
        names.contains(x) ==> value_in(a, left, x) == value_in(b, right, x)
}

/// Whether some row of a relation has the same values for the named variables.
pub open spec fn found_among(
    names: Seq<Name>,
    layout: Seq<Name>,
    row: Row,
    other: Relation,
) -> bool {
    exists|j: int|
        0 <= j < other.rows.len() && same_for(
            names,
            layout,
            row,
            other.variables,
            #[trigger] other.rows[j],
        )
}

/// The value of a variable in a row that was cut down to some variables.
proof fn lemma_cut_value(layout: Seq<Name>, names: Seq<Name>, row: Row, x: Name)
    requires
        layout.len() <= usize::MAX,
        names.contains(x),
        layout.contains(x),
    ensures
        value_in(names, binding_bag::pick(row, binding_bag::columns(layout, names)), x) == value_in(
            layout,
            row,
            x,
        ),
{
    let k = names.index_of(x);
    let l = layout.index_of(x);
    assert(names[k] == x);
    assert(0 <= l < layout.len());
}

/// A row agrees with one that was cut down to variables of its own just where both have the same
/// values for these.
proof fn lemma_agree_with_cut(
    names: Seq<Name>,
    layout: Seq<Name>,
    row: Row,
    other: Seq<Name>,
    right: Row,
)
    requires
        other.len() <= usize::MAX,
        forall|x: Name| #[trigger] names.contains(x) ==> layout.contains(x) && other.contains(x),
    ensures
        bag_laws::agree(
            layout,
            row,
            names,
            binding_bag::pick(right, binding_bag::columns(other, names)),
        ) == same_for(names, layout, row, other, right),
{
    let cut = binding_bag::pick(right, binding_bag::columns(other, names));
    assert forall|x: Name| #[trigger] names.contains(x) implies value_in(names, cut, x) == value_in(
        other,
        right,
        x,
    ) by {
        lemma_cut_value(other, names, right, x);
    }
    if bag_laws::agree(layout, row, names, cut) {
        assert forall|x: Name| #[trigger] names.contains(x) implies value_in(layout, row, x)
            == value_in(other, right, x) by {
            assert(layout.contains(x) && names.contains(x));
        }
    }
    if same_for(names, layout, row, other, right) {
        assert forall|x: Name| #[trigger] layout.contains(x) && names.contains(x) implies value_in(
            layout,
            row,
            x,
        ) == value_in(names, cut, x) by {}
    }
}

/// All names of a list are in a layout.
proof fn lemma_all_bound(names: Seq<Name>, layout: Seq<Name>, x: Name)
    requires
        plan::all_bound(names, layout),
        names.contains(x),
    ensures
        layout.contains(x),
{
    let i = names.index_of(x);
    assert(layout.contains(names[i]));
}

/// A negation keeps exactly the rows whose values for its variables its body does not give, in
/// their order and under the same variables.
pub proof fn law_negation_keeps_what_is_not_found(
    p: NotPattern,
    input: BindingBag,
    added: &[Variable],
    target: &[Variable],
    body: BindingBag,
    r: Result<BindingBag, Error>,
)
    requires
        call_ensures(NotPattern::join, (&p, &input, added, target, &body), r),
        input@.wf(),
        body@.wf(),
        r is Ok,
    ensures
        r->Ok_0@.variables == input@.variables,
        r->Ok_0@.rows == input@.rows.filter(
            |row: Row| !found_among(p.variables.deep_view(), input@.variables, row, body@),
        ),
{
    let names = p.variables.deep_view();
    let layout = input@.variables;
    let cut = body@.spec_project(names);
    assert(input.variables.len() == layout.len() && p.variables.len() == names.len()
        && body.variables.len() == body@.variables.len());
    bag_laws::lemma_by_match(input@, cut, false, input@.rows);
    bag_laws::lemma_projection_fault(body@.variables, names);
    assert forall|x: Name| #[trigger] names.contains(x) implies layout.contains(x)
        && body@.variables.contains(x) by {
        lemma_all_bound(names, layout, x);
        let i = names.index_of(x);
        assert(body@.variables.contains(names[i]));
    }
    let missing = |row: Row| bag_laws::has_agreeing(layout, row, cut) == false;
    let wanted = |row: Row| !found_among(names, layout, row, body@);
    assert forall|row: Row| #[trigger] missing(row) == wanted(row) by {
        lemma_found(names, layout, row, body@);
    }
    bag_laws::lemma_same_filter(input@.rows, missing, wanted);
}

/// A row agrees with one of the rows that were cut down just where it is found among them.
proof fn lemma_found(names: Seq<Name>, layout: Seq<Name>, row: Row, body: Relation)
    requires
        body.variables.len() <= usize::MAX,
        forall|x: Name| #[trigger]
            names.contains(x) ==> layout.contains(x) && body.variables.contains(x),
    ensures
        bag_laws::has_agreeing(layout, row, body.spec_project(names)) == found_among(
            names,
            layout,
            row,
            body,
        ),
{
    let cut = body.spec_project(names);
    assert forall|j: int| 0 <= j < body.rows.len() implies bag_laws::agree(
        layout,
        row,
        names,
        #[trigger] cut.rows[j],
    ) == same_for(names, layout, row, body.variables, body.rows[j]) by {
        lemma_agree_with_cut(names, layout, row, body.variables, body.rows[j]);
    }
    if bag_laws::has_agreeing(layout, row, cut) {
        let j = choose|j: int|
            0 <= j < cut.rows.len() && bag_laws::agree(
                layout,
                row,
                cut.variables,
                #[trigger] cut.rows[j],
            );
        assert(same_for(names, layout, row, body.variables, body.rows[j]));
    }
    if found_among(names, layout, row, body) {
        let j = choose|j: int|
            0 <= j < body.rows.len() && same_for(
                names,
                layout,
                row,
                body.variables,
                #[trigger] body.rows[j],
            );
        assert(bag_laws::agree(layout, row, names, cut.rows[j]));
    }
}

/// The rows of branches taken together are those of each branch, cut down to the pattern's
/// variables, each once.
pub proof fn law_branches_taken_together(names: Seq<Name>, branches: Seq<Relation>, row: Row)
    ensures
        or::merged(names, branches).variables == names,
        or::merged(names, branches).rows.no_duplicates(),
        or::merged(names, branches).rows.contains(row) == exists|k: int, j: int|
            0 <= k < branches.len() && 0 <= j < branches[k].rows.len() && row
                == #[trigger] binding_bag::pick(
                branches[k].rows[j],
                binding_bag::columns(branches[k].variables, names),
            ),
    decreases branches.len(),
{
    if branches.len() > 0 {
        let front = branches.drop_last();
        let last = branches.last();
        let before = or::merged(names, front);
        let own = last.spec_project(names);
        let n = branches.len() - 1;
        law_branches_taken_together(names, front, row);
        binding_bag::law_distinct(before.spec_union(own));
        plan::lemma_concat_contains(before.rows, own.rows, row);
        if before.rows.contains(row) {
            let (k, j) = choose|k: int, j: int|
                0 <= k < front.len() && 0 <= j < front[k].rows.len() && row
                    == #[trigger] binding_bag::pick(
                    front[k].rows[j],
                    binding_bag::columns(front[k].variables, names),
                );
            assert(branches[k] == front[k]);
            assert(row == binding_bag::pick(
                branches[k].rows[j],
                binding_bag::columns(branches[k].variables, names),
            ));
        }
        if own.rows.contains(row) {
            let j = own.rows.index_of(row);
            assert(branches[n] == last);
            assert(row == binding_bag::pick(
                branches[n].rows[j],
                binding_bag::columns(branches[n].variables, names),
            ));
        }
        if exists|k: int, j: int|
            0 <= k < branches.len() && 0 <= j < branches[k].rows.len() && row
                == #[trigger] binding_bag::pick(
                branches[k].rows[j],
                binding_bag::columns(branches[k].variables, names),
            ) {
            let (k, j) = choose|k: int, j: int|
                0 <= k < branches.len() && 0 <= j < branches[k].rows.len() && row
                    == #[trigger] binding_bag::pick(
                    branches[k].rows[j],
                    binding_bag::columns(branches[k].variables, names),
                );
            if k < n {
                assert(front[k] == branches[k]);
                assert(row == binding_bag::pick(
                    front[k].rows[j],
                    binding_bag::columns(front[k].variables, names),
                ));
            } else {
                assert(own.rows[j] == row);
            }
        }
    } else {
        assert(!Seq::<Row>::empty().contains(row));
    }
}

/// Whether some branch gives a row with the same values for the named variables.
pub open spec fn found_in_some(
    names: Seq<Name>,
    layout: Seq<Name>,
    row: Row,
    branches: Seq<BindingBag>,
) -> bool {
    exists|k: int|
        0 <= k < branches.len() && found_among(names, layout, row, (#[trigger] branches[k])@)
}

/// What was cut down to its own variables is as before.
proof fn lemma_own_layout(rel: Relation)
    requires
        rel.wf(),
        rel.variables.len() <= usize::MAX,
    ensures
        rel.spec_project(rel.variables) == rel,
{
    let cols = binding_bag::columns(rel.variables, rel.variables);
    assert forall|i: int| 0 <= i < rel.variables.len() implies #[trigger] cols[i] == i by {
        binding_bag::lemma_index_of(rel.variables, i);
    }
    assert forall|i: int| 0 <= i < rel.rows.len() implies #[trigger] binding_bag::projected(
        rel.rows,
        cols,
    )[i] == rel.rows[i] by {
        assert(binding_bag::pick(rel.rows[i], cols) =~= rel.rows[i]);
    }
    assert(binding_bag::projected(rel.rows, cols) =~= rel.rows);
}

/// A disjunction that adds nothing keeps exactly the rows whose values for its variables one of its
/// branches gives, in their order and under the same variables.
pub proof fn law_disjunction_keeps_what_is_found(
    p: OrPattern,
    input: BindingBag,
    added: &[Variable],
    target: &[Variable],
    branches: &[BindingBag],
    r: Result<BindingBag, Error>,
)
    requires
        call_ensures(OrPattern::join, (&p, &input, added, target, branches), r),
        p.inv(),
        input@.wf(),
        or::all_wf(branches@),
        added@.len() == 0,
        r is Ok,
    ensures
        r->Ok_0@.variables == input@.variables,
        r->Ok_0@.rows == input@.rows.filter(
            |row: Row| found_in_some(p.variables.deep_view(), input@.variables, row, branches@),
        ),
{
    let names = p.variables.deep_view();
    let layout = input@.variables;
    let rels = or::relations(branches@);
    let merged = or::merged(names, rels);
    assert(added.deep_view().len() == 0);
    assert(input.variables.len() == layout.len() && p.variables.len() == names.len());
    law_branches_taken_together(names, rels, Seq::empty());
    bag_laws::lemma_by_match(input@, merged, true, input@.rows);
    let kept = |row: Row| bag_laws::has_agreeing(layout, row, merged) == true;
    let wanted = |row: Row| found_in_some(names, layout, row, branches@);
    assert forall|row: Row| #[trigger] kept(row) == wanted(row) by {
        lemma_found_in_some(names, layout, row, branches@);
    }
    bag_laws::lemma_same_filter(input@.rows, kept, wanted);
    let result = input@.spec_semijoin(merged);
    assert(result.variables == layout);
    assert(binding_bag::uniform(result.rows, layout.len())) by {
        lemma_filter_uniform(input@.rows, wanted, layout.len());
    }
    lemma_own_layout(result);
}

/// What is kept of rows of one length has that length.
proof fn lemma_filter_uniform(rows: Seq<Row>, p: spec_fn(Row) -> bool, n: nat)
    requires
        binding_bag::uniform(rows, n),
    ensures
        binding_bag::uniform(rows.filter(p), n),
{
    assert forall|i: int| 0 <= i < rows.filter(p).len() implies (
    #[trigger] rows.filter(p)[i]).len() == n by {
        rows.lemma_filter_contains_rev(p, rows.filter(p)[i]);
        assert(rows.filter(p).contains(rows.filter(p)[i]));
        let k = rows.index_of(rows.filter(p)[i]);
        assert(rows[k].len() == n);
    }
}

/// A row agrees with one of the rows of all branches just where some branch gives it.
proof fn lemma_found_in_some(
    names: Seq<Name>,
    layout: Seq<Name>,
    row: Row,
    branches: Seq<BindingBag>,
)
    requires
        or::all_wf(branches),
        plan::all_bound(names, layout),
        or::merge_fault(names, or::relations(branches)) is None,
    ensures
        bag_laws::has_agreeing(layout, row, or::merged(names, or::relations(branches)))
            == found_in_some(names, layout, row, branches),
{
    let rels = or::relations(branches);
    let merged = or::merged(names, rels);
    law_branches_taken_together(names, rels, row);
    assert forall|k: int| 0 <= k < branches.len() implies {
        &&& (#[trigger] branches[k])@.variables.len() <= usize::MAX
        &&& forall|x: Name| #[trigger]
            names.contains(x) ==> layout.contains(x) && branches[k]@.variables.contains(x)
    } by {
        assert(branches[k].variables.len() == branches[k]@.variables.len());
        lemma_merge_fault(names, rels, k);
        bag_laws::lemma_projection_fault(rels[k].variables, names);
        assert forall|x: Name| #[trigger] names.contains(x) implies layout.contains(x)
            && branches[k]@.variables.contains(x) by {
            lemma_all_bound(names, layout, x);
            let i = names.index_of(x);
            assert(rels[k].variables.contains(names[i]));
        }
    }
    if bag_laws::has_agreeing(layout, row, merged) {
        let m = choose|m: int|
            0 <= m < merged.rows.len() && bag_laws::agree(
                layout,
                row,
                merged.variables,
                #[trigger] merged.rows[m],
            );
        let t = merged.rows[m];
        law_branches_taken_together(names, rels, t);
        assert(merged.rows.contains(t));
        let (k, j) = choose|k: int, j: int|
            0 <= k < rels.len() && 0 <= j < rels[k].rows.len() && t == #[trigger] binding_bag::pick(
                rels[k].rows[j],
                binding_bag::columns(rels[k].variables, names),
            );
        assert(rels[k] == branches[k]@);
        lemma_agree_with_cut(names, layout, row, branches[k]@.variables, branches[k]@.rows[j]);
        assert(same_for(names, layout, row, branches[k]@.variables, branches[k]@.rows[j]));
        assert(found_among(names, layout, row, branches[k]@));
    }
    if found_in_some(names, layout, row, branches) {
        let k = choose|k: int|
            0 <= k < branches.len() && found_among(names, layout, row, (#[trigger] branches[k])@);
        let j = choose|j: int|
            0 <= j < branches[k]@.rows.len() && same_for(
                names,
                layout,
                row,
                branches[k]@.variables,
                #[trigger] branches[k]@.rows[j],
            );
        assert(rels[k] == branches[k]@);
        let t = binding_bag::pick(
            rels[k].rows[j],
            binding_bag::columns(rels[k].variables, names),
        );
        lemma_agree_with_cut(names, layout, row, branches[k]@.variables, branches[k]@.rows[j]);
        law_branches_taken_together(names, rels, t);
        assert(merged.rows.contains(t));
        let m = merged.rows.index_of(t);
        assert(bag_laws::agree(layout, row, merged.variables, merged.rows[m]));
    }
}

/// Where branches can be combined, each has the pattern's variables.
proof fn lemma_merge_fault(names: Seq<Name>, branches: Seq<Relation>, k: int)
    requires
        or::merge_fault(names, branches) is None,
        0 <= k < branches.len(),
    ensures
        binding_bag::projection_fault(branches[k].variables, names) is None,
    decreases branches.len(),
{
    if k < branches.len() - 1 {
        lemma_merge_fault(names, branches.drop_last(), k);
    }
}

/// The rows of which a verdict holds, one by one.
pub open spec fn with_verdicts(rows: Seq<Row>, verdicts: Seq<bool>) -> Seq<(Row, bool)> {
    Seq::new(rows.len(), |i: int| (rows[i], verdicts[i]))
}

/// A condition keeps the rows of which it holds, and only these, in their order.
pub proof fn law_kept_rows(rows: Seq<Row>, verdicts: Seq<bool>)
    requires
        rows.len() == verdicts.len(),
    ensures
        predicate::kept(rows, verdicts) == with_verdicts(rows, verdicts).filter(
            |pair: (Row, bool)| pair.1,
        ).map_values(|pair: (Row, bool)| pair.0),
    decreases rows.len(),
{
    let holds = |pair: (Row, bool)| pair.1;
    let first = |pair: (Row, bool)| pair.0;
    let pairs = with_verdicts(rows, verdicts);
    reveal(Seq::filter);
    if rows.len() > 0 {
        let front = with_verdicts(rows.drop_last(), verdicts.drop_last());
        law_kept_rows(rows.drop_last(), verdicts.drop_last());
        assert(pairs.drop_last() =~= front);
        assert(pairs.last() == (rows.last(), verdicts.last()));
        if verdicts.last() {
            assert(front.filter(holds).push(pairs.last()).map_values(first) =~= front.filter(
                holds,
            ).map_values(first).push(rows.last()));
        }
    } else {
        assert(pairs.filter(holds).map_values(first) =~= Seq::empty());
    }
}

/// A function whose output is bound keeps the rows whose value there is its result; one whose output
/// is not bound adds its result to each row on which it has one, and drops the others.
pub proof fn law_function_rows(
    rows: Seq<Row>,
    col: int,
    results: Seq<Option<Value>>,
    i: int,
    row: Row,
)
    requires
        rows.len() == results.len(),
        0 <= i < rows.len(),
    ensures
        (exists|v: Value| #[trigger]
            codec::encoding(v) == rows[i][col] && results[i] == Some(v)) ==> function::confirmed(
            rows,
            col,
            results,
        ).contains(rows[i]),
        function::confirmed(rows, col, results).contains(row) ==> exists|k: int|
            0 <= k < rows.len() && row == #[trigger] rows[k] && results[k] == Some(
                codec::decoded(rows[k][col]).unwrap().0,
            ),
        binding_bag::extended(rows, function::extensions(results)).contains(row) == exists|k: int|
            0 <= k < rows.len() && (#[trigger] results[k] matches Some(v) && row == rows[k] + seq![
                codec::encoding(v),
            ]),
{
    lemma_confirmed(rows, col, results, row);
    if exists|v: Value| #[trigger] codec::encoding(v) == rows[i][col] && results[i] == Some(v) {
        let v = choose|v: Value| #[trigger]
            codec::encoding(v) == rows[i][col] && results[i] == Some(v);
        codec::law_decode_encoded(v, Seq::empty());
        assert(codec::encoding(v) + Seq::<u8>::empty() =~= codec::encoding(v));
        lemma_confirmed(rows, col, results, rows[i]);
    }
    let more = function::extensions(results);
    bag_laws::lemma_extended(rows, more, row);
    if binding_bag::extended(rows, more).contains(row) {
        let (k, j) = choose|k: int, j: int|
            0 <= k < rows.len() && 0 <= j < more[k].len() && row == rows[k]
                + #[trigger] more[k][j];
        assert(results[k] is Some);
    }
    if exists|k: int|
        0 <= k < rows.len() && (#[trigger] results[k] matches Some(v) && row == rows[k] + seq![
            codec::encoding(v),
        ]) {
        let k = choose|k: int|
            0 <= k < rows.len() && (#[trigger] results[k] matches Some(v) && row == rows[k] + seq![
                codec::encoding(v),
            ]);
        assert(row == rows[k] + more[k][0]);
    }
}

/// The rows that a function confirms.
proof fn lemma_confirmed(rows: Seq<Row>, col: int, results: Seq<Option<Value>>, row: Row)
    requires
        rows.len() == results.len(),
    ensures
        function::confirmed(rows, col, results).contains(row) == exists|k: int|
            0 <= k < rows.len() && row == #[trigger] rows[k] && results[k] == Some(
                codec::decoded(rows[k][col]).unwrap().0,
            ),
    decreases rows.len(),
{
    let all = function::confirmed(rows, col, results);
    if rows.len() > 0 {
        let front = rows.drop_last();
        let before = results.drop_last();
        let earlier = function::confirmed(front, col, before);
        lemma_confirmed(front, col, before, row);
        if results.last() == Some(codec::decoded(rows.last()[col]).unwrap().0) {
            binding_bag::lemma_contains_split(all, row);
            assert(all.drop_last() =~= earlier);
        }
        if earlier.contains(row) {
            let k = choose|k: int|
                0 <= k < front.len() && row == #[trigger] front[k] && before[k] == Some(
                    codec::decoded(front[k][col]).unwrap().0,
                );
            assert(rows[k] == front[k]);
        }
        if all.contains(row) && !earlier.contains(row) {
            assert(rows[rows.len() - 1] == rows.last());
        }
        if exists|k: int|
            0 <= k < rows.len() && row == #[trigger] rows[k] && results[k] == Some(
                codec::decoded(rows[k][col]).unwrap().0,
            ) {
            let k = choose|k: int|
                0 <= k < rows.len() && row == #[trigger] rows[k] && results[k] == Some(
                    codec::decoded(rows[k][col]).unwrap().0,
                );
            if k < front.len() {
                assert(front[k] == rows[k]);
                assert(before[k] == results[k]);
            }
        }
    } else {
        assert(!Seq::<Row>::empty().contains(row));
    }
}

} // verus!
