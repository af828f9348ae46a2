//! What a relation pattern has to do with the operations on relations.

use vstd::prelude::*;

use crate::byte_string::Row;
use crate::error::ErrorView;
use crate::query::binding_bag::{self, Relation};
use crate::query::exec_pattern::{self, Proposal};
use crate::query::patterns::relation::{self, RelationPattern};
use crate::query::plan;
use crate::variable::{self, Name};

verus! {

/// The rows cut down to their first values.
spec fn cut(rows: Seq<Row>, n: nat) -> Seq<Row> {
    Seq::new(rows.len(), |i: int| rows[i].take(n as int))
}

/// Which slices there are.
proof fn lemma_slices_contain(rows: Seq<Row>, key: Row, depth: nat, s: Row)
    ensures
        relation::slices(rows, key, depth).contains(s) == exists|i: int|
            0 <= i < rows.len() && (#[trigger] rows[i]).take(key.len() as int) == key
                && rows[i].subrange(key.len() as int, (key.len() + depth) as int) == s,
    decreases rows.len(),
{
    if rows.len() > 0 {
        let front = rows.drop_last();
        let all = relation::slices(rows, key, depth);
        lemma_slices_contain(front, key, depth, s);
        if rows.last().take(key.len() as int) == key {
            binding_bag::lemma_contains_split(all, s);
            assert(all.drop_last() =~= relation::slices(front, key, depth));
        }
        if all.contains(s) {
            if relation::slices(front, key, depth).contains(s) {
                let i = choose|i: int|
                    0 <= i < front.len() && (#[trigger] front[i]).take(key.len() as int) == key
                        && front[i].subrange(key.len() as int, (key.len() + depth) as int) == s;
                assert(rows[i] == front[i]);
            } else {
                assert(rows[rows.len() - 1].take(key.len() as int) == key);
            }
        }
        if exists|i: int|
            0 <= i < rows.len() && (#[trigger] rows[i]).take(key.len() as int) == key
                && rows[i].subrange(key.len() as int, (key.len() + depth) as int) == s {
            let i = choose|i: int|
                0 <= i < rows.len() && (#[trigger] rows[i]).take(key.len() as int) == key
                    && rows[i].subrange(key.len() as int, (key.len() + depth) as int) == s;
            if i < front.len() {
                assert(front[i] == rows[i]);
            }
        }
    }
}

/// The matches of one row among the different first parts of rows are the row with each of the
/// ways to extend its key.
proof fn lemma_matches(
    left: Row,
    lkey: Row,
    rkey: Seq<usize>,
    rest: Seq<usize>,
    rows: Seq<Row>,
    key: Row,
    depth: nat,
)
    requires
        forall|i: int| 0 <= i < rows.len() ==> (#[trigger] rows[i]).len() >= key.len() + depth,
        forall|t: Row|
            t.len() == key.len() + depth ==> (#[trigger] binding_bag::pick(t, rkey) == lkey) == (
            t.take(key.len() as int) == key),
        forall|t: Row|
            t.len() == key.len() + depth ==> #[trigger] binding_bag::pick(t, rest) == t.skip(
                key.len() as int,
            ),
    ensures
        binding_bag::matches_of(
            left,
            lkey,
            binding_bag::distinct_rows(cut(rows, key.len() + depth)),
            rkey,
            rest,
        ) == binding_bag::extended_row(left, relation::extensions_of(rows, key, depth)),
    decreases rows.len(),
{
    let n = key.len() as int;
    let width = key.len() + depth;
    if rows.len() == 0 {
        assert(cut(rows, width) =~= Seq::<Row>::empty());
        assert(binding_bag::extended_row(left, relation::extensions_of(rows, key, depth)) =~= Seq::<
            Row,
        >::empty());
    } else {
        let front = rows.drop_last();
        assert forall|i: int| 0 <= i < front.len() implies (#[trigger] front[i]).len() >= key.len()
            + depth by {
            assert(front[i] == rows[i]);
        }
        lemma_matches(left, lkey, rkey, rest, front, key, depth);
        let r = rows.last();
        assert(rows[rows.len() - 1].len() >= width);
        let t = r.take(width as int);
        let s = r.subrange(n, n + depth);
        let all = cut(rows, width);
        let earlier = cut(front, width);
        assert(all.drop_last() =~= earlier);
        assert(all.last() == t);
        assert(t.take(n) =~= r.take(n));
        assert(t.skip(n) =~= s);
        let seen = relation::slices(front, key, depth);
        lemma_slices_contain(front, key, depth, s);
        if r.take(n) == key {
            assert(relation::slices(rows, key, depth).drop_last() =~= seen);
            assert(relation::slices(rows, key, depth).last() == s);
            if earlier.contains(t) {
                let i = earlier.index_of(t);
                assert(front[i].take(width as int) == t);
                assert(front[i].take(n) =~= t.take(n));
                assert(front[i].subrange(n, n + depth) =~= t.skip(n));
                assert(seen.contains(s));
            } else {
                if seen.contains(s) {
                    let i = choose|i: int|
                        0 <= i < front.len() && (#[trigger] front[i]).take(n) == key
                            && front[i].subrange(n, n + depth) == s;
                    assert(front[i].take(width as int) =~= key + s);
                    assert(t =~= key + s);
                    assert(earlier[i] == t);
                }
                let fewer = binding_bag::distinct_rows(earlier);
                assert(fewer.push(t).drop_last() =~= fewer);
                assert(binding_bag::pick(t, rkey) == lkey);
                assert(binding_bag::pick(t, rest) == s);
                assert(binding_bag::extended_row(
                    left,
                    binding_bag::distinct_rows(seen).push(s),
                ) =~= binding_bag::extended_row(left, binding_bag::distinct_rows(seen)).push(
                    left + s,
                ));
            }
        } else {
            if !earlier.contains(t) {
                let fewer = binding_bag::distinct_rows(earlier);
                assert(fewer.push(t).drop_last() =~= fewer);
                assert(binding_bag::pick(t, rkey) != lkey);
            }
        }
    }
}

/// What is missing of names of which the first are there and the others are not.
proof fn lemma_missing_tail(names: Seq<Name>, bound: Seq<Name>, n: int)
    requires
        0 <= n <= names.len(),
        forall|i: int| 0 <= i < n ==> bound.contains(#[trigger] names[i]),
        forall|i: int| n <= i < names.len() ==> !bound.contains(#[trigger] names[i]),
    ensures
        binding_bag::missing(names, bound) == names.skip(n),
    decreases names.len(),
{
    if names.len() == 0 {
        assert(names.skip(n) =~= Seq::<Name>::empty());
    } else {
        let front = names.drop_last();
        assert forall|i: int| 0 <= i < n && i < front.len() implies bound.contains(
            #[trigger] front[i],
        ) by {
            assert(front[i] == names[i]);
        }
        assert forall|i: int| n <= i < front.len() implies !bound.contains(
            #[trigger] front[i],
        ) by {
            assert(front[i] == names[i]);
        }
        assert(names[names.len() - 1] == names.last());
        if n == names.len() {
            lemma_missing_tail(front, bound, n - 1);
            assert(front.skip(n - 1) =~= names.skip(n));
        } else {
            lemma_missing_tail(front, bound, n);
            assert(front.skip(n).push(names.last()) =~= names.skip(n));
        }
    }
}

/// A row agrees with another on what both have just where it begins with the other's key.
proof fn lemma_same_key(input: Seq<Name>, names: Seq<Name>, n: int, left: Row, t: Row)
    requires
        variable::unique(input),
        variable::unique(names),
        input.len() <= usize::MAX,
        names.len() <= usize::MAX,
        0 <= n <= names.len(),
        t.len() == names.len(),
        forall|i: int| 0 <= i < n ==> input.contains(#[trigger] names[i]),
        forall|i: int| n <= i < names.len() ==> !input.contains(#[trigger] names[i]),
    ensures
        ({
            let shared = binding_bag::common(input, names);
            (binding_bag::pick(t, binding_bag::columns(names, shared)) == binding_bag::pick(
                left,
                binding_bag::columns(input, shared),
            )) == (t.take(n) == binding_bag::pick(
                left,
                binding_bag::columns(input, names.take(n)),
            ))
        }),
{
    let shared = binding_bag::common(input, names);
    let rcols = binding_bag::columns(names, shared);
    let lcols = binding_bag::columns(input, shared);
    let theirs = binding_bag::pick(t, rcols);
    let ours = binding_bag::pick(left, lcols);
    let key = binding_bag::pick(left, binding_bag::columns(input, names.take(n)));
    if theirs == ours {
        assert forall|i: int| 0 <= i < n implies t.take(n)[i] == #[trigger] key[i] by {
            let v = names[i];
            plan::lemma_common_contains(input, names, v);
            assert(names.contains(v));
            let k = shared.index_of(v);
            binding_bag::lemma_index_of(names, i);
            assert(theirs[k] == ours[k]);
        }
        assert(t.take(n) =~= key);
    }
    if t.take(n) == key {
        assert forall|k: int| 0 <= k < shared.len() implies theirs[k] == #[trigger] ours[k] by {
            let v = shared[k];
            assert(shared.contains(v));
            plan::lemma_common_contains(input, names, v);
            let i = names.index_of(v);
            assert(names[i] == v);
            assert(i < n);
            assert(t.take(n)[i] == key[i]);
            assert(names.take(n)[i] == v);
        }
        assert(theirs =~= ours);
    }
}

/// The same, over all rows of an input.
proof fn lemma_joined(
    input: Seq<Row>,
    rows: Seq<Row>,
    lkey: Seq<usize>,
    rkey: Seq<usize>,
    rest: Seq<usize>,
    cols: Seq<usize>,
    depth: nat,
)
    requires
        forall|i: int| 0 <= i < rows.len() ==> (#[trigger] rows[i]).len() >= cols.len() + depth,
        forall|left: Row, t: Row|
            t.len() == cols.len() + depth ==> (#[trigger] binding_bag::pick(t, rkey)
                == #[trigger] binding_bag::pick(left, lkey)) == (t.take(cols.len() as int)
                == binding_bag::pick(left, cols)),
        forall|t: Row|
            t.len() == cols.len() + depth ==> #[trigger] binding_bag::pick(t, rest) == t.skip(
                cols.len() as int,
            ),
    ensures
        binding_bag::joined_rows(
            input,
            binding_bag::distinct_rows(cut(rows, cols.len() + depth)),
            lkey,
            rkey,
            rest,
        ) == binding_bag::extended(
            input,
            relation::all_extensions(rows, binding_bag::projected(input, cols), depth),
        ),
    decreases input.len(),
{
    if input.len() > 0 {
        let front = input.drop_last();
        let left = input.last();
        let key = binding_bag::pick(left, cols);
        lemma_joined(front, rows, lkey, rkey, rest, cols, depth);
        lemma_matches(
            left,
            binding_bag::pick(left, lkey),
            rkey,
            rest,
            rows,
            key,
            depth,
        );
        let every = relation::all_extensions(rows, binding_bag::projected(input, cols), depth);
        assert(every.drop_last() =~= relation::all_extensions(
            rows,
            binding_bag::projected(front, cols),
            depth,
        ));
        assert(every.last() == relation::extensions_of(rows, key, depth));
    }
}

/// A relation pattern that adds variables joins its input with the relation, cut down to the bound
/// and the added variables and each row once.
pub proof fn law_join_is_natural_join(
    pattern: RelationPattern,
    input: Relation,
    added: Seq<Name>,
    target: Seq<Name>,
)
    requires
        pattern.relation@.wf(),
        pattern.relation@.variables.len() <= usize::MAX,
        input.wf(),
        input.variables.len() <= usize::MAX,
        added.len() > 0,
        relation::prefix_for(pattern.relation@.variables, input.variables, added) is Some,
        target.len() == input.variables.len() + added.len(),
        binding_bag::projection_fault(input.variables + added, target) is None,
    ensures
        ({
            let bound = relation::prefix_for(
                pattern.relation@.variables,
                input.variables,
                added,
            ).unwrap();
            pattern.joined(input, added, target) == Ok::<Relation, ErrorView>(
                input.spec_natural_join(
                    pattern.relation@.spec_project(
                        pattern.relation@.variables.take((bound + added.len()) as int),
                    ).spec_distinct(),
                ).spec_project(target),
            )
        }),
{
    let names = pattern.relation@.variables;
    let rows = pattern.relation@.rows;
    let n = relation::prefix_for(names, input.variables, added).unwrap();
    let depth = added.len();
    let width = n + depth;
    let short = names.take(width as int);
    let other = pattern.relation@.spec_project(short).spec_distinct();
    assert forall|i: int| 0 <= i < n implies input.variables.contains(#[trigger] names[i]) by {
        relation::lemma_prefix_bound(names, input.variables, i);
    }
    assert forall|i: int| 0 <= i < n implies input.variables.contains(#[trigger] short[i]) by {
        assert(short[i] == names[i]);
    }
    assert forall|i: int| n <= i < short.len() implies !input.variables.contains(
        #[trigger] short[i],
    ) by {
        assert(short[i] == names[i]);
    }
    assert(variable::unique(short)) by {
        assert forall|i: int, j: int| 0 <= i < j < short.len() implies short[i] != short[j] by {
            assert(names[i] != names[j]);
        }
    }
    lemma_missing_tail(short, input.variables, n as int);
    assert(short.skip(n as int) =~= names.subrange(n as int, width as int));
    assert(input.new_names(other) == added);
    let cols = binding_bag::columns(names, short);
    assert(binding_bag::projected(rows, cols) =~= cut(rows, width)) by {
        assert forall|i: int| 0 <= i < rows.len() implies binding_bag::projected(rows, cols)[i]
            == #[trigger] cut(rows, width)[i] by {
            assert forall|k: int| 0 <= k < width implies binding_bag::pick(rows[i], cols)[k]
                == #[trigger] rows[i].take(width as int)[k] by {
                binding_bag::lemma_index_of(names, k);
                assert(short[k] == names[k]);
            }
            assert(binding_bag::pick(rows[i], cols) =~= rows[i].take(width as int));
        }
    }
    let shared = input.shared(other);
    let lkey = binding_bag::columns(input.variables, shared);
    let rkey = binding_bag::columns(short, shared);
    let rest = binding_bag::columns(short, added);
    let keys = pattern.key_columns(input, n);
    assert(short.take(n as int) =~= names.take(n as int));
    assert forall|left: Row, t: Row| t.len() == keys.len() + depth implies (
    #[trigger] binding_bag::pick(t, rkey) == #[trigger] binding_bag::pick(left, lkey)) == (t.take(
        keys.len() as int,
    ) == binding_bag::pick(left, keys)) by {
        lemma_same_key(input.variables, short, n as int, left, t);
    }
    assert forall|t: Row| t.len() == keys.len() + depth implies #[trigger] binding_bag::pick(
        t,
        rest,
    ) == t.skip(keys.len() as int) by {
        assert forall|k: int| 0 <= k < depth implies binding_bag::pick(t, rest)[k]
            == #[trigger] t.skip(n as int)[k] by {
            assert(short[n + k] == added[k]);
            binding_bag::lemma_index_of(short, n + k);
        }
        assert(binding_bag::pick(t, rest) =~= t.skip(n as int));
    }
    lemma_joined(input.rows, rows, lkey, rkey, rest, keys, depth);
}

/// Whether just the first so many of the names are bound.
pub open spec fn bound_first(names: Seq<Name>, bound: Seq<Name>, n: nat) -> bool {
    &&& n <= names.len()
    &&& forall|i: int| 0 <= i < names.len() ==> bound.contains(#[trigger] names[i]) == (i < n)
}

/// Where the bound names end.
proof fn lemma_end_of_bound(names: Seq<Name>, bound: Seq<Name>)
    ensures
        plan::bound_prefix(names, bound) <= names.len(),
        plan::bound_prefix(names, bound) < names.len() ==> !bound.contains(
            names[plan::bound_prefix(names, bound) as int],
        ),
    decreases names.len(),
{
    if names.len() > 0 && bound.contains(names[0]) {
        lemma_end_of_bound(names.drop_first(), bound);
    }
}

/// The bound names are a prefix exactly if just the first so many are bound.
proof fn lemma_prefix_of(names: Seq<Name>, bound: Seq<Name>, n: nat)
    ensures
        (relation::prefix_of(names, bound) == Some(n)) == bound_first(names, bound, n),
{
    let k = plan::bound_prefix(names, bound);
    lemma_end_of_bound(names, bound);
    assert forall|i: int| 0 <= i < k implies bound.contains(#[trigger] names[i]) by {
        relation::lemma_prefix_bound(names, bound, i);
    }
    if bound_first(names, bound, n) {
        if k < n {
            assert(bound.contains(names[k as int]));
        }
        if n < k {
            assert(bound.contains(names[n as int]));
        }
    }
    if relation::prefix_of(names, bound) == Some(n) {
        assert forall|i: int| 0 <= i < names.len() implies bound.contains(#[trigger] names[i]) == (i
            < n) by {}
    }
}

/// Whether a row of a relation and a row have the same value wherever they have the same variable.
pub open spec fn agree(names: Seq<Name>, held: Row, layout: Seq<Name>, row: Row) -> bool {
    forall|j: int, k: int|
        0 <= j < names.len() && 0 <= k < layout.len() && #[trigger] names[j]
            == #[trigger] layout[k] ==> held[j] == row[k]
}

/// A row of a relation begins with the values of a row at the bound columns exactly if they agree.
proof fn lemma_agree(names: Seq<Name>, held: Row, layout: Seq<Name>, row: Row, n: nat)
    requires
        bound_first(names, layout, n),
        variable::unique(layout),
        layout.len() <= usize::MAX,
        held.len() == names.len(),
    ensures
        ({
            let key = binding_bag::pick(row, binding_bag::columns(layout, names.take(n as int)));
            (held.take(key.len() as int) == key) == agree(names, held, layout, row)
        }),
{
    let cols = binding_bag::columns(layout, names.take(n as int));
    let key = binding_bag::pick(row, cols);
    assert(key.len() == n);
    assert forall|j: int| 0 <= j < n implies layout.contains(#[trigger] names[j]) && key[j]
        == row[layout.index_of(names[j])] by {
        assert(names.take(n as int)[j] == names[j]);
        assert(0 <= layout.index_of(names[j]) < layout.len());
    }
    if held.take(n as int) == key {
        assert forall|j: int, k: int|
            0 <= j < names.len() && 0 <= k < layout.len() && #[trigger] names[j]
                == #[trigger] layout[k] implies held[j] == row[k] by {
            assert(layout.contains(layout[k]));
            assert(layout.contains(names[j]));
            assert(layout.index_of(names[j]) == k);
            assert(held.take(n as int)[j] == key[j]);
        }
    }
    if agree(names, held, layout, row) {
        assert forall|j: int| 0 <= j < n implies held.take(n as int)[j] == key[j] by {
            assert(layout.contains(names[j]));
            let k = layout.index_of(names[j]);
            assert(names[j] == layout[k]);
        }
        assert(held.take(n as int) =~= key);
    }
}

/// A relation pattern that adds nothing keeps just the rows with which a row of the relation agrees.
pub proof fn law_relation_keeps_what_it_holds(
    pattern: RelationPattern,
    input: Relation,
    n: nat,
    row: Row,
)
    requires
        pattern.relation@.wf(),
        input.wf(),
        input.variables.len() <= usize::MAX,
        bound_first(pattern.relation@.variables, input.variables, n),
    ensures
        pattern.joined(input, Seq::empty(), input.variables) matches Ok(kept) && kept.variables
            == input.variables && kept.rows.contains(row) == (input.rows.contains(row) && exists|
            m: int,
        |
            0 <= m < pattern.relation@.rows.len() && agree(
                pattern.relation@.variables,
                #[trigger] pattern.relation@.rows[m],
                input.variables,
                row,
            )),
{
    lemma_prefix_of(pattern.relation@.variables, input.variables, n);
    lemma_accepted(
        pattern.relation@.rows,
        pattern.relation@.variables,
        input.variables,
        input.rows,
        n,
        row,
    );
}

/// Which rows are accepted.
proof fn lemma_accepted(
    held: Seq<Row>,
    names: Seq<Name>,
    layout: Seq<Name>,
    rows: Seq<Row>,
    n: nat,
    row: Row,
)
    requires
        bound_first(names, layout, n),
        variable::unique(layout),
        layout.len() <= usize::MAX,
        binding_bag::uniform(held, names.len()),
    ensures
        relation::accepted(
            held,
            rows,
            binding_bag::columns(layout, names.take(n as int)),
        ).contains(row) == (rows.contains(row) && exists|m: int|
            0 <= m < held.len() && agree(names, #[trigger] held[m], layout, row)),
    decreases rows.len(),
{
    let cols = binding_bag::columns(layout, names.take(n as int));
    if rows.len() > 0 {
        let front = rows.drop_last();
        let last = rows.last();
        lemma_accepted(held, names, layout, front, n, row);
        let earlier = relation::accepted(held, front, cols);
        let key = binding_bag::pick(last, cols);
        let found = relation::slices(held, key, 0);
        lemma_slices_contain(held, key, 0, Seq::empty());
        if found.len() > 0 {
            assert(found.contains(found[0]));
            lemma_slices_contain(held, key, 0, found[0]);
            let m = choose|m: int|
                0 <= m < held.len() && (#[trigger] held[m]).take(key.len() as int) == key
                    && held[m].subrange(key.len() as int, (key.len() + 0) as int) == found[0];
            lemma_agree(names, held[m], layout, last, n);
        }
        if exists|m: int| 0 <= m < held.len() && agree(names, #[trigger] held[m], layout, last) {
            let m = choose|m: int|
                0 <= m < held.len() && agree(names, #[trigger] held[m], layout, last);
            lemma_agree(names, held[m], layout, last, n);
            assert(held[m].subrange(key.len() as int, (key.len() + 0) as int) =~= Seq::empty());
        }
        assert(rows =~= front.push(last));
        assert(rows.contains(row) == (front.contains(row) || row == last)) by {
            if front.contains(row) {
                assert(rows[front.index_of(row)] == row);
            }
            if row == last {
                assert(rows[rows.len() - 1] == row);
            }
            if rows.contains(row) {
                let i = rows.index_of(row);
                if i < front.len() {
                    assert(front[i] == row);
                }
            }
        }
        let more = earlier.push(last);
        assert(more.contains(row) == (earlier.contains(row) || row == last)) by {
            if earlier.contains(row) {
                assert(more[earlier.index_of(row)] == row);
            }
            if row == last {
                assert(more[more.len() - 1] == row);
            }
            if more.contains(row) {
                let i = more.index_of(row);
                if i < earlier.len() {
                    assert(earlier[i] == row);
                }
            }
        }
    }
}

/// A relation pattern joins rows exactly if just the first of its variables are bound, and it adds
/// nothing and leaves the layout, or it adds those that follow and the target layout is made of what is
/// bound and what is added.
pub proof fn law_when_a_relation_joins(
    pattern: RelationPattern,
    input: Relation,
    added: Seq<Name>,
    target: Seq<Name>,
)
    ensures
        ({
            let names = pattern.relation@.variables;
            pattern.joined(input, added, target) is Ok == if added.len() == 0 {
                target == input.variables && exists|n: nat| #[trigger]
                    bound_first(names, input.variables, n)
            } else {
                (exists|n: nat| #[trigger]
                    bound_first(names, input.variables, n) && n + added.len() <= names.len()
                        && names.subrange(n as int, (n + added.len()) as int) == added)
                    && target.len() == input.variables.len() + added.len()
                    && binding_bag::projection_fault(input.variables + added, target) is None
            }
        }),
{
    let names = pattern.relation@.variables;
    let k = plan::bound_prefix(names, input.variables);
    lemma_prefix_of(names, input.variables, k);
    if exists|n: nat| #[trigger] bound_first(names, input.variables, n) {
        let n = choose|n: nat| #[trigger] bound_first(names, input.variables, n);
        lemma_prefix_of(names, input.variables, n);
        assert forall|m: nat| #[trigger] bound_first(names, input.variables, m) implies m == n by {
            lemma_prefix_of(names, input.variables, m);
        }
    }
}

/// A relation pattern offers, for a row, as many ways to go on as there are different ones: each way is
/// the values that follow in a row of the relation that begins with the key, and none is counted twice.
pub proof fn law_offers_of_a_relation(
    pattern: RelationPattern,
    input: Relation,
    added: Seq<Name>,
    i: int,
    before: Proposal,
    key: Row,
    way: Row,
)
    ensures
        ({
            let rows = pattern.relation@.rows;
            let ways = relation::extensions_of(rows, key, added.len());
            &&& ways.no_duplicates()
            &&& ways.contains(way) == exists|m: int|
                0 <= m < rows.len() && (#[trigger] rows[m]).take(key.len() as int) == key
                    && rows[m].subrange(key.len() as int, (key.len() + added.len()) as int) == way
            &&& added.len() == 0 || pattern.keys(input, added) is None ==> pattern.offered(
                input,
                added,
                i,
                before,
            ) == before
            &&& added.len() > 0 ==> (pattern.keys(input, added) matches Some(keys) ==> keys[i] == key
                ==> pattern.offered(input, added, i, before) == exec_pattern::considered(
                before,
                pattern.id,
                ways.len() as usize,
            ))
        }),
{
    let rows = pattern.relation@.rows;
    binding_bag::lemma_distinct_no_duplicates(relation::slices(rows, key, added.len()));
    binding_bag::lemma_distinct_contains(relation::slices(rows, key, added.len()), way);
    lemma_slices_contain(rows, key, added.len(), way);
}

} // verus!
