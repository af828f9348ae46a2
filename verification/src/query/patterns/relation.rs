//! Patterns that match the rows of a relation.

use vstd::prelude::*;

use crate::byte_string::{self, copy_row, same_bytes, Row};
use crate::error::{Error, ErrorView};
use crate::query::binding_bag::{self, BindingBag, BindingRow, Relation};
use crate::query::exec_pattern::{self, ExecPattern, Proposal};
use crate::query::plan::{self, PatternId};
use crate::text;
use crate::variable::{contains, copy_all, list_text, same_all, Name, Variable};

verus! {

/// A pattern that matches the rows of a relation.
///
/// Bound variables are read from the input in the order of the relation's own variables,
/// wherever they stand in the input. The bound variables have to be the first of the
/// relation's, and the variables that it adds the next ones.
#[derive(Debug)]
pub struct RelationPattern {
    pub id: PatternId,
    pub relation: BindingBag,
}

/// How many of the relation's variables are bound, where those are its first ones.
pub open spec fn prefix_of(names: Seq<Name>, bound: Seq<Name>) -> Option<nat> {
    let n = plan::bound_prefix(names, bound);
    if forall|i: int| n <= i < names.len() ==> !bound.contains(#[trigger] names[i]) {
        Some(n)
    } else {
        None
    }
}

/// The same, where the added variables are the next ones as well.
pub open spec fn prefix_for(
    names: Seq<Name>,
    bound: Seq<Name>,
    added: Seq<Name>,
) -> Option<nat> {
    match prefix_of(names, bound) {
        Some(n) => if n + added.len() <= names.len() && names.subrange(
            n as int,
            (n + added.len()) as int,
        ) == added {
            Some(n)
        } else {
            None
        },
        None => None,
    }
}

/// The next `depth` values of each row that begins with the key.
pub open spec fn slices(rows: Seq<Row>, key: Row, depth: nat) -> Seq<Row>
    decreases rows.len(),
{
    if rows.len() == 0 {
        Seq::empty()
    } else {
        let earlier = slices(rows.drop_last(), key, depth);
        if rows.last().take(key.len() as int) == key {
            earlier.push(rows.last().subrange(key.len() as int, (key.len() + depth) as int))
        } else {
            earlier
        }
    }
}

/// The different ways to extend a key by `depth` values.
pub open spec fn extensions_of(rows: Seq<Row>, key: Row, depth: nat) -> Seq<Row> {
    binding_bag::distinct_rows(slices(rows, key, depth))
}

/// The ways to extend each of the keys.
pub open spec fn all_extensions(rows: Seq<Row>, keys: Seq<Row>, depth: nat) -> Seq<Seq<Row>> {
    Seq::new(keys.len(), |i: int| extensions_of(rows, keys[i], depth))
}

/// The rows of an input whose key begins some row of the relation.
pub open spec fn accepted(rows: Seq<Row>, input: Seq<Row>, cols: Seq<usize>) -> Seq<Row>
    decreases input.len(),
{
    if input.len() == 0 {
        Seq::empty()
    } else {
        let earlier = accepted(rows, input.drop_last(), cols);
        if slices(rows, binding_bag::pick(input.last(), cols), 0).len() > 0 {
            earlier.push(input.last())
        } else {
            earlier
        }
    }
}

impl RelationPattern {
    /// The columns of the input in which the relation's first `n` variables stand.
    pub open spec fn key_columns(self, input: Relation, n: nat) -> Seq<usize> {
        binding_bag::columns(input.variables, self.relation@.variables.take(n as int))
    }

    /// What a join gives.
    pub open spec fn joined(
        self,
        input: Relation,
        added: Seq<Name>,
        target: Seq<Name>,
    ) -> Result<Relation, ErrorView> {
        let names = self.relation@.variables;
        if added.len() == 0 {
            if target != input.variables {
                Err(ErrorView::RelationLayout)
            } else {
                match prefix_of(names, input.variables) {
                    None => Err(ErrorView::NotAPrefix),
                    Some(n) => Ok(
                        Relation {
                            variables: input.variables,
                            rows: accepted(
                                self.relation@.rows,
                                input.rows,
                                self.key_columns(input, n),
                            ),
                        },
                    ),
                }
            }
        } else {
            match prefix_for(names, input.variables, added) {
                None => Err(ErrorView::RelationCannotPropose(text::listed(added))),
                Some(n) => {
                    let wide = Relation {
                        variables: input.variables + added,
                        rows: binding_bag::extended(
                            input.rows,
                            all_extensions(
                                self.relation@.rows,
                                binding_bag::projected(input.rows, self.key_columns(input, n)),
                                added.len(),
                            ),
                        ),
                    };
                    if target.len() != wide.variables.len() {
                        Err(ErrorView::ReorderLayout)
                    } else {
                        match binding_bag::projection_fault(wide.variables, target) {
                            Some(e) => Err(e),
                            None => Ok(wide.spec_project(target)),
                        }
                    }
                },
            }
        }
    }

    /// A pattern that matches the rows of a relation.
    pub fn new(id: PatternId, relation: BindingBag) -> (r: Self)
        requires
            relation@.wf(),
        ensures
            r.id == id,
            r.relation@ == relation@,
            r.inv(),
    {
        RelationPattern { id, relation }
    }

    /// How many of the relation's variables are bound, where those are its first ones.
    fn bound_prefix_len(&self, input: &BindingBag) -> (r: Option<usize>)
        ensures
            match r {
                Some(n) => prefix_of(self.relation@.variables, input@.variables) == Some(n as nat)
                    && n <= self.relation@.variables.len(),
                None => prefix_of(self.relation@.variables, input@.variables) is None,
            },
    {
        let variables = &self.relation.variables;
        let ghost names = variables.deep_view();
        let n: usize = plan::count_bound_prefix(variables, &input.variables);
        let mut i: usize = n;
        while i < variables.len()
            invariant
                n <= i <= variables@.len(),
                names == variables.deep_view(),
                names == self.relation@.variables,
                n == plan::bound_prefix(names, input@.variables),
                forall|j: int| n <= j < i ==> !input@.variables.contains(#[trigger] names[j]),
            decreases variables@.len() - i,
        {
            if contains(&input.variables, &variables[i]) {
                assert(input@.variables.contains(names[i as int]));
                return None;
            }
            i += 1;
        }
        Some(n)
    }

    /// The columns of the input in which the relation's bound variables stand, where those are
    /// its first ones and the added ones the next.
    fn prefix_indexes_or_none(&self, input: &BindingBag, added: &[Variable]) -> (r: Option<
        Vec<usize>,
    >)
        requires
            input@.wf(),
            self.inv(),
        ensures
            match r {
                Some(cols) => prefix_for(
                    self.relation@.variables,
                    input@.variables,
                    added.deep_view(),
                ) == Some(cols@.len()) && cols@ == self.key_columns(input@, cols@.len())
                    && cols@.len() + added@.len() <= self.relation@.variables.len() && forall|
                    i: int,
                |
                    0 <= i < cols@.len() ==> #[trigger] cols@[i] < input@.variables.len(),
                None => prefix_for(
                    self.relation@.variables,
                    input@.variables,
                    added.deep_view(),
                ) is None,
            },
    {
        let ghost names = self.relation@.variables;
        let n: usize = match self.bound_prefix_len(input) {
            Some(n) => n,
            None => {
                return None;
            },
        };
        let variables = &self.relation.variables;
        assert(names.len() == variables.len());
        if added.len() > variables.len() - n {
            return None;
        }
        let mut i: usize = 0;
        while i < added.len()
            invariant
                i <= added@.len(),
                n + added@.len() <= variables.len(),
                names.len() == variables@.len(),
                names == variables.deep_view(),
                names == self.relation@.variables,
                prefix_of(names, input@.variables) == Some(n as nat),
                forall|j: int| 0 <= j < i ==> names[n + j] == added.deep_view()[j],
            decreases added@.len() - i,
        {
            if !variables[n + i].same(&added[i]) {
                assert(names.subrange(n as int, n + added@.len())[i as int]
                    != added.deep_view()[i as int]);
                return None;
            }
            i += 1;
        }
        assert(names.subrange(n as int, n + added@.len()) =~= added.deep_view());
        let mut cols: Vec<usize> = Vec::new();
        let mut k: usize = 0;
        assert(names.take(0) =~= Seq::<Name>::empty());
        while k < n
            invariant
                k <= n <= names.len() == variables@.len(),
                names == variables.deep_view(),
                input@.wf(),
                n == plan::bound_prefix(names, input@.variables),
                cols@ == binding_bag::columns(input@.variables, names.take(k as int)),
                forall|j: int| 0 <= j < cols@.len() ==> #[trigger] cols@[j] < input@.variables.len(),
            decreases n - k,
        {
            proof {
                lemma_prefix_bound(names, input@.variables, k as int);
            }
            match input.column_index(&variables[k]) {
                Ok(col) => {
                    cols.push(col);
                },
                Err(_) => {
                    assert(false);
                },
            }
            k += 1;
            assert(cols@ =~= binding_bag::columns(input@.variables, names.take(k as int)));
        }
        Some(cols)
    }

    /// The different ways to extend a key by `depth` values.
    fn extensions(&self, key: &BindingRow, depth: usize) -> (r: Vec<BindingRow>)
        requires
            self.inv(),
            key@.len() + depth <= self.relation@.variables.len(),
        ensures
            r.deep_view() == extensions_of(self.relation@.rows, key.deep_view(), depth as nat),
            binding_bag::uniform(r.deep_view(), depth as nat),
    {
        let rows = &self.relation.rows;
        let ghost all = rows.deep_view();
        let ghost wanted = key.deep_view();
        let mut out: Vec<BindingRow> = Vec::new();
        let mut i: usize = 0;
        assert(out.deep_view() =~= Seq::<Row>::empty());
        assert(slices(all.take(0), wanted, depth as nat) =~= Seq::<Row>::empty());
        while i < rows.len()
            invariant
                i <= rows@.len(),
                all == rows.deep_view(),
                all == self.relation@.rows,
                wanted == key.deep_view(),
                self.inv(),
                key@.len() + depth <= self.relation@.variables.len(),
                out.deep_view() == binding_bag::distinct_rows(
                    slices(all.take(i as int), wanted, depth as nat),
                ),
                binding_bag::uniform(out.deep_view(), depth as nat),
            decreases rows@.len() - i,
        {
            let ghost seen = slices(all.take(i as int), wanted, depth as nat);
            proof {
                assert(all.take(i + 1).drop_last() =~= all.take(i as int));
                assert(all[i as int].len() == rows@[i as int]@.len());
            }
            if row_begins_with(&rows[i], key) {
                let next = row_slice(&rows[i], key.len(), depth);
                proof {
                    assert(slices(all.take(i + 1), wanted, depth as nat).drop_last() =~= seen);
                    binding_bag::lemma_distinct_contains(seen, next.deep_view());
                }
                if !binding_bag::has_row(&out, &next) {
                    let ghost earlier = out;
                    out.push(next);
                    proof {
                        byte_string::lemma_deep_push(earlier, out, next);
                    }
                }
            }
            i += 1;
        }
        assert(all.take(i as int) =~= all);
        out
    }
}

/// The first names that are bound are bound.
pub proof fn lemma_prefix_bound(names: Seq<Name>, bound: Seq<Name>, k: int)
    requires
        0 <= k < plan::bound_prefix(names, bound),
    ensures
        k < names.len(),
        bound.contains(names[k]),
    decreases names.len(),
{
    if k > 0 {
        lemma_prefix_bound(names.drop_first(), bound, k - 1);
    }
}

/// Whether a row begins with the values of a key.
fn row_begins_with(row: &[Vec<u8>], key: &[Vec<u8>]) -> (r: bool)
    requires
        key@.len() <= row@.len(),
    ensures
        r == (row.deep_view().take(key@.len() as int) == key.deep_view()),
{
    let mut i: usize = 0;
    while i < key.len()
        invariant
            i <= key@.len() <= row@.len(),
            forall|j: int| 0 <= j < i ==> row.deep_view()[j] == key.deep_view()[j],
        decreases key@.len() - i,
    {
        proof {
            byte_string::lemma_deep_bytes(&row[i as int]);
            byte_string::lemma_deep_bytes(&key[i as int]);
        }
        if !same_bytes(&row[i], &key[i]) {
            assert(row.deep_view().take(key@.len() as int)[i as int] != key.deep_view()[i as int]);
            return false;
        }
        i += 1;
    }
    assert(row.deep_view().take(key@.len() as int) =~= key.deep_view());
    true
}

/// The `depth` values of a row from position `from` on.
fn row_slice(row: &[Vec<u8>], from: usize, depth: usize) -> (r: BindingRow)
    requires
        from + depth <= row@.len(),
    ensures
        r.deep_view() == row.deep_view().subrange(from as int, from + depth),
        r@.len() == depth,
{
    let mut out: BindingRow = Vec::new();
    let mut i: usize = 0;
    while i < depth
        invariant
            i <= depth,
            from + depth <= row.len(),
            out.deep_view() == row.deep_view().subrange(from as int, from + i),
            out@.len() == i,
        decreases depth - i,
    {
        let value = byte_string::copy_bytes(&row[from + i]);
        let ghost earlier = out;
        out.push(value);
        proof {
            byte_string::lemma_deep_bytes(&value);
            byte_string::lemma_deep_bytes(&row[from + i]);
            byte_string::lemma_deep_push(earlier, out, value);
        }
        i += 1;
        assert(out.deep_view() =~= row.deep_view().subrange(from as int, from + i));
    }
    out
}

/// There is a distinct row where there is a row.
proof fn lemma_distinct_empty(rows: Seq<Row>)
    ensures
        (binding_bag::distinct_rows(rows).len() == 0) == (rows.len() == 0),
{
    if rows.len() > 0 {
        binding_bag::lemma_distinct_contains(rows, rows[0]);
        assert(rows.contains(rows[0]));
        let d = binding_bag::distinct_rows(rows);
        let i = d.index_of(rows[0]);
    }
}

impl RelationPattern {
    /// The keys of the input rows.
    pub open spec fn keys(self, input: Relation, added: Seq<Name>) -> Option<Seq<Row>> {
        match prefix_for(self.relation@.variables, input.variables, added) {
            Some(n) => Some(binding_bag::projected(input.rows, self.key_columns(input, n))),
            None => None,
        }
    }

    /// The proposal for a row once the relation has made its offer.
    pub open spec fn offered(
        self,
        input: Relation,
        added: Seq<Name>,
        i: int,
        before: Proposal,
    ) -> Proposal {
        if added.len() == 0 {
            before
        } else {
            match self.keys(input, added) {
                None => before,
                Some(keys) => exec_pattern::considered(
                    before,
                    self.id,
                    extensions_of(self.relation@.rows, keys[i], added.len()).len() as usize,
                ),
            }
        }
    }

    /// The input rows whose key begins some row of the relation.
    fn validated(&self, input: &BindingBag, cols: &Vec<usize>) -> (r: BindingBag)
        requires
            self.inv(),
            input@.wf(),
            cols@.len() <= self.relation@.variables.len(),
            forall|i: int| 0 <= i < cols@.len() ==> #[trigger] cols@[i] < input@.variables.len(),
        ensures
            r@ == (Relation {
                variables: input@.variables,
                rows: accepted(self.relation@.rows, input@.rows, cols@),
            }),
            r@.wf(),
    {
        let mut rows: Vec<BindingRow> = Vec::new();
        let mut i: usize = 0;
        assert(rows.deep_view() =~= accepted(self.relation@.rows, input@.rows.take(0), cols@));
        while i < input.rows.len()
            invariant
                i <= input.rows@.len(),
                self.inv(),
                input@.wf(),
                cols@.len() <= self.relation@.variables.len(),
                forall|j: int| 0 <= j < cols@.len() ==> #[trigger] cols@[j] < input@.variables.len(),
                rows.deep_view() == accepted(
                    self.relation@.rows,
                    input@.rows.take(i as int),
                    cols@,
                ),
                binding_bag::uniform(rows.deep_view(), input@.variables.len()),
            decreases input.rows@.len() - i,
        {
            proof {
                assert(input@.rows.take(i + 1).drop_last() =~= input@.rows.take(i as int));
                assert(input@.rows[i as int].len() == input.rows@[i as int]@.len());
            }
            let key = binding_bag::pick_values(&input.rows[i], cols);
            assert(key.deep_view().len() == cols@.len());
            let found = self.extensions(&key, 0);
            proof {
                lemma_distinct_empty(slices(self.relation@.rows, key.deep_view(), 0));
                assert(found.deep_view().len() == found@.len());
            }
            if found.len() > 0 {
                let row = copy_row(&input.rows[i]);
                let ghost earlier = rows;
                rows.push(row);
                proof {
                    byte_string::lemma_deep_push(earlier, rows, row);
                }
            }
            i += 1;
        }
        assert(input@.rows.take(i as int) =~= input@.rows);
        BindingBag { variables: copy_all(&input.variables), rows }
    }

    /// The ways to extend each of the input rows.
    fn candidates(&self, input: &BindingBag, cols: &Vec<usize>, depth: usize) -> (r: Vec<
        Vec<BindingRow>,
    >)
        requires
            self.inv(),
            input@.wf(),
            cols@.len() + depth <= self.relation@.variables.len(),
            forall|i: int| 0 <= i < cols@.len() ==> #[trigger] cols@[i] < input@.variables.len(),
        ensures
            r.deep_view() == all_extensions(
                self.relation@.rows,
                binding_bag::projected(input@.rows, cols@),
                depth as nat,
            ),
            forall|i: int|
                0 <= i < r@.len() ==> binding_bag::uniform(
                    #[trigger] r.deep_view()[i],
                    depth as nat,
                ),
    {
        let mut out: Vec<Vec<BindingRow>> = Vec::new();
        let mut i: usize = 0;
        assert(out.deep_view() =~= all_extensions(
            self.relation@.rows,
            binding_bag::projected(input@.rows, cols@).take(0),
            depth as nat,
        ));
        while i < input.rows.len()
            invariant
                i <= input.rows@.len(),
                self.inv(),
                input@.wf(),
                cols@.len() + depth <= self.relation@.variables.len(),
                forall|j: int| 0 <= j < cols@.len() ==> #[trigger] cols@[j] < input@.variables.len(),
                out@.len() == i,
                out.deep_view() == all_extensions(
                    self.relation@.rows,
                    binding_bag::projected(input@.rows, cols@).take(i as int),
                    depth as nat,
                ),
                forall|j: int|
                    0 <= j < i ==> binding_bag::uniform(
                        #[trigger] out.deep_view()[j],
                        depth as nat,
                    ),
            decreases input.rows@.len() - i,
        {
            assert(input@.rows[i as int].len() == input.rows@[i as int]@.len());
            let key = binding_bag::pick_values(&input.rows[i], cols);
            assert(key.deep_view().len() == cols@.len());
            let found = self.extensions(&key, depth);
            let ghost earlier = out;
            out.push(found);
            proof {
                byte_string::lemma_deep_push(earlier, out, found);
            }
            i += 1;
            assert(out.deep_view() =~= all_extensions(
                self.relation@.rows,
                binding_bag::projected(input@.rows, cols@).take(i as int),
                depth as nat,
            ));
        }
        assert(binding_bag::projected(input@.rows, cols@).take(i as int)
            =~= binding_bag::projected(input@.rows, cols@));
        out
    }
}

/// The next variables of a relation are none of the bound ones.
proof fn lemma_added_new(names: Seq<Name>, bound: Seq<Name>, added: Seq<Name>)
    requires
        crate::variable::unique(names),
        crate::variable::unique(bound),
        prefix_for(names, bound, added) is Some,
    ensures
        crate::variable::unique(bound + added),
{
    let n = prefix_for(names, bound, added).unwrap() as int;
    let all = bound + added;
    assert forall|i: int, j: int| 0 <= i < j < all.len() implies all[i] != all[j] by {
        if j >= bound.len() {
            let b = j - bound.len();
            assert(all[j] == added[b]);
            assert(added[b] == names[n + b]);
            if i < bound.len() {
                assert(bound.contains(all[i]));
            } else {
                let a = i - bound.len();
                assert(all[i] == added[a]);
                assert(added[a] == names[n + a]);
            }
        }
    }
}

impl ExecPattern for RelationPattern {
    open spec fn pattern_id(&self) -> PatternId {
        self.id
    }

    open spec fn names(&self) -> Seq<Name> {
        self.relation@.variables
    }

    open spec fn inv(&self) -> bool {
        self.relation@.wf()
    }

    fn id(&self) -> (r: PatternId) {
        self.id
    }

    fn variables(&self) -> (r: &[Variable]) {
        &self.relation.variables
    }

    fn count(
        &self,
        input: &BindingBag,
        added: &[Variable],
        proposals: &mut Vec<Proposal>,
    ) -> (r: Result<(), Error>)
        ensures
            match r {
                Err(e) => old(proposals)@.len() != input@.rows.len() && e@ == ErrorView::RelationProposals(
                    old(proposals)@.len() as usize,
                    input@.rows.len() as usize,
                )
                    && final(proposals)@ == old(proposals)@,
                Ok(_) => old(proposals)@.len() == input@.rows.len() && forall|i: int|
                    0 <= i < input@.rows.len() ==> #[trigger] final(proposals)@[i] == self.offered(
                        input@,
                        added.deep_view(),
                        i,
                        old(proposals)@[i],
                    ),
            },
    {
        assert(input@.rows.len() == input.rows@.len());
        if proposals.len() != input.rows.len() {
            return Err(Error::RelationProposals(proposals.len(), input.rows.len()));
        }
        if added.len() == 0 {
            return Ok(());
        }
        let cols = match self.prefix_indexes_or_none(input, added) {
            Some(cols) => cols,
            None => {
                return Ok(());
            },
        };
        let ghost names = added.deep_view();
        let mut i: usize = 0;
        while i < input.rows.len()
            invariant
                i <= input.rows@.len() == proposals@.len() == old(proposals)@.len(),
                input@.rows.len() == input.rows@.len(),
                self.inv(),
                input@.wf(),
                names == added.deep_view(),
                names.len() > 0,
                prefix_for(self.relation@.variables, input@.variables, names) == Some(cols@.len()),
                cols@ == self.key_columns(input@, cols@.len()),
                cols@.len() + added@.len() <= self.relation@.variables.len(),
                forall|j: int| 0 <= j < cols@.len() ==> #[trigger] cols@[j] < input@.variables.len(),
                forall|j: int|
                    0 <= j < i ==> #[trigger] proposals@[j] == self.offered(
                        input@,
                        names,
                        j,
                        old(proposals)@[j],
                    ),
                forall|j: int|
                    i <= j < proposals@.len() ==> #[trigger] proposals@[j] == old(proposals)@[j],
            decreases input.rows@.len() - i,
        {
            assert(input@.rows[i as int].len() == input.rows@[i as int]@.len());
            let key = binding_bag::pick_values(&input.rows[i], &cols);
            assert(key.deep_view().len() == cols@.len());
            let found = self.extensions(&key, added.len());
            assert(found.deep_view().len() == found.len());
            let mut proposal = proposals[i];
            proposal.consider(self.id, found.len());
            proposals.set(i, proposal);
            i += 1;
        }
        Ok(())
    }

    fn join(
        &self,
        input: &BindingBag,
        added: &[Variable],
        target_variables: &[Variable],
    ) -> (r: Result<BindingBag, Error>)
        ensures
            match r {
                Ok(bag) => self.joined(input@, added.deep_view(), target_variables.deep_view())
                    == Ok::<Relation, ErrorView>(bag@),
                Err(e) => self.joined(input@, added.deep_view(), target_variables.deep_view())
                    == Err::<Relation, ErrorView>(e@),
            },
    {
        let ghost names = self.relation@.variables;
        assert(added.deep_view().len() == added@.len());
        if added.len() == 0 {
            if !same_all(target_variables, &input.variables) {
                return Err(Error::RelationLayout);
            }
            proof {
                if prefix_of(names, input@.variables) is Some {
                    let n = prefix_of(names, input@.variables).unwrap();
                    lemma_prefix_len(names, input@.variables);
                    assert(names.subrange(n as int, n as int) =~= added.deep_view());
                }
            }
            return match self.prefix_indexes_or_none(input, added) {
                None => Err(Error::NotAPrefix),
                Some(cols) => Ok(self.validated(input, &cols)),
            };
        }
        let cols = match self.prefix_indexes_or_none(input, added) {
            Some(cols) => cols,
            None => {
                return Err(Error::RelationCannotPropose(list_text(added)));
            },
        };
        let extensions = self.candidates(input, &cols, added.len());
        proof {
            lemma_added_new(names, input@.variables, added.deep_view());
            assert(extensions.deep_view().len() == extensions@.len());
        }
        match input.extend_rows(copy_all(added), extensions) {
            Ok(wide) => wide.reorder(target_variables),
            Err(e) => Err(e),
        }
    }
}

/// No more names are bound than there are.
proof fn lemma_prefix_len(names: Seq<Name>, bound: Seq<Name>)
    ensures
        plan::bound_prefix(names, bound) <= names.len(),
    decreases names.len(),
{
    if names.len() > 0 && bound.contains(names[0]) {
        lemma_prefix_len(names.drop_first(), bound);
    }
}

} // verus!
