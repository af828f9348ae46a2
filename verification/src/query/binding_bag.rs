//! Bags of variable bindings and the relational operations on them.

use vstd::prelude::*;

use crate::byte_string::{self, copy_bytes, copy_row, copy_rows, same_row, Row};
use crate::error::{Error, ErrorView};
use crate::variable::{self, contains, copy_all, position, same_all, Name, Variable};

verus! {

/// One encoded value for each variable of a bag.
pub type BindingRow = Vec<Vec<u8>>;

/// A list of rows over named columns. Rows may repeat.
#[derive(Debug, PartialEq, Eq)]
pub struct BindingBag {
    pub variables: Vec<Variable>,
    pub rows: Vec<BindingRow>,
}

/// What a bag holds.
#[verifier::ext_equal]
pub struct Relation {
    pub variables: Seq<Name>,
    pub rows: Seq<Row>,
}

impl View for BindingBag {
    type V = Relation;

    open spec fn view(&self) -> Relation {
        Relation { variables: self.variables.deep_view(), rows: self.rows.deep_view() }
    }
}

/// Whether every row has `arity` values.
pub open spec fn uniform(rows: Seq<Row>, arity: nat) -> bool {
    forall|i: int| 0 <= i < rows.len() ==> (#[trigger] rows[i]).len() == arity
}

impl Relation {
    /// The columns are distinct and every row has one value for each.
    pub open spec fn wf(self) -> bool {
        variable::unique(self.variables) && uniform(self.rows, self.variables.len())
    }
}

/// The values of a row at the given columns.
pub open spec fn pick(row: Row, columns: Seq<usize>) -> Row {
    Seq::new(columns.len(), |i: int| row[columns[i] as int])
}

/// The columns at which the names stand in a layout.
pub open spec fn columns(layout: Seq<Name>, names: Seq<Name>) -> Seq<usize> {
    Seq::new(names.len(), |i: int| layout.index_of(names[i]) as usize)
}

/// Why the names cannot be projected from a layout, if they cannot: the first name that
/// repeats an earlier one or is no column decides.
pub open spec fn projection_fault(layout: Seq<Name>, names: Seq<Name>) -> Option<ErrorView>
    decreases names.len(),
{
    if names.len() == 0 {
        None
    } else {
        match projection_fault(layout, names.drop_last()) {
            Some(e) => Some(e),
            None => if names.drop_last().contains(names.last()) {
                Some(ErrorView::DuplicateProjection(names.last()))
            } else if !layout.contains(names.last()) {
                Some(ErrorView::UnknownVariable(names.last()))
            } else {
                None
            },
        }
    }
}

/// The rows at the given positions.
pub open spec fn selected(rows: Seq<Row>, indexes: Seq<usize>) -> Seq<Row> {
    Seq::new(indexes.len(), |i: int| rows[indexes[i] as int])
}

/// A row followed by each of the extensions.
pub open spec fn extended_row(row: Row, extensions: Seq<Row>) -> Seq<Row> {
    Seq::new(extensions.len(), |i: int| row + extensions[i])
}

/// Every row followed by each of its own extensions, in order.
pub open spec fn extended(rows: Seq<Row>, extensions: Seq<Seq<Row>>) -> Seq<Row>
    decreases rows.len(),
{
    if rows.len() == 0 {
        Seq::empty()
    } else {
        extended(rows.drop_last(), extensions.drop_last()) + extended_row(
            rows.last(),
            extensions.last(),
        )
    }
}

/// Whether an extension is the first with another number of values.
pub open spec fn first_arity_fault(
    extensions: Seq<Seq<Row>>,
    arity: nat,
    i: int,
    j: int,
) -> bool {
    &&& 0 <= i < extensions.len() && 0 <= j < extensions[i].len()
    &&& extensions[i][j].len() != arity
    &&& uniform(extensions[i].take(j), arity)
    &&& forall|k: int| 0 <= k < i ==> uniform(#[trigger] extensions[k], arity)
}

/// Every row cut down to the given columns.
pub open spec fn projected(rows: Seq<Row>, cols: Seq<usize>) -> Seq<Row> {
    Seq::new(rows.len(), |i: int| pick(rows[i], cols))
}

/// The rows without those that equal an earlier one.
pub open spec fn distinct_rows(rows: Seq<Row>) -> Seq<Row>
    decreases rows.len(),
{
    if rows.len() == 0 {
        Seq::empty()
    } else if rows.drop_last().contains(rows.last()) {
        distinct_rows(rows.drop_last())
    } else {
        distinct_rows(rows.drop_last()).push(rows.last())
    }
}

/// The positions of the rows whose values at `cols` are `key`, ascending.
pub open spec fn rows_with_key(rows: Seq<Row>, cols: Seq<usize>, key: Row) -> Seq<usize>
    decreases rows.len(),
{
    if rows.len() == 0 {
        Seq::empty()
    } else {
        let earlier = rows_with_key(rows.drop_last(), cols, key);
        if pick(rows.last(), cols) == key {
            earlier.push((rows.len() - 1) as usize)
        } else {
            earlier
        }
    }
}

/// The names that stand in `other` as well, in order.
pub open spec fn common(names: Seq<Name>, other: Seq<Name>) -> Seq<Name>
    decreases names.len(),
{
    if names.len() == 0 {
        Seq::empty()
    } else if other.contains(names.last()) {
        common(names.drop_last(), other).push(names.last())
    } else {
        common(names.drop_last(), other)
    }
}

/// The names that do not stand in `other`, in order.
pub open spec fn missing(names: Seq<Name>, other: Seq<Name>) -> Seq<Name>
    decreases names.len(),
{
    if names.len() == 0 {
        Seq::empty()
    } else if other.contains(names.last()) {
        missing(names.drop_last(), other)
    } else {
        missing(names.drop_last(), other).push(names.last())
    }
}

/// A left row followed by the values at `rest` of each right row that agrees with it:
/// the values at `rkey` of the right row are `key`.
pub open spec fn matches_of(
    left: Row,
    key: Row,
    right: Seq<Row>,
    rkey: Seq<usize>,
    rest: Seq<usize>,
) -> Seq<Row>
    decreases right.len(),
{
    if right.len() == 0 {
        Seq::empty()
    } else {
        let earlier = matches_of(left, key, right.drop_last(), rkey, rest);
        if pick(right.last(), rkey) == key {
            earlier.push(left + pick(right.last(), rest))
        } else {
            earlier
        }
    }
}

/// The matches of every left row, in order.
pub open spec fn joined_rows(
    left: Seq<Row>,
    right: Seq<Row>,
    lkey: Seq<usize>,
    rkey: Seq<usize>,
    rest: Seq<usize>,
) -> Seq<Row>
    decreases left.len(),
{
    if left.len() == 0 {
        Seq::empty()
    } else {
        joined_rows(left.drop_last(), right, lkey, rkey, rest) + matches_of(
            left.last(),
            pick(left.last(), lkey),
            right,
            rkey,
            rest,
        )
    }
}

/// Whether some right row has the values `key` at `rkey`.
pub open spec fn has_match(right: Seq<Row>, rkey: Seq<usize>, key: Row) -> bool {
    rows_with_key(right, rkey, key).len() > 0
}

/// The left rows that have a match (`wanted`), or those that have none.
pub open spec fn rows_by_match(
    left: Seq<Row>,
    right: Seq<Row>,
    lkey: Seq<usize>,
    rkey: Seq<usize>,
    wanted: bool,
) -> Seq<Row>
    decreases left.len(),
{
    if left.len() == 0 {
        Seq::empty()
    } else {
        let earlier = rows_by_match(left.drop_last(), right, lkey, rkey, wanted);
        if has_match(right, rkey, pick(left.last(), lkey)) == wanted {
            earlier.push(left.last())
        } else {
            earlier
        }
    }
}

impl Relation {
    /// The relation over no columns with one row.
    pub open spec fn spec_unit() -> Relation {
        Relation { variables: Seq::empty(), rows: seq![Seq::empty()] }
    }

    /// The relation over the given columns with no row.
    pub open spec fn spec_empty(variables: Seq<Name>) -> Relation {
        Relation { variables, rows: Seq::empty() }
    }

    /// The rows cut down to the named columns.
    pub open spec fn spec_project(self, names: Seq<Name>) -> Relation {
        Relation {
            variables: names,
            rows: projected(self.rows, columns(self.variables, names)),
        }
    }

    /// The columns that both relations have.
    pub open spec fn shared(self, other: Relation) -> Seq<Name> {
        common(self.variables, other.variables)
    }

    /// The columns of `other` that this relation lacks.
    pub open spec fn new_names(self, other: Relation) -> Seq<Name> {
        missing(other.variables, self.variables)
    }

    /// Each row joined with each row of `other` that agrees with it on the shared columns.
    pub open spec fn spec_natural_join(self, other: Relation) -> Relation {
        Relation {
            variables: self.variables + self.new_names(other),
            rows: joined_rows(
                self.rows,
                other.rows,
                columns(self.variables, self.shared(other)),
                columns(other.variables, self.shared(other)),
                columns(other.variables, self.new_names(other)),
            ),
        }
    }

    /// The rows with which some row of `other` agrees on the shared columns.
    pub open spec fn spec_semijoin(self, other: Relation) -> Relation {
        self.by_match(other, true)
    }

    /// The rows with which no row of `other` agrees on the shared columns.
    pub open spec fn spec_antijoin(self, other: Relation) -> Relation {
        self.by_match(other, false)
    }

    /// The rows that have an agreeing row in `other`, or those that have none.
    pub open spec fn by_match(self, other: Relation, wanted: bool) -> Relation {
        Relation {
            variables: self.variables,
            rows: rows_by_match(
                self.rows,
                other.rows,
                columns(self.variables, self.shared(other)),
                columns(other.variables, self.shared(other)),
                wanted,
            ),
        }
    }

    /// All rows of both.
    pub open spec fn spec_union(self, other: Relation) -> Relation {
        Relation { variables: self.variables, rows: self.rows + other.rows }
    }

    /// Each row once.
    pub open spec fn spec_distinct(self) -> Relation {
        Relation { variables: self.variables, rows: distinct_rows(self.rows) }
    }
}

/// The rows of a bag that share a key.
#[derive(Debug)]
pub struct RowGroup {
    pub key: BindingRow,
    pub rows: Vec<usize>,
}

/// The positions of the rows of a bag, by key.
#[derive(Debug)]
pub struct RowIndex {
    pub groups: Vec<RowGroup>,
}

/// The key of the group at a position.
pub open spec fn group_key(groups: Seq<RowGroup>, i: int) -> Row {
    groups[i].key.deep_view()
}

impl RowIndex {
    /// The index describes these rows, keyed by these columns.
    pub open spec fn describes(self, rows: Seq<Row>, cols: Seq<usize>) -> bool {
        let groups = self.groups@;
        &&& forall|i: int, j: int|
            0 <= i < j < groups.len() ==> #[trigger] group_key(groups, i) != #[trigger] group_key(
                groups,
                j,
            )
        &&& forall|i: int|
            0 <= i < groups.len() ==> {
                &&& groups[i].rows@ == rows_with_key(rows, cols, #[trigger] group_key(groups, i))
                &&& groups[i].rows@.len() > 0
            }
        &&& forall|key: Row|
            (#[trigger] rows_with_key(rows, cols, key)).len() > 0 ==> exists|i: int|
                0 <= i < groups.len() && group_key(groups, i) == key
    }

    /// The positions of the rows with that key, ascending, if there are any.
    pub fn get(&self, key: &[Vec<u8>]) -> (r: Option<&Vec<usize>>)
        ensures
            match r {
                Some(found) => exists|i: int|
                    0 <= i < self.groups@.len() && #[trigger] group_key(self.groups@, i)
                        == key.deep_view() && found@ == self.groups@[i].rows@,
                None => forall|i: int|
                    0 <= i < self.groups@.len() ==> #[trigger] group_key(self.groups@, i)
                        != key.deep_view(),
            },
    {
        let mut i: usize = 0;
        while i < self.groups.len()
            invariant
                i <= self.groups@.len(),
                forall|j: int|
                    0 <= j < i ==> #[trigger] group_key(self.groups@, j) != key.deep_view(),
            decreases self.groups@.len() - i,
        {
            if same_row(&self.groups[i].key, key) {
                assert(group_key(self.groups@, i as int) == key.deep_view());
                return Some(&self.groups[i].rows);
            }
            i += 1;
        }
        None
    }
}

/// Looking up a key in an index finds the rows with that key.
proof fn lemma_lookup(index: RowIndex, rows: Seq<Row>, cols: Seq<usize>, key: Row)
    requires
        index.describes(rows, cols),
    ensures
        forall|i: int|
            0 <= i < index.groups@.len() && #[trigger] group_key(index.groups@, i) == key ==> {
                &&& index.groups@[i].rows@ == rows_with_key(rows, cols, key)
                &&& rows_with_key(rows, cols, key).len() > 0
            },
        (forall|i: int| 0 <= i < index.groups@.len() ==> #[trigger] group_key(index.groups@, i) != key)
            ==> rows_with_key(rows, cols, key).len() == 0,
{
}

impl BindingBag {
    /// A bag over distinct variables whose rows have one value for each.
    pub fn new(variables: Vec<Variable>, rows: Vec<BindingRow>) -> (r: Result<Self, Error>)
        ensures
            match r {
                Ok(bag) => bag@ == (Relation {
                    variables: variables.deep_view(),
                    rows: rows.deep_view(),
                }) && bag@.wf(),
                Err(e) => {
                    ||| !variable::unique(variables.deep_view()) && e@
                        == ErrorView::DuplicateVariable(
                        variable::first_repeated(variables.deep_view()).unwrap(),
                    )
                    ||| variable::unique(variables.deep_view()) && exists|i: int|
                        0 <= i < rows@.len() && e@ == ErrorView::RowArity(
                            i as usize,
                            rows.deep_view()[i].len() as usize,
                            variables@.len() as usize,
                        ) && (
                        #[trigger] rows.deep_view()[i]).len() != variables@.len() && uniform(
                            rows.deep_view().take(i),
                            variables@.len(),
                        )
                },
            },
    {
        if let Some(v) = variable::repeated(&variables) {
            return Err(Error::DuplicateVariable(v.name));
        }
        let mut i: usize = 0;
        while i < rows.len()
            invariant
                i <= rows@.len(),
                variable::unique(variables.deep_view()),
                uniform(rows.deep_view().take(i as int), variables@.len()),
            decreases rows@.len() - i,
        {
            assert(rows.deep_view()[i as int].len() == rows@[i as int]@.len());
            if rows[i].len() != variables.len() {
                return Err(Error::RowArity(i, rows[i].len(), variables.len()));
            }
            i += 1;
        }
        assert(rows.deep_view().take(i as int) =~= rows.deep_view());
        assert(variables.deep_view().len() == variables@.len());
        Ok(BindingBag { variables, rows })
    }

    /// The bag over no variables with one row: the identity of the natural join.
    pub fn unit() -> (r: Self)
        ensures
            r@ == Relation::spec_unit(),
            r@.wf(),
    {
        let row: BindingRow = Vec::new();
        let mut rows: Vec<BindingRow> = Vec::new();
        let ghost earlier = rows;
        rows.push(row);
        proof {
            byte_string::lemma_deep_push(earlier, rows, row);
        }
        let r = BindingBag { variables: Vec::new(), rows };
        assert(r@.rows[0] =~= Seq::<Seq<u8>>::empty());
        assert(r@ =~= Relation::spec_unit());
        r
    }

    /// The bag over the given variables with no row.
    pub fn empty(variables: Vec<Variable>) -> (r: Result<Self, Error>)
        ensures
            match r {
                Ok(bag) => bag@ == Relation::spec_empty(variables.deep_view()) && bag@.wf(),
                Err(e) => !variable::unique(variables.deep_view()) && e@
                    == ErrorView::DuplicateVariable(
                    variable::first_repeated(variables.deep_view()).unwrap(),
                ),
            },
    {
        let rows: Vec<BindingRow> = Vec::new();
        assert(rows.deep_view() =~= Seq::<Row>::empty());
        Self::new(variables, rows)
    }

    /// A copy of the bag.
    pub fn copy(&self) -> (r: Self)
        ensures
            r@ == self@,
    {
        BindingBag { variables: copy_all(&self.variables), rows: copy_rows(&self.rows) }
    }

    /// The column of a variable.
    pub fn column_index(&self, variable: &Variable) -> (r: Result<usize, Error>)
        requires
            self@.wf(),
        ensures
            match r {
                Ok(i) => i < self@.variables.len() && self@.variables[i as int] == variable@
                    && self@.variables.index_of(variable@) == i,
                Err(e) => e@ == ErrorView::UnknownVariable(variable@)
                    && !self@.variables.contains(variable@),
            },
    {
        match position(&self.variables, variable) {
            Some(i) => {
                proof {
                    lemma_index_of(self@.variables, i as int);
                }
                Ok(i)
            },
            None => Err(Error::UnknownVariable(variable.name.clone())),
        }
    }
}

/// In a list of distinct names a name stands at one place.
pub proof fn lemma_index_of(names: Seq<Name>, i: int)
    requires
        variable::unique(names),
        0 <= i < names.len(),
    ensures
        names.index_of(names[i]) == i,
{
    let j = names.index_of(names[i]);
    assert(names.contains(names[i]));
    if i < j {
        assert(names[i] != names[j]);
    } else if j < i {
        assert(names[j] != names[i]);
    }
}

/// Names that can be projected are distinct columns.
pub proof fn lemma_projectable(layout: Seq<Name>, names: Seq<Name>)
    requires
        projection_fault(layout, names) is None,
    ensures
        variable::unique(names),
        forall|i: int| 0 <= i < names.len() ==> layout.contains(#[trigger] names[i]),
    decreases names.len(),
{
    if names.len() > 0 {
        let earlier = names.drop_last();
        lemma_projectable(layout, earlier);
        assert forall|i: int, j: int| 0 <= i < j < names.len() implies names[i] != names[j] by {
            assert(names[i] == earlier[i]);
            if j < earlier.len() {
                assert(names[j] == earlier[j]);
            } else if names[i] == names[j] {
                assert(earlier.contains(names.last()));
            }
        }
        assert forall|i: int| 0 <= i < names.len() implies layout.contains(#[trigger] names[i]) by {
            if i < earlier.len() {
                assert(names[i] == earlier[i]);
            }
        }
    }
}

/// Distinct columns can be projected.
pub proof fn lemma_no_fault(layout: Seq<Name>, names: Seq<Name>)
    requires
        variable::unique(names),
        forall|i: int| 0 <= i < names.len() ==> layout.contains(#[trigger] names[i]),
    ensures
        projection_fault(layout, names) is None,
    decreases names.len(),
{
    if names.len() > 0 {
        let earlier = names.drop_last();
        assert forall|i: int| 0 <= i < earlier.len() implies layout.contains(
            #[trigger] earlier[i],
        ) by {
            assert(earlier[i] == names[i]);
        }
        lemma_no_fault(layout, earlier);
        if earlier.contains(names.last()) {
            let i = earlier.index_of(names.last());
            assert(names[i] == names.last());
        }
        assert(names.last() == names[names.len() - 1]);
    }
}

/// The values of a row at the given columns.
pub fn pick_values(row: &[Vec<u8>], cols: &[usize]) -> (r: BindingRow)
    requires
        forall|i: int| 0 <= i < cols@.len() ==> #[trigger] cols@[i] < row@.len(),
    ensures
        r.deep_view() == pick(row.deep_view(), cols@),
{
    let mut out: BindingRow = Vec::new();
    let mut i: usize = 0;
    while i < cols.len()
        invariant
            i <= cols@.len(),
            forall|j: int| 0 <= j < cols@.len() ==> #[trigger] cols@[j] < row@.len(),
            out.deep_view() == pick(row.deep_view(), cols@.take(i as int)),
        decreases cols@.len() - i,
    {
        let value = copy_bytes(&row[cols[i]]);
        let ghost earlier = out;
        out.push(value);
        proof {
            byte_string::lemma_deep_bytes(&value);
            byte_string::lemma_deep_bytes(&row[cols@[i as int] as int]);
            byte_string::lemma_deep_push(earlier, out, value);
        }
        i += 1;
        assert(out.deep_view() =~= pick(row.deep_view(), cols@.take(i as int)));
    }
    assert(cols@.take(i as int) =~= cols@);
    out
}

impl BindingBag {
    /// The columns of the variables.
    fn projection_indexes(&self, variables: &[Variable]) -> (r: Result<Vec<usize>, Error>)
        requires
            self@.wf(),
        ensures
            match r {
                Ok(cols) => projection_fault(self@.variables, variables.deep_view()) is None
                    && cols@ == columns(self@.variables, variables.deep_view())
                    && forall|i: int|
                    0 <= i < cols@.len() ==> #[trigger] cols@[i] < self@.variables.len(),
                Err(e) => projection_fault(self@.variables, variables.deep_view()) == Some(e@),
            },
    {
        let mut cols: Vec<usize> = Vec::new();
        let mut i: usize = 0;
        let ghost names = variables.deep_view();
        while i < variables.len()
            invariant
                i <= variables@.len(),
                names == variables.deep_view(),
                self@.wf(),
                projection_fault(self@.variables, names.take(i as int)) is None,
                cols@ == columns(self@.variables, names.take(i as int)),
                forall|j: int| 0 <= j < cols@.len() ==> #[trigger] cols@[j] < self@.variables.len(),
            decreases variables@.len() - i,
        {
            proof {
                assert(names.take(i + 1).drop_last() =~= names.take(i as int));
                lemma_fault_is_final(self@.variables, names, i + 1);
            }
            match position(variables, &variables[i]) {
                Some(j) => {
                    if j < i {
                        assert(names.take(i as int)[j as int] == names[i as int]);
                        return Err(Error::DuplicateProjection(variables[i].name.clone()));
                    }
                    proof {
                        if names.take(i as int).contains(names[i as int]) {
                            let k = names.take(i as int).index_of(names[i as int]);
                            assert(names[k] == names[i as int]);
                        }
                    }
                },
                None => {
                    assert(names[i as int] == variables@[i as int]@);
                },
            }
            match self.column_index(&variables[i]) {
                Ok(col) => {
                    cols.push(col);
                },
                Err(e) => {
                    return Err(e);
                },
            }
            i += 1;
            assert(cols@ =~= columns(self@.variables, names.take(i as int)));
        }
        assert(names.take(i as int) =~= names);
        Ok(cols)
    }

    /// The rows at the given positions, in that order, repeated as often as asked.
    pub fn select_rows(&self, row_indexes: &[usize]) -> (r: Result<Self, Error>)
        requires
            self@.wf(),
        ensures
            match r {
                Ok(bag) => bag@ == (Relation {
                    variables: self@.variables,
                    rows: selected(self@.rows, row_indexes@),
                }) && bag@.wf() && forall|i: int|
                    0 <= i < row_indexes@.len() ==> #[trigger] row_indexes@[i] < self@.rows.len(),
                Err(e) => exists|i: int|
                    0 <= i < row_indexes@.len() && #[trigger] row_indexes@[i] >= self@.rows.len()
                        && e@ == ErrorView::UnknownRow(row_indexes@[i]) && forall|j: int|
                        0 <= j < i ==> #[trigger] row_indexes@[j] < self@.rows.len(),
            },
    {
        let mut rows: Vec<BindingRow> = Vec::new();
        let mut i: usize = 0;
        assert(rows.deep_view() =~= selected(self@.rows, row_indexes@.take(0)));
        while i < row_indexes.len()
            invariant
                i <= row_indexes@.len(),
                self@.wf(),
                rows.deep_view() == selected(self@.rows, row_indexes@.take(i as int)),
                forall|j: int| 0 <= j < i ==> #[trigger] row_indexes@[j] < self@.rows.len(),
            decreases row_indexes@.len() - i,
        {
            let index: usize = row_indexes[i];
            if index >= self.rows.len() {
                return Err(Error::UnknownRow(index));
            }
            let row = copy_row(&self.rows[index]);
            let ghost earlier = rows;
            rows.push(row);
            proof {
                byte_string::lemma_deep_push(earlier, rows, row);
            }
            i += 1;
            assert(rows.deep_view() =~= selected(self@.rows, row_indexes@.take(i as int)));
        }
        assert(row_indexes@.take(i as int) =~= row_indexes@);
        let bag = BindingBag { variables: copy_all(&self.variables), rows };
        Ok(bag)
    }

    /// Each row followed by each of its own extensions over the added variables.
    pub fn extend_rows(
        &self,
        added_variables: Vec<Variable>,
        extensions: Vec<Vec<BindingRow>>,
    ) -> (r: Result<Self, Error>)
        requires
            self@.wf(),
        ensures
            match r {
                Ok(bag) => bag@ == (Relation {
                    variables: self@.variables + added_variables.deep_view(),
                    rows: extended(self@.rows, extensions.deep_view()),
                }) && bag@.wf() && extensions@.len() == self@.rows.len() && forall|i: int|
                    0 <= i < extensions@.len() ==> uniform(
                        #[trigger] extensions.deep_view()[i],
                        added_variables@.len(),
                    ),
                Err(e) => {
                    ||| extensions@.len() != self@.rows.len() && e@ == ErrorView::ExtensionCount(
                        extensions@.len() as usize,
                        self@.rows.len() as usize,
                    )
                    ||| extensions@.len() == self@.rows.len() && !variable::unique(
                        self@.variables + added_variables.deep_view(),
                    ) && e@ == ErrorView::DuplicateExtension(
                        variable::first_repeated(
                            self@.variables + added_variables.deep_view(),
                        ).unwrap(),
                    )
                    ||| extensions@.len() == self@.rows.len() && variable::unique(
                        self@.variables + added_variables.deep_view(),
                    ) && exists|i: int, j: int| #[trigger]
                        first_arity_fault(
                            extensions.deep_view(),
                            added_variables@.len(),
                            i,
                            j,
                        ) && e@ == ErrorView::ExtensionArity(
                            extensions.deep_view()[i][j].len() as usize,
                            added_variables@.len() as usize,
                        )
                },
            },
    {
        if extensions.len() != self.rows.len() {
            return Err(Error::ExtensionCount(extensions.len(), self.rows.len()));
        }
        let mut variables: Vec<Variable> = copy_all(&self.variables);
        let mut added = copy_all(&added_variables);
        let ghost before = variables;
        let ghost tail = added;
        variables.append(&mut added);
        assert(variables.deep_view() =~= before.deep_view() + tail.deep_view());
        if let Some(v) = variable::repeated(&variables) {
            return Err(Error::DuplicateExtension(v.name));
        }
        let mut rows: Vec<BindingRow> = Vec::new();
        let ghost exts = extensions.deep_view();
        let ghost arity = added_variables@.len();
        let mut i: usize = 0;
        assert(rows.deep_view() =~= extended(self@.rows.take(0), exts.take(0)));
        while i < self.rows.len()
            invariant
                i <= self.rows@.len() == extensions@.len(),
                exts == extensions.deep_view(),
                arity == added_variables@.len(),
                self@.wf(),
                rows.deep_view() == extended(self@.rows.take(i as int), exts.take(i as int)),
                uniform(rows.deep_view(), (self@.variables.len() + arity) as nat),
                forall|k: int| 0 <= k < i ==> uniform(#[trigger] exts[k], arity),
                variable::unique(self@.variables + added_variables.deep_view()),
            decreases self.rows@.len() - i,
        {
            let ghost done = rows.deep_view();
            let ghost mine = exts[i as int];
            let mut j: usize = 0;
            assert(done =~= done + extended_row(self@.rows[i as int], mine.take(0)));
            while j < extensions[i].len()
                invariant
                    i < self.rows@.len() == extensions@.len(),
                    exts == extensions.deep_view(),
                    arity == added_variables@.len(),
                    self@.wf(),
                    j <= extensions@[i as int]@.len(),
                    mine == exts[i as int],
                    rows.deep_view() == done + extended_row(
                        self@.rows[i as int],
                        mine.take(j as int),
                    ),
                    uniform(rows.deep_view(), (self@.variables.len() + arity) as nat),
                    uniform(mine.take(j as int), arity),
                    forall|k: int| 0 <= k < i ==> uniform(#[trigger] exts[k], arity),
                    variable::unique(self@.variables + added_variables.deep_view()),
                decreases extensions@[i as int]@.len() - j,
            {
                assert(mine[j as int] == extensions@[i as int]@[j as int].deep_view());
                if extensions[i][j].len() != added_variables.len() {
                    assert(first_arity_fault(exts, arity, i as int, j as int));
                    return Err(
                        Error::ExtensionArity(extensions[i][j].len(), added_variables.len()),
                    );
                }
                let mut row = copy_row(&self.rows[i]);
                let mut tail = copy_row(&extensions[i][j]);
                let ghost left = row;
                let ghost right = tail;
                row.append(&mut tail);
                assert(row.deep_view() =~= left.deep_view() + right.deep_view());
                assert(self@.rows[i as int].len() == self@.variables.len());
                let ghost earlier = rows;
                rows.push(row);
                proof {
                    byte_string::lemma_deep_push(earlier, rows, row);
                }
                j += 1;
                assert(rows.deep_view() =~= done + extended_row(
                    self@.rows[i as int],
                    mine.take(j as int),
                ));
            }
            assert(mine.take(j as int) =~= mine);
            assert(self@.rows.take(i + 1).drop_last() =~= self@.rows.take(i as int));
            assert(exts.take(i + 1).drop_last() =~= exts.take(i as int));
            i += 1;
        }
        assert(self@.rows.take(i as int) =~= self@.rows);
        assert(exts.take(i as int) =~= exts);
        Ok(BindingBag { variables, rows })
    }

    /// The rows cut down to the given variables, in that order.
    pub fn project(&self, variables: &[Variable]) -> (r: Result<Self, Error>)
        requires
            self@.wf(),
        ensures
            match r {
                Ok(bag) => projection_fault(self@.variables, variables.deep_view()) is None
                    && bag@ == self@.spec_project(variables.deep_view()) && bag@.wf(),
                Err(e) => projection_fault(self@.variables, variables.deep_view()) == Some(e@),
            },
    {
        let cols = match self.projection_indexes(variables) {
            Ok(cols) => cols,
            Err(e) => {
                return Err(e);
            },
        };
        let mut rows: Vec<BindingRow> = Vec::new();
        let mut i: usize = 0;
        assert(rows.deep_view() =~= projected(self@.rows.take(0), cols@));
        while i < self.rows.len()
            invariant
                i <= self.rows@.len(),
                self@.wf(),
                forall|j: int| 0 <= j < cols@.len() ==> #[trigger] cols@[j] < self@.variables.len(),
                rows.deep_view() == projected(self@.rows.take(i as int), cols@),
            decreases self.rows@.len() - i,
        {
            assert(self@.rows[i as int].len() == self.rows@[i as int]@.len());
            let row = pick_values(&self.rows[i], &cols);
            let ghost earlier = rows;
            rows.push(row);
            proof {
                byte_string::lemma_deep_push(earlier, rows, row);
            }
            i += 1;
            assert(rows.deep_view() =~= projected(self@.rows.take(i as int), cols@));
        }
        assert(self@.rows.take(i as int) =~= self@.rows);
        proof {
            lemma_projectable(self@.variables, variables.deep_view());
        }
        Ok(BindingBag { variables: copy_all(variables), rows })
    }

    /// The same rows with the columns in the given order.
    pub fn reorder(&self, variables: &[Variable]) -> (r: Result<Self, Error>)
        requires
            self@.wf(),
        ensures
            match r {
                Ok(bag) => variables@.len() == self@.variables.len() && projection_fault(
                    self@.variables,
                    variables.deep_view(),
                ) is None && bag@ == self@.spec_project(variables.deep_view()) && bag@.wf(),
                Err(e) => if variables@.len() != self@.variables.len() {
                    e@ == ErrorView::ReorderLayout
                } else {
                    projection_fault(self@.variables, variables.deep_view()) == Some(e@)
                },
            },
    {
        assert(self@.variables.len() == self.variables@.len());
        if variables.len() != self.variables.len() {
            return Err(Error::ReorderLayout);
        }
        self.project(variables)
    }

    /// Each row once, where it first occurs.
    pub fn distinct(&self) -> (r: Self)
        requires
            self@.wf(),
        ensures
            r@ == self@.spec_distinct(),
            r@.wf(),
    {
        let mut rows: Vec<BindingRow> = Vec::new();
        let mut i: usize = 0;
        while i < self.rows.len()
            invariant
                i <= self.rows@.len(),
                self@.wf(),
                rows.deep_view() == distinct_rows(self@.rows.take(i as int)),
                uniform(rows.deep_view(), self@.variables.len()),
            decreases self.rows@.len() - i,
        {
            let ghost seen = self@.rows.take(i as int);
            assert(self@.rows.take(i + 1).drop_last() =~= seen);
            proof {
                lemma_distinct_contains(seen, self@.rows[i as int]);
            }
            if !has_row(&rows, &self.rows[i]) {
                let row = copy_row(&self.rows[i]);
                let ghost earlier = rows;
                rows.push(row);
                proof {
                    byte_string::lemma_deep_push(earlier, rows, row);
                }
            }
            i += 1;
        }
        assert(self@.rows.take(i as int) =~= self@.rows);
        BindingBag { variables: copy_all(&self.variables), rows }
    }
}

/// Whether a row stands in a list of rows.
pub fn has_row(rows: &[BindingRow], row: &BindingRow) -> (r: bool)
    ensures
        r == rows.deep_view().contains(row.deep_view()),
{
    let mut i: usize = 0;
    while i < rows.len()
        invariant
            i <= rows@.len(),
            forall|j: int| 0 <= j < i ==> rows.deep_view()[j] != row.deep_view(),
        decreases rows@.len() - i,
    {
        if same_row(&rows[i], row) {
            assert(rows.deep_view()[i as int] == row.deep_view());
            return true;
        }
        i += 1;
    }
    false
}

/// A fault in the first names is the fault of all of them.
proof fn lemma_fault_is_final(layout: Seq<Name>, names: Seq<Name>, n: int)
    requires
        0 <= n <= names.len(),
    ensures
        projection_fault(layout, names.take(n)) is Some ==> projection_fault(layout, names)
            == projection_fault(layout, names.take(n)),
    decreases names.len() - n,
{
    if n < names.len() {
        lemma_fault_is_final(layout, names, n + 1);
        assert(names.take(n + 1).drop_last() =~= names.take(n));
    } else {
        assert(names.take(n) =~= names);
    }
}

/// Dropping repetitions keeps which rows occur.
pub proof fn lemma_distinct_contains(rows: Seq<Row>, row: Row)
    ensures
        distinct_rows(rows).contains(row) == rows.contains(row),
    decreases rows.len(),
{
    if rows.len() > 0 {
        let earlier = rows.drop_last();
        lemma_distinct_contains(earlier, row);
        lemma_contains_split(rows, row);
        if !earlier.contains(rows.last()) {
            lemma_contains_split(distinct_rows(rows), row);
            assert(distinct_rows(rows).drop_last() =~= distinct_rows(earlier));
        }
    }
}

/// A list holds its last element and what the rest holds.
pub proof fn lemma_contains_split<A>(s: Seq<A>, x: A)
    requires
        s.len() > 0,
    ensures
        s.contains(x) == (s.last() == x || s.drop_last().contains(x)),
{
    if s.contains(x) {
        let i = s.index_of(x);
        if i < s.len() - 1 {
            assert(s.drop_last()[i] == x);
        }
    }
    if s.drop_last().contains(x) {
        let i = s.drop_last().index_of(x);
        assert(s[i] == x);
    }
    if s.last() == x {
        assert(s[s.len() - 1] == x);
    }
}

/// What stands in `common` and `missing`, and that nothing stands there twice.
pub proof fn lemma_common_missing(names: Seq<Name>, other: Seq<Name>)
    requires
        variable::unique(names),
    ensures
        variable::unique(common(names, other)),
        variable::unique(missing(names, other)),
        forall|x: Name|
            #![trigger common(names, other).contains(x)]
            common(names, other).contains(x) == (names.contains(x) && other.contains(x)),
        forall|x: Name|
            #![trigger missing(names, other).contains(x)]
            missing(names, other).contains(x) == (names.contains(x) && !other.contains(x)),
    decreases names.len(),
{
    if names.len() > 0 {
        let earlier = names.drop_last();
        let last = names.last();
        assert forall|i: int, j: int| 0 <= i < j < earlier.len() implies earlier[i]
            != earlier[j] by {
            assert(earlier[i] == names[i] && earlier[j] == names[j]);
        }
        lemma_common_missing(earlier, other);
        assert(!earlier.contains(last)) by {
            if earlier.contains(last) {
                let i = earlier.index_of(last);
                assert(names[i] == names[names.len() - 1]);
            }
        }
        if other.contains(last) {
            lemma_unique_push(common(earlier, other), last);
            assert(common(names, other).drop_last() =~= common(earlier, other));
        } else {
            lemma_unique_push(missing(earlier, other), last);
            assert(missing(names, other).drop_last() =~= missing(earlier, other));
        }
        assert forall|x: Name|
            #![trigger common(names, other).contains(x)]
            common(names, other).contains(x) == (names.contains(x) && other.contains(x)) by {
            lemma_contains_split(names, x);
            if other.contains(last) {
                lemma_contains_split(common(names, other), x);
            }
        }
        assert forall|x: Name|
            #![trigger missing(names, other).contains(x)]
            missing(names, other).contains(x) == (names.contains(x) && !other.contains(x)) by {
            lemma_contains_split(names, x);
            if !other.contains(last) {
                lemma_contains_split(missing(names, other), x);
            }
        }
    }
}

/// A new element keeps a list distinct.
pub proof fn lemma_unique_push<A>(names: Seq<A>, name: A)
    requires
        variable::unique(names),
        !names.contains(name),
    ensures
        variable::unique(names.push(name)),
{
    assert forall|i: int, j: int| 0 <= i < j < names.push(name).len() implies names.push(name)[i]
        != names.push(name)[j] by {
        assert(names.push(name)[i] == names[i]);
        assert(names.contains(names[i]));
    }
}

/// The shared columns can be projected from both sides, the new ones from the right.
proof fn lemma_shared_projectable(left: Seq<Name>, right: Seq<Name>)
    requires
        variable::unique(left),
        variable::unique(right),
    ensures
        projection_fault(left, common(left, right)) is None,
        projection_fault(right, common(left, right)) is None,
        projection_fault(right, missing(right, left)) is None,
        variable::unique(left + missing(right, left)),
{
    let shared = common(left, right);
    let rest = missing(right, left);
    lemma_common_missing(left, right);
    lemma_common_missing(right, left);
    assert forall|i: int| 0 <= i < shared.len() implies left.contains(#[trigger] shared[i])
        && right.contains(shared[i]) by {
        assert(shared.contains(shared[i]));
    }
    assert forall|i: int| 0 <= i < rest.len() implies right.contains(#[trigger] rest[i])
        && !left.contains(rest[i]) by {
        assert(rest.contains(rest[i]));
    }
    lemma_no_fault(left, shared);
    lemma_no_fault(right, shared);
    lemma_no_fault(right, rest);
    let all = left + rest;
    assert forall|i: int, j: int| 0 <= i < j < all.len() implies all[i] != all[j] by {
        if j >= left.len() {
            assert(all[j] == rest[j - left.len()]);
            if i < left.len() {
                assert(left.contains(all[i]));
            } else {
                assert(all[i] == rest[i - left.len()]);
            }
        }
    }
}

/// The rows with a key lie among the rows and hold the key.
proof fn lemma_rows_with_key(rows: Seq<Row>, cols: Seq<usize>, key: Row)
    requires
        rows.len() <= usize::MAX,
    ensures
        forall|i: int|
            0 <= i < rows_with_key(rows, cols, key).len() ==> (#[trigger] rows_with_key(
                rows,
                cols,
                key,
            )[i]) < rows.len() && pick(rows[rows_with_key(rows, cols, key)[i] as int], cols) == key,
    decreases rows.len(),
{
    if rows.len() > 0 {
        let earlier = rows.drop_last();
        lemma_rows_with_key(earlier, cols, key);
        let found = rows_with_key(rows, cols, key);
        assert forall|i: int| 0 <= i < found.len() implies (#[trigger] found[i]) < rows.len()
            && pick(rows[found[i] as int], cols) == key by {
            if i < rows_with_key(earlier, cols, key).len() {
                assert(found[i] == rows_with_key(earlier, cols, key)[i]);
                assert(rows[found[i] as int] == earlier[found[i] as int]);
            }
        }
    }
}

/// The joined rows of one left row, read off the positions of the right rows with its key.
proof fn lemma_matches_by_index(
    left: Row,
    key: Row,
    right: Seq<Row>,
    rkey: Seq<usize>,
    rest: Seq<usize>,
)
    requires
        right.len() <= usize::MAX,
    ensures
        matches_of(left, key, right, rkey, rest) == Seq::new(
            rows_with_key(right, rkey, key).len(),
            |i: int| left + pick(right[rows_with_key(right, rkey, key)[i] as int], rest),
        ),
    decreases right.len(),
{
    let found = rows_with_key(right, rkey, key);
    let listed = Seq::new(found.len(), |i: int| left + pick(right[found[i] as int], rest));
    if right.len() > 0 {
        let earlier = right.drop_last();
        lemma_matches_by_index(left, key, earlier, rkey, rest);
        lemma_rows_with_key(earlier, rkey, key);
        let before = rows_with_key(earlier, rkey, key);
        assert forall|i: int| 0 <= i < before.len() implies #[trigger] listed[i] == left + pick(
            earlier[before[i] as int],
            rest,
        ) by {
            assert(found[i] == before[i]);
            assert(right[found[i] as int] == earlier[before[i] as int]);
        }
    }
    assert(matches_of(left, key, right, rkey, rest) =~= listed);
}

/// One more row in an index.
proof fn lemma_index_step(
    old_index: RowIndex,
    new_index: RowIndex,
    rows: Seq<Row>,
    cols: Seq<usize>,
    n: int,
    at: int,
)
    requires
        0 <= n < rows.len() <= usize::MAX,
        old_index.describes(rows.take(n), cols),
        0 <= at < new_index.groups@.len(),
        group_key(new_index.groups@, at) == pick(rows[n], cols),
        if at < old_index.groups@.len() {
            &&& new_index.groups@.len() == old_index.groups@.len()
            &&& group_key(old_index.groups@, at) == pick(rows[n], cols)
            &&& new_index.groups@[at].rows@ == old_index.groups@[at].rows@.push(n as usize)
        } else {
            &&& at == old_index.groups@.len()
            &&& new_index.groups@.len() == at + 1
            &&& new_index.groups@[at].rows@ == seq![n as usize]
            &&& forall|i: int|
                0 <= i < at ==> #[trigger] group_key(old_index.groups@, i) != pick(rows[n], cols)
        },
        forall|i: int|
            0 <= i < old_index.groups@.len() && i != at ==> {
                &&& #[trigger] group_key(new_index.groups@, i) == group_key(old_index.groups@, i)
                &&& new_index.groups@[i].rows@ == old_index.groups@[i].rows@
            },
    ensures
        new_index.describes(rows.take(n + 1), cols),
{
    let key = pick(rows[n], cols);
    let seen = rows.take(n);
    let next = rows.take(n + 1);
    assert(next.drop_last() =~= seen);
    let old_groups = old_index.groups@;
    let groups = new_index.groups@;
    assert forall|k: Row| #[trigger]
        rows_with_key(next, cols, k) == if k == key {
            rows_with_key(seen, cols, k).push(n as usize)
        } else {
            rows_with_key(seen, cols, k)
        } by {}
    assert forall|i: int, j: int| 0 <= i < j < groups.len() implies #[trigger] group_key(groups, i)
        != #[trigger] group_key(groups, j) by {
        if i != at {
            assert(group_key(groups, i) == group_key(old_groups, i));
        }
        if j != at {
            assert(group_key(groups, j) == group_key(old_groups, j));
        }
        if at < old_groups.len() {
            assert(group_key(old_groups, i) != group_key(old_groups, j));
        }
    }
    lemma_lookup(old_index, seen, cols, key);
    assert forall|i: int| 0 <= i < groups.len() implies {
        &&& groups[i].rows@ == rows_with_key(next, cols, #[trigger] group_key(groups, i))
        &&& groups[i].rows@.len() > 0
    } by {
        if i == at {
            if at == old_groups.len() {
                assert(rows_with_key(seen, cols, key) =~= Seq::<usize>::empty());
                assert(groups[i].rows@ =~= rows_with_key(seen, cols, key).push(n as usize));
            }
        } else {
            assert(group_key(groups, i) == group_key(old_groups, i));
            if at < old_groups.len() {
                if i < at {
                    assert(group_key(old_groups, i) != group_key(old_groups, at));
                } else {
                    assert(group_key(old_groups, at) != group_key(old_groups, i));
                }
            }
        }
    }
    assert forall|k: Row| (#[trigger] rows_with_key(next, cols, k)).len() > 0 implies exists|
        i: int,
    |
        0 <= i < groups.len() && group_key(groups, i) == k by {
        if k == key {
            assert(group_key(groups, at) == k);
        } else {
            assert(rows_with_key(seen, cols, k).len() > 0);
            let i = choose|i: int| 0 <= i < old_groups.len() && group_key(old_groups, i) == k;
            assert(group_key(groups, i) == k);
        }
    }
}

impl BindingBag {
    /// The positions of the rows, by their values at the given variables.
    pub fn index_by(&self, variables: &[Variable]) -> (r: Result<RowIndex, Error>)
        requires
            self@.wf(),
        ensures
            match r {
                Ok(index) => projection_fault(self@.variables, variables.deep_view()) is None
                    && index.describes(
                    self@.rows,
                    columns(self@.variables, variables.deep_view()),
                ),
                Err(e) => projection_fault(self@.variables, variables.deep_view()) == Some(e@),
            },
    {
        let cols = match self.projection_indexes(variables) {
            Ok(cols) => cols,
            Err(e) => {
                return Err(e);
            },
        };
        let mut index = RowIndex { groups: Vec::new() };
        let mut i: usize = 0;
        while i < self.rows.len()
            invariant
                i <= self.rows@.len(),
                self@.wf(),
                forall|j: int| 0 <= j < cols@.len() ==> #[trigger] cols@[j] < self@.variables.len(),
                index.describes(self@.rows.take(i as int), cols@),
            decreases self.rows@.len() - i,
        {
            let ghost old_index = index;
            assert(self@.rows[i as int].len() == self.rows@[i as int]@.len());
            let key = pick_values(&self.rows[i], &cols);
            let mut at: usize = 0;
            while at < index.groups.len() && !same_row(&index.groups[at].key, &key)
                invariant
                    at <= index.groups@.len(),
                    forall|j: int|
                        0 <= j < at ==> #[trigger] group_key(index.groups@, j) != key.deep_view(),
                decreases index.groups@.len() - at,
            {
                at += 1;
            }
            if at < index.groups.len() {
                index.groups[at].rows.push(i);
            } else {
                let mut rows: Vec<usize> = Vec::new();
                rows.push(i);
                assert(rows@ =~= seq![i]);
                index.groups.push(RowGroup { key, rows });
            }
            proof {
                lemma_index_step(old_index, index, self@.rows, cols@, i as int, at as int);
            }
            i += 1;
        }
        assert(self@.rows.take(i as int) =~= self@.rows);
        Ok(index)
    }

    /// The variables that both bags have.
    fn shared_variables(&self, other: &Self) -> (r: Vec<Variable>)
        ensures
            r.deep_view() == self@.shared(other@),
    {
        let mut out: Vec<Variable> = Vec::new();
        let mut i: usize = 0;
        while i < self.variables.len()
            invariant
                i <= self.variables@.len(),
                out.deep_view() == common(self@.variables.take(i as int), other@.variables),
            decreases self.variables@.len() - i,
        {
            assert(self@.variables.take(i + 1).drop_last() =~= self@.variables.take(i as int));
            if contains(&other.variables, &self.variables[i]) {
                let variable = self.variables[i].clone();
                let ghost earlier = out;
                out.push(variable);
                proof {
                    byte_string::lemma_deep_push(earlier, out, variable);
                }
            }
            i += 1;
        }
        assert(self@.variables.take(i as int) =~= self@.variables);
        out
    }

    /// The variables of `other` that this bag lacks.
    fn new_variables(&self, other: &Self) -> (r: Vec<Variable>)
        ensures
            r.deep_view() == self@.new_names(other@),
    {
        let mut out: Vec<Variable> = Vec::new();
        let mut i: usize = 0;
        while i < other.variables.len()
            invariant
                i <= other.variables@.len(),
                out.deep_view() == missing(other@.variables.take(i as int), self@.variables),
            decreases other.variables@.len() - i,
        {
            assert(other@.variables.take(i + 1).drop_last() =~= other@.variables.take(i as int));
            if !contains(&self.variables, &other.variables[i]) {
                let variable = other.variables[i].clone();
                let ghost earlier = out;
                out.push(variable);
                proof {
                    byte_string::lemma_deep_push(earlier, out, variable);
                }
            }
            i += 1;
        }
        assert(other@.variables.take(i as int) =~= other@.variables);
        out
    }

    /// Each row joined with each row of `other` that agrees with it on the shared variables.
    pub fn natural_join(&self, other: &Self) -> (r: Result<Self, Error>)
        requires
            self@.wf(),
            other@.wf(),
        ensures
            r matches Ok(bag) && bag@ == self@.spec_natural_join(other@) && bag@.wf(),
    {
        proof {
            lemma_shared_projectable(self@.variables, other@.variables);
        }
        let shared = self.shared_variables(other);
        let left_key = match self.projection_indexes(&shared) {
            Ok(cols) => cols,
            Err(e) => {
                return Err(e);
            },
        };
        let right_index = match other.index_by(&shared) {
            Ok(index) => index,
            Err(e) => {
                return Err(e);
            },
        };
        let mut right_only = self.new_variables(other);
        let rest = match other.projection_indexes(&right_only) {
            Ok(cols) => cols,
            Err(e) => {
                return Err(e);
            },
        };
        let ghost rkey = columns(other@.variables, self@.shared(other@));
        let ghost arity = (self@.variables.len() + rest@.len()) as nat;
        let mut rows: Vec<BindingRow> = Vec::new();
        let mut i: usize = 0;
        assert(rows.deep_view() =~= joined_rows(
            self@.rows.take(0),
            other@.rows,
            left_key@,
            rkey,
            rest@,
        ));
        while i < self.rows.len()
            invariant
                i <= self.rows@.len(),
                self@.wf(),
                other@.wf(),
                right_index.describes(other@.rows, rkey),
                arity == self@.variables.len() + rest@.len(),
                forall|j: int|
                    0 <= j < left_key@.len() ==> #[trigger] left_key@[j] < self@.variables.len(),
                forall|j: int|
                    0 <= j < rest@.len() ==> #[trigger] rest@[j] < other@.variables.len(),
                rows.deep_view() == joined_rows(
                    self@.rows.take(i as int),
                    other@.rows,
                    left_key@,
                    rkey,
                    rest@,
                ),
                uniform(rows.deep_view(), arity),
            decreases self.rows@.len() - i,
        {
            let ghost done = rows.deep_view();
            let ghost left = self@.rows[i as int];
            let ghost key_row = pick(left, left_key@);
            let ghost found = rows_with_key(other@.rows, rkey, key_row);
            assert(left.len() == self.rows@[i as int]@.len());
            proof {
                assert(other@.rows.len() == other.rows.len());
                lemma_lookup(right_index, other@.rows, rkey, key_row);
                lemma_rows_with_key(other@.rows, rkey, key_row);
                lemma_matches_by_index(left, key_row, other@.rows, rkey, rest@);
                assert(self@.rows.take(i + 1).drop_last() =~= self@.rows.take(i as int));
            }
            let key = pick_values(&self.rows[i], &left_key);
            match right_index.get(&key) {
                Some(right_rows) => {
                    let mut j: usize = 0;
                    assert(done =~= done + matches_of(left, key_row, other@.rows, rkey, rest@).take(
                        0,
                    ));
                    while j < right_rows.len()
                        invariant
                            i < self.rows@.len(),
                            j <= right_rows@.len(),
                            right_rows@ == found,
                            self@.wf(),
                            other@.wf(),
                            left == self@.rows[i as int],
                            arity == self@.variables.len() + rest@.len(),
                            forall|k: int|
                                0 <= k < rest@.len() ==> #[trigger] rest@[k]
                                    < other@.variables.len(),
                            forall|k: int|
                                0 <= k < found.len() ==> (#[trigger] found[k]) < other@.rows.len(),
                            matches_of(left, key_row, other@.rows, rkey, rest@) == Seq::new(
                                found.len(),
                                |k: int| left + pick(other@.rows[found[k] as int], rest@),
                            ),
                            rows.deep_view() == done + matches_of(
                                left,
                                key_row,
                                other@.rows,
                                rkey,
                                rest@,
                            ).take(j as int),
                            uniform(rows.deep_view(), arity),
                        decreases right_rows@.len() - j,
                    {
                        let right_row: usize = right_rows[j];
                        assert(found[j as int] == right_row);
                        assert(other@.rows[right_row as int].len()
                            == other.rows@[right_row as int]@.len());
                        let mut row = copy_row(&self.rows[i]);
                        let mut tail = pick_values(&other.rows[right_row], &rest);
                        let ghost head = row;
                        let ghost end = tail;
                        row.append(&mut tail);
                        assert(row.deep_view() =~= head.deep_view() + end.deep_view());
                        assert(left.len() == self@.variables.len());
                        let ghost earlier = rows;
                        rows.push(row);
                        proof {
                            byte_string::lemma_deep_push(earlier, rows, row);
                        }
                        j += 1;
                        assert(rows.deep_view() =~= done + matches_of(
                            left,
                            key_row,
                            other@.rows,
                            rkey,
                            rest@,
                        ).take(j as int));
                    }
                    assert(matches_of(left, key_row, other@.rows, rkey, rest@).take(j as int)
                        =~= matches_of(left, key_row, other@.rows, rkey, rest@));
                },
                None => {
                    assert(done =~= done + matches_of(left, key_row, other@.rows, rkey, rest@));
                },
            }
            i += 1;
        }
        assert(self@.rows.take(i as int) =~= self@.rows);
        let mut variables = copy_all(&self.variables);
        let ghost head = variables;
        let ghost end = right_only;
        variables.append(&mut right_only);
        assert(variables.deep_view() =~= head.deep_view() + end.deep_view());
        Ok(BindingBag { variables, rows })
    }

    /// The rows that have an agreeing row in `other`, or those that have none.
    fn filter_by_match(&self, other: &Self, wanted: bool) -> (r: Result<Self, Error>)
        requires
            self@.wf(),
            other@.wf(),
        ensures
            r matches Ok(bag) && bag@ == self@.by_match(other@, wanted) && bag@.wf(),
    {
        proof {
            lemma_shared_projectable(self@.variables, other@.variables);
        }
        let shared = self.shared_variables(other);
        let left_key = match self.projection_indexes(&shared) {
            Ok(cols) => cols,
            Err(e) => {
                return Err(e);
            },
        };
        let right_index = match other.index_by(&shared) {
            Ok(index) => index,
            Err(e) => {
                return Err(e);
            },
        };
        let ghost rkey = columns(other@.variables, self@.shared(other@));
        let mut rows: Vec<BindingRow> = Vec::new();
        let mut i: usize = 0;
        while i < self.rows.len()
            invariant
                i <= self.rows@.len(),
                self@.wf(),
                other@.wf(),
                right_index.describes(other@.rows, rkey),
                forall|j: int|
                    0 <= j < left_key@.len() ==> #[trigger] left_key@[j] < self@.variables.len(),
                rows.deep_view() == rows_by_match(
                    self@.rows.take(i as int),
                    other@.rows,
                    left_key@,
                    rkey,
                    wanted,
                ),
                uniform(rows.deep_view(), self@.variables.len()),
            decreases self.rows@.len() - i,
        {
            proof {
                assert(self@.rows[i as int].len() == self.rows@[i as int]@.len());
                lemma_lookup(right_index, other@.rows, rkey, pick(self@.rows[i as int], left_key@));
                assert(self@.rows.take(i + 1).drop_last() =~= self@.rows.take(i as int));
            }
            let key = pick_values(&self.rows[i], &left_key);
            let found = match right_index.get(&key) {
                Some(_) => true,
                None => false,
            };
            if found == wanted {
                let row = copy_row(&self.rows[i]);
                let ghost earlier = rows;
                rows.push(row);
                proof {
                    byte_string::lemma_deep_push(earlier, rows, row);
                }
            }
            i += 1;
        }
        assert(self@.rows.take(i as int) =~= self@.rows);
        Ok(BindingBag { variables: copy_all(&self.variables), rows })
    }

    /// The rows with which some row of `other` agrees on the shared variables.
    pub fn semijoin(&self, other: &Self) -> (r: Result<Self, Error>)
        requires
            self@.wf(),
            other@.wf(),
        ensures
            r matches Ok(bag) && bag@ == self@.spec_semijoin(other@) && bag@.wf(),
    {
        self.filter_by_match(other, true)
    }

    /// The rows with which no row of `other` agrees on the shared variables.
    pub fn antijoin(&self, other: &Self) -> (r: Result<Self, Error>)
        requires
            self@.wf(),
            other@.wf(),
        ensures
            r matches Ok(bag) && bag@ == self@.spec_antijoin(other@) && bag@.wf(),
    {
        self.filter_by_match(other, false)
    }

    /// All rows of both bags, which must have the same layout.
    pub fn union(&self, other: &Self) -> (r: Result<Self, Error>)
        requires
            self@.wf(),
            other@.wf(),
        ensures
            match r {
                Ok(bag) => self@.variables == other@.variables && bag@ == self@.spec_union(other@)
                    && bag@.wf(),
                Err(e) => e@ == ErrorView::UnionLayout && self@.variables != other@.variables,
            },
    {
        if !same_all(&self.variables, &other.variables) {
            return Err(Error::UnionLayout);
        }
        let mut rows = copy_rows(&self.rows);
        let mut more = copy_rows(&other.rows);
        let ghost head = rows;
        let ghost end = more;
        rows.append(&mut more);
        assert(rows.deep_view() =~= head.deep_view() + end.deep_view());
        Ok(BindingBag { variables: copy_all(&self.variables), rows })
    }

    /// Each row of both bags once; the bags must have the same layout.
    pub fn distinct_union(&self, other: &Self) -> (r: Result<Self, Error>)
        requires
            self@.wf(),
            other@.wf(),
        ensures
            match r {
                Ok(bag) => self@.variables == other@.variables && bag@ == self@.spec_union(
                    other@,
                ).spec_distinct() && bag@.wf(),
                Err(e) => e@ == ErrorView::UnionLayout && self@.variables != other@.variables,
            },
    {
        match self.union(other) {
            Ok(bag) => Ok(bag.distinct()),
            Err(e) => Err(e),
        }
    }
}

/// Projecting a relation to its own columns changes nothing.
pub proof fn lemma_project_all(bag: Relation)
    requires
        bag.wf(),
        bag.variables.len() <= usize::MAX,
    ensures
        bag.spec_project(bag.variables) == bag,
{
    let cols = columns(bag.variables, bag.variables);
    assert forall|i: int| 0 <= i < bag.rows.len() implies #[trigger] projected(bag.rows, cols)[i]
        == bag.rows[i] by {
        lemma_pick_all(bag.variables, bag.rows[i]);
    }
    assert(projected(bag.rows, cols) =~= bag.rows);
}

/// Picking no column gives the empty row.
proof fn lemma_pick_nothing(row: Row)
    ensures
        pick(row, Seq::empty()) == Seq::<Seq<u8>>::empty(),
{
    assert(pick(row, Seq::empty()) =~= Seq::<Seq<u8>>::empty());
}

/// Picking every column of a row in order gives the row.
proof fn lemma_pick_all(layout: Seq<Name>, row: Row)
    requires
        variable::unique(layout),
        row.len() == layout.len(),
        layout.len() <= usize::MAX,
    ensures
        pick(row, columns(layout, layout)) == row,
{
    assert forall|i: int| 0 <= i < layout.len() implies #[trigger] columns(layout, layout)[i]
        == i by {
        lemma_index_of(layout, i);
    }
    assert(pick(row, columns(layout, layout)) =~= row);
}

/// Names shared with, or missing from, no name at all.
proof fn lemma_common_with_nothing(names: Seq<Name>)
    ensures
        common(names, Seq::empty()) == Seq::<Name>::empty(),
        common(Seq::empty(), names) == Seq::<Name>::empty(),
        missing(names, Seq::empty()) == names,
        missing(Seq::empty(), names) == Seq::<Name>::empty(),
    decreases names.len(),
{
    if names.len() > 0 {
        lemma_common_with_nothing(names.drop_last());
        assert(missing(names, Seq::empty()) =~= names);
    }
}

/// The unit relation is a left identity of the natural join.
pub proof fn law_unit_joins_left(bag: Relation)
    requires
        bag.wf(),
        bag.variables.len() <= usize::MAX,
    ensures
        Relation::spec_unit().spec_natural_join(bag) == bag,
{
    let unit = Relation::spec_unit();
    lemma_common_with_nothing(bag.variables);
    let none = columns(bag.variables, Seq::empty());
    let all = columns(bag.variables, bag.variables);
    assert(columns(Seq::<Name>::empty(), Seq::<Name>::empty()) =~= Seq::<usize>::empty());
    assert(none =~= Seq::<usize>::empty());
    assert(unit.rows.drop_last() =~= Seq::<Row>::empty());
    lemma_pick_nothing(unit.rows[0]);
    lemma_all_match(Seq::empty(), bag.rows, all);
    assert forall|i: int| 0 <= i < bag.rows.len() implies #[trigger] projected(bag.rows, all)[i]
        == bag.rows[i] by {
        lemma_pick_all(bag.variables, bag.rows[i]);
    }
    assert(extended_row(Seq::empty(), projected(bag.rows, all)) =~= bag.rows) by {
        assert forall|i: int| 0 <= i < bag.rows.len() implies #[trigger] extended_row(
            Seq::empty(),
            projected(bag.rows, all),
        )[i] == bag.rows[i] by {
            assert(projected(bag.rows, all)[i] == bag.rows[i]);
            assert(Seq::<Seq<u8>>::empty() + bag.rows[i] =~= bag.rows[i]);
        }
    }
    let rows = unit.rows;
    assert(joined_rows(rows.drop_last(), bag.rows, Seq::empty(), Seq::empty(), all)
        =~= Seq::<Row>::empty());
    assert(rows.last() =~= Seq::<Seq<u8>>::empty());
    assert(joined_rows(rows, bag.rows, Seq::empty(), Seq::empty(), all) =~= bag.rows);
    assert(unit.spec_natural_join(bag).rows =~= bag.rows);
    assert(unit.spec_natural_join(bag) =~= bag);
}

/// Without a key every right row matches.
proof fn lemma_all_match(left: Row, right: Seq<Row>, rest: Seq<usize>)
    ensures
        matches_of(left, Seq::empty(), right, Seq::empty(), rest) == extended_row(
            left,
            projected(right, rest),
        ),
    decreases right.len(),
{
    if right.len() > 0 {
        lemma_all_match(left, right.drop_last(), rest);
        lemma_pick_nothing(right.last());
    }
    assert(matches_of(left, Seq::empty(), right, Seq::empty(), rest) =~= extended_row(
        left,
        projected(right, rest),
    ));
}

/// The unit relation is a right identity of the natural join and of the semijoin, and the
/// antijoin with it leaves nothing.
pub proof fn law_unit_joins_right(bag: Relation)
    ensures
        bag.spec_natural_join(Relation::spec_unit()) == bag,
        bag.spec_semijoin(Relation::spec_unit()) == bag,
        bag.spec_antijoin(Relation::spec_unit()) == Relation::spec_empty(bag.variables),
{
    let unit = Relation::spec_unit();
    lemma_common_with_nothing(bag.variables);
    let lkey = columns(bag.variables, Seq::empty());
    let rkey = columns(Seq::<Name>::empty(), Seq::<Name>::empty());
    assert(lkey =~= Seq::<usize>::empty());
    assert(rkey =~= Seq::<usize>::empty());
    assert(bag.variables + Seq::<Name>::empty() =~= bag.variables);
    lemma_join_unit_rows(bag.rows);
    assert(bag.spec_natural_join(unit) =~= bag);
    assert(bag.spec_semijoin(unit) =~= bag);
    assert(bag.spec_antijoin(unit) =~= Relation::spec_empty(bag.variables));
}

proof fn lemma_join_unit_rows(rows: Seq<Row>)
    ensures
        joined_rows(rows, Relation::spec_unit().rows, Seq::empty(), Seq::empty(), Seq::empty())
            == rows,
        rows_by_match(rows, Relation::spec_unit().rows, Seq::empty(), Seq::empty(), true) == rows,
        rows_by_match(rows, Relation::spec_unit().rows, Seq::empty(), Seq::empty(), false)
            == Seq::<Row>::empty(),
    decreases rows.len(),
{
    if rows.len() > 0 {
        lemma_join_unit_rows(rows.drop_last());
        let right = Relation::spec_unit().rows;
        lemma_pick_nothing(rows.last());
        lemma_pick_nothing(right[0]);
        assert(right.drop_last() =~= Seq::<Row>::empty());
        lemma_all_match(rows.last(), right, Seq::empty());
        assert(rows.last() + Seq::<Seq<u8>>::empty() =~= rows.last());
        assert(matches_of(rows.last(), Seq::empty(), right, Seq::empty(), Seq::empty())
            =~= seq![rows.last()]);
        assert(rows_with_key(right, Seq::empty(), Seq::empty()).len() == 1) by {
            assert(rows_with_key(right.drop_last(), Seq::empty(), Seq::empty())
                =~= Seq::<usize>::empty());
        }
        assert(rows =~= rows.drop_last().push(rows.last()));
        assert(joined_rows(rows, right, Seq::empty(), Seq::empty(), Seq::empty()) =~= rows);
        assert(rows_by_match(rows, right, Seq::empty(), Seq::empty(), true) =~= rows);
    }
}

/// Joining with a relation that has no row leaves no row, a semijoin with it leaves none
/// either, and an antijoin with it leaves every row.
pub proof fn law_empty_joins(bag: Relation, names: Seq<Name>)
    ensures
        bag.spec_natural_join(Relation::spec_empty(names)).rows == Seq::<Row>::empty(),
        Relation::spec_empty(names).spec_natural_join(bag).rows == Seq::<Row>::empty(),
        bag.spec_semijoin(Relation::spec_empty(names)) == Relation::spec_empty(bag.variables),
        bag.spec_antijoin(Relation::spec_empty(names)) == bag,
{
    let empty = Relation::spec_empty(names);
    let shared = bag.shared(empty);
    let lkey = columns(bag.variables, shared);
    let rkey = columns(names, shared);
    let rest = columns(names, bag.new_names(empty));
    lemma_join_no_rows(bag.rows, lkey, rkey, rest);
    assert(bag.spec_semijoin(empty) =~= Relation::spec_empty(bag.variables));
    assert(bag.spec_antijoin(empty) =~= bag);
}

proof fn lemma_join_no_rows(rows: Seq<Row>, lkey: Seq<usize>, rkey: Seq<usize>, rest: Seq<usize>)
    ensures
        joined_rows(rows, Seq::empty(), lkey, rkey, rest) == Seq::<Row>::empty(),
        rows_by_match(rows, Seq::empty(), lkey, rkey, true) == Seq::<Row>::empty(),
        rows_by_match(rows, Seq::empty(), lkey, rkey, false) == rows,
    decreases rows.len(),
{
    if rows.len() > 0 {
        lemma_join_no_rows(rows.drop_last(), lkey, rkey, rest);
        assert(rows =~= rows.drop_last().push(rows.last()));
        assert(joined_rows(rows, Seq::empty(), lkey, rkey, rest) =~= Seq::<Row>::empty());
    }
}

/// The semijoin and the antijoin with one relation split the rows: together they hold every
/// row as often as it occurred.
pub proof fn law_semijoin_antijoin_partition(left: Relation, right: Relation)
    ensures
        left.spec_semijoin(right).rows.to_multiset().add(
            left.spec_antijoin(right).rows.to_multiset(),
        ) =~= left.rows.to_multiset(),
{
    lemma_partition_rows(
        left.rows,
        right.rows,
        columns(left.variables, left.shared(right)),
        columns(right.variables, left.shared(right)),
    );
}

proof fn lemma_partition_rows(
    left: Seq<Row>,
    right: Seq<Row>,
    lkey: Seq<usize>,
    rkey: Seq<usize>,
)
    ensures
        rows_by_match(left, right, lkey, rkey, true).to_multiset().add(
            rows_by_match(left, right, lkey, rkey, false).to_multiset(),
        ) =~= left.to_multiset(),
    decreases left.len(),
{
    broadcast use vstd::seq_lib::group_to_multiset_ensures;

    if left.len() > 0 {
        lemma_partition_rows(left.drop_last(), right, lkey, rkey);
        assert(left =~= left.drop_last().push(left.last()));
    }
}

/// Dropping repetitions keeps which rows occur, leaves each once, and does nothing more when
/// done again.
pub proof fn law_distinct(bag: Relation)
    ensures
        bag.spec_distinct().rows.no_duplicates(),
        forall|row: Row| #[trigger]
            bag.spec_distinct().rows.contains(row) == bag.rows.contains(row),
        bag.spec_distinct().spec_distinct() == bag.spec_distinct(),
{
    lemma_distinct_no_duplicates(bag.rows);
    assert forall|row: Row| #[trigger]
        bag.spec_distinct().rows.contains(row) == bag.rows.contains(row) by {
        lemma_distinct_contains(bag.rows, row);
    }
    lemma_distinct_of_distinct(distinct_rows(bag.rows));
    assert(bag.spec_distinct().spec_distinct() =~= bag.spec_distinct());
}

pub proof fn lemma_distinct_no_duplicates(rows: Seq<Row>)
    ensures
        distinct_rows(rows).no_duplicates(),
    decreases rows.len(),
{
    if rows.len() > 0 {
        let earlier = rows.drop_last();
        lemma_distinct_no_duplicates(earlier);
        lemma_distinct_contains(earlier, rows.last());
        if !earlier.contains(rows.last()) {
            let d = distinct_rows(earlier);
            assert forall|i: int, j: int|
                0 <= i < d.len() + 1 && 0 <= j < d.len() + 1 && i != j implies d.push(
                rows.last(),
            )[i] != d.push(rows.last())[j] by {
                if i < d.len() {
                    assert(d.contains(d[i]));
                }
                if j < d.len() {
                    assert(d.contains(d[j]));
                }
            }
        }
    }
}

proof fn lemma_distinct_of_distinct(rows: Seq<Row>)
    requires
        rows.no_duplicates(),
    ensures
        distinct_rows(rows) == rows,
    decreases rows.len(),
{
    if rows.len() > 0 {
        let earlier = rows.drop_last();
        assert(earlier.no_duplicates()) by {
            assert forall|i: int, j: int|
                0 <= i < earlier.len() && 0 <= j < earlier.len() && i != j implies earlier[i]
                != earlier[j] by {
                assert(rows[i] != rows[j]);
            }
        }
        lemma_distinct_of_distinct(earlier);
        if earlier.contains(rows.last()) {
            let i = earlier.index_of(rows.last());
            assert(rows[i] != rows[rows.len() - 1]);
        }
        assert(distinct_rows(rows) =~= rows);
    } else {
        assert(distinct_rows(rows) =~= rows);
    }
}

/// Joining a relation with itself in a distinct union adds nothing.
pub proof fn law_distinct_union_idempotent(bag: Relation)
    ensures
        bag.spec_union(bag).spec_distinct() == bag.spec_distinct(),
{
    lemma_distinct_absorbs(bag.rows, bag.rows);
    assert(bag.spec_union(bag).spec_distinct() =~= bag.spec_distinct());
}

proof fn lemma_distinct_absorbs(rows: Seq<Row>, more: Seq<Row>)
    requires
        forall|i: int| 0 <= i < more.len() ==> rows.contains(#[trigger] more[i]),
    ensures
        distinct_rows(rows + more) == distinct_rows(rows),
    decreases more.len(),
{
    if more.len() > 0 {
        let all = rows + more;
        assert(all.drop_last() =~= rows + more.drop_last());
        assert forall|i: int| 0 <= i < more.drop_last().len() implies rows.contains(
            #[trigger] more.drop_last()[i],
        ) by {
            assert(more.drop_last()[i] == more[i]);
        }
        lemma_distinct_absorbs(rows, more.drop_last());
        assert(rows.contains(more[more.len() - 1]));
        let i = rows.index_of(more.last());
        assert(all.drop_last()[i] == all.last());
    } else {
        assert(rows + more =~= rows);
    }
}

/// Reordering the columns and ordering them back gives the relation itself.
pub proof fn law_reorder_round_trip(bag: Relation, names: Seq<Name>)
    requires
        bag.wf(),
        bag.variables.len() <= usize::MAX,
        names.len() == bag.variables.len(),
        projection_fault(bag.variables, names) is None,
    ensures
        projection_fault(names, bag.variables) is None,
        bag.spec_project(names).spec_project(bag.variables) == bag,
{
    lemma_projectable(bag.variables, names);
    let there = columns(bag.variables, names);
    let back = columns(names, bag.variables);
    lemma_covers(bag.variables, names);
    lemma_no_fault(names, bag.variables);
    let round = bag.spec_project(names).spec_project(bag.variables);
    assert forall|i: int| 0 <= i < bag.rows.len() implies #[trigger] round.rows[i]
        == bag.rows[i] by {
        let row = bag.rows[i];
        assert forall|j: int| 0 <= j < row.len() implies #[trigger] round.rows[i][j] == row[j] by {
            let name = bag.variables[j];
            assert(names.contains(name));
            let k = names.index_of(name);
            assert(names[k] == name);
            lemma_index_of(bag.variables, j);
            assert(there[k] == j);
            assert(back[j] == k);
        }
        assert(round.rows[i] =~= row);
    }
    assert(round =~= bag);
}

/// Distinct names drawn from as many names are all of them.
pub proof fn lemma_covers(all: Seq<Name>, names: Seq<Name>)
    requires
        variable::unique(all),
        variable::unique(names),
        names.len() == all.len(),
        forall|i: int| 0 <= i < names.len() ==> all.contains(#[trigger] names[i]),
    ensures
        forall|i: int| 0 <= i < all.len() ==> names.contains(#[trigger] all[i]),
{
    assert(all.no_duplicates()) by {
        assert forall|i: int, j: int|
            0 <= i < all.len() && 0 <= j < all.len() && i != j implies all[i] != all[j] by {
            if i < j {
                assert(all[i] != all[j]);
            } else {
                assert(all[j] != all[i]);
            }
        }
    }
    assert(names.no_duplicates()) by {
        assert forall|i: int, j: int|
            0 <= i < names.len() && 0 <= j < names.len() && i != j implies names[i] != names[j] by {
            if i < j {
                assert(names[i] != names[j]);
            } else {
                assert(names[j] != names[i]);
            }
        }
    }
    all.unique_seq_to_set();
    names.unique_seq_to_set();
    assert(names.to_set().subset_of(all.to_set())) by {
        assert forall|x: Name| names.to_set().contains(x) implies all.to_set().contains(x) by {
            let i = names.index_of(x);
            assert(all.contains(names[i]));
        }
    }
    vstd::set_lib::lemma_subset_equality(names.to_set(), all.to_set());
    assert forall|i: int| 0 <= i < all.len() implies names.contains(#[trigger] all[i]) by {
        assert(all.contains(all[i]));
        assert(names.to_set().contains(all[i]));
    }
}

} // verus!
