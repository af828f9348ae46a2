//! Planning: in which stages, and through which patterns, the variables of a query are bound.

use vstd::prelude::*;

use crate::error::{Error, ErrorView};
use crate::expr::{self, add_all_new, Expr};
use crate::query::ast::Pattern;
use crate::query::binding_bag;
use crate::text::{self, count_text, followed_by};
use crate::value::DataType;
use crate::variable::{self, contains, copy_all, Name, Variable};

verus! {

/// What identifies a pattern within a query.
pub type PatternId = usize;

/// A pattern as the planner sees it.
#[derive(Debug)]
pub struct Descriptor {
    pub id: PatternId,
    pub variables: Vec<Variable>,
    pub kind: DescriptorKind,
}

/// The kinds of pattern.
#[derive(Debug)]
pub enum DescriptorKind {
    Triple(Pattern),
    Relation { rows: Vec<Vec<DataType>> },
    Predicate { expression: Expr },
    Function { expression: Expr, input_variables: Vec<Variable>, output: Variable },
    Or { branches: Vec<Vec<Descriptor>> },
    Not { children: Vec<Descriptor> },
}

/// How many of the first names are bound.
pub open spec fn bound_prefix(names: Seq<Name>, bound: Seq<Name>) -> nat
    decreases names.len(),
{
    if names.len() > 0 && bound.contains(names[0]) {
        1 + bound_prefix(names.drop_first(), bound)
    } else {
        0
    }
}

/// Whether every name is bound.
pub open spec fn all_bound(names: Seq<Name>, bound: Seq<Name>) -> bool {
    forall|i: int| 0 <= i < names.len() ==> bound.contains(#[trigger] names[i])
}

/// The column that a relation can bind next: the one behind its bound columns, where those
/// are its first ones.
pub open spec fn relation_next(names: Seq<Name>, bound: Seq<Name>) -> Seq<Name> {
    let n = bound_prefix(names, bound) as int;
    if n < names.len() && forall|i: int| n <= i < names.len() ==> !bound.contains(#[trigger] names[i]) {
        seq![names[n]]
    } else {
        Seq::empty()
    }
}

/// The variables that a pattern can bind next.
pub open spec fn grounds(d: Descriptor, bound: Seq<Name>) -> Seq<Name>
    decreases d, 0int, 0int,
{
    match d.kind {
        DescriptorKind::Triple(_) => binding_bag::missing(d.variables.deep_view(), bound),
        DescriptorKind::Relation { .. } => relation_next(d.variables.deep_view(), bound),
        DescriptorKind::Predicate { .. } => Seq::empty(),
        DescriptorKind::Not { .. } => Seq::empty(),
        DescriptorKind::Function { input_variables, output, .. } => {
            if !bound.contains(output@) && all_bound(input_variables.deep_view(), bound) {
                seq![output@]
            } else {
                Seq::empty()
            }
        },
        DescriptorKind::Or { branches } => {
            let wanted = binding_bag::missing(d.variables.deep_view(), bound);
            if all_derive(branches@, bound, wanted) {
                wanted
            } else {
                Seq::empty()
            }
        },
    }
}

/// Whether each branch binds all the names.
pub open spec fn all_derive(
    branches: Seq<Vec<Descriptor>>,
    bound: Seq<Name>,
    wanted: Seq<Name>,
) -> bool
    decreases branches, 3int, 0int,
{
    branches.len() == 0 || (all_derive(branches.drop_last(), bound, wanted) && derives(
        branches.last()@,
        bound,
        wanted,
    ))
}

/// Whether the patterns of a branch, applied over and over, bind all the names. Each round
/// but the last binds one of their names, so there are no more rounds than names.
pub open spec fn derives(ds: Seq<Descriptor>, bound: Seq<Name>, wanted: Seq<Name>) -> bool
    decreases ds, 2int, 0int,
{
    all_bound(wanted, rounds(ds, bound, all_names(ds).len()))
}

/// What is bound after applying the patterns `n` times over.
pub open spec fn rounds(ds: Seq<Descriptor>, bound: Seq<Name>, n: nat) -> Seq<Name>
    decreases ds, 1int, n,
{
    if n == 0 {
        bound
    } else {
        round(ds, rounds(ds, bound, (n - 1) as nat), ds.len())
    }
}

/// What is bound after applying the first `k` patterns once, one after the other.
pub open spec fn round(ds: Seq<Descriptor>, bound: Seq<Name>, k: nat) -> Seq<Name>
    decreases ds, 0int, k,
{
    if k == 0 || k > ds.len() {
        bound
    } else {
        let earlier = round(ds, bound, (k - 1) as nat);
        expr::with_new(earlier, grounds(ds[k - 1], earlier))
    }
}

/// The names that a pattern may bind.
pub open spec fn names_of(d: Descriptor) -> Seq<Name> {
    match d.kind {
        DescriptorKind::Function { output, .. } => d.variables.deep_view().push(output@),
        _ => d.variables.deep_view(),
    }
}

/// The names that some of the patterns may bind.
pub open spec fn all_names(ds: Seq<Descriptor>) -> Seq<Name>
    decreases ds.len(),
{
    if ds.len() == 0 {
        Seq::empty()
    } else {
        all_names(ds.drop_last()) + names_of(ds.last())
    }
}

/// How many of the first variables are bound.
pub fn count_bound_prefix(variables: &[Variable], bound: &[Variable]) -> (r: usize)
    ensures
        r == bound_prefix(variables.deep_view(), bound.deep_view()),
        r <= variables@.len(),
{
    let ghost names = variables.deep_view();
    let mut i: usize = 0;
    assert(names.skip(0) =~= names);
    while i < variables.len() && contains(bound, &variables[i])
        invariant
            i <= variables@.len(),
            names == variables.deep_view(),
            bound_prefix(names, bound.deep_view()) == i + bound_prefix(
                names.skip(i as int),
                bound.deep_view(),
            ),
        decreases variables@.len() - i,
    {
        assert(names.skip(i as int)[0] == names[i as int]);
        assert(names.skip(i as int).drop_first() =~= names.skip(i + 1));
        i += 1;
    }
    assert(i < names.len() ==> names.skip(i as int)[0] == names[i as int]);
    i
}

/// The column that a relation over these variables can bind next.
pub fn relation_groundable(variables: &[Variable], bound: &[Variable]) -> (r: Vec<Variable>)
    ensures
        r.deep_view() == relation_next(variables.deep_view(), bound.deep_view()),
{
    let ghost names = variables.deep_view();
    let mut out: Vec<Variable> = Vec::new();
    assert(out.deep_view() =~= Seq::<Name>::empty());
    let prefix_len: usize = count_bound_prefix(variables, bound);
    let mut i: usize = prefix_len;
    while i < variables.len()
        invariant
            prefix_len <= i <= variables@.len(),
            names == variables.deep_view(),
            out.deep_view() == Seq::<Name>::empty(),
            prefix_len == bound_prefix(names, bound.deep_view()),
            forall|j: int|
                prefix_len <= j < i ==> !bound.deep_view().contains(#[trigger] names[j]),
        decreases variables@.len() - i,
    {
        if contains(bound, &variables[i]) {
            assert(bound.deep_view().contains(names[i as int]));
            return out;
        }
        i += 1;
    }
    if prefix_len < variables.len() {
        let next = variables[prefix_len].clone();
        let ghost earlier = out;
        out.push(next);
        proof {
            crate::byte_string::lemma_deep_push(earlier, out, next);
        }
        assert(out.deep_view() =~= seq![names[prefix_len as int]]);
    }
    out
}

/// Whether every variable is bound.
pub fn fully_bound(variables: &[Variable], bound: &[Variable]) -> (r: bool)
    ensures
        r == all_bound(variables.deep_view(), bound.deep_view()),
{
    let mut i: usize = 0;
    while i < variables.len()
        invariant
            i <= variables@.len(),
            forall|j: int|
                0 <= j < i ==> bound.deep_view().contains(#[trigger] variables.deep_view()[j]),
        decreases variables@.len() - i,
    {
        if !contains(bound, &variables[i]) {
            assert(!bound.deep_view().contains(variables.deep_view()[i as int]));
            return false;
        }
        i += 1;
    }
    true
}

/// The variables that are not bound, in order.
pub fn unbound_of(variables: &[Variable], bound: &[Variable]) -> (r: Vec<Variable>)
    ensures
        r.deep_view() == binding_bag::missing(variables.deep_view(), bound.deep_view()),
{
    let ghost names = variables.deep_view();
    let mut out: Vec<Variable> = Vec::new();
    let mut i: usize = 0;
    assert(out.deep_view() =~= binding_bag::missing(names.take(0), bound.deep_view()));
    while i < variables.len()
        invariant
            i <= variables@.len(),
            names == variables.deep_view(),
            out.deep_view() == binding_bag::missing(names.take(i as int), bound.deep_view()),
        decreases variables@.len() - i,
    {
        assert(names.take(i + 1).drop_last() =~= names.take(i as int));
        if !contains(bound, &variables[i]) {
            let copy = variables[i].clone();
            let ghost earlier = out;
            out.push(copy);
            proof {
                crate::byte_string::lemma_deep_push(earlier, out, copy);
            }
        }
        i += 1;
    }
    assert(names.take(i as int) =~= names);
    out
}

/// What a pattern can bind is unbound and one of its names.
pub proof fn lemma_grounds(d: Descriptor, bound: Seq<Name>, x: Name)
    requires
        grounds(d, bound).contains(x),
    ensures
        !bound.contains(x),
        names_of(d).contains(x),
{
    let names = d.variables.deep_view();
    lemma_missing_contains(names, bound, x);
    match d.kind {
        DescriptorKind::Relation { .. } => {
            let n = bound_prefix(names, bound) as int;
            assert(relation_next(names, bound)[0] == x);
            assert(names[n] == x);
        },
        DescriptorKind::Function { output, .. } => {
            assert(grounds(d, bound)[0] == x);
            assert(names_of(d).last() == x);
            assert(names_of(d)[names.len() as int] == x);
        },
        _ => {},
    }
}

/// What stands in `missing`.
pub proof fn lemma_missing_contains(names: Seq<Name>, other: Seq<Name>, x: Name)
    ensures
        binding_bag::missing(names, other).contains(x) == (names.contains(x) && !other.contains(x)),
    decreases names.len(),
{
    if names.len() > 0 {
        let earlier = names.drop_last();
        lemma_missing_contains(earlier, other, x);
        binding_bag::lemma_contains_split(names, x);
        if !other.contains(names.last()) {
            binding_bag::lemma_contains_split(binding_bag::missing(names, other), x);
            assert(binding_bag::missing(names, other).drop_last() =~= binding_bag::missing(
                earlier,
                other,
            ));
        }
    }
}

/// Binding more names leaves no more of them missing, and fewer when a missing one is bound.
pub proof fn lemma_missing_shrinks(names: Seq<Name>, before: Seq<Name>, after: Seq<Name>, x: Name)
    requires
        forall|y: Name|
            names.contains(y) && before.contains(y) ==> #[trigger] after.contains(y),
    ensures
        binding_bag::missing(names, after).len() <= binding_bag::missing(names, before).len(),
        names.contains(x) && !before.contains(x) && after.contains(x)
            ==> binding_bag::missing(names, after).len() < binding_bag::missing(
            names,
            before,
        ).len(),
    decreases names.len(),
{
    if names.len() > 0 {
        assert forall|y: Name|
            names.drop_last().contains(y) && before.contains(y) implies #[trigger] after.contains(
            y,
        ) by {
            binding_bag::lemma_contains_split(names, y);
        }
        lemma_missing_shrinks(names.drop_last(), before, after, x);
        binding_bag::lemma_contains_split(names, x);
        binding_bag::lemma_contains_split(names, names.last());
    }
}

/// No more names are missing than there are.
proof fn lemma_missing_len(names: Seq<Name>, other: Seq<Name>)
    ensures
        binding_bag::missing(names, other).len() <= names.len(),
    decreases names.len(),
{
    if names.len() > 0 {
        lemma_missing_len(names.drop_last(), other);
    }
}

/// The names of a pattern are among the names of all.
proof fn lemma_all_names(ds: Seq<Descriptor>, k: int, x: Name)
    requires
        0 <= k < ds.len(),
        names_of(ds[k]).contains(x),
    ensures
        all_names(ds).contains(x),
    decreases ds.len(),
{
    let earlier = all_names(ds.drop_last());
    let last = names_of(ds.last());
    if k < ds.len() - 1 {
        assert(ds.drop_last()[k] == ds[k]);
        lemma_all_names(ds.drop_last(), k, x);
        let i = earlier.index_of(x);
        assert((earlier + last)[i] == x);
    } else {
        let i = last.index_of(x);
        assert((earlier + last)[earlier.len() + i] == x);
    }
}

/// Rounds only add.
proof fn lemma_round_grows(ds: Seq<Descriptor>, bound: Seq<Name>, k: nat)
    requires
        k <= ds.len(),
    ensures
        forall|y: Name| bound.contains(y) ==> #[trigger] round(ds, bound, k).contains(y),
        round(ds, bound, k).len() >= bound.len(),
        round(ds, bound, k).len() == bound.len() ==> round(ds, bound, k) == bound,
    decreases k,
{
    if k > 0 {
        lemma_round_grows(ds, bound, (k - 1) as nat);
        let earlier = round(ds, bound, (k - 1) as nat);
        let more = grounds(ds[k - 1], earlier);
        expr::lemma_with_new(earlier, more);
        if round(ds, bound, k).len() == bound.len() {
            assert(round(ds, bound, k).take(earlier.len() as int) =~= round(ds, bound, k));
        }
        assert forall|y: Name| bound.contains(y) implies #[trigger] round(ds, bound, k).contains(
            y,
        ) by {
            assert(earlier.contains(y));
        }
    }
}

/// Once a round adds nothing, no later one does; and what a round has bound stays bound.
proof fn lemma_rounds(ds: Seq<Descriptor>, bound: Seq<Name>, m: nat, n: nat)
    requires
        m <= n,
    ensures
        forall|y: Name|
            rounds(ds, bound, m).contains(y) ==> #[trigger] rounds(ds, bound, n).contains(y),
        round(ds, rounds(ds, bound, m), ds.len()) == rounds(ds, bound, m) ==> rounds(ds, bound, n)
            == rounds(ds, bound, m),
    decreases n - m,
{
    if m < n {
        lemma_rounds(ds, bound, m, (n - 1) as nat);
        lemma_round_grows(ds, rounds(ds, bound, (n - 1) as nat), ds.len());
        assert forall|y: Name| rounds(ds, bound, m).contains(y) implies #[trigger] rounds(
            ds,
            bound,
            n,
        ).contains(y) by {
            assert(rounds(ds, bound, (n - 1) as nat).contains(y));
        }
    }
}

/// Whether the patterns of a branch, applied over and over, bind all the required variables.
pub fn branch_derives(
    descriptors: &[Descriptor],
    initial_bound: &[Variable],
    required: &[Variable],
) -> (r: bool)
    ensures
        r == derives(descriptors@, initial_bound.deep_view(), required.deep_view()),
    decreases descriptors@, 1int,
{
    let ghost ds = descriptors@;
    let ghost start = initial_bound.deep_view();
    let ghost universe = all_names(ds);
    let ghost mut n: nat = 0;
    let mut bound: Vec<Variable> = copy_all(initial_bound);
    let mut changed: bool = true;
    proof {
        lemma_missing_len(universe, start);
    }
    while changed
        invariant
            ds == descriptors@,
            start == initial_bound.deep_view(),
            universe == all_names(ds),
            bound.deep_view() == rounds(ds, start, n),
            n + binding_bag::missing(universe, bound.deep_view()).len() <= universe.len(),
            !changed ==> round(ds, bound.deep_view(), ds.len()) == bound.deep_view(),
        decreases
            binding_bag::missing(universe, bound.deep_view()).len(),
            (if changed {
                1int
            } else {
                0int
            }),
    {
        let ghost before = bound.deep_view();
        changed = false;
        let mut k: usize = 0;
        while k < descriptors.len()
            invariant
                k <= descriptors@.len(),
                ds == descriptors@,
                universe == all_names(ds),
                bound.deep_view() == round(ds, before, k as nat),
                forall|y: Name| before.contains(y) ==> #[trigger] bound.deep_view().contains(y),
                !changed ==> bound.deep_view() == before,
                changed ==> binding_bag::missing(universe, bound.deep_view()).len()
                    < binding_bag::missing(universe, before).len(),
            decreases descriptors@.len() - k,
        {
            let ghost held = bound.deep_view();
            let found = descriptors[k].groundable(&bound);
            let len_before: usize = bound.len();
            add_all_new(&mut bound, &found);
            proof {
                let more = grounds(ds[k as int], held);
                expr::lemma_with_new(held, more);
                lemma_missing_shrinks(universe, held, bound.deep_view(), Seq::empty());
                if bound.deep_view().len() == held.len() {
                    assert(bound.deep_view().take(held.len() as int) =~= bound.deep_view());
                } else {
                    let x = bound.deep_view()[held.len() as int];
                    assert(bound.deep_view().contains(x));
                    lemma_new_element(held, more, x);
                    lemma_grounds(ds[k as int], held, x);
                    lemma_all_names(ds, k as int, x);
                    lemma_missing_shrinks(universe, held, bound.deep_view(), x);
                }
                assert forall|y: Name| before.contains(y) implies #[trigger] bound.deep_view().contains(
                    y,
                ) by {
                    assert(held.contains(y));
                }
            }
            if bound.len() != len_before {
                changed = true;
            }
            k += 1;
        }
        proof {
            if changed {
                n = n + 1;
            }
        }
    }
    proof {
        lemma_rounds(ds, start, n, universe.len());
    }
    fully_bound(required, &bound)
}

/// The first element that adding brings in is a new one.
proof fn lemma_new_element(held: Seq<Name>, more: Seq<Name>, x: Name)
    requires
        expr::with_new(held, more).len() > held.len(),
        x == expr::with_new(held, more)[held.len() as int],
    ensures
        more.contains(x),
    decreases more.len(),
{
    if more.len() > 0 {
        let earlier = expr::with_new(held, more.drop_last());
        expr::lemma_with_new(held, more.drop_last());
        if earlier.len() > held.len() {
            assert(expr::with_new(held, more)[held.len() as int] == earlier[held.len() as int]);
            lemma_new_element(held, more.drop_last(), x);
            let i = more.drop_last().index_of(x);
            assert(more[i] == x);
        } else {
            assert(more[more.len() - 1] == x);
        }
    }
}

impl Descriptor {
    /// The variables that the pattern can bind next.
    pub fn groundable(&self, bound: &[Variable]) -> (r: Vec<Variable>)
        ensures
            r.deep_view() == grounds(*self, bound.deep_view()),
        decreases *self, 0int,
    {
        match &self.kind {
            DescriptorKind::Triple(_) => unbound_of(&self.variables, bound),
            DescriptorKind::Relation { .. } => relation_groundable(&self.variables, bound),
            DescriptorKind::Predicate { .. } | DescriptorKind::Not { .. } => {
                let out: Vec<Variable> = Vec::new();
                assert(out.deep_view() =~= Seq::<Name>::empty());
                out
            },
            DescriptorKind::Function { input_variables, output, .. } => {
                let mut out: Vec<Variable> = Vec::new();
                assert(out.deep_view() =~= Seq::<Name>::empty());
                if !contains(bound, output) && fully_bound(input_variables, bound) {
                    let copy = output.clone();
                    let ghost earlier = out;
                    out.push(copy);
                    proof {
                        crate::byte_string::lemma_deep_push(earlier, out, copy);
                    }
                    assert(out.deep_view() =~= seq![output@]);
                }
                out
            },
            DescriptorKind::Or { branches } => {
                let wanted = unbound_of(&self.variables, bound);
                if all_branches_derive(branches, bound, &wanted) {
                    wanted
                } else {
                    let out: Vec<Variable> = Vec::new();
                    assert(out.deep_view() =~= Seq::<Name>::empty());
                    out
                }
            },
        }
    }
}

/// Whether each branch binds all the required variables.
fn all_branches_derive(
    branches: &[Vec<Descriptor>],
    bound: &[Variable],
    required: &[Variable],
) -> (r: bool)
    ensures
        r == all_derive(branches@, bound.deep_view(), required.deep_view()),
    decreases branches@, 2int,
{
    let mut i: usize = 0;
    assert(branches@.take(0) =~= Seq::empty());
    while i < branches.len()
        invariant
            i <= branches@.len(),
            all_derive(branches@.take(i as int), bound.deep_view(), required.deep_view()),
        decreases branches@.len() - i,
    {
        assert(branches@.take(i + 1).drop_last() =~= branches@.take(i as int));
        if !branch_derives(&branches[i], bound, required) {
            proof {
                if all_derive(branches@, bound.deep_view(), required.deep_view()) {
                    lemma_all_derive_prefix(
                        branches@,
                        i + 1,
                        bound.deep_view(),
                        required.deep_view(),
                    );
                }
            }
            return false;
        }
        i += 1;
    }
    assert(branches@.take(i as int) =~= branches@);
    true
}

/// If each branch binds the names, the first ones do.
proof fn lemma_all_derive_prefix(
    branches: Seq<Vec<Descriptor>>,
    n: int,
    bound: Seq<Name>,
    wanted: Seq<Name>,
)
    requires
        0 <= n <= branches.len(),
        all_derive(branches, bound, wanted),
    ensures
        all_derive(branches.take(n), bound, wanted),
    decreases branches.len(),
{
    if n < branches.len() {
        lemma_all_derive_prefix(branches.drop_last(), n, bound, wanted);
        assert(branches.drop_last().take(n) =~= branches.take(n));
    } else {
        assert(branches.take(n) =~= branches);
    }
}

impl Descriptor {
    /// What identifies the pattern.
    pub fn id(&self) -> (r: PatternId)
        ensures
            r == self.id,
    {
        self.id
    }

    /// The variables of the pattern.
    pub fn variables(&self) -> (r: &[Variable])
        ensures
            r@ == self.variables@,
    {
        &self.variables
    }

    /// The kind of the pattern.
    pub fn kind(&self) -> (r: &DescriptorKind)
        ensures
            *r == self.kind,
    {
        &self.kind
    }

    /// Whether the pattern is a disjunction.
    fn is_or(&self) -> (r: bool)
        ensures
            r == (self.kind is Or),
    {
        match &self.kind {
            DescriptorKind::Or { .. } => true,
            _ => false,
        }
    }
}

/// Who takes part in a stage: a pattern, or the bindings that come from outside.
#[derive(Clone, Copy, Debug, Eq, PartialEq, Hash, Structural)]
pub enum ParticipantRef {
    Pattern(PatternId),
    Incoming,
}

/// How texts name a participant.
pub open spec fn participant_name(p: ParticipantRef) -> Seq<char> {
    match p {
        ParticipantRef::Pattern(id) => "Pattern("@ + text::digits(id as nat) + ")"@,
        ParticipantRef::Incoming => "Incoming"@,
    }
}

/// How texts name participants.
pub open spec fn participant_names(ps: Seq<ParticipantRef>) -> Seq<Seq<char>> {
    Seq::new(ps.len(), |i: int| participant_name(ps[i]))
}

/// How texts name a participant.
pub fn participant_text(p: ParticipantRef) -> (r: String)
    ensures
        r@ == participant_name(p),
{
    match p {
        ParticipantRef::Pattern(id) => followed_by(
            followed_by("Pattern(".to_owned(), count_text(id).as_str()),
            ")",
        ),
        ParticipantRef::Incoming => "Incoming".to_owned(),
    }
}

/// A list of participants, as texts show it.
pub fn participants_text(ps: &Vec<ParticipantRef>) -> (r: String)
    ensures
        r@ == text::listed(participant_names(ps@)),
{
    let mut parts: Vec<String> = Vec::new();
    let mut i: usize = 0;
    while i < ps.len()
        invariant
            i <= ps@.len(),
            text::held(parts@) == participant_names(ps@.take(i as int)),
            parts@.len() == i,
        decreases ps@.len() - i,
    {
        let ghost before = parts@;
        parts.push(participant_text(ps[i]));
        i += 1;
        assert forall|k: int| 0 <= k < i implies text::held(parts@)[k]
            == #[trigger] participant_names(ps@.take(i as int))[k] by {
            if k < i - 1 {
                assert(text::held(before)[k] == participant_names(ps@.take(i - 1))[k]);
            }
        }
        assert(text::held(parts@) =~= participant_names(ps@.take(i as int)));
    }
    assert(ps@.take(i as int) =~= ps@);
    text::list_text(&parts)
}

/// A step of a plan: the variables it adds, who may propose them, who takes part, and the
/// layout of what comes out.
#[derive(Debug, PartialEq, Eq)]
pub struct LogicalStage {
    pub added: Vec<Variable>,
    pub proposers: Vec<ParticipantRef>,
    pub participants: Vec<ParticipantRef>,
    pub target_variables: Vec<Variable>,
}

/// What a stage is.
#[verifier::ext_equal]
pub struct StageView {
    pub added: Seq<Name>,
    pub proposers: Seq<ParticipantRef>,
    pub participants: Seq<ParticipantRef>,
    pub target: Seq<Name>,
}

impl View for LogicalStage {
    type V = StageView;

    open spec fn view(&self) -> StageView {
        StageView {
            added: self.added.deep_view(),
            proposers: self.proposers@,
            participants: self.participants@,
            target: self.target_variables.deep_view(),
        }
    }
}

impl DeepView for LogicalStage {
    type V = StageView;

    open spec fn deep_view(&self) -> StageView {
        self@
    }
}

impl LogicalStage {
    /// The variables that the stage adds.
    pub fn added(&self) -> (r: &[Variable])
        ensures
            r@ == self.added@,
    {
        &self.added
    }

    /// Who may propose them.
    pub fn proposers(&self) -> (r: &[ParticipantRef])
        ensures
            r@ == self.proposers@,
    {
        &self.proposers
    }

    /// Who takes part.
    pub fn participants(&self) -> (r: &[ParticipantRef])
        ensures
            r@ == self.participants@,
    {
        &self.participants
    }

    /// The layout of what comes out.
    pub fn target_variables(&self) -> (r: &[Variable])
        ensures
            r@ == self.target_variables@,
    {
        &self.target_variables
    }
}

/// The patterns of a query and the order in which its variables appear.
#[derive(Debug)]
pub struct LogicalPlan {
    pub variable_order: Vec<Variable>,
    pub descriptors: Vec<Descriptor>,
}

impl LogicalPlan {
    /// The order in which the variables appear.
    pub fn variable_order(&self) -> (r: &[Variable])
        ensures
            r@ == self.variable_order@,
    {
        &self.variable_order
    }

    /// The patterns.
    pub fn descriptors(&self) -> (r: &[Descriptor])
        ensures
            r@ == self.descriptors@,
    {
        &self.descriptors
    }
}

/// The variables of all patterns, with repetitions.
pub open spec fn variables_of_all(ds: Seq<Descriptor>) -> Seq<Name>
    decreases ds.len(),
{
    if ds.len() == 0 {
        Seq::empty()
    } else {
        variables_of_all(ds.drop_last()) + ds.last().variables.deep_view()
    }
}

/// The names that come from outside, if any bindings do.
pub open spec fn names_in(incoming: Option<Seq<Name>>) -> Seq<Name> {
    match incoming {
        Some(names) => names,
        None => Seq::empty(),
    }
}

/// The variables of a scope, each once: those that come from outside first, then in the order
/// of the query, then as they occur in the patterns.
pub open spec fn scope_order(
    ds: Seq<Descriptor>,
    query_order: Seq<Name>,
    incoming: Option<Seq<Name>>,
) -> Seq<Name> {
    let relevant = variables_of_all(ds);
    expr::with_new(
        expr::with_new(
            expr::with_new(Seq::empty(), binding_bag::common(names_in(incoming), relevant)),
            binding_bag::common(query_order, relevant),
        ),
        relevant,
    )
}

/// The patterns that a condition selects, in order.
pub open spec fn chosen(
    ds: Seq<Descriptor>,
    condition: spec_fn(Descriptor) -> bool,
) -> Seq<ParticipantRef>
    decreases ds.len(),
{
    if ds.len() == 0 {
        Seq::empty()
    } else {
        let earlier = chosen(ds.drop_last(), condition);
        if condition(ds.last()) {
            earlier.push(ParticipantRef::Pattern(ds.last().id))
        } else {
            earlier
        }
    }
}

/// The incoming bindings, where a condition selects them.
pub open spec fn incoming_if(selected: bool) -> Seq<ParticipantRef> {
    if selected {
        seq![ParticipantRef::Incoming]
    } else {
        Seq::empty()
    }
}

/// Whether a pattern has work left.
pub open spec fn open_pattern(d: Descriptor, completed: Seq<ParticipantRef>) -> bool {
    !completed.contains(ParticipantRef::Pattern(d.id))
}

/// The condition under which a pattern is validated without adding variables.
pub open spec fn ready(
    bound: Seq<Name>,
    completed: Seq<ParticipantRef>,
) -> spec_fn(Descriptor) -> bool {
    |d: Descriptor| open_pattern(d, completed) && all_bound(d.variables.deep_view(), bound)
}

/// Whether the incoming bindings have work left and are all bound.
pub open spec fn incoming_ready(
    incoming: Option<Seq<Name>>,
    bound: Seq<Name>,
    completed: Seq<ParticipantRef>,
) -> bool {
    incoming is Some && !completed.contains(ParticipantRef::Incoming) && all_bound(
        names_in(incoming),
        bound,
    )
}

/// Who can be validated by what is bound.
pub open spec fn validators(
    ds: Seq<Descriptor>,
    incoming: Option<Seq<Name>>,
    bound: Seq<Name>,
    completed: Seq<ParticipantRef>,
) -> Seq<ParticipantRef> {
    incoming_if(incoming_ready(incoming, bound, completed)) + chosen(ds, ready(bound, completed))
}

/// The condition under which a pattern, not a disjunction, proposes a variable.
pub open spec fn proposes(
    v: Name,
    bound: Seq<Name>,
    completed: Seq<ParticipantRef>,
) -> spec_fn(Descriptor) -> bool {
    |d: Descriptor|
        open_pattern(d, completed) && !(d.kind is Or) && grounds(d, bound).contains(v)
}

/// Who can propose a variable.
pub open spec fn proposers_of(
    v: Name,
    ds: Seq<Descriptor>,
    incoming: Option<Seq<Name>>,
    bound: Seq<Name>,
    completed: Seq<ParticipantRef>,
) -> Seq<ParticipantRef> {
    incoming_if(
        incoming is Some && !completed.contains(ParticipantRef::Incoming) && relation_next(
            names_in(incoming),
            bound,
        ).contains(v),
    ) + chosen(ds, proposes(v, bound, completed))
}

/// The condition under which a pattern takes part beside the proposers.
pub open spec fn takes_part(
    proposers: Seq<ParticipantRef>,
    target: Seq<Name>,
    completed: Seq<ParticipantRef>,
) -> spec_fn(Descriptor) -> bool {
    |d: Descriptor|
        open_pattern(d, completed) && (proposers.contains(ParticipantRef::Pattern(d.id))
            || all_bound(d.variables.deep_view(), target))
}

/// The proposers and everyone whom the stage leaves fully bound.
pub open spec fn joint_participants(
    ds: Seq<Descriptor>,
    incoming: Option<Seq<Name>>,
    proposers: Seq<ParticipantRef>,
    target: Seq<Name>,
    completed: Seq<ParticipantRef>,
) -> Seq<ParticipantRef> {
    incoming_if(
        incoming is Some && !completed.contains(ParticipantRef::Incoming) && (proposers.contains(
            ParticipantRef::Incoming,
        ) || all_bound(names_in(incoming), target)),
    ) + chosen(ds, takes_part(proposers, target, completed))
}

/// Whether the first pattern of that identity is fully bound.
pub open spec fn pattern_done(ds: Seq<Descriptor>, id: PatternId, target: Seq<Name>) -> bool
    decreases ds.len(),
{
    if ds.len() == 0 {
        false
    } else if ds[0].id == id {
        all_bound(ds[0].variables.deep_view(), target)
    } else {
        pattern_done(ds.drop_first(), id, target)
    }
}

/// Whether a participant is fully bound.
pub open spec fn participant_done(
    p: ParticipantRef,
    ds: Seq<Descriptor>,
    incoming: Option<Seq<Name>>,
    target: Seq<Name>,
) -> bool {
    match p {
        ParticipantRef::Incoming => incoming is Some && all_bound(names_in(incoming), target),
        ParticipantRef::Pattern(id) => pattern_done(ds, id, target),
    }
}

/// The participants that are fully bound.
pub open spec fn finished(
    participants: Seq<ParticipantRef>,
    ds: Seq<Descriptor>,
    incoming: Option<Seq<Name>>,
    target: Seq<Name>,
) -> Seq<ParticipantRef>
    decreases participants.len(),
{
    if participants.len() == 0 {
        Seq::empty()
    } else {
        let earlier = finished(participants.drop_last(), ds, incoming, target);
        if participant_done(participants.last(), ds, incoming, target) {
            earlier.push(participants.last())
        } else {
            earlier
        }
    }
}

/// The layout after adding variables: what is bound then, in the order of the scope.
pub open spec fn layout(order: Seq<Name>, bound: Seq<Name>, added: Seq<Name>) -> Seq<Name> {
    binding_bag::common(order, bound + added)
}

/// Whether a participant that could bind these names can check a disjunction's additions.
pub open spec fn checks(groundable: Seq<Name>, added: Seq<Name>) -> bool {
    exists|i: int| 0 <= i < groundable.len() && added.contains(#[trigger] groundable[i])
}

/// The condition under which a pattern checks a disjunction's additions.
pub open spec fn checks_or(
    bound: Seq<Name>,
    added: Seq<Name>,
    completed: Seq<ParticipantRef>,
) -> spec_fn(Descriptor) -> bool {
    |d: Descriptor| open_pattern(d, completed) && !(d.kind is Or) && checks(grounds(d, bound), added)
}

/// The same, where the pattern is fully bound then.
pub open spec fn completes_or(
    bound: Seq<Name>,
    added: Seq<Name>,
    target: Seq<Name>,
    completed: Seq<ParticipantRef>,
) -> spec_fn(Descriptor) -> bool {
    |d: Descriptor|
        open_pattern(d, completed) && !(d.kind is Or) && checks(grounds(d, bound), added)
            && all_bound(d.variables.deep_view(), target)
}

/// Whether a disjunction can bind a variable.
pub open spec fn or_fits(
    d: Descriptor,
    v: Name,
    bound: Seq<Name>,
    completed: Seq<ParticipantRef>,
) -> bool {
    open_pattern(d, completed) && d.kind is Or && grounds(d, bound).contains(v)
}

/// The first disjunction that can bind a variable.
pub open spec fn first_or(
    ds: Seq<Descriptor>,
    v: Name,
    bound: Seq<Name>,
    completed: Seq<ParticipantRef>,
    from: int,
) -> Option<int>
    decreases ds.len() - from,
{
    if from < 0 || from >= ds.len() {
        None
    } else if or_fits(ds[from], v, bound, completed) {
        Some(from)
    } else {
        first_or(ds, v, bound, completed, from + 1)
    }
}

/// The stage that binds a variable, and who is done after it: its proposers together if there
/// are any, else the first disjunction that binds it among others.
pub open spec fn stage_for(
    v: Name,
    ds: Seq<Descriptor>,
    incoming: Option<Seq<Name>>,
    order: Seq<Name>,
    bound: Seq<Name>,
    completed: Seq<ParticipantRef>,
) -> Option<(StageView, Seq<ParticipantRef>)> {
    let proposers = proposers_of(v, ds, incoming, bound, completed);
    if proposers.len() > 0 {
        let target = layout(order, bound, seq![v]);
        let participants = joint_participants(ds, incoming, proposers, target, completed);
        Some(
            (
                StageView { added: seq![v], proposers, participants, target },
                finished(participants, ds, incoming, target),
            ),
        )
    } else {
        match first_or(ds, v, bound, completed, 0) {
            None => None,
            Some(k) => Some(or_stage(k, ds, incoming, order, bound, completed)),
        }
    }
}

/// The stage that a disjunction proposes, and who is done after it.
pub open spec fn or_stage(
    k: int,
    ds: Seq<Descriptor>,
    incoming: Option<Seq<Name>>,
    order: Seq<Name>,
    bound: Seq<Name>,
    completed: Seq<ParticipantRef>,
) -> (StageView, Seq<ParticipantRef>) {
    let added = grounds(ds[k], bound);
    let target = layout(order, bound, added);
    let own = seq![ParticipantRef::Pattern(ds[k].id)];
    let incoming_checks = incoming is Some && !completed.contains(ParticipantRef::Incoming)
        && checks(relation_next(names_in(incoming), bound), added);
    (
        StageView {
            added,
            proposers: own,
            participants: own + incoming_if(incoming_checks) + chosen(
                ds,
                checks_or(bound, added, completed),
            ),
            target,
        },
        own + incoming_if(incoming_checks && all_bound(names_in(incoming), target)) + chosen(
            ds,
            completes_or(bound, added, target, completed),
        ),
    )
}

/// What stands in `common`.
pub proof fn lemma_common_contains(names: Seq<Name>, other: Seq<Name>, x: Name)
    ensures
        binding_bag::common(names, other).contains(x) == (names.contains(x) && other.contains(x)),
    decreases names.len(),
{
    if names.len() > 0 {
        let earlier = names.drop_last();
        lemma_common_contains(earlier, other, x);
        binding_bag::lemma_contains_split(names, x);
        if other.contains(names.last()) {
            binding_bag::lemma_contains_split(binding_bag::common(names, other), x);
            assert(binding_bag::common(names, other).drop_last() =~= binding_bag::common(
                earlier,
                other,
            ));
        }
    }
}

/// What stands in a list that is put together from two.
pub proof fn lemma_concat_contains<A>(a: Seq<A>, b: Seq<A>, x: A)
    ensures
        (a + b).contains(x) == (a.contains(x) || b.contains(x)),
{
    if a.contains(x) {
        let i = a.index_of(x);
        assert((a + b)[i] == x);
    }
    if b.contains(x) {
        let i = b.index_of(x);
        assert((a + b)[a.len() + i] == x);
    }
    if (a + b).contains(x) {
        let i = (a + b).index_of(x);
        if i < a.len() {
            assert(a[i] == x);
        } else {
            assert(b[i - a.len()] == x);
        }
    }
}

/// A disjunction that was found fits.
pub proof fn lemma_first_or(
    ds: Seq<Descriptor>,
    v: Name,
    bound: Seq<Name>,
    completed: Seq<ParticipantRef>,
    from: int,
)
    requires
        0 <= from,
    ensures
        first_or(ds, v, bound, completed, from) matches Some(k) ==> from <= k < ds.len() && or_fits(
            ds[k],
            v,
            bound,
            completed,
        ),
    decreases ds.len() - from,
{
    if from < ds.len() && !or_fits(ds[from], v, bound, completed) {
        lemma_first_or(ds, v, bound, completed, from + 1);
    }
}

/// A stage for a variable adds the variable.
proof fn lemma_stage_adds(
    v: Name,
    ds: Seq<Descriptor>,
    incoming: Option<Seq<Name>>,
    order: Seq<Name>,
    bound: Seq<Name>,
    completed: Seq<ParticipantRef>,
)
    requires
        stage_for(v, ds, incoming, order, bound, completed) is Some,
    ensures
        ({
            let stage = stage_for(v, ds, incoming, order, bound, completed).unwrap().0;
            stage.added.contains(v) && stage.target == layout(order, bound, stage.added)
        }),
{
    if proposers_of(v, ds, incoming, bound, completed).len() > 0 {
        assert(seq![v][0] == v);
    } else {
        lemma_first_or(ds, v, bound, completed, 0);
    }
}

/// A stage for an unbound variable leaves fewer variables unbound.
proof fn lemma_stage_progress(
    v: Name,
    ds: Seq<Descriptor>,
    incoming: Option<Seq<Name>>,
    order: Seq<Name>,
    bound: Seq<Name>,
    completed: Seq<ParticipantRef>,
)
    requires
        order.contains(v),
        !bound.contains(v),
        stage_for(v, ds, incoming, order, bound, completed) is Some,
    ensures
        ({
            let stage = stage_for(v, ds, incoming, order, bound, completed).unwrap().0;
            binding_bag::missing(order, stage.target).len() < binding_bag::missing(
                order,
                bound,
            ).len()
        }),
{
    lemma_stage_adds(v, ds, incoming, order, bound, completed);
    let stage = stage_for(v, ds, incoming, order, bound, completed).unwrap().0;
    assert forall|y: Name| order.contains(y) && bound.contains(y) implies #[trigger] stage.target.contains(
        y,
    ) by {
        lemma_concat_contains(bound, stage.added, y);
        lemma_common_contains(order, bound + stage.added, y);
    }
    lemma_concat_contains(bound, stage.added, v);
    lemma_common_contains(order, bound + stage.added, v);
    lemma_missing_shrinks(order, bound, stage.target, v);
}

/// The stage for the first of the remaining variables that has one.
pub open spec fn first_stage(
    remaining: Seq<Name>,
    ds: Seq<Descriptor>,
    incoming: Option<Seq<Name>>,
    order: Seq<Name>,
    bound: Seq<Name>,
    completed: Seq<ParticipantRef>,
    from: int,
) -> Option<(StageView, Seq<ParticipantRef>)>
    decreases remaining.len() - from,
{
    if from < 0 || from >= remaining.len() {
        None
    } else {
        match stage_for(remaining[from], ds, incoming, order, bound, completed) {
            Some(found) => Some(found),
            None => first_stage(remaining, ds, incoming, order, bound, completed, from + 1),
        }
    }
}

/// Where the first stage comes from.
pub proof fn lemma_first_stage(
    remaining: Seq<Name>,
    ds: Seq<Descriptor>,
    incoming: Option<Seq<Name>>,
    order: Seq<Name>,
    bound: Seq<Name>,
    completed: Seq<ParticipantRef>,
    from: int,
)
    requires
        0 <= from,
        first_stage(remaining, ds, incoming, order, bound, completed, from) is Some,
    ensures
        exists|i: int|
            0 <= i < remaining.len() && #[trigger] stage_for(
                remaining[i],
                ds,
                incoming,
                order,
                bound,
                completed,
            ) == first_stage(remaining, ds, incoming, order, bound, completed, from),
    decreases remaining.len() - from,
{
    if stage_for(remaining[from], ds, incoming, order, bound, completed) is None {
        lemma_first_stage(remaining, ds, incoming, order, bound, completed, from + 1);
    }
}

/// Binding a remaining variable leaves fewer variables unbound.
pub proof fn lemma_first_stage_progress(
    ds: Seq<Descriptor>,
    incoming: Option<Seq<Name>>,
    order: Seq<Name>,
    bound: Seq<Name>,
    completed: Seq<ParticipantRef>,
)
    requires
        first_stage(
            binding_bag::missing(order, bound),
            ds,
            incoming,
            order,
            bound,
            completed,
            0,
        ) is Some,
    ensures
        ({
            let stage = first_stage(
                binding_bag::missing(order, bound),
                ds,
                incoming,
                order,
                bound,
                completed,
                0,
            ).unwrap().0;
            binding_bag::missing(order, stage.target).len() < binding_bag::missing(
                order,
                bound,
            ).len()
        }),
{
    let remaining = binding_bag::missing(order, bound);
    lemma_first_stage(remaining, ds, incoming, order, bound, completed, 0);
    let i = choose|i: int|
        0 <= i < remaining.len() && #[trigger] stage_for(
            remaining[i],
            ds,
            incoming,
            order,
            bound,
            completed,
        ) == first_stage(remaining, ds, incoming, order, bound, completed, 0);
    assert(remaining.contains(remaining[i]));
    lemma_missing_contains(order, bound, remaining[i]);
    lemma_stage_progress(remaining[i], ds, incoming, order, bound, completed);
}

/// The stage that only validates, where there is anyone to validate.
pub open spec fn validation_stage(
    participants: Seq<ParticipantRef>,
    bound: Seq<Name>,
) -> Seq<StageView> {
    if participants.len() > 0 {
        seq![
            StageView {
                added: Seq::empty(),
                proposers: Seq::empty(),
                participants,
                target: bound,
            },
        ]
    } else {
        Seq::empty()
    }
}

/// How many participants have to be placed.
pub open spec fn participant_count(ds: Seq<Descriptor>, incoming: Option<Seq<Name>>) -> int {
    ds.len() + if incoming is Some {
        1int
    } else {
        0int
    }
}

/// The condition under which a pattern has no place yet.
pub open spec fn without_place(completed: Seq<ParticipantRef>) -> spec_fn(Descriptor) -> bool {
    |d: Descriptor| open_pattern(d, completed)
}

/// Who has no place yet.
pub open spec fn unplaced(
    ds: Seq<Descriptor>,
    incoming: Option<Seq<Name>>,
    completed: Seq<ParticipantRef>,
) -> Seq<ParticipantRef> {
    incoming_if(incoming is Some && !completed.contains(ParticipantRef::Incoming)) + chosen(
        ds,
        without_place(completed),
    )
}

/// The stages that bind what is left: validate who can be, then bind the first variable that
/// can be bound, until every variable is bound and every participant placed.
pub open spec fn plan_rest(
    ds: Seq<Descriptor>,
    incoming: Option<Seq<Name>>,
    order: Seq<Name>,
    bound: Seq<Name>,
    completed: Seq<ParticipantRef>,
) -> Result<Seq<StageView>, ErrorView>
    decreases binding_bag::missing(order, bound).len(),
{
    let valid = validators(ds, incoming, bound, completed);
    let done = expr::with_new(completed, valid);
    let remaining = binding_bag::missing(order, bound);
    if remaining.len() == 0 {
        if done.len() == participant_count(ds, incoming) {
            Ok(validation_stage(valid, bound))
        } else {
            Err(ErrorView::UnplacedParticipants(unplaced(ds, incoming, done)))
        }
    } else {
        match first_stage(remaining, ds, incoming, order, bound, done, 0) {
            None => Err(ErrorView::InsufficientBinding(remaining[0])),
            Some((stage, newly)) => {
                proof {
                    lemma_first_stage_progress(ds, incoming, order, bound, done);
                }
                after(
                    validation_stage(valid, bound).push(stage),
                    plan_rest(ds, incoming, order, stage.target, expr::with_new(done, newly)),
                )
            },
        }
    }
}

/// Stages in front of the rest of a plan.
pub open spec fn after(
    stages: Seq<StageView>,
    rest: Result<Seq<StageView>, ErrorView>,
) -> Result<Seq<StageView>, ErrorView> {
    match rest {
        Ok(more) => Ok(stages + more),
        Err(e) => Err(e),
    }
}

/// The plan of a scope.
pub open spec fn planned(
    ds: Seq<Descriptor>,
    query_order: Seq<Name>,
    incoming: Option<Seq<Name>>,
) -> Result<Seq<StageView>, ErrorView> {
    let order = scope_order(ds, query_order, incoming);
    plan_rest(ds, relevant_incoming(incoming, order), order, Seq::empty(), Seq::empty())
}

/// The incoming names that the scope knows.
pub open spec fn relevant_incoming(
    incoming: Option<Seq<Name>>,
    order: Seq<Name>,
) -> Option<Seq<Name>> {
    match incoming {
        Some(names) => Some(binding_bag::common(names, order)),
        None => None,
    }
}

/// The incoming names.
pub open spec fn incoming_view(incoming: Option<&[Variable]>) -> Option<Seq<Name>> {
    match incoming {
        Some(variables) => Some(variables.deep_view()),
        None => None,
    }
}

/// Whether a participant stands in a list.
fn has_participant(list: &[ParticipantRef], p: ParticipantRef) -> (r: bool)
    ensures
        r == list@.contains(p),
{
    let mut i: usize = 0;
    while i < list.len()
        invariant
            i <= list@.len(),
            forall|j: int| 0 <= j < i ==> list@[j] != p,
        decreases list@.len() - i,
    {
        if list[i] == p {
            return true;
        }
        i += 1;
    }
    false
}

/// Adds the participants that a list lacks.
fn add_participants(list: &mut Vec<ParticipantRef>, more: &[ParticipantRef])
    ensures
        final(list)@ == expr::with_new(old(list)@, more@),
{
    let mut i: usize = 0;
    while i < more.len()
        invariant
            i <= more@.len(),
            list@ == expr::with_new(old(list)@, more@.take(i as int)),
        decreases more@.len() - i,
    {
        assert(more@.take(i + 1).drop_last() =~= more@.take(i as int));
        if !has_participant(list, more[i]) {
            list.push(more[i]);
        }
        i += 1;
    }
    assert(more@.take(i as int) =~= more@);
}

/// The variables of a list that stand in another as well.
fn common_of(variables: &[Variable], other: &[Variable]) -> (r: Vec<Variable>)
    ensures
        r.deep_view() == binding_bag::common(variables.deep_view(), other.deep_view()),
{
    let ghost names = variables.deep_view();
    let mut out: Vec<Variable> = Vec::new();
    let mut i: usize = 0;
    assert(out.deep_view() =~= binding_bag::common(names.take(0), other.deep_view()));
    while i < variables.len()
        invariant
            i <= variables@.len(),
            names == variables.deep_view(),
            out.deep_view() == binding_bag::common(names.take(i as int), other.deep_view()),
        decreases variables@.len() - i,
    {
        assert(names.take(i + 1).drop_last() =~= names.take(i as int));
        if contains(other, &variables[i]) {
            let copy = variables[i].clone();
            let ghost earlier = out;
            out.push(copy);
            proof {
                crate::byte_string::lemma_deep_push(earlier, out, copy);
            }
        }
        i += 1;
    }
    assert(names.take(i as int) =~= names);
    out
}

/// The variables of all patterns, with repetitions.
fn pattern_variables_of(descriptors: &[Descriptor]) -> (r: Vec<Variable>)
    ensures
        r.deep_view() == variables_of_all(descriptors@),
{
    let mut out: Vec<Variable> = Vec::new();
    let mut i: usize = 0;
    assert(out.deep_view() =~= variables_of_all(descriptors@.take(0)));
    while i < descriptors.len()
        invariant
            i <= descriptors@.len(),
            out.deep_view() == variables_of_all(descriptors@.take(i as int)),
        decreases descriptors@.len() - i,
    {
        assert(descriptors@.take(i + 1).drop_last() =~= descriptors@.take(i as int));
        let mut more = copy_all(&descriptors[i].variables);
        let ghost head = out;
        let ghost tail = more;
        out.append(&mut more);
        assert(out.deep_view() =~= head.deep_view() + tail.deep_view());
        i += 1;
    }
    assert(descriptors@.take(i as int) =~= descriptors@);
    out
}

/// The variables of a scope, each once: those that come from outside first, then in the order
/// of the query, then as they occur in the patterns.
pub fn scope_variable_order(
    descriptors: &[Descriptor],
    variable_order: &[Variable],
    incoming_variables: Option<&[Variable]>,
) -> (r: Vec<Variable>)
    ensures
        r.deep_view() == scope_order(
            descriptors@,
            variable_order.deep_view(),
            incoming_view(incoming_variables),
        ),
{
    let relevant = pattern_variables_of(descriptors);
    let mut order: Vec<Variable> = Vec::new();
    assert(order.deep_view() =~= Seq::<Name>::empty());
    match incoming_variables {
        Some(incoming) => {
            let first = common_of(incoming, &relevant);
            add_all_new(&mut order, &first);
        },
        None => {
            assert(binding_bag::common(Seq::empty(), relevant.deep_view()) =~= Seq::<Name>::empty());
            assert(expr::with_new(Seq::<Name>::empty(), Seq::empty()) =~= Seq::<Name>::empty());
        },
    }
    let second = common_of(variable_order, &relevant);
    add_all_new(&mut order, &second);
    add_all_new(&mut order, &relevant);
    order
}

/// The layout after adding variables: what is bound then, in the order of the scope.
pub fn target_layout(order: &[Variable], bound: &[Variable], added: &[Variable]) -> (r: Vec<
    Variable,
>)
    ensures
        r.deep_view() == layout(order.deep_view(), bound.deep_view(), added.deep_view()),
{
    let mut available = copy_all(bound);
    let mut more = copy_all(added);
    let ghost head = available;
    let ghost tail = more;
    available.append(&mut more);
    assert(available.deep_view() =~= head.deep_view() + tail.deep_view());
    common_of(order, &available)
}

/// Whether a participant that could bind these variables can check a disjunction's additions.
pub fn can_validate_grouped_or(groundable: &[Variable], added: &[Variable]) -> (r: bool)
    ensures
        r == checks(groundable.deep_view(), added.deep_view()),
{
    let mut i: usize = 0;
    while i < groundable.len()
        invariant
            i <= groundable@.len(),
            forall|j: int|
                0 <= j < i ==> !added.deep_view().contains(#[trigger] groundable.deep_view()[j]),
        decreases groundable@.len() - i,
    {
        if contains(added, &groundable[i]) {
            assert(added.deep_view().contains(groundable.deep_view()[i as int]));
            return true;
        }
        i += 1;
    }
    false
}

/// Who has no place yet.
fn find_unplaced(
    descriptors: &[Descriptor],
    incoming_variables: Option<&[Variable]>,
    completed: &Vec<ParticipantRef>,
) -> (r: Vec<ParticipantRef>)
    ensures
        r@ == unplaced(descriptors@, incoming_view(incoming_variables), completed@),
{
    let ghost ds = descriptors@;
    let ghost condition = without_place(completed@);
    let mut out: Vec<ParticipantRef> = Vec::new();
    if incoming_variables.is_some() && !has_participant(completed, ParticipantRef::Incoming) {
        out.push(ParticipantRef::Incoming);
    }
    let ghost first = incoming_if(
        incoming_view(incoming_variables) is Some && !completed@.contains(
            ParticipantRef::Incoming,
        ),
    );
    assert(out@ =~= first);
    let mut i: usize = 0;
    assert(out@ =~= first + chosen(ds.take(0), condition));
    while i < descriptors.len()
        invariant
            i <= descriptors@.len(),
            ds == descriptors@,
            condition == without_place(completed@),
            out@ == first + chosen(ds.take(i as int), condition),
        decreases descriptors@.len() - i,
    {
        assert(ds.take(i + 1).drop_last() =~= ds.take(i as int));
        let participant = ParticipantRef::Pattern(descriptors[i].id);
        if !has_participant(completed, participant) {
            out.push(participant);
        }
        i += 1;
        assert(out@ =~= first + chosen(ds.take(i as int), condition));
    }
    assert(ds.take(i as int) =~= ds);
    out
}

/// Adds the stage that validates whoever can be validated by what is bound, if there is anyone.
fn add_validation_stage(
    descriptors: &[Descriptor],
    incoming_variables: Option<&[Variable]>,
    bound: &[Variable],
    completed: &mut Vec<ParticipantRef>,
    stages: &mut Vec<LogicalStage>,
)
    ensures
        ({
            let valid = validators(
                descriptors@,
                incoming_view(incoming_variables),
                bound.deep_view(),
                old(completed)@,
            );
            &&& final(completed)@ == expr::with_new(old(completed)@, valid)
            &&& final(stages).deep_view() == old(stages).deep_view() + validation_stage(
                valid,
                bound.deep_view(),
            )
        }),
{
    let ghost ds = descriptors@;
    let ghost names = bound.deep_view();
    let ghost before = completed@;
    let mut participants: Vec<ParticipantRef> = Vec::new();
    if let Some(incoming) = incoming_variables {
        if !has_participant(completed, ParticipantRef::Incoming) && fully_bound(incoming, bound) {
            participants.push(ParticipantRef::Incoming);
        }
    }
    let ghost first = incoming_if(
        incoming_ready(incoming_view(incoming_variables), names, before),
    );
    assert(participants@ =~= first);
    let mut i: usize = 0;
    assert(participants@ =~= first + chosen(ds.take(0), ready(names, before)));
    while i < descriptors.len()
        invariant
            i <= descriptors@.len(),
            ds == descriptors@,
            names == bound.deep_view(),
            completed@ == before,
            participants@ == first + chosen(ds.take(i as int), ready(names, before)),
        decreases descriptors@.len() - i,
    {
        assert(ds.take(i + 1).drop_last() =~= ds.take(i as int));
        let participant = ParticipantRef::Pattern(descriptors[i].id);
        if !has_participant(completed, participant) && fully_bound(
            &descriptors[i].variables,
            bound,
        ) {
            participants.push(participant);
        }
        i += 1;
        assert(participants@ =~= first + chosen(ds.take(i as int), ready(names, before)));
    }
    assert(ds.take(i as int) =~= ds);
    add_participants(completed, &participants);
    if participants.len() > 0 {
        let stage = LogicalStage {
            added: Vec::new(),
            proposers: Vec::new(),
            participants,
            target_variables: copy_all(bound),
        };
        assert(stage@ =~= validation_stage(participants@, names)[0]) by {
            assert(stage@.added =~= Seq::<Name>::empty());
        }
        let ghost earlier = *stages;
        stages.push(stage);
        proof {
            crate::byte_string::lemma_deep_push(earlier, *stages, stage);
        }
    }
    assert(stages.deep_view() =~= old(stages).deep_view() + validation_stage(
        participants@,
        names,
    ));
}

/// Whether the first pattern of that identity is fully bound.
fn is_pattern_done(descriptors: &[Descriptor], id: PatternId, target: &[Variable]) -> (r: bool)
    ensures
        r == pattern_done(descriptors@, id, target.deep_view()),
{
    let mut i: usize = 0;
    assert(descriptors@.skip(0) =~= descriptors@);
    while i < descriptors.len()
        invariant
            i <= descriptors@.len(),
            pattern_done(descriptors@, id, target.deep_view()) == pattern_done(
                descriptors@.skip(i as int),
                id,
                target.deep_view(),
            ),
        decreases descriptors@.len() - i,
    {
        assert(descriptors@.skip(i as int)[0] == descriptors@[i as int]);
        assert(descriptors@.skip(i as int).drop_first() =~= descriptors@.skip(i + 1));
        if descriptors[i].id == id {
            return fully_bound(&descriptors[i].variables, target);
        }
        i += 1;
    }
    false
}

/// The participants that are fully bound.
fn finished_of(
    participants: &[ParticipantRef],
    descriptors: &[Descriptor],
    incoming_variables: Option<&[Variable]>,
    target: &[Variable],
) -> (r: Vec<ParticipantRef>)
    ensures
        r@ == finished(
            participants@,
            descriptors@,
            incoming_view(incoming_variables),
            target.deep_view(),
        ),
{
    let ghost incoming = incoming_view(incoming_variables);
    let mut out: Vec<ParticipantRef> = Vec::new();
    let mut i: usize = 0;
    while i < participants.len()
        invariant
            i <= participants@.len(),
            incoming == incoming_view(incoming_variables),
            out@ == finished(
                participants@.take(i as int),
                descriptors@,
                incoming,
                target.deep_view(),
            ),
        decreases participants@.len() - i,
    {
        assert(participants@.take(i + 1).drop_last() =~= participants@.take(i as int));
        let done = match participants[i] {
            ParticipantRef::Incoming => match incoming_variables {
                Some(variables) => fully_bound(variables, target),
                None => false,
            },
            ParticipantRef::Pattern(id) => is_pattern_done(descriptors, id, target),
        };
        if done {
            out.push(participants[i]);
        }
        i += 1;
    }
    assert(participants@.take(i as int) =~= participants@);
    out
}

/// Who can propose a variable.
fn find_proposers(
    variable: &Variable,
    descriptors: &[Descriptor],
    incoming_variables: Option<&[Variable]>,
    bound: &[Variable],
    completed: &[ParticipantRef],
) -> (r: Vec<ParticipantRef>)
    ensures
        r@ == proposers_of(
            variable@,
            descriptors@,
            incoming_view(incoming_variables),
            bound.deep_view(),
            completed@,
        ),
{
    let ghost ds = descriptors@;
    let ghost names = bound.deep_view();
    let mut proposers: Vec<ParticipantRef> = Vec::new();
    if let Some(incoming) = incoming_variables {
        if !has_participant(completed, ParticipantRef::Incoming) {
            let next = relation_groundable(incoming, bound);
            if contains(&next, variable) {
                proposers.push(ParticipantRef::Incoming);
            }
        }
    }
    let ghost first = proposers@;
    let ghost condition = proposes(variable@, names, completed@);
    let mut i: usize = 0;
    assert(proposers@ =~= first + chosen(ds.take(0), condition));
    while i < descriptors.len()
        invariant
            i <= descriptors@.len(),
            ds == descriptors@,
            names == bound.deep_view(),
            condition == proposes(variable@, names, completed@),
            proposers@ == first + chosen(ds.take(i as int), condition),
        decreases descriptors@.len() - i,
    {
        assert(ds.take(i + 1).drop_last() =~= ds.take(i as int));
        let participant = ParticipantRef::Pattern(descriptors[i].id);
        if !has_participant(completed, participant) && !descriptors[i].is_or() {
            let groundable = descriptors[i].groundable(bound);
            if contains(&groundable, variable) {
                proposers.push(participant);
            }
        }
        i += 1;
        assert(proposers@ =~= first + chosen(ds.take(i as int), condition));
    }
    assert(ds.take(i as int) =~= ds);
    proposers
}

/// The proposers and everyone whom the stage leaves fully bound.
fn find_participants(
    descriptors: &[Descriptor],
    incoming_variables: Option<&[Variable]>,
    proposers: &[ParticipantRef],
    target: &[Variable],
    completed: &[ParticipantRef],
) -> (r: Vec<ParticipantRef>)
    ensures
        r@ == joint_participants(
            descriptors@,
            incoming_view(incoming_variables),
            proposers@,
            target.deep_view(),
            completed@,
        ),
{
    let ghost ds = descriptors@;
    let ghost names = target.deep_view();
    let mut participants: Vec<ParticipantRef> = Vec::new();
    if let Some(incoming) = incoming_variables {
        if !has_participant(completed, ParticipantRef::Incoming) && (has_participant(
            proposers,
            ParticipantRef::Incoming,
        ) || fully_bound(incoming, target)) {
            participants.push(ParticipantRef::Incoming);
        }
    }
    let ghost first = participants@;
    let ghost condition = takes_part(proposers@, names, completed@);
    let mut i: usize = 0;
    assert(participants@ =~= first + chosen(ds.take(0), condition));
    while i < descriptors.len()
        invariant
            i <= descriptors@.len(),
            ds == descriptors@,
            names == target.deep_view(),
            condition == takes_part(proposers@, names, completed@),
            participants@ == first + chosen(ds.take(i as int), condition),
        decreases descriptors@.len() - i,
    {
        assert(ds.take(i + 1).drop_last() =~= ds.take(i as int));
        let participant = ParticipantRef::Pattern(descriptors[i].id);
        if !has_participant(completed, participant) && (has_participant(proposers, participant)
            || fully_bound(&descriptors[i].variables, target)) {
            participants.push(participant);
        }
        i += 1;
        assert(participants@ =~= first + chosen(ds.take(i as int), condition));
    }
    assert(ds.take(i as int) =~= ds);
    participants
}

/// The stage that a disjunction proposes, and who is done after it.
fn grouped_or_stage(
    k: usize,
    added: Vec<Variable>,
    descriptors: &[Descriptor],
    incoming_variables: Option<&[Variable]>,
    order: &[Variable],
    bound: &[Variable],
    completed: &[ParticipantRef],
) -> (r: (LogicalStage, Vec<ParticipantRef>))
    requires
        k < descriptors@.len(),
        added.deep_view() == grounds(descriptors@[k as int], bound.deep_view()),
    ensures
        (r.0@, r.1@) == or_stage(
            k as int,
            descriptors@,
            incoming_view(incoming_variables),
            order.deep_view(),
            bound.deep_view(),
            completed@,
        ),
{
    let ghost ds = descriptors@;
    let ghost names = bound.deep_view();
    let participant = ParticipantRef::Pattern(descriptors[k].id);
    let target = target_layout(order, bound, &added);
    let mut participants: Vec<ParticipantRef> = Vec::new();
    let mut newly_completed: Vec<ParticipantRef> = Vec::new();
    participants.push(participant);
    newly_completed.push(participant);
    if let Some(incoming) = incoming_variables {
        let groundable = relation_groundable(incoming, bound);
        if !has_participant(completed, ParticipantRef::Incoming) && can_validate_grouped_or(
            &groundable,
            &added,
        ) {
            participants.push(ParticipantRef::Incoming);
            if fully_bound(incoming, &target) {
                newly_completed.push(ParticipantRef::Incoming);
            }
        }
    }
    let ghost first = participants@;
    let ghost first_done = newly_completed@;
    let ghost plus = added.deep_view();
    let ghost condition = checks_or(names, plus, completed@);
    let ghost condition_done = completes_or(names, plus, target.deep_view(), completed@);
    proof {
        let own = seq![participant];
        let incoming = incoming_view(incoming_variables);
        let incoming_checks = incoming is Some && !completed@.contains(ParticipantRef::Incoming)
            && checks(relation_next(names_in(incoming), names), plus);
        assert(first =~= own + incoming_if(incoming_checks));
        assert(first_done =~= own + incoming_if(
            incoming_checks && all_bound(names_in(incoming), target.deep_view()),
        ));
    }
    let mut i: usize = 0;
    assert(participants@ =~= first + chosen(ds.take(0), condition));
    assert(newly_completed@ =~= first_done + chosen(ds.take(0), condition_done));
    while i < descriptors.len()
        invariant
            i <= descriptors@.len(),
            ds == descriptors@,
            names == bound.deep_view(),
            plus == added.deep_view(),
            condition == checks_or(names, plus, completed@),
            condition_done == completes_or(names, plus, target.deep_view(), completed@),
            participants@ == first + chosen(ds.take(i as int), condition),
            newly_completed@ == first_done + chosen(ds.take(i as int), condition_done),
        decreases descriptors@.len() - i,
    {
        assert(ds.take(i + 1).drop_last() =~= ds.take(i as int));
        let validator = ParticipantRef::Pattern(descriptors[i].id);
        if !has_participant(completed, validator) && !descriptors[i].is_or() {
            let groundable = descriptors[i].groundable(bound);
            if can_validate_grouped_or(&groundable, &added) {
                participants.push(validator);
                if fully_bound(&descriptors[i].variables, &target) {
                    newly_completed.push(validator);
                }
            }
        }
        i += 1;
        assert(participants@ =~= first + chosen(ds.take(i as int), condition));
        assert(newly_completed@ =~= first_done + chosen(ds.take(i as int), condition_done));
    }
    assert(ds.take(i as int) =~= ds);
    let mut proposers: Vec<ParticipantRef> = Vec::new();
    proposers.push(participant);
    assert(proposers@ =~= seq![participant]);
    (LogicalStage { added, proposers, participants, target_variables: target }, newly_completed)
}

/// The stage that binds a variable, and who is done after it.
pub fn proposing_stage_for(
    variable: &Variable,
    descriptors: &[Descriptor],
    incoming_variables: Option<&[Variable]>,
    order: &[Variable],
    bound: &[Variable],
    completed: &[ParticipantRef],
) -> (r: Option<(LogicalStage, Vec<ParticipantRef>)>)
    ensures
        match r {
            Some((stage, done)) => stage_for(
                variable@,
                descriptors@,
                incoming_view(incoming_variables),
                order.deep_view(),
                bound.deep_view(),
                completed@,
            ) == Some((stage@, done@)),
            None => stage_for(
                variable@,
                descriptors@,
                incoming_view(incoming_variables),
                order.deep_view(),
                bound.deep_view(),
                completed@,
            ) is None,
        },
{
    let proposers = find_proposers(variable, descriptors, incoming_variables, bound, completed);
    if proposers.len() > 0 {
        let mut added: Vec<Variable> = Vec::new();
        let copy = variable.clone();
        let ghost earlier = added;
        added.push(copy);
        proof {
            crate::byte_string::lemma_deep_push(earlier, added, copy);
            assert(added.deep_view() =~= seq![variable@]);
        }
        let target_variables = target_layout(order, bound, &added);
        let participants = find_participants(
            descriptors,
            incoming_variables,
            &proposers,
            &target_variables,
            completed,
        );
        let done = finished_of(&participants, descriptors, incoming_variables, &target_variables);
        return Some((LogicalStage { added, proposers, participants, target_variables }, done));
    }
    let ghost names = bound.deep_view();
    let mut k: usize = 0;
    while k < descriptors.len()
        invariant
            k <= descriptors@.len(),
            names == bound.deep_view(),
            proposers_of(
                variable@,
                descriptors@,
                incoming_view(incoming_variables),
                names,
                completed@,
            ).len() == 0,
            first_or(descriptors@, variable@, names, completed@, 0) == first_or(
                descriptors@,
                variable@,
                names,
                completed@,
                k as int,
            ),
        decreases descriptors@.len() - k,
    {
        if !has_participant(completed, ParticipantRef::Pattern(descriptors[k].id))
            && descriptors[k].is_or() {
            let added = descriptors[k].groundable(bound);
            if contains(&added, variable) {
                assert(or_fits(descriptors@[k as int], variable@, names, completed@));
                let found = grouped_or_stage(
                    k,
                    added,
                    descriptors,
                    incoming_variables,
                    order,
                    bound,
                    completed,
                );
                return Some(found);
            }
        }
        assert(!or_fits(descriptors@[k as int], variable@, names, completed@));
        k += 1;
    }
    None
}

/// The stages in which the patterns of a scope bind its variables.
pub fn plan_scope(
    descriptors: &[Descriptor],
    variable_order: &[Variable],
    incoming_variables: Option<&[Variable]>,
) -> (r: Result<Vec<LogicalStage>, Error>)
    ensures
        match r {
            Ok(stages) => planned(
                descriptors@,
                variable_order.deep_view(),
                incoming_view(incoming_variables),
            ) == Ok::<Seq<StageView>, ErrorView>(stages.deep_view()),
            Err(e) => planned(
                descriptors@,
                variable_order.deep_view(),
                incoming_view(incoming_variables),
            ) == Err::<Seq<StageView>, ErrorView>(e@),
        },
{
    let order = scope_variable_order(descriptors, variable_order, incoming_variables);
    match incoming_variables {
        Some(variables) => {
            let relevant = common_of(variables, &order);
            plan_stages(descriptors, &order, Some(&relevant))
        },
        None => plan_stages(descriptors, &order, None),
    }
}

/// The stages that bind the variables of a scope in its order.
fn plan_stages(
    descriptors: &[Descriptor],
    order: &[Variable],
    incoming: Option<&[Variable]>,
) -> (r: Result<Vec<LogicalStage>, Error>)
    ensures
        match r {
            Ok(stages) => plan_rest(
                descriptors@,
                incoming_view(incoming),
                order.deep_view(),
                Seq::empty(),
                Seq::empty(),
            ) == Ok::<Seq<StageView>, ErrorView>(stages.deep_view()),
            Err(e) => plan_rest(
                descriptors@,
                incoming_view(incoming),
                order.deep_view(),
                Seq::empty(),
                Seq::empty(),
            ) == Err::<Seq<StageView>, ErrorView>(e@),
        },
{
    let ghost ds = descriptors@;
    let ghost inc = incoming_view(incoming);
    let ghost names = order.deep_view();
    let mut bound: Vec<Variable> = Vec::new();
    let mut completed: Vec<ParticipantRef> = Vec::new();
    let mut stages: Vec<LogicalStage> = Vec::new();
    let ghost whole = plan_rest(ds, inc, names, Seq::empty(), Seq::empty());
    proof {
        assert(bound.deep_view() =~= Seq::<Name>::empty());
        assert(completed@ =~= Seq::<ParticipantRef>::empty());
        assert(stages.deep_view() =~= Seq::<StageView>::empty());
        lemma_after_nothing(whole);
    }
    loop
        invariant
            ds == descriptors@,
            inc == incoming_view(incoming),
            names == order.deep_view(),
            whole == plan_rest(ds, inc, names, Seq::empty(), Seq::empty()),
            whole == after(
                stages.deep_view(),
                plan_rest(ds, inc, names, bound.deep_view(), completed@),
            ),
        decreases binding_bag::missing(names, bound.deep_view()).len(),
    {
        let ghost head = stages.deep_view();
        let ghost before = completed@;
        let ghost held = bound.deep_view();
        let ghost valid = validators(ds, inc, held, before);
        add_validation_stage(descriptors, incoming, &bound, &mut completed, &mut stages);
        let remaining = unbound_of(order, &bound);
        if remaining.len() == 0 {
            let count: usize = descriptors.len();
            let placed = match incoming {
                Some(_) => completed.len() > count && completed.len() - 1 == count,
                None => completed.len() == count,
            };
            if placed {
                return Ok(stages);
            }
            return Err(
                Error::UnplacedParticipants(find_unplaced(descriptors, incoming, &completed)),
            );
        }
        let mut i: usize = 0;
        let mut proposed: Option<(LogicalStage, Vec<ParticipantRef>)> = None;
        while i < remaining.len() && proposed.is_none()
            invariant
                i <= remaining@.len(),
                ds == descriptors@,
                inc == incoming_view(incoming),
                names == order.deep_view(),
                held == bound.deep_view(),
                match proposed {
                    Some((stage, done)) => first_stage(
                        remaining.deep_view(),
                        ds,
                        inc,
                        names,
                        held,
                        completed@,
                        0,
                    ) == Some((stage@, done@)),
                    None => first_stage(
                        remaining.deep_view(),
                        ds,
                        inc,
                        names,
                        held,
                        completed@,
                        0,
                    ) == first_stage(
                        remaining.deep_view(),
                        ds,
                        inc,
                        names,
                        held,
                        completed@,
                        i as int,
                    ),
                },
            decreases remaining@.len() - i,
        {
            proposed = proposing_stage_for(
                &remaining[i],
                descriptors,
                incoming,
                order,
                &bound,
                &completed,
            );
            i += 1;
        }
        match proposed {
            None => {
                return Err(Error::InsufficientBinding(remaining[0].name.clone()));
            },
            Some((stage, newly_completed)) => {
                proof {
                    lemma_first_stage_progress(ds, inc, names, held, completed@);
                }
                let ghost done = completed@;
                add_participants(&mut completed, &newly_completed);
                bound = copy_all(&stage.target_variables);
                let ghost earlier = stages;
                stages.push(stage);
                proof {
                    crate::byte_string::lemma_deep_push(earlier, stages, stage);
                    lemma_after_split(
                        head,
                        validation_stage(valid, held).push(stage@),
                        plan_rest(ds, inc, names, bound.deep_view(), completed@),
                    );
                    assert(head + validation_stage(valid, held).push(stage@)
                        =~= stages.deep_view());
                }
            },
        }
    }
}

proof fn lemma_after_nothing(rest: Result<Seq<StageView>, ErrorView>)
    ensures
        after(Seq::empty(), rest) == rest,
{
    match rest {
        Ok(more) => {
            assert(Seq::<StageView>::empty() + more =~= more);
        },
        Err(_) => {},
    }
}

proof fn lemma_after_split(
    a: Seq<StageView>,
    b: Seq<StageView>,
    rest: Result<Seq<StageView>, ErrorView>,
)
    ensures
        after(a, after(b, rest)) == after(a + b, rest),
{
    match rest {
        Ok(more) => {
            assert(a + (b + more) =~= (a + b) + more);
        },
        Err(_) => {},
    }
}

} // verus!
