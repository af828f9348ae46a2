//! Extenders that allow what one of their children allows.

use vstd::prelude::*;

use crate::algo::generic_join::{self, sorted_unique, Extension, Prefix, PrefixExtender};
use crate::byte_string::Row;
use crate::error::{self, Error, ErrorView};

verus! {

/// An extender that allows the values that one of its children allows. All children constrain
/// the same levels.
pub struct GenericOrPrefixExtender {
    pub children: Vec<Box<dyn PrefixExtender>>,
}

/// The sum of the counts of the children, cut off at the largest number.
pub open spec fn total(children: Seq<Box<dyn PrefixExtender>>, prefix: Row) -> usize
    decreases children.len(),
{
    if children.len() == 0 {
        0
    } else {
        let sum = total(children.drop_last(), prefix) + children.last().counted(prefix);
        if sum > usize::MAX {
            usize::MAX
        } else {
            sum as usize
        }
    }
}

/// Whether all children constrain the same levels.
pub open spec fn same_levels(children: Seq<Box<dyn PrefixExtender>>) -> bool {
    forall|i: int, level: int|
        0 <= i < children.len() ==> (#[trigger] children[i].joins(level)) == children[0].joins(
            level,
        )
}

impl GenericOrPrefixExtender {
    /// An extender over at least one child.
    pub fn new(children: Vec<Box<dyn PrefixExtender>>) -> (r: Self)
        requires
            children@.len() > 0,
            generic_join::all_inv(children@),
            same_levels(children@),
        ensures
            r.inv(),
            r.children == children,
    {
        GenericOrPrefixExtender { children }
    }
}

/// Whether the children are sure to list the values that they allow.
pub open spec fn all_propose(children: Seq<Box<dyn PrefixExtender>>, prefix: Row) -> bool {
    forall|i: int|
        0 <= i < children.len() ==> (#[trigger] children[i]).joins(prefix.len() as int)
            && children[i].offers(prefix)
}

/// The error of the first child that refuses, where all before it propose.
pub open spec fn first_refusal(children: Seq<Box<dyn PrefixExtender>>, prefix: Row) -> Option<
    ErrorView,
>
    decreases children.len(),
{
    if children.len() == 0 {
        None
    } else {
        match first_refusal(children.drop_last(), prefix) {
            Some(e) => Some(e),
            None => if all_propose(children.drop_last(), prefix) {
                children.last().refusal(prefix)
            } else {
                None
            },
        }
    }
}

/// A refusal that the first children lead to is that of all.
proof fn lemma_first_refusal(children: Seq<Box<dyn PrefixExtender>>, prefix: Row, n: int)
    requires
        0 <= n <= children.len(),
        first_refusal(children.take(n), prefix) is Some || !all_propose(
            children.take(n),
            prefix,
        ),
    ensures
        first_refusal(children, prefix) == first_refusal(children.take(n), prefix),
    decreases children.len(),
{
    if n < children.len() {
        let front = children.drop_last();
        assert(front.take(n) =~= children.take(n));
        lemma_first_refusal(front, prefix, n);
        if first_refusal(children.take(n), prefix) is None {
            let i = choose|i: int|
                0 <= i < n && !((#[trigger] children.take(n)[i]).joins(prefix.len() as int)
                    && children.take(n)[i].offers(prefix));
            assert(front[i] == children.take(n)[i]);
        }
    } else {
        assert(children.take(n) =~= children);
    }
}

/// Whether a child accepts a value.
pub open spec fn some_accept(
    children: Seq<Box<dyn PrefixExtender>>,
    prefix: Row,
    value: Seq<u8>,
) -> bool {
    exists|i: int| 0 <= i < children.len() && (#[trigger] children[i]).accepts(prefix, value)
}

/// One child more accepts what it and the others accept.
proof fn lemma_some_accept(
    children: Seq<Box<dyn PrefixExtender>>,
    n: int,
    prefix: Row,
    value: Seq<u8>,
)
    requires
        0 <= n < children.len(),
    ensures
        some_accept(children.take(n + 1), prefix, value) == (some_accept(
            children.take(n),
            prefix,
            value,
        ) || children[n].accepts(prefix, value)),
{
    let more = children.take(n + 1);
    let less = children.take(n);
    if some_accept(less, prefix, value) {
        let i = choose|i: int| 0 <= i < less.len() && (#[trigger] less[i]).accepts(prefix, value);
        assert(more[i].accepts(prefix, value));
    }
    if children[n].accepts(prefix, value) {
        assert(more[n].accepts(prefix, value));
    }
    if some_accept(more, prefix, value) {
        let i = choose|i: int| 0 <= i < more.len() && (#[trigger] more[i]).accepts(prefix, value);
        if i < n {
            assert(less[i].accepts(prefix, value));
        }
    }
}

/// Whether a child proposes a value.
pub open spec fn some_lists(
    children: Seq<Box<dyn PrefixExtender>>,
    prefix: Row,
    value: Seq<u8>,
) -> bool {
    exists|i: int| 0 <= i < children.len() && (#[trigger] children[i]).lists(prefix, value)
}

/// One child more proposes what it and the others propose.
proof fn lemma_some_lists(
    children: Seq<Box<dyn PrefixExtender>>,
    n: int,
    prefix: Row,
    value: Seq<u8>,
)
    requires
        0 <= n < children.len(),
    ensures
        some_lists(children.take(n + 1), prefix, value) == (some_lists(
            children.take(n),
            prefix,
            value,
        ) || children[n].lists(prefix, value)),
{
    let more = children.take(n + 1);
    let less = children.take(n);
    if some_lists(less, prefix, value) {
        let i = choose|i: int| 0 <= i < less.len() && (#[trigger] less[i]).lists(prefix, value);
        assert(more[i].lists(prefix, value));
    }
    if children[n].lists(prefix, value) {
        assert(more[n].lists(prefix, value));
    }
    if some_lists(more, prefix, value) {
        let i = choose|i: int| 0 <= i < more.len() && (#[trigger] more[i]).lists(prefix, value);
        if i < n {
            assert(less[i].lists(prefix, value));
        }
    }
}

/// Lists, one after the other, hold what one of them holds.
proof fn lemma_append_contains(a: Seq<Seq<u8>>, b: Seq<Seq<u8>>, e: Seq<u8>)
    ensures
        (a + b).contains(e) == (a.contains(e) || b.contains(e)),
{
    if a.contains(e) {
        let i = a.index_of(e);
        assert((a + b)[i] == e);
    }
    if b.contains(e) {
        let i = b.index_of(e);
        assert((a + b)[a.len() + i] == e);
    }
}

/// Whether a list, in ascending order, holds just what an extender accepts.
pub open spec fn holds_all<E: PrefixExtender + ?Sized>(
    extender: &E,
    prefix: Row,
    list: Seq<Seq<u8>>,
) -> bool {
    &&& generic_join::ascending(list)
    &&& forall|e: Seq<u8>| #[trigger] list.contains(e) == extender.accepts(prefix, e)
}

/// What one of two conditions leaves is no more than what they leave together.
proof fn lemma_left_by_either(
    list: Seq<Seq<u8>>,
    f: spec_fn(Seq<u8>) -> bool,
    g: spec_fn(Seq<u8>) -> bool,
    either: spec_fn(Seq<u8>) -> bool,
)
    requires
        forall|e: Seq<u8>| #[trigger] either(e) == (f(e) || g(e)),
    ensures
        generic_join::only(list, either).len() <= generic_join::only(list, f).len()
            + generic_join::only(list, g).len(),
    decreases list.len(),
{
    if list.len() > 0 {
        lemma_left_by_either(list.drop_last(), f, g, either);
        assert(either(list.last()) == (f(list.last()) || g(list.last())));
    }
}

/// The first children accept no more of a list than their counts say.
proof fn lemma_counts(
    children: Seq<Box<dyn PrefixExtender>>,
    n: int,
    prefix: Row,
    list: Seq<Seq<u8>>,
)
    requires
        0 <= n <= children.len(),
        list.len() <= usize::MAX,
        generic_join::ascending(list),
        forall|i: int, e: Seq<u8>|
            0 <= i < children.len() && #[trigger] children[i].accepts(prefix, e) ==> list.contains(
                e,
            ),
        forall|i: int, own: Seq<Seq<u8>>|
            0 <= i < children.len() && #[trigger] holds_all(&*children[i], prefix, own) ==> own.len()
                <= children[i].counted(prefix),
    ensures
        generic_join::only(list, |e: Seq<u8>| some_accept(children.take(n), prefix, e)).len()
            <= total(children.take(n), prefix),
    decreases n,
{
    let some = |e: Seq<u8>| some_accept(children.take(n), prefix, e);
    if n == 0 {
        generic_join::lemma_only(list, some);
        let left = generic_join::only(list, some);
        if left.len() > 0 {
            assert(left.contains(left[0]));
        }
    } else {
        lemma_counts(children, n - 1, prefix, list);
        let earlier = |e: Seq<u8>| some_accept(children.take(n - 1), prefix, e);
        let own = |e: Seq<u8>| children[n - 1].accepts(prefix, e);
        let kept = generic_join::only(list, own);
        generic_join::lemma_only(list, own);
        assert forall|e: Seq<u8>| #[trigger] kept.contains(e) == children[n - 1].accepts(
            prefix,
            e,
        ) by {}
        assert(holds_all(&*children[n - 1], prefix, kept));
        assert forall|e: Seq<u8>| #[trigger] some(e) == (earlier(e) || own(e)) by {
            lemma_some_accept(children, n - 1, prefix, e);
        }
        lemma_left_by_either(list, earlier, own, some);
        assert(children.take(n).drop_last() =~= children.take(n - 1));
        assert(children.take(n).last() == children[n - 1]);
        lemma_left_no_longer(list, some);
    }
}

/// No more is left of a list than it holds.
proof fn lemma_left_no_longer(list: Seq<Seq<u8>>, allow: spec_fn(Seq<u8>) -> bool)
    ensures
        generic_join::only(list, allow).len() <= list.len(),
    decreases list.len(),
{
    if list.len() > 0 {
        lemma_left_no_longer(list.drop_last(), allow);
    }
}

/// The count is a bound on what is proposed, where the count of each child is a bound on what
/// that child proposes.
pub proof fn law_count_bounds_proposal(
    extender: GenericOrPrefixExtender,
    prefix: Row,
    list: Seq<Seq<u8>>,
)
    requires
        holds_all(&extender, prefix, list),
        list.len() <= usize::MAX,
        forall|i: int, own: Seq<Seq<u8>>|
            0 <= i < extender.children@.len() && #[trigger] holds_all(
                &*extender.children@[i],
                prefix,
                own,
            ) ==> own.len() <= extender.children@[i].counted(prefix),
    ensures
        list.len() <= extender.counted(prefix),
{
    let children = extender.children@;
    let n = children.len() as int;
    let some = |e: Seq<u8>| some_accept(children.take(n), prefix, e);
    assert(children.take(n) =~= children);
    assert forall|i: int, e: Seq<u8>|
        0 <= i < n && #[trigger] children[i].accepts(prefix, e) implies list.contains(e) by {
        assert(extender.accepts(prefix, e));
    }
    lemma_counts(children, n, prefix, list);
    assert forall|i: int| 0 <= i < list.len() implies some(#[trigger] list[i]) by {
        assert(list.contains(list[i]));
        assert(extender.accepts(prefix, list[i]));
    }
    generic_join::lemma_all_left(list, some);
}

impl PrefixExtender for GenericOrPrefixExtender {
    open spec fn inv(&self) -> bool {
        &&& self.children@.len() > 0
        &&& generic_join::all_inv(self.children@)
        &&& same_levels(self.children@)
    }

    open spec fn joins(&self, level: int) -> bool {
        self.children@[0].joins(level)
    }

    open spec fn accepts(&self, prefix: Row, value: Seq<u8>) -> bool {
        some_accept(self.children@, prefix, value)
    }

    open spec fn judges(&self, prefix: Row, value: Seq<u8>) -> bool {
        forall|i: int|
            0 <= i < self.children@.len() ==> (#[trigger] self.children@[i]).judges(prefix, value)
    }

    open spec fn offers(&self, prefix: Row) -> bool {
        forall|i: int|
            0 <= i < self.children@.len() ==> (#[trigger] self.children@[i]).offers(prefix)
    }

    open spec fn lists(&self, prefix: Row, value: Seq<u8>) -> bool {
        some_lists(self.children@, prefix, value)
    }

    open spec fn refusal(&self, prefix: Row) -> Option<ErrorView> {
        first_refusal(self.children@, prefix)
    }

    open spec fn filters(&self) -> bool {
        false
    }

    open spec fn refuses(&self, prefix: Row, e: ErrorView) -> bool {
        exists|i: int|
            0 <= i < self.children@.len() && (#[trigger] self.children@[i]).refuses(prefix, e)
    }

    open spec fn objects(&self, prefix: Row, values: Seq<Seq<u8>>, e: ErrorView) -> bool {
        exists|i: int|
            0 <= i < self.children@.len() && (#[trigger] self.children@[i]).objects(
                prefix,
                values,
                e,
            )
    }

    open spec fn counted(&self, prefix: Row) -> usize {
        total(self.children@, prefix)
    }

    open spec fn counts(&self, prefix: Row) -> bool {
        forall|i: int|
            0 <= i < self.children@.len() ==> (#[trigger] self.children@[i]).counts(prefix)
    }

    /// The sum of the children's counts, cut off at the largest number.
    fn count(&self, prefix: &Prefix) -> (r: Result<usize, Error>) {
        let mut sum: usize = 0;
        let mut i: usize = 0;
        assert(self.children@.take(0) =~= Seq::<Box<dyn PrefixExtender>>::empty());
        while i < self.children.len()
            invariant
                i <= self.children@.len(),
                self.inv(),
                sum == total(self.children@.take(i as int), prefix.deep_view()),
            decreases self.children@.len() - i,
        {
            assert(self.children@.take(i + 1).drop_last() =~= self.children@.take(i as int));
            assert(self.children@.take(i + 1).last() == self.children@[i as int]);
            let n: usize = match self.children[i].count(prefix) {
                Ok(n) => n,
                Err(e) => {
                    return Err(e);
                },
            };
            sum = sum.saturating_add(n);
            i += 1;
        }
        assert(self.children@.take(i as int) =~= self.children@);
        Ok(sum)
    }

    /// What any child proposes. The first child that refuses decides the error.
    fn propose(&self, prefix: &Prefix) -> (r: Result<Vec<Extension>, Error>) {
        let ghost row = prefix.deep_view();
        let ghost level = prefix@.len() as int;
        let mut all: Vec<Extension> = Vec::new();
        let mut i: usize = 0;
        assert(all.deep_view() =~= Seq::<Seq<u8>>::empty());
        while i < self.children.len()
            invariant
                i <= self.children@.len(),
                self.inv(),
                row == prefix.deep_view(),
                level == prefix@.len(),
                level == row.len(),
                first_refusal(self.children@.take(i as int), row) is None,
                forall|e: Seq<u8>|
                    #![trigger all.deep_view().contains(e)]
                    all.deep_view().contains(e) == some_lists(
                        self.children@.take(i as int),
                        row,
                        e,
                    ),
                self.joins(level) ==> forall|e: Seq<u8>|
                    #![trigger all.deep_view().contains(e)]
                    all.deep_view().contains(e) == some_accept(
                        self.children@.take(i as int),
                        row,
                        e,
                    ),
            decreases self.children@.len() - i,
        {
            assert(self.children@[i as int].joins(level) == self.joins(level));
            proof {
                let next = self.children@.take(i + 1);
                assert(next.drop_last() =~= self.children@.take(i as int));
                assert(next.last() == self.children@[i as int]);
                if first_refusal(next, row) is Some {
                    lemma_first_refusal(self.children@, row, i + 1);
                }
                if !all_propose(next, row) {
                    lemma_first_refusal(self.children@, row, i + 1);
                }
                if all_propose(self.children@.take(i as int), row) && !all_propose(next, row) {
                    let k = choose|k: int|
                        0 <= k < next.len() && !((#[trigger] next[k]).joins(row.len() as int)
                            && next[k].offers(row));
                    if k < i {
                        assert(self.children@.take(i as int)[k] == next[k]);
                    }
                }
                if !all_propose(self.children@.take(i as int), row) {
                    lemma_first_refusal(self.children@, row, i as int);
                }
            }
            let mut more = match self.children[i].propose(prefix) {
                Ok(more) => more,
                Err(e) => {
                    return Err(e);
                },
            };
            let ghost head = all;
            let ghost tail = more;
            all.append(&mut more);
            proof {
                assert(all.deep_view() =~= head.deep_view() + tail.deep_view());
                assert forall|e: Seq<u8>|
                    #![trigger all.deep_view().contains(e)]
                    all.deep_view().contains(e) == some_lists(
                        self.children@.take(i + 1),
                        row,
                        e,
                    ) by {
                    lemma_append_contains(head.deep_view(), tail.deep_view(), e);
                    lemma_some_lists(self.children@, i as int, row, e);
                    assert(tail.deep_view().contains(e) == self.children@[i as int].lists(row, e));
                }
                assert forall|e: Seq<u8>|
                    #![trigger all.deep_view().contains(e)]
                    self.joins(level) implies all.deep_view().contains(e) == some_accept(
                    self.children@.take(i + 1),
                    row,
                    e,
                ) by {
                    lemma_append_contains(head.deep_view(), tail.deep_view(), e);
                    lemma_some_accept(self.children@, i as int, row, e);
                    assert(tail.deep_view().contains(e) == self.children@[i as int].accepts(
                        row,
                        e,
                    ));
                    assert(head.deep_view().contains(e) == some_accept(
                        self.children@.take(i as int),
                        row,
                        e,
                    ));
                }
            }
            i += 1;
        }
        assert(self.children@.take(i as int) =~= self.children@);
        let sorted = sorted_unique(&all);
        proof {
            assert forall|e: Seq<u8>|
                #![trigger sorted.deep_view().contains(e)]
                sorted.deep_view().contains(e) == self.lists(row, e) by {
                assert(all.deep_view().contains(e) == some_lists(self.children@, row, e));
            }
            assert forall|e: Seq<u8>|
                #![trigger sorted.deep_view().contains(e)]
                self.joins(level) implies sorted.deep_view().contains(e) == self.accepts(row, e) by {
                assert(all.deep_view().contains(e) == some_accept(self.children@, row, e));
            }
        }
        Ok(sorted)
    }

    /// What of the values any child allows, in ascending order and each once.
    fn intersect(&self, prefix: &Prefix, extensions: &[Extension]) -> (r: Result<
        Vec<Extension>,
        Error,
    >)
        ensures
            r matches Ok(list) ==> generic_join::ascending(list.deep_view()),
    {
        let ghost row = prefix.deep_view();
        let ghost level = prefix@.len() as int;
        let ghost given = extensions.deep_view();
        let mut all: Vec<Extension> = Vec::new();
        let mut i: usize = 0;
        assert(all.deep_view() =~= Seq::<Seq<u8>>::empty());
        while i < self.children.len()
            invariant
                i <= self.children@.len(),
                self.inv(),
                row == prefix.deep_view(),
                level == prefix@.len(),
                given == extensions.deep_view(),
                self.joins(level) ==> forall|e: Seq<u8>|
                    #![trigger all.deep_view().contains(e)]
                    all.deep_view().contains(e) == (given.contains(e) && some_accept(
                        self.children@.take(i as int),
                        row,
                        e,
                    )),
            decreases self.children@.len() - i,
        {
            assert(self.children@[i as int].joins(level) == self.joins(level));
            proof {
                if forall|k: int|
                    0 <= k < extensions@.len() ==> self.judges(row, #[trigger] given[k]) {
                    assert forall|k: int| 0 <= k < extensions@.len() implies self.children@[i as int].judges(
                    row, #[trigger] given[k]) by {
                        assert(self.judges(row, given[k]));
                    }
                }
            }
            let mut more = match self.children[i].intersect(prefix, extensions) {
                Ok(more) => more,
                Err(e) => {
                    return Err(e);
                },
            };
            let ghost head = all;
            let ghost tail = more;
            all.append(&mut more);
            proof {
                assert(all.deep_view() =~= head.deep_view() + tail.deep_view());
                assert forall|e: Seq<u8>|
                    #![trigger all.deep_view().contains(e)]
                    self.joins(level) implies all.deep_view().contains(e) == (given.contains(e)
                    && some_accept(self.children@.take(i + 1), row, e)) by {
                    lemma_append_contains(head.deep_view(), tail.deep_view(), e);
                    lemma_some_accept(self.children@, i as int, row, e);
                    assert(tail.deep_view().contains(e) == (given.contains(e)
                        && self.children@[i as int].accepts(row, e)));
                    assert(head.deep_view().contains(e) == (given.contains(e) && some_accept(
                        self.children@.take(i as int),
                        row,
                        e,
                    )));
                }
            }
            i += 1;
        }
        assert(self.children@.take(i as int) =~= self.children@);
        let sorted = sorted_unique(&all);
        proof {
            assert forall|e: Seq<u8>|
                #![trigger sorted.deep_view().contains(e)]
                self.joins(level) implies sorted.deep_view().contains(e) == (given.contains(e)
                && self.accepts(row, e)) by {
                assert(all.deep_view().contains(e) == (given.contains(e) && some_accept(
                    self.children@,
                    row,
                    e,
                )));
            }
        }
        Ok(sorted)
    }

    /// Whether the first child, and so every child, constrains the level.
    fn participates_in_level(&self, level: usize) -> (r: bool) {
        self.children[0].participates_in_level(level)
    }
}

} // verus!
