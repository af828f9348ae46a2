//! Extenders that allow what all their children allow.

use vstd::prelude::*;

use crate::algo::generic_join::{self, Extension, Prefix, PrefixExtender};
use crate::byte_string::{copy_row, Row};
use crate::error::{Error, ErrorView};

verus! {

/// An extender that allows the values that all its children allow.
pub struct GenericAndPrefixExtender {
    pub children: Vec<Box<dyn PrefixExtender>>,
}

/// The smallest count of the first children that constrain the level, if any does.
pub open spec fn least(children: Seq<Box<dyn PrefixExtender>>, prefix: Row) -> Option<usize>
    decreases children.len(),
{
    if children.len() == 0 {
        None
    } else {
        let earlier = least(children.drop_last(), prefix);
        let last = children.last();
        if last.joins(prefix.len() as int) && (earlier is None || last.counted(prefix)
            < earlier.unwrap()) {
            Some(last.counted(prefix))
        } else {
            earlier
        }
    }
}

impl GenericAndPrefixExtender {
    /// An extender over at least one child.
    pub fn new(children: Vec<Box<dyn PrefixExtender>>) -> (r: Self)
        requires
            children@.len() > 0,
            generic_join::all_inv(children@),
        ensures
            r.inv(),
            r.children == children,
    {
        GenericAndPrefixExtender { children }
    }
}

/// Whether the first children accept a value, as far as they constrain its level.
pub open spec fn accepted_by(
    children: Seq<Box<dyn PrefixExtender>>,
    n: int,
    prefix: Row,
    value: Seq<u8>,
) -> bool {
    forall|i: int|
        0 <= i < n && (#[trigger] children[i]).joins(prefix.len() as int) ==> children[i].accepts(
            prefix,
            value,
        )
}

impl PrefixExtender for GenericAndPrefixExtender {
    open spec fn inv(&self) -> bool {
        generic_join::all_inv(self.children@)
    }

    open spec fn joins(&self, level: int) -> bool {
        exists|i: int| 0 <= i < self.children@.len() && (#[trigger] self.children@[i]).joins(level)
    }

    open spec fn accepts(&self, prefix: Row, value: Seq<u8>) -> bool {
        forall|i: int|
            0 <= i < self.children@.len() && (#[trigger] self.children@[i]).joins(
                prefix.len() as int,
            ) ==> self.children@[i].accepts(prefix, value)
    }

    open spec fn judges(&self, prefix: Row, value: Seq<u8>) -> bool {
        forall|i: int|
            0 <= i < self.children@.len() && (#[trigger] self.children@[i]).joins(
                prefix.len() as int,
            ) ==> self.children@[i].judges(prefix, value)
    }

    open spec fn offers(&self, prefix: Row) -> bool {
        generic_join::resolvable(self.children@, prefix)
    }

    open spec fn lists(&self, prefix: Row, value: Seq<u8>) -> bool {
        self.joins(prefix.len() as int) && self.accepts(prefix, value)
    }

    open spec fn refusal(&self, prefix: Row) -> Option<ErrorView> {
        if generic_join::all_count(self.children@, prefix) && exists|k: int|
            generic_join::cheapest(self.children@, prefix, k) {
            self.children@[choose|k: int| generic_join::cheapest(self.children@, prefix, k)].refusal(
                prefix,
            )
        } else {
            None
        }
    }

    open spec fn filters(&self) -> bool {
        forall|i: int| 0 <= i < self.children@.len() ==> (#[trigger] self.children@[i]).filters()
    }

    open spec fn refuses(&self, prefix: Row, e: ErrorView) -> bool {
        generic_join::passes_on(self.children@, prefix, e)
    }

    open spec fn objects(&self, prefix: Row, values: Seq<Seq<u8>>, e: ErrorView) -> bool {
        generic_join::passes_on(self.children@, prefix, e)
    }

    open spec fn counted(&self, prefix: Row) -> usize {
        match least(self.children@, prefix) {
            Some(n) => n,
            None => 0,
        }
    }

    open spec fn counts(&self, prefix: Row) -> bool {
        generic_join::all_count(self.children@, prefix)
    }

    /// The smallest of the counts of the children that constrain the level.
    fn count(&self, prefix: &Prefix) -> (r: Result<usize, Error>) {
        let level: usize = prefix.len();
        assert(prefix.deep_view().len() == level);
        let mut best: Option<usize> = None;
        let mut i: usize = 0;
        assert(self.children@.take(0) =~= Seq::<Box<dyn PrefixExtender>>::empty());
        while i < self.children.len()
            invariant
                i <= self.children@.len(),
                self.inv(),
                level == prefix.deep_view().len(),
                best == least(self.children@.take(i as int), prefix.deep_view()),
            decreases self.children@.len() - i,
        {
            assert(self.children@.take(i + 1).drop_last() =~= self.children@.take(i as int));
            assert(self.children@.take(i + 1).last() == self.children@[i as int]);
            if self.children[i].participates_in_level(level) {
                let n: usize = match self.children[i].count(prefix) {
                    Ok(n) => n,
                    Err(e) => {
                        return Err(e);
                    },
                };
                match best {
                    Some(m) => {
                        if n < m {
                            best = Some(n);
                        }
                    },
                    None => {
                        best = Some(n);
                    },
                }
            }
            i += 1;
        }
        assert(self.children@.take(i as int) =~= self.children@);
        match best {
            Some(n) => Ok(n),
            None => Ok(0),
        }
    }

    /// What the child with the smallest count proposes, as far as the others allow it; nothing
    /// where no child constrains the level.
    fn propose(&self, prefix: &Prefix) -> (r: Result<Vec<Extension>, Error>)
        ensures
            !self.joins(prefix@.len() as int) ==> (r matches Ok(list) && list@.len() == 0),
    {
        let ghost row = prefix.deep_view();
        assert(row.len() == prefix@.len());
        let found = generic_join::extensions(&self.children, prefix);
        proof {
            if !self.joins(row.len() as int) {
                assert forall|k: int| !generic_join::cheapest(self.children@, row, k) by {
                    if generic_join::cheapest(self.children@, row, k) {
                        assert(self.children@[k].joins(row.len() as int));
                    }
                }
                if found is Ok {
                    let list = found->Ok_0;
                    assert(list.deep_view().len() == list@.len());
                    if list@.len() > 0 {
                        assert(list.deep_view().contains(list.deep_view()[0]));
                    }
                }
            }
        }
        found
    }

    /// What of the values all the children that constrain the level allow.
    fn intersect(&self, prefix: &Prefix, extensions: &[Extension]) -> (r: Result<
        Vec<Extension>,
        Error,
    >)
        ensures
            !self.joins(prefix@.len() as int) ==> (r matches Ok(list) && list.deep_view()
                == extensions.deep_view()),
    {
        let ghost row = prefix.deep_view();
        let ghost given = extensions.deep_view();
        let level: usize = prefix.len();
        assert(row.len() == level);
        let mut result = copy_row(extensions);
        let mut i: usize = 0;
        proof {
            generic_join::lemma_all_left(
                given,
                |e: Seq<u8>| accepted_by(self.children@, 0, row, e),
            );
        }
        while i < self.children.len()
            invariant
                i <= self.children@.len(),
                self.inv(),
                row == prefix.deep_view(),
                level == row.len(),
                level == prefix@.len(),
                given == extensions.deep_view(),
                given.len() == extensions@.len(),
                generic_join::ascending(given) ==> generic_join::ascending(result.deep_view()),
                self.filters() ==> result.deep_view() == generic_join::only(
                    given,
                    |e: Seq<u8>| accepted_by(self.children@, i as int, row, e),
                ),
                !self.joins(level as int) ==> result.deep_view() == given,
                forall|e: Seq<u8>|
                    #![trigger result.deep_view().contains(e)]
                    result.deep_view().contains(e) == (given.contains(e) && forall|j: int|
                        0 <= j < i && (#[trigger] self.children@[j]).joins(level as int)
                            ==> self.children@[j].accepts(row, e)),
            decreases self.children@.len() - i,
        {
            if self.children[i].participates_in_level(level) {
                let ghost before = result.deep_view();
                proof {
                    if forall|k: int|
                        0 <= k < extensions@.len() ==> self.judges(row, #[trigger] given[k]) {
                        assert forall|n: int| 0 <= n < before.len() implies self.children@[i as int].judges(
                        row, #[trigger] before[n]) by {
                            assert(before.contains(before[n]));
                            assert(given.contains(before[n]));
                            let k = given.index_of(before[n]);
                            assert(self.judges(row, given[k]));
                        }
                    }
                    assert(before.len() == result@.len());
                }
                result = match self.children[i].intersect(prefix, &result) {
                    Ok(result) => result,
                    Err(e) => {
                        assert(self.children@[i as int].objects(row, before, e@));
                        assert(generic_join::objects_to_some(&*self.children@[i as int], row, e@));
                        return Err(e);
                    },
                };
                proof {
                    if self.filters() {
                        generic_join::lemma_only_twice(
                            given,
                            |e: Seq<u8>| accepted_by(self.children@, i as int, row, e),
                            |e: Seq<u8>| self.children@[i as int].accepts(row, e),
                            |e: Seq<u8>| accepted_by(self.children@, i + 1, row, e),
                        );
                    }
                    assert forall|e: Seq<u8>|
                        #![trigger result.deep_view().contains(e)]
                        result.deep_view().contains(e) == (given.contains(e) && forall|j: int|
                            0 <= j < i + 1 && (#[trigger] self.children@[j]).joins(level as int)
                                ==> self.children@[j].accepts(row, e)) by {
                        assert(result.deep_view().contains(e) == (before.contains(e)
                            && self.children@[i as int].accepts(row, e)));
                    }
                }
            } else {
                proof {
                    generic_join::lemma_only_same(
                        given,
                        |e: Seq<u8>| accepted_by(self.children@, i as int, row, e),
                        |e: Seq<u8>| accepted_by(self.children@, i + 1, row, e),
                    );
                }
            }
            i += 1;
        }
        proof {
            generic_join::lemma_only_same(
                given,
                |e: Seq<u8>| accepted_by(self.children@, i as int, row, e),
                |e: Seq<u8>| self.accepts(row, e),
            );
        }
        Ok(result)
    }

    /// Whether any child constrains the level.
    fn participates_in_level(&self, level: usize) -> (r: bool) {
        let mut i: usize = 0;
        while i < self.children.len()
            invariant
                i <= self.children@.len(),
                self.inv(),
                forall|j: int| 0 <= j < i ==> !(#[trigger] self.children@[j]).joins(level as int),
            decreases self.children@.len() - i,
        {
            if self.children[i].participates_in_level(level) {
                return true;
            }
            i += 1;
        }
        false
    }
}

} // verus!
