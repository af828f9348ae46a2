//! Extenders that refuse what all their children allow.

use vstd::prelude::*;

use crate::algo::generic_join::{self, Extension, Prefix, PrefixExtender};
use crate::byte_string::{self, copy_bytes, copy_row, find_bytes, Row};
use crate::error::{self, Error, ErrorView};

verus! {

/// An extender that refuses, at one level, the values with which a tuple would satisfy all its
/// children. It proposes nothing.
pub struct GenericNotPrefixExtender {
    pub children: Vec<Box<dyn PrefixExtender>>,
    pub level: usize,
}

impl GenericNotPrefixExtender {
    /// An extender at that level.
    pub fn new(children: Vec<Box<dyn PrefixExtender>>, level: usize) -> (r: Self)
        requires
            generic_join::all_inv(children@),
        ensures
            r.inv(),
            r.children == children,
            r.level == level,
    {
        GenericNotPrefixExtender { children, level }
    }
}

/// Whether all children that constrain the level accept a value of it.
pub open spec fn level_holds(
    children: Seq<Box<dyn PrefixExtender>>,
    prefix: Row,
    value: Seq<u8>,
) -> bool {
    forall|i: int|
        0 <= i < children.len() && (#[trigger] children[i]).joins(prefix.len() as int)
            ==> children[i].accepts(prefix, value)
}

/// Whether all children that constrain the level can judge a value of it.
pub open spec fn level_judged(
    children: Seq<Box<dyn PrefixExtender>>,
    prefix: Row,
    value: Seq<u8>,
) -> bool {
    forall|i: int|
        0 <= i < children.len() && (#[trigger] children[i]).joins(prefix.len() as int)
            ==> children[i].judges(prefix, value)
}

/// Whether the values that are bound satisfy the children at their levels.
pub open spec fn bound_holds(children: Seq<Box<dyn PrefixExtender>>, prefix: Row) -> bool {
    forall|l: int|
        0 <= l < prefix.len() ==> level_holds(children, prefix.take(l), #[trigger] prefix[l])
}

/// The values of a list that all children which constrain the level accept.
fn filter_level(
    children: &Vec<Box<dyn PrefixExtender>>,
    prefix: &Prefix,
    values: &[Extension],
) -> (r: Result<Vec<Extension>, Error>)
    requires
        generic_join::all_inv(children@),
    ensures
        r matches Err(e) ==> generic_join::passes_on(children@, prefix.deep_view(), e@),
        (forall|k: int|
            0 <= k < values@.len() ==> level_judged(
                children@,
                prefix.deep_view(),
                #[trigger] values.deep_view()[k],
            )) ==> r is Ok,
        r matches Ok(list) ==> forall|e: Seq<u8>|
            #![trigger list.deep_view().contains(e)]
            list.deep_view().contains(e) == (values.deep_view().contains(e) && level_holds(
                children@,
                prefix.deep_view(),
                e,
            )),
{
    let ghost row = prefix.deep_view();
    let ghost given = values.deep_view();
    let level: usize = prefix.len();
    assert(row.len() == level);
    let mut result = copy_row(values);
    let mut i: usize = 0;
    while i < children.len()
        invariant
            i <= children@.len(),
            generic_join::all_inv(children@),
            row == prefix.deep_view(),
            level == row.len(),
            level == prefix@.len(),
            given == values.deep_view(),
            given.len() == values@.len(),
            forall|e: Seq<u8>|
                #![trigger result.deep_view().contains(e)]
                result.deep_view().contains(e) == (given.contains(e) && forall|j: int|
                    0 <= j < i && (#[trigger] children@[j]).joins(level as int)
                        ==> children@[j].accepts(row, e)),
        decreases children@.len() - i,
    {
        if children[i].participates_in_level(level) {
            let ghost before = result.deep_view();
            proof {
                if forall|k: int|
                    0 <= k < values@.len() ==> level_judged(children@, row, #[trigger] given[k]) {
                    assert forall|n: int| 0 <= n < before.len() implies children@[i as int].judges(
                        row,
                        #[trigger] before[n],
                    ) by {
                        assert(before.contains(before[n]));
                        assert(given.contains(before[n]));
                        let k = given.index_of(before[n]);
                        assert(level_judged(children@, row, given[k]));
                    }
                }
                assert(before.len() == result@.len());
            }
            result = match children[i].intersect(prefix, &result) {
                Ok(result) => result,
                Err(e) => {
                    assert(children@[i as int].objects(row, before, e@));
                    assert(generic_join::objects_to_some(&*children@[i as int], row, e@));
                    return Err(e);
                },
            };
            proof {
                assert forall|e: Seq<u8>|
                    #![trigger result.deep_view().contains(e)]
                    result.deep_view().contains(e) == (given.contains(e) && forall|j: int|
                        0 <= j < i + 1 && (#[trigger] children@[j]).joins(level as int)
                            ==> children@[j].accepts(row, e)) by {
                    assert(result.deep_view().contains(e) == (before.contains(e)
                        && children@[i as int].accepts(row, e)));
                }
            }
        }
        i += 1;
    }
    Ok(result)
}

impl GenericNotPrefixExtender {
    /// Whether the values that are bound satisfy the children at their levels.
    fn bound_matches(&self, prefix: &Prefix) -> (r: Result<bool, Error>)
        requires
            self.inv(),
        ensures
            (forall|l: int|
                0 <= l < prefix@.len() ==> level_judged(
                    self.children@,
                    prefix.deep_view().take(l),
                    #[trigger] prefix.deep_view()[l],
                )) ==> r is Ok,
            match r {
                Ok(b) => b == bound_holds(self.children@, prefix.deep_view()),
                Err(e) => exists|l: int|
                    0 <= l < prefix@.len() && #[trigger] generic_join::passes_on(
                        self.children@,
                        prefix.deep_view().take(l),
                        e@,
                    ),
            },
    {
        let ghost row = prefix.deep_view();
        assert(row.len() == prefix@.len());
        let mut before: Prefix = Vec::new();
        let mut l: usize = 0;
        assert(before.deep_view() =~= row.take(0));
        while l < prefix.len()
            invariant
                l <= prefix@.len() == row.len(),
                row == prefix.deep_view(),
                self.inv(),
                before.deep_view() == row.take(l as int),
                forall|k: int|
                    0 <= k < l ==> level_holds(self.children@, row.take(k), #[trigger] row[k]),
            decreases prefix@.len() - l,
        {
            let mut one: Vec<Extension> = Vec::new();
            let value = copy_bytes(&prefix[l]);
            let ghost none = one;
            proof {
                byte_string::lemma_deep_bytes(&value);
                byte_string::lemma_deep_bytes(&prefix@[l as int]);
            }
            one.push(value);
            proof {
                byte_string::lemma_deep_push(none, one, value);
                assert(one.deep_view() =~= seq![row[l as int]]);
            }
            let left = match filter_level(&self.children, &before, &one) {
                Ok(left) => left,
                Err(e) => {
                    return Err(e);
                },
            };
            proof {
                assert(left.deep_view().len() == left@.len());
                assert(one.deep_view()[0] == row[l as int]);
                assert(one.deep_view().contains(row[l as int]));
                if left@.len() == 0 {
                    assert(!left.deep_view().contains(row[l as int]));
                } else {
                    assert(left.deep_view().contains(left.deep_view()[0]));
                    assert(one.deep_view().contains(left.deep_view()[0]));
                }
            }
            if left.len() == 0 {
                return Ok(false);
            }
            let next = copy_bytes(&prefix[l]);
            let ghost shorter = before;
            before.push(next);
            proof {
                byte_string::lemma_deep_bytes(&next);
                byte_string::lemma_deep_push(shorter, before, next);
            }
            l += 1;
            assert(before.deep_view() =~= row.take(l as int));
        }
        Ok(true)
    }
}

impl PrefixExtender for GenericNotPrefixExtender {
    open spec fn inv(&self) -> bool {
        generic_join::all_inv(self.children@)
    }

    open spec fn joins(&self, level: int) -> bool {
        level == self.level
    }

    open spec fn accepts(&self, prefix: Row, value: Seq<u8>) -> bool {
        !(bound_holds(self.children@, prefix) && level_holds(self.children@, prefix, value))
    }

    open spec fn judges(&self, prefix: Row, value: Seq<u8>) -> bool {
        &&& forall|l: int|
            0 <= l < prefix.len() ==> level_judged(
                self.children@,
                prefix.take(l),
                #[trigger] prefix[l],
            )
        &&& level_judged(self.children@, prefix, value)
    }

    open spec fn offers(&self, prefix: Row) -> bool {
        false
    }

    open spec fn lists(&self, prefix: Row, value: Seq<u8>) -> bool {
        false
    }

    open spec fn refusal(&self, prefix: Row) -> Option<ErrorView> {
        Some(ErrorView::NegationProposes)
    }

    open spec fn filters(&self) -> bool {
        true
    }

    open spec fn refuses(&self, prefix: Row, e: ErrorView) -> bool {
        e == ErrorView::NegationProposes
    }

    open spec fn objects(&self, prefix: Row, values: Seq<Seq<u8>>, e: ErrorView) -> bool {
        values.len() > 0 && exists|l: int|
            0 <= l <= prefix.len() && #[trigger] generic_join::passes_on(
                self.children@,
                prefix.take(l),
                e,
            )
    }

    open spec fn counted(&self, prefix: Row) -> usize {
        usize::MAX
    }

    open spec fn counts(&self, prefix: Row) -> bool {
        true
    }

    fn count(&self, _prefix: &Prefix) -> (r: Result<usize, Error>) {
        Ok(usize::MAX)
    }

    /// Always refused: what a negation allows cannot be listed.
    fn propose(&self, _prefix: &Prefix) -> (r: Result<Vec<Extension>, Error>)
        ensures
            error::told(r) == Err::<Vec<Extension>, ErrorView>(ErrorView::NegationProposes),
    {
        Err(Error::NegationProposes)
    }

    /// The values with which the tuple does not satisfy all the children, in their order: all
    /// of them where what is bound does not satisfy the children.
    fn intersect(&self, prefix: &Prefix, extensions: &[Extension]) -> (r: Result<
        Vec<Extension>,
        Error,
    >)
        ensures
            r matches Ok(list) ==> list.deep_view() == generic_join::only(
                extensions.deep_view(),
                |e: Seq<u8>| self.accepts(prefix.deep_view(), e),
            ),
            (forall|i: int|
                0 <= i < extensions@.len() ==> self.judges(
                    prefix.deep_view(),
                    #[trigger] extensions.deep_view()[i],
                )) ==> r is Ok,
    {
        let ghost row = prefix.deep_view();
        let ghost given = extensions.deep_view();
        assert(given.len() == extensions@.len());
        if extensions.len() == 0 {
            let none: Vec<Extension> = Vec::new();
            assert(none.deep_view() =~= given);
            assert(generic_join::only(given, |e: Seq<u8>| self.accepts(row, e)) =~= given);
            return Ok(none);
        }
        proof {
            if forall|k: int| 0 <= k < extensions@.len() ==> self.judges(row, #[trigger] given[k]) {
                assert(self.judges(row, given[0]));
            }
        }
        let bound = match self.bound_matches(prefix) {
            Ok(bound) => bound,
            Err(e) => {
                return Err(e);
            },
        };
        if !bound {
            proof {
                generic_join::lemma_all_left(given, |e: Seq<u8>| self.accepts(row, e));
            }
            return Ok(copy_row(extensions));
        }
        proof {
            if forall|k: int| 0 <= k < extensions@.len() ==> self.judges(row, #[trigger] given[k]) {
                assert forall|k: int| 0 <= k < extensions@.len() implies level_judged(
                    self.children@,
                    row,
                    #[trigger] given[k],
                ) by {
                    assert(self.judges(row, given[k]));
                }
            }
        }
        let matching = match filter_level(&self.children, prefix, extensions) {
            Ok(matching) => matching,
            Err(e) => {
                assert(row.take(row.len() as int) =~= row);
                return Err(e);
            },
        };
        let mut verdicts: Vec<bool> = Vec::new();
        let mut i: usize = 0;
        while i < extensions.len()
            invariant
                i <= extensions@.len(),
                given == extensions.deep_view(),
                verdicts@.len() == i,
                forall|j: int|
                    0 <= j < i ==> #[trigger] verdicts@[j] == !matching.deep_view().contains(
                        given[j],
                    ),
            decreases extensions@.len() - i,
        {
            proof {
                byte_string::lemma_deep_bytes(&extensions@[i as int]);
            }
            verdicts.push(find_bytes(&matching, &extensions[i]).is_none());
            i += 1;
        }
        let ghost allow = |e: Seq<u8>| !matching.deep_view().contains(e);
        let kept = generic_join::keep(extensions, &verdicts, Ghost(allow));
        proof {
            generic_join::lemma_only(given, allow);
            let accepted = |e: Seq<u8>| self.accepts(row, e);
            assert forall|k: int| 0 <= k < given.len() implies allow(#[trigger] given[k])
                == accepted(given[k]) by {
                assert(given.contains(given[k]));
            }
            generic_join::lemma_only_same(given, allow, accepted);
        }
        proof {
            assert forall|e: Seq<u8>|
                #![trigger kept.deep_view().contains(e)]
                kept.deep_view().contains(e) == (given.contains(e) && self.accepts(row, e)) by {
                assert(matching.deep_view().contains(e) == (given.contains(e) && level_holds(
                    self.children@,
                    row,
                    e,
                )));
            }
        }
        Ok(kept)
    }

    fn participates_in_level(&self, level: usize) -> (r: bool) {
        level == self.level
    }
}

} // verus!
