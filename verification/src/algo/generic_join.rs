//! The generic join: tuples are built value by value, each value taken from the extender that
//! offers the fewest and confirmed by all the others.

use vstd::prelude::*;

use crate::byte_string::{
    self, ascending_places, comes_before, copy_bytes, copy_row, find_bytes, Row,
};
use crate::error::{self, Error, ErrorView};

verus! {

/// The values that are bound already.
pub type Prefix = Vec<Vec<u8>>;

/// A value that may be bound next.
pub type Extension = Vec<u8>;

/// A complete tuple.
pub type ResultTuple = Vec<Vec<u8>>;

/// Whether each byte string comes before the next.
pub open spec fn ascending(list: Seq<Seq<u8>>) -> bool {
    forall|i: int, j: int|
        0 <= i < j < list.len() ==> byte_string::before(#[trigger] list[i], #[trigger] list[j])
}

/// Those of the byte strings that are allowed, in their order and as often as they stand there.
pub open spec fn only(list: Seq<Seq<u8>>, allow: spec_fn(Seq<u8>) -> bool) -> Seq<Seq<u8>>
    decreases list.len(),
{
    if list.len() == 0 {
        Seq::empty()
    } else {
        let earlier = only(list.drop_last(), allow);
        if allow(list.last()) {
            earlier.push(list.last())
        } else {
            earlier
        }
    }
}

/// What constrains the values of some levels of a join.
pub trait PrefixExtender {
    /// What has to hold of the extender itself.
    spec fn inv(&self) -> bool;

    /// Whether the extender constrains the values of a level.
    spec fn joins(&self, level: int) -> bool;

    /// Whether a value may follow the values before it.
    spec fn accepts(&self, prefix: Row, value: Seq<u8>) -> bool;

    /// Whether the extender can tell if a value may follow.
    spec fn judges(&self, prefix: Row, value: Seq<u8>) -> bool;

    /// Whether the extender can list the values that may follow.
    spec fn offers(&self, prefix: Row) -> bool;

    /// Whether a value is in the list that the extender proposes, at whatever level.
    spec fn lists(&self, prefix: Row, value: Seq<u8>) -> bool;

    /// The error with which the extender is sure to refuse to list the values, if it is.
    spec fn refusal(&self, prefix: Row) -> Option<ErrorView>;

    /// Whether the extender leaves the values of a list that may follow in their order, and as
    /// often as they stand there.
    spec fn filters(&self) -> bool;

    /// Whether the extender may answer with an error when it is asked which values may follow, or
    /// how many.
    spec fn refuses(&self, prefix: Row, e: ErrorView) -> bool;

    /// Whether the extender may answer with an error when it is asked which of the values may
    /// follow.
    spec fn objects(&self, prefix: Row, values: Seq<Seq<u8>>, e: ErrorView) -> bool;

    /// How many values the extender says may follow.
    spec fn counted(&self, prefix: Row) -> usize;

    /// Whether the extender can say how many values may follow.
    spec fn counts(&self, prefix: Row) -> bool;

    /// How many values may follow, as far as the extender can say; it only decides who
    /// proposes.
    fn count(&self, prefix: &Prefix) -> (r: Result<usize, Error>)
        requires
            self.inv(),
        ensures
            self.counts(prefix.deep_view()) ==> r is Ok,
            match r {
                Ok(n) => n == self.counted(prefix.deep_view()),
                Err(e) => self.refuses(prefix.deep_view(), e@),
            },
    ;

    /// The values that may follow, in ascending order.
    fn propose(&self, prefix: &Prefix) -> (r: Result<Vec<Extension>, Error>)
        requires
            self.inv(),
        ensures
            self.joins(prefix@.len() as int) && self.offers(prefix.deep_view()) ==> r is Ok,
            self.refusal(prefix.deep_view()) matches Some(e) ==> error::told(r) == Err::<
                Vec<Extension>,
                ErrorView,
            >(e),
            r matches Err(e) ==> self.refuses(prefix.deep_view(), e@),
            r matches Ok(list) ==> ascending(list.deep_view()) && (self.joins(
                prefix@.len() as int,
            ) ==> forall|e: Seq<u8>|
                #![trigger list.deep_view().contains(e)]
                list.deep_view().contains(e) == self.accepts(prefix.deep_view(), e)),
            r matches Ok(list) ==> forall|e: Seq<u8>|
                #![trigger list.deep_view().contains(e)]
                list.deep_view().contains(e) == self.lists(prefix.deep_view(), e),
    ;

    /// Those of the values that may follow. They stay in ascending order where they come in it.
    fn intersect(&self, prefix: &Prefix, extensions: &[Extension]) -> (r: Result<
        Vec<Extension>,
        Error,
    >)
        requires
            self.inv(),
        ensures
            self.joins(prefix@.len() as int) && (forall|i: int|
                0 <= i < extensions@.len() ==> self.judges(
                    prefix.deep_view(),
                    #[trigger] extensions.deep_view()[i],
                )) ==> r is Ok,
            r matches Err(e) ==> self.objects(prefix.deep_view(), extensions.deep_view(), e@),
            r matches Ok(list) ==> (ascending(extensions.deep_view()) ==> ascending(
                list.deep_view(),
            )),
            r matches Ok(list) ==> (self.joins(prefix@.len() as int) ==> forall|e: Seq<u8>|
                #![trigger list.deep_view().contains(e)]
                list.deep_view().contains(e) == (extensions.deep_view().contains(e)
                    && self.accepts(prefix.deep_view(), e))),
            r matches Ok(list) ==> (self.joins(prefix@.len() as int) && self.filters()
                ==> list.deep_view() == only(
                extensions.deep_view(),
                |e: Seq<u8>| self.accepts(prefix.deep_view(), e),
            )),
    ;

    /// Whether the extender constrains the values of a level.
    fn participates_in_level(&self, level: usize) -> (r: bool)
        requires
            self.inv(),
        ensures
            r == self.joins(level as int),
    ;
}

/// A byte string that comes before all the later ones makes a longer ascending list.
pub proof fn lemma_ascending_push(list: Seq<Seq<u8>>, value: Seq<u8>)
    requires
        ascending(list),
        list.len() > 0 ==> byte_string::before(list.last(), value),
    ensures
        ascending(list.push(value)),
{
    let longer = list.push(value);
    assert forall|i: int, j: int| 0 <= i < j < longer.len() implies byte_string::before(
        #[trigger] longer[i],
        #[trigger] longer[j],
    ) by {
        if j == list.len() && i < list.len() - 1 {
            byte_string::lemma_before_transitive(list[i], list.last(), value);
        }
    }
}

/// What is left of a list are those that stand in it and are allowed, in ascending order where
/// the list is.
pub proof fn lemma_only(list: Seq<Seq<u8>>, allow: spec_fn(Seq<u8>) -> bool)
    ensures
        forall|e: Seq<u8>|
            #![trigger only(list, allow).contains(e)]
            only(list, allow).contains(e) == (list.contains(e) && allow(e)),
        ascending(list) ==> ascending(only(list, allow)),
    decreases list.len(),
{
    let left = only(list, allow);
    if list.len() > 0 {
        let front = list.drop_last();
        let earlier = only(front, allow);
        lemma_only(front, allow);
        assert forall|e: Seq<u8>| #[trigger] left.contains(e) == (list.contains(e)
            && allow(e)) by {
            if left.contains(e) {
                let k = left.index_of(e);
                if k < earlier.len() {
                    assert(earlier[k] == e);
                    assert(earlier.contains(e));
                    let i = front.index_of(e);
                    assert(list[i] == e);
                } else {
                    assert(list[list.len() - 1] == e);
                }
            }
            if list.contains(e) && allow(e) {
                let i = list.index_of(e);
                if i < front.len() {
                    assert(front[i] == e);
                    assert(earlier.contains(e));
                    let k = earlier.index_of(e);
                    assert(left[k] == e);
                } else {
                    assert(left[left.len() - 1] == e);
                }
            }
        }
        if ascending(list) {
            assert(ascending(front)) by {
                assert forall|i: int, j: int| 0 <= i < j < front.len() implies byte_string::before(
                    #[trigger] front[i],
                    #[trigger] front[j],
                ) by {
                    assert(byte_string::before(list[i], list[j]));
                }
            }
            if earlier.len() > 0 {
                assert(earlier.contains(earlier.last()));
                let i = front.index_of(earlier.last());
                assert(byte_string::before(list[i], list[list.len() - 1]));
            }
            if allow(list.last()) {
                lemma_ascending_push(earlier, list.last());
            }
        }
    }
}

/// Where all of a list is allowed, all of it is left.
pub proof fn lemma_all_left(list: Seq<Seq<u8>>, allow: spec_fn(Seq<u8>) -> bool)
    requires
        forall|i: int| 0 <= i < list.len() ==> allow(#[trigger] list[i]),
    ensures
        only(list, allow) == list,
    decreases list.len(),
{
    if list.len() > 0 {
        let front = list.drop_last();
        assert forall|i: int| 0 <= i < front.len() implies allow(#[trigger] front[i]) by {
            assert(front[i] == list[i]);
        }
        lemma_all_left(front, allow);
        assert(allow(list[list.len() - 1]));
        assert(front.push(list.last()) =~= list);
    }
}

/// What is left depends only on what is allowed of the list.
pub proof fn lemma_only_same(
    list: Seq<Seq<u8>>,
    f: spec_fn(Seq<u8>) -> bool,
    g: spec_fn(Seq<u8>) -> bool,
)
    requires
        forall|i: int| 0 <= i < list.len() ==> f(#[trigger] list[i]) == g(list[i]),
    ensures
        only(list, f) == only(list, g),
    decreases list.len(),
{
    if list.len() > 0 {
        let front = list.drop_last();
        assert forall|i: int| 0 <= i < front.len() implies f(#[trigger] front[i]) == g(
            front[i],
        ) by {
            assert(front[i] == list[i]);
        }
        lemma_only_same(front, f, g);
        assert(f(list[list.len() - 1]) == g(list[list.len() - 1]));
    }
}

/// What is left of what is left is what both allow.
pub proof fn lemma_only_twice(
    list: Seq<Seq<u8>>,
    f: spec_fn(Seq<u8>) -> bool,
    g: spec_fn(Seq<u8>) -> bool,
    both: spec_fn(Seq<u8>) -> bool,
)
    requires
        forall|e: Seq<u8>| #[trigger] both(e) == (f(e) && g(e)),
    ensures
        only(only(list, f), g) == only(list, both),
    decreases list.len(),
{
    if list.len() > 0 {
        lemma_only_twice(list.drop_last(), f, g, both);
        let earlier = only(list.drop_last(), f);
        assert(both(list.last()) == (f(list.last()) && g(list.last())));
        if f(list.last()) {
            assert(earlier.push(list.last()).drop_last() =~= earlier);
            assert(earlier.push(list.last()).last() == list.last());
        }
    }
}

/// The byte strings of a list in ascending order, each once.
pub fn sorted_unique(values: &[Vec<u8>]) -> (r: Vec<Vec<u8>>)
    ensures
        ascending(r.deep_view()),
        forall|e: Seq<u8>|
            #![trigger r.deep_view().contains(e)]
            r.deep_view().contains(e) == values.deep_view().contains(e),
{
    let ghost all = values.deep_view();
    assert(all.len() == values@.len());
    let order = ascending_places(values);
    let mut out: Vec<Vec<u8>> = Vec::new();
    let mut n: usize = 0;
    while n < order.len()
        invariant
            n <= order@.len(),
            all == values.deep_view(),
            all.len() == values@.len(),
            byte_string::ascending_order(all, order@),
            ascending(out.deep_view()),
            forall|i: int|
                0 <= i < n ==> out.deep_view().contains(all[#[trigger] order@[i] as int]),
            forall|i: int|
                0 <= i < out.deep_view().len() ==> all.contains(#[trigger] out.deep_view()[i]),
            n > 0 ==> out.deep_view().len() > 0 && out.deep_view().last() == all[order@[n
                - 1] as int],
            out.deep_view().len() > 0 ==> n > 0,
            out.deep_view().len() == out@.len(),
        decreases order@.len() - n,
    {
        let at: usize = order[n];
        proof {
            byte_string::lemma_deep_bytes(&values@[at as int]);
        }
        let fresh = if out.len() == 0 {
            true
        } else {
            proof {
                byte_string::lemma_deep_bytes(&out@[out@.len() - 1]);
            }
            comes_before(&out[out.len() - 1], &values[at])
        };
        if fresh {
            let value = copy_bytes(&values[at]);
            let ghost earlier = out;
            out.push(value);
            proof {
                byte_string::lemma_deep_bytes(&value);
                byte_string::lemma_deep_push(earlier, out, value);
                lemma_ascending_push(earlier.deep_view(), value@);
                assert forall|i: int| 0 <= i < n + 1 implies out.deep_view().contains(
                    all[#[trigger] order@[i] as int],
                ) by {
                    if i < n {
                        let k = earlier.deep_view().index_of(all[order@[i] as int]);
                        assert(out.deep_view()[k] == earlier.deep_view()[k]);
                    } else {
                        assert(out.deep_view()[out.deep_view().len() - 1] == value@);
                    }
                }
                assert forall|i: int| 0 <= i < out.deep_view().len() implies all.contains(
                    #[trigger] out.deep_view()[i],
                ) by {
                    if i < earlier.deep_view().len() {
                        assert(out.deep_view()[i] == earlier.deep_view()[i]);
                    } else {
                        assert(all[at as int] == value@);
                    }
                }
            }
        } else {
            proof {
                let last = out.deep_view().last();
                assert(n > 0);
                assert(!byte_string::before(all[order@[n as int] as int], all[order@[n
                    - 1] as int]));
                byte_string::lemma_before_total(last, all[at as int]);
                assert(out.deep_view()[out.deep_view().len() - 1] == all[at as int]);
            }
        }
        n += 1;
    }
    proof {
        assert forall|e: Seq<u8>|
            #![trigger out.deep_view().contains(e)]
            out.deep_view().contains(e) == all.contains(e) by {
            if all.contains(e) {
                let k = all.index_of(e);
                assert(order@.contains(byte_string::index_of_place(k)));
                let m = order@.index_of(byte_string::index_of_place(k));
                assert(order@[m] == k);
            }
        }
    }
    out
}

/// An extender that allows a fixed set of values at one level.
#[derive(Debug)]
pub struct SingleLevelExtender {
    pub values: Vec<Vec<u8>>,
    pub level: usize,
}

impl SingleLevelExtender {
    /// An extender that allows just these values at the level.
    pub fn new(values: Vec<Vec<u8>>, level: usize) -> (r: Self)
        ensures
            r.inv(),
            r.level == level,
            forall|e: Seq<u8>|
                #![trigger r.values.deep_view().contains(e)]
                r.values.deep_view().contains(e) == values.deep_view().contains(e),
    {
        SingleLevelExtender { values: sorted_unique(&values), level }
    }
}

/// Those of the byte strings that stand in another list, in their order.
fn common_values(list: &[Vec<u8>], allowed: &[Vec<u8>]) -> (r: Vec<Vec<u8>>)
    ensures
        r.deep_view() == only(list.deep_view(), |e: Seq<u8>| allowed.deep_view().contains(e)),
{
    let mut verdicts: Vec<bool> = Vec::new();
    let mut i: usize = 0;
    while i < list.len()
        invariant
            i <= list@.len(),
            verdicts@.len() == i,
            forall|j: int|
                0 <= j < i ==> #[trigger] verdicts@[j] == allowed.deep_view().contains(
                    list.deep_view()[j],
                ),
        decreases list@.len() - i,
    {
        proof {
            byte_string::lemma_deep_bytes(&list@[i as int]);
        }
        verdicts.push(find_bytes(allowed, &list[i]).is_some());
        i += 1;
    }
    let ghost allow = |e: Seq<u8>| allowed.deep_view().contains(e);
    keep(list, &verdicts, Ghost(allow))
}

/// The byte strings with a verdict that holds, in their order.
pub(crate) fn keep(
    list: &[Vec<u8>],
    verdicts: &Vec<bool>,
    Ghost(allow): Ghost<spec_fn(Seq<u8>) -> bool>,
) -> (r: Vec<Vec<u8>>)
    requires
        verdicts@.len() == list@.len(),
        forall|i: int|
            0 <= i < verdicts@.len() ==> #[trigger] verdicts@[i] == allow(list.deep_view()[i]),
    ensures
        r.deep_view() == only(list.deep_view(), allow),
{
    let ghost all = list.deep_view();
    assert(all.len() == list@.len());
    let mut out: Vec<Vec<u8>> = Vec::new();
    let mut i: usize = 0;
    assert(out.deep_view() =~= only(all.take(0), allow));
    while i < list.len()
        invariant
            i <= list@.len() == all.len() == verdicts@.len(),
            all == list.deep_view(),
            forall|j: int| 0 <= j < verdicts@.len() ==> #[trigger] verdicts@[j] == allow(all[j]),
            out.deep_view() == only(all.take(i as int), allow),
        decreases list@.len() - i,
    {
        proof {
            byte_string::lemma_deep_bytes(&list@[i as int]);
            assert(all.take(i + 1).drop_last() =~= all.take(i as int));
            assert(all.take(i + 1).last() == all[i as int]);
        }
        if verdicts[i] {
            let value = copy_bytes(&list[i]);
            let ghost earlier = out;
            out.push(value);
            proof {
                byte_string::lemma_deep_bytes(&value);
                byte_string::lemma_deep_push(earlier, out, value);
            }
        }
        i += 1;
    }
    assert(all.take(i as int) =~= all);
    out
}

impl PrefixExtender for SingleLevelExtender {
    open spec fn inv(&self) -> bool {
        ascending(self.values.deep_view())
    }

    open spec fn joins(&self, level: int) -> bool {
        level == self.level
    }

    open spec fn accepts(&self, prefix: Row, value: Seq<u8>) -> bool {
        self.values.deep_view().contains(value)
    }

    open spec fn judges(&self, prefix: Row, value: Seq<u8>) -> bool {
        true
    }

    open spec fn offers(&self, prefix: Row) -> bool {
        true
    }

    open spec fn lists(&self, prefix: Row, value: Seq<u8>) -> bool {
        self.values.deep_view().contains(value)
    }

    open spec fn refusal(&self, prefix: Row) -> Option<ErrorView> {
        None
    }

    open spec fn filters(&self) -> bool {
        true
    }

    open spec fn refuses(&self, prefix: Row, e: ErrorView) -> bool {
        false
    }

    open spec fn objects(&self, prefix: Row, values: Seq<Seq<u8>>, e: ErrorView) -> bool {
        false
    }

    open spec fn counted(&self, prefix: Row) -> usize {
        self.values.len()
    }

    open spec fn counts(&self, prefix: Row) -> bool {
        true
    }

    fn count(&self, _prefix: &Prefix) -> (r: Result<usize, Error>) {
        Ok(self.values.len())
    }

    fn propose(&self, _prefix: &Prefix) -> (r: Result<Vec<Extension>, Error>) {
        Ok(copy_row(&self.values))
    }

    fn intersect(&self, prefix: &Prefix, extensions: &[Extension]) -> (r: Result<
        Vec<Extension>,
        Error,
    >)
        ensures
            r matches Ok(list) && list.deep_view() == only(
                extensions.deep_view(),
                |e: Seq<u8>| self.accepts(prefix.deep_view(), e),
            ),
    {
        let common = common_values(extensions, &self.values);
        proof {
            let row = prefix.deep_view();
            let given = extensions.deep_view();
            let inside = |e: Seq<u8>| self.values.deep_view().contains(e);
            lemma_only(given, inside);
            lemma_only_same(given, inside, |e: Seq<u8>| self.accepts(row, e));
        }
        Ok(common)
    }

    fn participates_in_level(&self, level: usize) -> (r: bool) {
        level == self.level
    }
}

/// Whether some extender constrains a level.
pub open spec fn constrained(extenders: Seq<Box<dyn PrefixExtender>>, level: int) -> bool {
    exists|i: int| 0 <= i < extenders.len() && (#[trigger] extenders[i]).joins(level)
}

/// Whether a value may follow: some extender constrains its level, and all that do accept it.
pub open spec fn may_follow(
    extenders: Seq<Box<dyn PrefixExtender>>,
    prefix: Row,
    value: Seq<u8>,
) -> bool {
    &&& constrained(extenders, prefix.len() as int)
    &&& forall|i: int|
        0 <= i < extenders.len() && (#[trigger] extenders[i]).joins(prefix.len() as int)
            ==> extenders[i].accepts(prefix, value)
}

/// Whether each value of a tuple may follow those before it.
pub open spec fn satisfies(extenders: Seq<Box<dyn PrefixExtender>>, tuple: Row) -> bool {
    forall|l: int|
        0 <= l < tuple.len() ==> may_follow(extenders, tuple.take(l), #[trigger] tuple[l])
}

/// Whether an extender is the one that proposes: of those that constrain the level, the first
/// with the smallest count.
pub open spec fn cheapest(extenders: Seq<Box<dyn PrefixExtender>>, prefix: Row, k: int) -> bool {
    &&& 0 <= k < extenders.len()
    &&& extenders[k].joins(prefix.len() as int)
    &&& forall|i: int|
        0 <= i < extenders.len() && (#[trigger] extenders[i]).joins(prefix.len() as int)
            ==> extenders[k].counted(prefix) <= extenders[i].counted(prefix) && (i < k
            ==> extenders[k].counted(prefix) < extenders[i].counted(prefix))
}

/// Whether an error is that of an extender which is asked about the level.
pub open spec fn passes_on(
    extenders: Seq<Box<dyn PrefixExtender>>,
    prefix: Row,
    e: ErrorView,
) -> bool {
    exists|i: int|
        0 <= i < extenders.len() && (#[trigger] extenders[i]).joins(prefix.len() as int) && (
        extenders[i].refuses(prefix, e) || objects_to_some(&*extenders[i], prefix, e))
}

/// Whether an extender may answer with an error when it is asked about some values.
pub open spec fn objects_to_some<E: PrefixExtender + ?Sized>(
    extender: &E,
    prefix: Row,
    e: ErrorView,
) -> bool {
    exists|values: Seq<Seq<u8>>| #[trigger] extender.objects(prefix, values, e)
}

/// Whether all extenders that constrain the level can say how many values they allow.
pub open spec fn all_count(extenders: Seq<Box<dyn PrefixExtender>>, prefix: Row) -> bool {
    forall|i: int|
        0 <= i < extenders.len() && (#[trigger] extenders[i]).joins(prefix.len() as int)
            ==> extenders[i].counts(prefix)
}

/// Whether the values that may follow can be found: all can say how many they allow, who proposes
/// can do so, and all the others can judge what is proposed.
pub open spec fn resolvable(extenders: Seq<Box<dyn PrefixExtender>>, prefix: Row) -> bool {
    &&& all_count(extenders, prefix)
    &&& forall|k: int| #[trigger]
        cheapest(extenders, prefix, k) ==> extenders[k].offers(prefix) && forall|
            e: Seq<u8>,
            i: int,
        |
            0 <= i < extenders.len() && extenders[i].joins(prefix.len() as int)
                && extenders[k].accepts(prefix, e) ==> #[trigger] extenders[i].judges(prefix, e)
}

/// Whether rows of the same length stand in lexicographic order.
pub open spec fn row_before(a: Row, b: Row) -> bool {
    exists|l: int|
        0 <= l < a.len() && l < b.len() && a.take(l) == b.take(l) && #[trigger]
            byte_string::before(a[l], b[l])
}

/// Whether rows stand in lexicographic order, each once.
pub open spec fn rows_ascending(rows: Seq<Row>) -> bool {
    forall|i: int, j: int|
        0 <= i < j < rows.len() ==> row_before(#[trigger] rows[i], #[trigger] rows[j])
}

/// Whether all the extenders are sound.
pub open spec fn all_inv(extenders: Seq<Box<dyn PrefixExtender>>) -> bool {
    forall|i: int| 0 <= i < extenders.len() ==> (#[trigger] extenders[i]).inv()
}

/// There is only one who proposes.
proof fn lemma_cheapest(extenders: Seq<Box<dyn PrefixExtender>>, prefix: Row, a: int, b: int)
    requires
        cheapest(extenders, prefix, a),
        cheapest(extenders, prefix, b),
    ensures
        a == b,
{
    assert(extenders[a].joins(prefix.len() as int));
    assert(extenders[b].joins(prefix.len() as int));
}

/// Who proposes the values of the next level.
fn proposer(extenders: &Vec<Box<dyn PrefixExtender>>, prefix: &Prefix) -> (r: Result<
    Option<usize>,
    Error,
>)
    requires
        all_inv(extenders@),
        prefix@.len() <= usize::MAX,
    ensures
        all_count(extenders@, prefix.deep_view()) ==> r is Ok,
        match r {
            Ok(Some(k)) => cheapest(extenders@, prefix.deep_view(), k as int),
            Ok(None) => !constrained(extenders@, prefix@.len() as int),
            Err(e) => passes_on(extenders@, prefix.deep_view(), e@),
        },
{
    let ghost row = prefix.deep_view();
    let level: usize = prefix.len();
    let mut best: Option<(usize, usize)> = None;
    let mut i: usize = 0;
    while i < extenders.len()
        invariant
            i <= extenders@.len(),
            all_inv(extenders@),
            row == prefix.deep_view(),
            level == prefix@.len(),
            level == row.len(),
            match best {
                Some((k, n)) => k < i && n == extenders@[k as int].counted(row)
                    && extenders@[k as int].joins(level as int) && forall|j: int|
                    0 <= j < i && (#[trigger] extenders@[j]).joins(level as int)
                        ==> extenders@[k as int].counted(row)
                        <= extenders@[j].counted(row) && (j < k
                        ==> extenders@[k as int].counted(row)
                        < extenders@[j].counted(row)),
                None => forall|j: int|
                    0 <= j < i ==> !(#[trigger] extenders@[j]).joins(level as int),
            },
        decreases extenders@.len() - i,
    {
        if extenders[i].participates_in_level(level) {
            let n: usize = match extenders[i].count(prefix) {
                Ok(n) => n,
                Err(e) => {
                    return Err(e);
                },
            };
            match best {
                Some((_, least)) => {
                    if n < least {
                        best = Some((i, n));
                    }
                },
                None => {
                    best = Some((i, n));
                },
            }
        }
        i += 1;
    }
    match best {
        Some((k, _)) => Ok(Some(k)),
        None => Ok(None),
    }
}

/// The values that may follow, in ascending order.
pub fn extensions(extenders: &Vec<Box<dyn PrefixExtender>>, prefix: &Prefix) -> (r: Result<Vec<Extension>, Error>)
    requires
        all_inv(extenders@),
    ensures
        resolvable(extenders@, prefix.deep_view()) ==> r is Ok,
        forall|k: int|
            #![trigger cheapest(extenders@, prefix.deep_view(), k)]
            all_count(extenders@, prefix.deep_view()) && cheapest(
                extenders@,
                prefix.deep_view(),
                k,
            ) && extenders@[k].refusal(prefix.deep_view()) is Some ==> error::told(r) == Err::<Vec<Extension>, ErrorView>(
                extenders@[k].refusal(prefix.deep_view()).unwrap(),
            ),
        r matches Err(e) ==> passes_on(extenders@, prefix.deep_view(), e@),
        r matches Ok(list) ==> ascending(list.deep_view()) && forall|e: Seq<u8>|
            #![trigger list.deep_view().contains(e)]
            list.deep_view().contains(e) == may_follow(
                extenders@,
                prefix.deep_view(),
                e,
            ),
{
    let ghost row = prefix.deep_view();
    let level: usize = prefix.len();
    assert(row.len() == level);
    let k: usize = match proposer(extenders, prefix) {
        Ok(Some(k)) => k,
        Ok(None) => {
            let none: Vec<Extension> = Vec::new();
            assert(none.deep_view() =~= Seq::<Seq<u8>>::empty());
            return Ok(none);
        },
        Err(e) => {
            return Err(e);
        },
    };
    proof {
        assert forall|n: int| #[trigger] cheapest(extenders@, row, n) implies n == k by {
            lemma_cheapest(extenders@, row, n, k as int);
        }
    }
    let mut found = match extenders[k].propose(prefix) {
        Ok(found) => found,
        Err(e) => {
            return Err(e);
        },
    };
    let ghost proposed = found.deep_view();
    let mut i: usize = 0;
    while i < extenders.len()
        invariant
            i <= extenders@.len(),
            all_inv(extenders@),
            row == prefix.deep_view(),
            level == prefix@.len(),
            level == row.len(),
            cheapest(extenders@, row, k as int),
            forall|n: int| #[trigger] cheapest(extenders@, row, n) ==> n == k,
            extenders@[k as int].refusal(row) is None,
            forall|e: Seq<u8>|
                #![trigger proposed.contains(e)]
                proposed.contains(e) == extenders@[k as int].accepts(row, e),
            ascending(found.deep_view()),
            forall|e: Seq<u8>|
                #![trigger found.deep_view().contains(e)]
                found.deep_view().contains(e) == (proposed.contains(e) && forall|j: int|
                    0 <= j < i && j != k && (#[trigger] extenders@[j]).joins(level as int)
                        ==> extenders@[j].accepts(row, e)),
        decreases extenders@.len() - i,
    {
        if i != k && extenders[i].participates_in_level(level) {
            let ghost before = found.deep_view();
            proof {
                if resolvable(extenders@, row) {
                    assert forall|n: int| 0 <= n < before.len() implies extenders@[i as int].judges(
                    row, #[trigger] before[n]) by {
                        assert(before.contains(before[n]));
                        assert(proposed.contains(before[n]));
                    }
                    assert(before.len() == found@.len());
                }
            }
            found = match extenders[i].intersect(prefix, &found) {
                Ok(found) => found,
                Err(e) => {
                    assert(extenders@[i as int].objects(row, before, e@));
                    assert(objects_to_some(&*extenders@[i as int], row, e@));
                    return Err(e);
                },
            };
            proof {
                assert forall|e: Seq<u8>|
                    #![trigger found.deep_view().contains(e)]
                    found.deep_view().contains(e) == (proposed.contains(e) && forall|j: int|
                        0 <= j < i + 1 && j != k && (#[trigger] extenders@[j]).joins(
                            level as int,
                        ) ==> extenders@[j].accepts(row, e)) by {
                    assert(found.deep_view().contains(e) == (before.contains(e)
                        && extenders@[i as int].accepts(row, e)));
                }
            }
        }
        i += 1;
    }
    proof {
        assert forall|e: Seq<u8>|
            #![trigger found.deep_view().contains(e)]
            found.deep_view().contains(e) == may_follow(extenders@, row, e) by {
            assert(extenders@[k as int].joins(row.len() as int));
            if found.deep_view().contains(e) {
                assert(proposed.contains(e));
            }
            if may_follow(extenders@, row, e) {
                assert(proposed.contains(e));
            }
        }
    }
    Ok(found)
}

/// A join over a number of levels.
pub struct GenericJoin {
    pub extenders: Vec<Box<dyn PrefixExtender>>,
    pub levels: usize,
}

impl GenericJoin {
    /// The extenders are sound.
    pub open spec fn inv(&self) -> bool {
        all_inv(self.extenders@)
    }

    /// A join of the extenders.
    pub fn new(extenders: Vec<Box<dyn PrefixExtender>>, levels: usize) -> (r: Self)
        requires
            all_inv(extenders@),
        ensures
            r.inv(),
            r.extenders == extenders,
            r.levels == levels,
    {
        GenericJoin { extenders, levels }
    }

    /// All the tuples, in lexicographic order, whose values satisfy every extender. An error is
    /// that of an extender which is asked about a tuple that has been found so far.
    pub fn join(&self) -> (r: Result<Vec<ResultTuple>, Error>)
        requires
            self.inv(),
        ensures
            (forall|p: Row|
                p.len() < self.levels && satisfies(self.extenders@, p) ==> #[trigger] resolvable(
                    self.extenders@,
                    p,
                )) ==> r is Ok,
            r matches Err(e) ==> exists|p: Row|
                p.len() < self.levels && satisfies(self.extenders@, p) && #[trigger] passes_on(
                    self.extenders@,
                    p,
                    e@,
                ),
            r matches Ok(tuples) ==> rows_ascending(tuples.deep_view()) && forall|t: Row|
                #![trigger tuples.deep_view().contains(t)]
                tuples.deep_view().contains(t) == (t.len() == self.levels && satisfies(
                    self.extenders@,
                    t,
                )),
    {
        let mut tuples: Vec<ResultTuple> = Vec::new();
        let empty: ResultTuple = Vec::new();
        let ghost none = tuples;
        tuples.push(empty);
        proof {
            byte_string::lemma_deep_push(none, tuples, empty);
            assert(empty.deep_view() =~= Seq::<Seq<u8>>::empty());
            assert(tuples.deep_view() =~= seq![Seq::<Seq<u8>>::empty()]);
            assert forall|t: Row|
                #![trigger tuples.deep_view().contains(t)]
                tuples.deep_view().contains(t) == (t.len() == 0 && satisfies(
                    self.extenders@,
                    t,
                )) by {
                if t.len() == 0 {
                    assert(t =~= Seq::<Seq<u8>>::empty());
                    assert(tuples.deep_view()[0] == t);
                }
            }
        }
        let mut level: usize = 0;
        while level < self.levels
            invariant
                level <= self.levels,
                self.inv(),
                rows_ascending(tuples.deep_view()),
                forall|t: Row|
                    #![trigger tuples.deep_view().contains(t)]
                    tuples.deep_view().contains(t) == (t.len() == level && satisfies(
                        self.extenders@,
                        t,
                    )),
            decreases self.levels - level,
        {
            tuples = match self.extend_all(&tuples, level) {
                Ok(tuples) => tuples,
                Err(e) => {
                    return Err(e);
                },
            };
            level += 1;
        }
        Ok(tuples)
    }

    /// The tuples of one level more.
    fn extend_all(&self, tuples: &Vec<ResultTuple>, level: usize) -> (r: Result<
        Vec<ResultTuple>,
        Error,
    >)
        requires
            self.inv(),
            level < self.levels,
            rows_ascending(tuples.deep_view()),
            forall|t: Row|
                #![trigger tuples.deep_view().contains(t)]
                tuples.deep_view().contains(t) == (t.len() == level && satisfies(
                    self.extenders@,
                    t,
                )),
        ensures
            (forall|p: Row|
                p.len() < self.levels && satisfies(self.extenders@, p) ==> #[trigger] resolvable(
                    self.extenders@,
                    p,
                )) ==> r is Ok,
            r matches Err(e) ==> exists|p: Row|
                p.len() < self.levels && satisfies(self.extenders@, p) && #[trigger] passes_on(
                    self.extenders@,
                    p,
                    e@,
                ),
            r matches Ok(longer) ==> rows_ascending(longer.deep_view()) && forall|t: Row|
                #![trigger longer.deep_view().contains(t)]
                longer.deep_view().contains(t) == (t.len() == level + 1 && satisfies(
                    self.extenders@,
                    t,
                )),
    {
        let ghost rows = tuples.deep_view();
        assert(rows.len() == tuples@.len());
        let mut longer: Vec<ResultTuple> = Vec::new();
        let mut i: usize = 0;
        while i < tuples.len()
            invariant
                i <= tuples@.len() == rows.len(),
                rows == tuples.deep_view(),
                self.inv(),
                level < self.levels,
                rows_ascending(rows),
                forall|t: Row|
                    #![trigger rows.contains(t)]
                    rows.contains(t) == (t.len() == level && satisfies(self.extenders@, t)),
                extended_from(self.extenders@, rows, i as int, longer.deep_view()),
            decreases tuples@.len() - i,
        {
            let ghost row = rows[i as int];
            proof {
                assert(rows.contains(row));
                assert(row == tuples@[i as int].deep_view());
            }
            let found = match extensions(&self.extenders, &tuples[i]) {
                Ok(found) => found,
                Err(e) => {
                    assert(passes_on(self.extenders@, row, e@));
                    return Err(e);
                },
            };
            let ghost start = longer.deep_view();
            let ghost values = found.deep_view();
            assert(values.len() == found@.len());
            let mut j: usize = 0;
            while j < found.len()
                invariant
                    j <= found@.len() == values.len(),
                    values == found.deep_view(),
                    i < tuples@.len(),
                    row == tuples@[i as int].deep_view(),
                    longer.deep_view() == start + Seq::new(j as nat, |n: int| row.push(values[n])),
                decreases found@.len() - j,
            {
                let mut tuple = copy_row(&tuples[i]);
                let value = copy_bytes(&found[j]);
                let ghost short = tuple;
                proof {
                    byte_string::lemma_deep_bytes(&value);
                    byte_string::lemma_deep_bytes(&found@[j as int]);
                }
                tuple.push(value);
                let ghost earlier = longer;
                longer.push(tuple);
                proof {
                    byte_string::lemma_deep_push(short, tuple, value);
                    byte_string::lemma_deep_push(earlier, longer, tuple);
                }
                j += 1;
                assert(longer.deep_view() =~= start + Seq::new(
                    j as nat,
                    |n: int| row.push(values[n]),
                ));
            }
            proof {
                assert forall|k: int| 0 <= k < rows.len() implies (#[trigger] rows[k]).len()
                    == level by {
                    assert(rows.contains(rows[k]));
                }
                lemma_extend_step(self.extenders@, rows, level as int, i as int, start, values);
            }
            i += 1;
        }
        proof {
            lemma_extended_all(self.extenders@, rows, level as int, longer.deep_view());
        }
        Ok(longer)
    }
}

/// Whether the longer rows are those that extend the first rows: in order, and all of them.
spec fn extended_from(
    extenders: Seq<Box<dyn PrefixExtender>>,
    rows: Seq<Row>,
    n: int,
    longer: Seq<Row>,
) -> bool {
    &&& rows_ascending(longer)
    &&& forall|k: int|
        0 <= k < longer.len() ==> (#[trigger] longer[k]).len() > 0 && may_follow(
            extenders,
            longer[k].drop_last(),
            longer[k].last(),
        ) && exists|i: int| 0 <= i < n && #[trigger] rows[i] == longer[k].drop_last()
    &&& forall|i: int, e: Seq<u8>|
        0 <= i < n && #[trigger] may_follow(extenders, rows[i], e) ==> longer.contains(
            rows[i].push(e),
        )
}

/// The rows that extend one row more.
proof fn lemma_extend_step(
    extenders: Seq<Box<dyn PrefixExtender>>,
    rows: Seq<Row>,
    level: int,
    n: int,
    start: Seq<Row>,
    values: Seq<Seq<u8>>,
)
    requires
        0 <= n < rows.len(),
        rows_ascending(rows),
        forall|i: int| 0 <= i < rows.len() ==> (#[trigger] rows[i]).len() == level,
        extended_from(extenders, rows, n, start),
        ascending(values),
        forall|e: Seq<u8>|
            #![trigger values.contains(e)]
            values.contains(e) == may_follow(extenders, rows[n], e),
    ensures
        extended_from(
            extenders,
            rows,
            n + 1,
            start + Seq::new(values.len(), |j: int| rows[n].push(values[j])),
        ),
{
    let row = rows[n];
    let more = Seq::new(values.len(), |j: int| row.push(values[j]));
    let longer = start + more;
    assert forall|a: int, b: int| 0 <= a < b < longer.len() implies row_before(
        #[trigger] longer[a],
        #[trigger] longer[b],
    ) by {
        if b < start.len() {
            assert(longer[a] == start[a] && longer[b] == start[b]);
        } else if a < start.len() {
            let i = choose|i: int| 0 <= i < n && #[trigger] rows[i] == start[a].drop_last();
            assert(row_before(rows[i], row));
            let l = choose|l: int|
                0 <= l < rows[i].len() && l < row.len() && rows[i].take(l) == row.take(l)
                    && #[trigger] byte_string::before(rows[i][l], row[l]);
            assert(longer[a] == start[a]);
            assert(longer[b] == row.push(values[b - start.len()]));
            assert(longer[a].take(l) =~= rows[i].take(l));
            assert(longer[b].take(l) =~= row.take(l));
            assert(longer[a][l] == rows[i][l]);
            assert(longer[b][l] == row[l]);
            assert(byte_string::before(longer[a][l], longer[b][l]));
        } else {
            let x = values[a - start.len()];
            let y = values[b - start.len()];
            let l = row.len() as int;
            assert(longer[a] == row.push(x));
            assert(longer[b] == row.push(y));
            assert(longer[a].take(l) =~= row);
            assert(longer[b].take(l) =~= row);
            assert(byte_string::before(longer[a][l], longer[b][l]));
        }
    }
    assert forall|k: int| 0 <= k < longer.len() implies (#[trigger] longer[k]).len() > 0
        && may_follow(extenders, longer[k].drop_last(), longer[k].last()) && exists|i: int|
        0 <= i < n + 1 && #[trigger] rows[i] == longer[k].drop_last() by {
        if k < start.len() {
            assert(longer[k] == start[k]);
            let i = choose|i: int| 0 <= i < n && #[trigger] rows[i] == start[k].drop_last();
            assert(rows[i] == longer[k].drop_last());
        } else {
            let e = values[k - start.len()];
            assert(longer[k] == row.push(e));
            assert(row.push(e).drop_last() =~= row);
            assert(values.contains(e));
            assert(rows[n] == longer[k].drop_last());
        }
    }
    assert forall|i: int, e: Seq<u8>|
        0 <= i < n + 1 && #[trigger] may_follow(extenders, rows[i], e) implies longer.contains(
        rows[i].push(e),
    ) by {
        if i < n {
            let k = start.index_of(rows[i].push(e));
            assert(start.contains(rows[i].push(e)));
            assert(longer[k] == rows[i].push(e));
        } else {
            assert(values.contains(e));
            let j = values.index_of(e);
            assert(longer[start.len() + j] == row.push(e));
        }
    }
}

/// All the rows of one level more.
proof fn lemma_extended_all(
    extenders: Seq<Box<dyn PrefixExtender>>,
    rows: Seq<Row>,
    level: int,
    longer: Seq<Row>,
)
    requires
        level >= 0,
        forall|t: Row|
            #![trigger rows.contains(t)]
            rows.contains(t) == (t.len() == level && satisfies(extenders, t)),
        extended_from(extenders, rows, rows.len() as int, longer),
    ensures
        forall|t: Row|
            #![trigger longer.contains(t)]
            longer.contains(t) == (t.len() == level + 1 && satisfies(extenders, t)),
{
    assert forall|t: Row|
        #![trigger longer.contains(t)]
        longer.contains(t) == (t.len() == level + 1 && satisfies(extenders, t)) by {
        if longer.contains(t) {
            let k = longer.index_of(t);
            let i = choose|i: int|
                0 <= i < rows.len() && #[trigger] rows[i] == longer[k].drop_last();
            let short = t.drop_last();
            assert(rows.contains(short));
            assert forall|l: int| 0 <= l < t.len() implies may_follow(
                extenders,
                t.take(l),
                #[trigger] t[l],
            ) by {
                if l < short.len() {
                    assert(short[l] == t[l]);
                    assert(t.take(l) =~= short.take(l));
                } else {
                    assert(t.take(l) =~= short);
                }
            }
        }
        if t.len() == level + 1 && satisfies(extenders, t) {
            let short = t.drop_last();
            assert forall|l: int| 0 <= l < short.len() implies may_follow(
                extenders,
                short.take(l),
                #[trigger] short[l],
            ) by {
                assert(short[l] == t[l]);
                assert(t.take(l) =~= short.take(l));
            }
            assert(rows.contains(short));
            let i = rows.index_of(short);
            assert(t.take(level) =~= short);
            assert(t[level] == t.last());
            assert(may_follow(extenders, rows[i], t.last()));
            assert(short.push(t.last()) =~= t);
        }
    }
}

} // verus!
