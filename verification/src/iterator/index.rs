//! Cursors over ordered byte strings.

use vstd::prelude::*;

use crate::byte_string::{self, comes_before, copy_bytes};
use crate::error::{self, Error, ErrorView};

verus! {

/// Whether byte strings stand in order.
pub open spec fn sorted(s: Seq<Seq<u8>>) -> bool {
    forall|i: int, j: int|
        0 <= i < j < s.len() ==> !byte_string::before(#[trigger] s[j], #[trigger] s[i])
}

/// Whether `p` splits an ordered list: what stands before it comes before the key, what stands
/// from it on does not.
pub open spec fn splits(s: Seq<Seq<u8>>, key: Seq<u8>, p: int) -> bool {
    &&& 0 <= p <= s.len()
    &&& forall|i: int| 0 <= i < p ==> byte_string::before(#[trigger] s[i], key)
    &&& forall|i: int| p <= i < s.len() ==> !byte_string::before(#[trigger] s[i], key)
}

/// A cursor over an ordered list of byte strings.
pub trait Index {
    /// The list.
    spec fn entries(&self) -> Seq<Seq<u8>>;

    /// The place of the cursor in the list; at its end the cursor is exhausted.
    spec fn position(&self) -> int;

    /// What has to hold of the cursor itself.
    spec fn inv(&self) -> bool;

    /// Whether no operation of the cursor fails.
    spec fn reliable(&self) -> bool;

    /// An estimate of the length of the list.
    fn count(&self) -> (r: Result<u64, Error>)
        requires
            self.inv(),
        ensures
            self.reliable() ==> r is Ok,
    ;

    /// Moves forward to the first entry that does not come before the key. A cursor that is
    /// past it may stay where it is.
    fn seek(&mut self, key: &[u8]) -> (r: Result<(), Error>)
        requires
            old(self).inv(),
        ensures
            old(self).reliable() ==> r is Ok && final(self).reliable(),
            r is Ok ==> {
                &&& final(self).inv()
                &&& final(self).entries() == old(self).entries()
                &&& exists|p: int| #[trigger]
                    splits(final(self).entries(), key@, p) && (if old(self).position() <= p {
                        final(self).position() == p
                    } else {
                        p <= final(self).position() <= old(self).position()
                    })
            },
    ;

    /// Moves to the next entry.
    fn next(&mut self) -> (r: Result<Option<Vec<u8>>, Error>)
        requires
            old(self).inv(),
        ensures
            old(self).reliable() ==> r is Ok && final(self).reliable(),
            r is Ok ==> {
                &&& final(self).inv()
                &&& final(self).entries() == old(self).entries()
                &&& final(self).position() == (if old(self).position()
                    < old(self).entries().len() {
                    old(self).position() + 1
                } else {
                    old(self).position()
                })
            },
    ;

    /// The entry at the cursor.
    fn get_value(&self) -> (r: Result<Option<Vec<u8>>, Error>)
        requires
            self.inv(),
        ensures
            self.reliable() ==> r is Ok,
            match r {
                Ok(Some(value)) => self.position() < self.entries().len() && value@
                    == self.entries()[self.position()],
                Ok(None) => self.position() == self.entries().len(),
                Err(_) => true,
            },
    ;

    /// Whether the cursor is at an entry.
    fn has_next(&self) -> (r: bool)
        requires
            self.inv(),
        ensures
            r == (self.position() < self.entries().len()),
    ;

    /// The list is in order and the cursor in it.
    proof fn lemma_inv(&self)
        requires
            self.inv(),
        ensures
            sorted(self.entries()),
            0 <= self.position() <= self.entries().len(),
    ;
}

/// All that a cursor shows from the beginning on.
pub fn read_all<I: Index>(iterator: &mut I) -> (r: Result<Vec<Vec<u8>>, Error>)
    requires
        old(iterator).inv(),
        old(iterator).position() == 0,
    ensures
        match r {
            Ok(list) => list.deep_view() == old(iterator).entries(),
            Err(_) => !old(iterator).reliable(),
        },
{
    let ghost entries = iterator.entries();
    let mut out: Vec<Vec<u8>> = Vec::new();
    assert(out.deep_view() =~= entries.take(0));
    proof {
        iterator.lemma_inv();
    }
    let mut more = true;
    while more
        invariant
            iterator.inv(),
            iterator.entries() == entries,
            entries == old(iterator).entries(),
            old(iterator).reliable() ==> iterator.reliable(),
            0 <= iterator.position() <= entries.len(),
            out.deep_view() == entries.take(iterator.position()),
            !more ==> iterator.position() == entries.len(),
        decreases entries.len() - iterator.position() + (if more {
            1int
        } else {
            0int
        }),
    {
        let value = match iterator.get_value() {
            Ok(value) => value,
            Err(e) => {
                return Err(e);
            },
        };
        match value {
            Some(entry) => {
                let ghost place = iterator.position();
                let ghost earlier = out;
                let ghost copy = entry;
                proof {
                    byte_string::lemma_deep_bytes(&entry);
                }
                out.push(entry);
                proof {
                    byte_string::lemma_deep_push(earlier, out, copy);
                    assert(out.deep_view() =~= entries.take(place + 1));
                }
                match iterator.next() {
                    Ok(_) => {},
                    Err(e) => {
                        return Err(e);
                    },
                }
            },
            None => {
                more = false;
            },
        }
    }
    assert(entries.take(iterator.position()) =~= entries);
    Ok(out)
}

/// A cursor over a list in memory.
#[derive(Debug)]
pub struct VecIterator {
    pub vec: Vec<Vec<u8>>,
    pub index: usize,
}

impl VecIterator {
    /// A cursor at the beginning of an ordered list.
    pub fn new(vec: Vec<Vec<u8>>) -> (r: Self)
        requires
            sorted(vec.deep_view()),
        ensures
            r.inv(),
            r.entries() == vec.deep_view(),
            r.position() == 0,
    {
        VecIterator { vec, index: 0 }
    }
}

impl Index for VecIterator {
    open spec fn entries(&self) -> Seq<Seq<u8>> {
        self.vec.deep_view()
    }

    open spec fn position(&self) -> int {
        self.index as int
    }

    open spec fn inv(&self) -> bool {
        sorted(self.vec.deep_view()) && self.index <= self.vec@.len()
    }

    open spec fn reliable(&self) -> bool {
        true
    }

    fn count(&self) -> (r: Result<u64, Error>)
        ensures
            error::told(r) == Ok::<u64, ErrorView>(self.entries().len() as u64),
    {
        Ok(self.vec.len() as u64)
    }

    fn seek(&mut self, key: &[u8]) -> (r: Result<(), Error>)
        ensures
            splits(final(self).entries(), key@, final(self).position()),
    {
        let ghost list = self.vec.deep_view();
        let mut low: usize = 0;
        let mut high: usize = self.vec.len();
        while low < high
            invariant
                low <= high <= self.vec@.len(),
                list == self.vec.deep_view(),
                *self == *old(self),
                sorted(list),
                forall|i: int| 0 <= i < low ==> byte_string::before(#[trigger] list[i], key@),
                forall|i: int|
                    high <= i < list.len() ==> !byte_string::before(#[trigger] list[i], key@),
            decreases high - low,
        {
            let middle: usize = low + (high - low) / 2;
            proof {
                byte_string::lemma_deep_bytes(&self.vec@[middle as int]);
                assert forall|i: int|
                    byte_string::before(list[middle as int], key@) && 0 <= i
                        <= middle implies byte_string::before(#[trigger] list[i], key@) by {
                    if i < middle {
                        byte_string::lemma_before_total(list[i], list[middle as int]);
                        if list[i] != list[middle as int] {
                            byte_string::lemma_before_transitive(
                                list[i],
                                list[middle as int],
                                key@,
                            );
                        }
                    }
                }
                assert forall|i: int|
                    !byte_string::before(list[middle as int], key@) && middle <= i
                        < list.len() implies !byte_string::before(#[trigger] list[i], key@) by {
                    if middle < i && byte_string::before(list[i], key@) {
                        byte_string::lemma_before_total(list[middle as int], list[i]);
                        if list[i] != list[middle as int] {
                            byte_string::lemma_before_transitive(
                                list[middle as int],
                                list[i],
                                key@,
                            );
                        }
                    }
                }
            }
            if comes_before(&self.vec[middle], key) {
                low = middle + 1;
            } else {
                high = middle;
            }
        }
        self.index = low;
        assert(splits(self.entries(), key@, low as int));
        Ok(())
    }

    fn next(&mut self) -> (r: Result<Option<Vec<u8>>, Error>)
        ensures
            match r {
                Ok(Some(value)) => old(self).position() < old(self).entries().len() && value@
                    == old(self).entries()[old(self).position()],
                Ok(None) => old(self).position() == old(self).entries().len(),
                Err(_) => false,
            },
    {
        if self.index < self.vec.len() {
            let value = copy_bytes(&self.vec[self.index]);
            proof {
                byte_string::lemma_deep_bytes(&self.vec@[self.index as int]);
            }
            self.index = self.index + 1;
            Ok(Some(value))
        } else {
            Ok(None)
        }
    }

    fn get_value(&self) -> (r: Result<Option<Vec<u8>>, Error>) {
        if self.index < self.vec.len() {
            proof {
                byte_string::lemma_deep_bytes(&self.vec@[self.index as int]);
            }
            Ok(Some(copy_bytes(&self.vec[self.index])))
        } else {
            Ok(None)
        }
    }

    fn has_next(&self) -> (r: bool) {
        self.index < self.vec.len()
    }

    proof fn lemma_inv(&self) {
    }
}

} // verus!
