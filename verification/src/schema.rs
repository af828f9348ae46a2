//! Attributes by name.

use vstd::prelude::*;

use crate::value::Keyword;

verus! {

/// What is known of an attribute: whether no two entities have the same value of it, and whether
/// an entity has several values of it.
#[derive(Clone, Copy, Debug, PartialEq, Eq, Structural)]
pub struct AttributeInfo {
    pub id: i64,
    pub unique: bool,
    pub multival: bool,
}

/// The attributes by name.
#[derive(Debug)]
pub struct Schema {
    pub attributes: Vec<(Keyword, AttributeInfo)>,
}

/// The attribute of that name: of entries with the same name the first counts.
pub open spec fn attribute(entries: Seq<(Keyword, AttributeInfo)>, name: Seq<char>) -> Option<
    AttributeInfo,
>
    decreases entries.len(),
{
    if entries.len() == 0 {
        None
    } else if entries[0].0@ == name {
        Some(entries[0].1)
    } else {
        attribute(entries.drop_first(), name)
    }
}

impl Schema {
    /// The attribute of that name.
    pub open spec fn find(self, name: Seq<char>) -> Option<AttributeInfo> {
        attribute(self.attributes@, name)
    }

    /// The attribute of that name.
    pub fn get_attribute(&self, name: &Keyword) -> (r: Option<AttributeInfo>)
        ensures
            r == self.find(name@),
    {
        let mut i: usize = 0;
        assert(self.attributes@.skip(0) =~= self.attributes@);
        while i < self.attributes.len()
            invariant
                i <= self.attributes@.len(),
                self.find(name@) == attribute(self.attributes@.skip(i as int), name@),
            decreases self.attributes@.len() - i,
        {
            assert(self.attributes@.skip(i as int).drop_first() =~= self.attributes@.skip(i + 1));
            if self.attributes[i].0.same(name) {
                return Some(self.attributes[i].1);
            }
            i += 1;
        }
        None
    }
}

} // verus!
