//! Facts and the operations of transactions.

use vstd::prelude::*;

use crate::value::{DataType, Keyword, Value};

verus! {

/// Whether a fact is asserted or retracted.
#[derive(Clone, Copy, Debug, PartialEq, Eq, Hash, Structural)]
pub enum DatomOp {
    Assert,
    Retract,
}

/// A fact, with its attribute by name.
#[derive(Debug, PartialEq, Eq, Hash)]
pub struct Datom {
    pub entity: i64,
    pub attribute: Keyword,
    pub value: DataType,
    pub op: DatomOp,
}

/// What a fact is.
pub struct DatomView {
    pub entity: i64,
    pub attribute: Seq<char>,
    pub value: Value,
    pub op: DatomOp,
}

impl View for Datom {
    type V = DatomView;

    open spec fn view(&self) -> DatomView {
        DatomView {
            entity: self.entity,
            attribute: self.attribute@,
            value: self.value@,
            op: self.op,
        }
    }
}

impl DeepView for Datom {
    type V = DatomView;

    open spec fn deep_view(&self) -> DatomView {
        self@
    }
}

impl Clone for Datom {
    fn clone(&self) -> (r: Self)
        ensures
            r@ == self@,
    {
        Datom {
            entity: self.entity,
            attribute: self.attribute.clone(),
            value: self.value.clone(),
            op: self.op,
        }
    }
}

impl Datom {
    /// Whether two facts are the same.
    pub fn same(&self, other: &Datom) -> (r: bool)
        ensures
            r == (self@ == other@),
    {
        self.entity == other.entity && self.attribute.same(&other.attribute) && self.value.same(
            &other.value,
        ) && self.op == other.op
    }
}

/// A document: values by name.
#[derive(Debug, PartialEq, Eq)]
pub struct Document {
    pub entries: Vec<(String, DataType)>,
}

/// The values of entries by name; of entries with the same name the last counts.
pub open spec fn by_name(entries: Seq<(String, DataType)>) -> Map<Seq<char>, Value>
    decreases entries.len(),
{
    if entries.len() == 0 {
        Map::empty()
    } else {
        by_name(entries.drop_last()).insert(entries.last().0@, entries.last().1@)
    }
}

impl View for Document {
    type V = Map<Seq<char>, Value>;

    open spec fn view(&self) -> Map<Seq<char>, Value> {
        by_name(self.entries@)
    }
}

impl Document {
    /// A document without values.
    pub fn new() -> (r: Self)
        ensures
            r@ == Map::<Seq<char>, Value>::empty(),
    {
        Document { entries: Vec::new() }
    }

    /// The value of that name.
    pub fn get(&self, name: &str) -> (r: Option<&DataType>)
        ensures
            match r {
                Some(v) => self@.dom().contains(name@) && self@[name@] == v@,
                None => !self@.dom().contains(name@),
            },
    {
        let mut i: usize = self.entries.len();
        assert(self.entries@.take(i as int) =~= self.entries@);
        while i > 0
            invariant
                i <= self.entries@.len(),
                self@.dom().contains(name@) == by_name(self.entries@.take(i as int)).dom().contains(
                    name@,
                ),
                self@.dom().contains(name@) ==> self@[name@] == by_name(
                    self.entries@.take(i as int),
                )[name@],
            decreases i,
        {
            assert(self.entries@.take(i as int).drop_last() =~= self.entries@.take(i - 1));
            assert(self.entries@.take(i as int).last() == self.entries@[i - 1]);
            if self.entries[i - 1].0 == name.to_owned() {
                return Some(&self.entries[i - 1].1);
            }
            i -= 1;
        }
        None
    }

    /// Gives a name a value.
    pub fn insert(&mut self, name: &str, value: DataType)
        ensures
            final(self)@ == old(self)@.insert(name@, value@),
    {
        let ghost earlier = self.entries@;
        self.entries.push((name.to_owned(), value));
        assert(self.entries@.drop_last() =~= earlier);
    }

    /// A copy of the document.
    pub fn copy(&self) -> (r: Self)
        ensures
            r@ == self@,
    {
        let mut entries: Vec<(String, DataType)> = Vec::new();
        let mut i: usize = 0;
        assert(self.entries@.take(0) =~= Seq::<(String, DataType)>::empty());
        while i < self.entries.len()
            invariant
                i <= self.entries@.len(),
                by_name(entries@) == by_name(self.entries@.take(i as int)),
            decreases self.entries@.len() - i,
        {
            let ghost earlier = entries@;
            entries.push((self.entries[i].0.clone(), self.entries[i].1.clone()));
            proof {
                assert(entries@.drop_last() =~= earlier);
                assert(self.entries@.take(i + 1).drop_last() =~= self.entries@.take(i as int));
            }
            i += 1;
        }
        assert(self.entries@.take(i as int) =~= self.entries@);
        Document { entries }
    }
}

/// The name of an attribute.
#[derive(Debug, PartialEq, Eq)]
pub struct Attribute(pub String);

/// An operation of a transaction.
#[derive(Debug, PartialEq, Eq)]
pub enum TxOp {
    Put(Document),
    Add { entity_id: i64, attribute: Attribute, value: DataType },
    Retract { entity_id: i64, attribute: Attribute, value: DataType },
    Delete { entity_id: i64 },
    Erase { entity_id: i64 },
}

/// What an operation is.
pub enum TxOpView {
    Put(Map<Seq<char>, Value>),
    Add(i64, Seq<char>, Value),
    Retract(i64, Seq<char>, Value),
    Delete(i64),
    Erase(i64),
}

impl View for TxOp {
    type V = TxOpView;

    open spec fn view(&self) -> TxOpView {
        match self {
            TxOp::Put(doc) => TxOpView::Put(doc@),
            TxOp::Add { entity_id, attribute, value } => TxOpView::Add(
                *entity_id,
                attribute.0@,
                value@,
            ),
            TxOp::Retract { entity_id, attribute, value } => TxOpView::Retract(
                *entity_id,
                attribute.0@,
                value@,
            ),
            TxOp::Delete { entity_id } => TxOpView::Delete(*entity_id),
            TxOp::Erase { entity_id } => TxOpView::Erase(*entity_id),
        }
    }
}

impl TxOp {
    /// A copy of the operation.
    pub fn copy(&self) -> (r: Self)
        ensures
            r@ == self@,
    {
        match self {
            TxOp::Put(doc) => TxOp::Put(doc.copy()),
            TxOp::Add { entity_id, attribute, value } => TxOp::Add {
                entity_id: *entity_id,
                attribute: Attribute(attribute.0.clone()),
                value: value.clone(),
            },
            TxOp::Retract { entity_id, attribute, value } => TxOp::Retract {
                entity_id: *entity_id,
                attribute: Attribute(attribute.0.clone()),
                value: value.clone(),
            },
            TxOp::Delete { entity_id } => TxOp::Delete { entity_id: *entity_id },
            TxOp::Erase { entity_id } => TxOp::Erase { entity_id: *entity_id },
        }
    }
}

/// A document holds under a name the value of the last entry of that name.
pub proof fn law_values_by_name(doc: Document, name: &str, r: Option<&DataType>)
    requires
        call_ensures(Document::get, (&doc, name), r),
    ensures
        match r {
            Some(value) => exists|i: int|
                0 <= i < doc.entries@.len() && (#[trigger] doc.entries@[i]).0@ == name@
                    && doc.entries@[i].1@ == value@ && forall|j: int|
                    i < j < doc.entries@.len() ==> (#[trigger] doc.entries@[j]).0@ != name@,
            None => forall|i: int|
                0 <= i < doc.entries@.len() ==> (#[trigger] doc.entries@[i]).0@ != name@,
        },
{
    lemma_last_entry(doc.entries@, name@);
}

/// The last entry of a name decides.
proof fn lemma_last_entry(entries: Seq<(String, DataType)>, name: Seq<char>)
    ensures
        by_name(entries).dom().contains(name) ==> exists|i: int|
            0 <= i < entries.len() && (#[trigger] entries[i]).0@ == name && entries[i].1@
                == by_name(entries)[name] && forall|j: int|
                i < j < entries.len() ==> (#[trigger] entries[j]).0@ != name,
        !by_name(entries).dom().contains(name) ==> forall|i: int|
            0 <= i < entries.len() ==> (#[trigger] entries[i]).0@ != name,
    decreases entries.len(),
{
    if entries.len() > 0 {
        let front = entries.drop_last();
        let n = entries.len() - 1;
        lemma_last_entry(front, name);
        assert(entries[n] == entries.last());
        if entries.last().0@ != name {
            if by_name(front).dom().contains(name) {
                let i = choose|i: int|
                    0 <= i < front.len() && (#[trigger] front[i]).0@ == name && front[i].1@
                        == by_name(front)[name] && forall|j: int|
                        i < j < front.len() ==> (#[trigger] front[j]).0@ != name;
                assert(entries[i] == front[i]);
                assert forall|j: int| i < j < entries.len() implies (
                #[trigger] entries[j]).0@ != name by {
                    if j < n {
                        assert(front[j] == entries[j]);
                    }
                }
            } else {
                assert forall|i: int| 0 <= i < entries.len() implies (
                #[trigger] entries[i]).0@ != name by {
                    if i < n {
                        assert(front[i] == entries[i]);
                    }
                }
            }
        }
    }
}

/// What contracts say of an operation is what it holds.
pub proof fn law_operations_are_seen_as_they_are(op: TxOp)
    ensures
        match op {
            TxOp::Put(doc) => op@ == TxOpView::Put(doc@),
            TxOp::Add { entity_id, attribute, value } => op@ == TxOpView::Add(
                entity_id,
                attribute.0@,
                value@,
            ),
            TxOp::Retract { entity_id, attribute, value } => op@ == TxOpView::Retract(
                entity_id,
                attribute.0@,
                value@,
            ),
            TxOp::Delete { entity_id } => op@ == TxOpView::Delete(entity_id),
            TxOp::Erase { entity_id } => op@ == TxOpView::Erase(entity_id),
        },
{
}

} // verus!
