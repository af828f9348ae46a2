//! A transaction from its facts to what is written of it.

use vstd::prelude::*;

use crate::error::{self, Error, ErrorView};
use crate::indexer::basis::{self, IndexedFact, TxVocabulary};
use crate::indexer::commit::{self, unique_lookups, validate_unique_constraints, UniqueClaim};
use crate::indexer::keys;
use crate::indexer::laws;
use crate::indexer::one_value;
use crate::indexer::owners::{self, find_owners};
use crate::indexer::state::{self, Indexer, TxMessage};
use crate::indexer::unique_value;
use crate::iterator::index::Index;
use crate::metadata::PartitionMap;
use crate::ops::{Datom, DatomView};
use crate::schema::Schema;
use crate::transaction::{TxBasis, TxKey};
use crate::value::Value;

verus! {

/// What the rules of the schema say of the final facts of a transaction: that they are refused, and
/// why, or that they stand, with the schema as they change it, where they do.
#[derive(Debug)]
pub enum Verdict {
    Refused(String),
    Accepted(Option<Schema>),
}

/// What is to be written of a transaction, with what the indexer takes over once it is written:
/// the transaction's entity, the counters, the schema, where it changes, and why the transaction
/// aborts, if it does.
#[derive(Debug)]
pub struct TxWrite {
    pub tx_key: TxKey,
    pub tx_eid: i64,
    pub pending: PartitionMap,
    pub entries: Vec<Vec<u8>>,
    pub schema: Option<Schema>,
    pub error: Option<String>,
}

/// Why the owner of a claimed value cannot be read, for the first claim of which it cannot.
pub open spec fn first_unreadable(claims: Seq<UniqueClaim>, owned: Seq<Seq<u8>>) -> Option<
    ErrorView,
>
    decreases claims.len(),
{
    if claims.len() == 0 {
        None
    } else {
        match first_unreadable(claims.drop_last(), owned) {
            Some(e) => Some(e),
            None => match owners::owner_in(owned, claims.last().attribute, claims.last().value) {
                Err(e) => Some(e),
                Ok(_) => None,
            },
        }
    }
}

/// Why facts cannot stand, for the first claim to a value that another entity has and does not
/// give up.
pub open spec fn first_taken(
    claims: Seq<UniqueClaim>,
    datoms: Seq<DatomView>,
    schema: Schema,
    owned: Seq<Seq<u8>>,
) -> Option<ErrorView>
    decreases claims.len(),
{
    if claims.len() == 0 {
        None
    } else {
        match first_taken(claims.drop_last(), datoms, schema, owned) {
            Some(e) => Some(e),
            None => {
                let c = claims.last();
                let owner = owners::owner_in(owned, c.attribute, c.value)->Ok_0;
                if commit::taken(datoms, schema, c, owner) {
                    Some(ErrorView::UniqueOwned(c.ident, c.value, owner.unwrap()))
                } else {
                    None
                }
            },
        }
    }
}

/// Why facts break the uniqueness of values, if they do: by themselves, or with what is owned
/// according to the visible entries by value, attribute and entity.
pub open spec fn unique_fault(
    datoms: Seq<DatomView>,
    schema: Schema,
    owned: Seq<Seq<u8>>,
) -> Option<ErrorView> {
    let claims = commit::claims(datoms, schema);
    match commit::batch_fault(datoms, schema) {
        Some(e) => Some(e),
        None => match first_unreadable(claims, owned) {
            Some(e) => Some(e),
            None => first_taken(claims, datoms, schema, owned),
        },
    }
}

/// The final facts of a transaction, or why its facts are refused. The facts come with those of the
/// transaction itself; the visible entries stand by entity, attribute and value, and by value,
/// attribute and entity.
pub open spec fn checked(
    datoms: Seq<DatomView>,
    schema: Schema,
    counters: Map<u32, i64>,
    current: Seq<Seq<u8>>,
    owned: Seq<Seq<u8>>,
) -> Result<Seq<DatomView>, ErrorView> {
    let written = commit::committed(datoms, schema, counters, current);
    match commit::first_unknown(datoms, schema) {
        Some(name) => Err(ErrorView::UnknownAttribute(name)),
        None => if !commit::readable(datoms, schema, counters, current) {
            Err(ErrorView::Decode)
        } else {
            match unique_fault(written, schema, owned) {
                Some(e) => Err(e),
                None => Ok(written),
            }
        },
    }
}

/// The facts of a transaction that is to commit, with those of the transaction itself.
pub open spec fn with_tx_entity(
    datoms: Seq<DatomView>,
    tx_key: TxKey,
    tx_eid: i64,
    vocabulary: TxVocabulary,
) -> Seq<DatomView> {
    datoms + basis::tx_entity(tx_eid, tx_key, true, None, vocabulary)
}

/// The facts of a transaction that aborts.
pub open spec fn abort_facts(
    tx_key: TxKey,
    tx_eid: i64,
    error: Seq<char>,
    vocabulary: TxVocabulary,
) -> Seq<DatomView> {
    basis::tx_entity(tx_eid, tx_key, false, Some(Value::String(error)), vocabulary)
}

/// The first claim whose owner cannot be read decides.
pub proof fn lemma_unreadable(claims: Seq<UniqueClaim>, owned: Seq<Seq<u8>>, n: int)
    requires
        0 <= n <= claims.len(),
        forall|i: int|
            0 <= i < n ==> owners::owner_in(
                owned,
                (#[trigger] claims[i]).attribute,
                claims[i].value,
            ) is Ok,
        n < claims.len() ==> owners::owner_in(owned, claims[n].attribute, claims[n].value) is Err,
    ensures
        first_unreadable(claims, owned) == (if n < claims.len() {
            Some(owners::owner_in(owned, claims[n].attribute, claims[n].value)->Err_0)
        } else {
            None
        }),
    decreases claims.len(),
{
    if claims.len() > 0 {
        let front = claims.drop_last();
        if n < front.len() {
            assert(front[n] == claims[n]);
            lemma_unreadable(front, owned, n);
        } else {
            lemma_unreadable(front, owned, front.len() as int);
        }
    }
}

/// The first claim to a value of another entity decides.
proof fn lemma_taken(
    claims: Seq<UniqueClaim>,
    datoms: Seq<DatomView>,
    schema: Schema,
    owned: Seq<Seq<u8>>,
    n: int,
)
    requires
        0 <= n <= claims.len(),
        forall|i: int|
            0 <= i < n ==> !commit::taken(
                datoms,
                schema,
                #[trigger] claims[i],
                owners::owner_in(owned, claims[i].attribute, claims[i].value)->Ok_0,
            ),
        n < claims.len() ==> commit::taken(
            datoms,
            schema,
            claims[n],
            owners::owner_in(owned, claims[n].attribute, claims[n].value)->Ok_0,
        ),
    ensures
        first_taken(claims, datoms, schema, owned) == (if n < claims.len() {
            Some(
                ErrorView::UniqueOwned(
                    claims[n].ident,
                    claims[n].value,
                    owners::owner_in(
                        owned,
                        claims[n].attribute,
                        claims[n].value,
                    )->Ok_0.unwrap(),
                ),
            )
        } else {
            None
        }),
    decreases claims.len(),
{
    if claims.len() > 0 {
        let front = claims.drop_last();
        if n < front.len() {
            assert(front[n] == claims[n]);
            lemma_taken(front, datoms, schema, owned, n);
        } else {
            lemma_taken(front, datoms, schema, owned, front.len() as int);
        }
    }
}

/// No claim is to a value of another entity where none is found.
pub proof fn lemma_none_taken(
    claims: Seq<UniqueClaim>,
    datoms: Seq<DatomView>,
    schema: Schema,
    owned: Seq<Seq<u8>>,
    i: int,
)
    requires
        first_taken(claims, datoms, schema, owned) is None,
        0 <= i < claims.len(),
    ensures
        !commit::taken(
            datoms,
            schema,
            claims[i],
            owners::owner_in(owned, claims[i].attribute, claims[i].value)->Ok_0,
        ),
    decreases claims.len(),
{
    if i < claims.len() - 1 {
        lemma_none_taken(claims.drop_last(), datoms, schema, owned, i);
    }
}

/// Where some claim is to a value of another entity, it is found.
pub proof fn lemma_some_taken(
    claims: Seq<UniqueClaim>,
    datoms: Seq<DatomView>,
    schema: Schema,
    owned: Seq<Seq<u8>>,
) -> (k: int)
    requires
        first_taken(claims, datoms, schema, owned) is Some,
    ensures
        0 <= k < claims.len(),
        commit::taken(
            datoms,
            schema,
            claims[k],
            owners::owner_in(owned, claims[k].attribute, claims[k].value)->Ok_0,
        ),
    decreases claims.len(),
{
    let front = claims.drop_last();
    if first_taken(front, datoms, schema, owned) is Some {
        let k = lemma_some_taken(front, datoms, schema, owned);
        assert(front[k] == claims[k]);
        k
    } else {
        (claims.len() - 1) as int
    }
}

/// Whether unique values stay unique, over a cursor on the visible entries by value, attribute
/// and entity.
pub fn check_unique<I: Index>(datoms: &[Datom], schema: &Schema, iterator: &mut I) -> (r: Result<
    (),
    Error,
>)
    requires
        old(iterator).inv(),
        old(iterator).position() == 0,
    ensures
        match r {
            Ok(_) => unique_fault(datoms.deep_view(), *schema, old(iterator).entries()) is None,
            Err(e) => old(iterator).reliable() ==> unique_fault(
                datoms.deep_view(),
                *schema,
                old(iterator).entries(),
            ) == Some(e@),
        },
{
    let ghost facts = datoms.deep_view();
    let ghost owned = iterator.entries();
    let ghost claims = commit::claims(facts, *schema);
    let lookups = match unique_lookups(datoms, schema) {
        Ok(lookups) => lookups,
        Err(e) => {
            return Err(e);
        },
    };
    assert(lookups@.len() == claims.len());
    assert forall|i: int| 0 <= i < claims.len() implies (#[trigger] claims[i]).attribute
        == lookups@[i].0 && claims[i].value == lookups@[i].1@ by {
        assert(commit::lookups_of(lookups@)[i] == claims[i]);
    }
    let found = match find_owners(&lookups, iterator) {
        Ok(found) => found,
        Err(e) => {
            proof {
                if old(iterator).reliable() {
                    let n = choose|n: int|
                        0 <= n < lookups@.len() && owners::owner_in(
                            owned,
                            (#[trigger] lookups@[n]).0,
                            lookups@[n].1@,
                        ) == Err::<Option<i64>, ErrorView>(e@) && forall|j: int|
                            0 <= j < n ==> owners::owner_in(
                                owned,
                                (#[trigger] lookups@[j]).0,
                                lookups@[j].1@,
                            ) is Ok;
                    assert(claims[n].attribute == lookups@[n].0);
                    assert forall|i: int| 0 <= i < n implies owners::owner_in(
                        owned,
                        (#[trigger] claims[i]).attribute,
                        claims[i].value,
                    ) is Ok by {
                        assert(owners::owner_in(owned, lookups@[i].0, lookups@[i].1@) is Ok);
                    }
                    lemma_unreadable(claims, owned, n);
                }
            }
            return Err(e);
        },
    };
    proof {
        assert forall|i: int| 0 <= i < claims.len() implies owners::owner_in(
            owned,
            (#[trigger] claims[i]).attribute,
            claims[i].value,
        ) == Ok::<Option<i64>, ErrorView>(found@[i]) by {}
        lemma_unreadable(claims, owned, claims.len() as int);
    }
    let checked = validate_unique_constraints(datoms, schema, &found);
    proof {
        match &checked {
            Ok(_) => {
                assert forall|i: int| 0 <= i < claims.len() implies !commit::taken(
                    facts,
                    *schema,
                    #[trigger] claims[i],
                    owners::owner_in(owned, claims[i].attribute, claims[i].value)->Ok_0,
                ) by {
                    assert(!commit::taken(facts, *schema, claims[i], found@[i]));
                }
                lemma_taken(claims, facts, *schema, owned, claims.len() as int);
            },
            Err(e) => {
                let n = choose|k: int|
                    0 <= k < found@.len() && commit::owned_first(facts, *schema, found@, k) && e@
                        == ErrorView::UniqueOwned(
                        claims[k].ident,
                        claims[k].value,
                        (#[trigger] found@[k]).unwrap(),
                    );
                assert(owners::owner_in(owned, claims[n].attribute, claims[n].value) == Ok::<
                    Option<i64>,
                    ErrorView,
                >(found@[n]));
                assert forall|i: int| 0 <= i < n implies !commit::taken(
                    facts,
                    *schema,
                    #[trigger] claims[i],
                    owners::owner_in(owned, claims[i].attribute, claims[i].value)->Ok_0,
                ) by {
                    assert(!commit::taken(facts, *schema, claims[i], found@[i]));
                }
                lemma_taken(claims, facts, *schema, owned, n);
            },
        }
    }
    checked
}

impl Indexer {
    /// The final facts of a transaction: its facts and those of the transaction itself, less what
    /// stands already, with what they replace retracted, where unique values stay unique. Reads the
    /// visible entries by entity, attribute and value, and by value, attribute and entity.
    pub fn check_facts<I: Index, J: Index>(
        &self,
        tx_key: TxKey,
        tx_eid: i64,
        datoms: Vec<Datom>,
        vocabulary: &TxVocabulary,
        current: &mut I,
        owned: &mut J,
    ) -> (r: Result<Vec<Datom>, Error>)
        requires
            old(current).inv(),
            old(current).position() == 0,
            old(owned).inv(),
            old(owned).position() == 0,
        ensures
            ({
                let decided = checked(
                    with_tx_entity(datoms.deep_view(), tx_key, tx_eid, *vocabulary),
                    self.metadata.schema,
                    self.metadata.partition_map@,
                    old(current).entries(),
                    old(owned).entries(),
                );
                match r {
                    Ok(written) => decided == Ok::<Seq<DatomView>, ErrorView>(written.deep_view()),
                    Err(e) => old(current).reliable() && old(owned).reliable() ==> decided == Err::<
                        Seq<DatomView>,
                        ErrorView,
                    >(e@),
                }
            }),
    {
        let ghost facts = with_tx_entity(datoms.deep_view(), tx_key, tx_eid, *vocabulary);
        let ghost schema = self.metadata.schema;
        let written = match self.prepare_commit(datoms, tx_key, tx_eid, vocabulary, current) {
            Ok(written) => written,
            Err(e) => {
                proof {
                    if commit::assertions_known(facts, schema) {
                        commit::lemma_none_unknown(facts, schema);
                    }
                }
                return Err(e);
            },
        };
        proof {
            commit::lemma_none_unknown(facts, schema);
        }
        match check_unique(&written, &self.metadata.schema, owned) {
            Ok(_) => Ok(written),
            Err(e) => Err(e),
        }
    }

    /// What is to be written of a transaction that aborts. Where even that has no entries, nothing
    /// can be written, and the result says why.
    pub fn refuse(&self, tx_key: TxKey, error: String, vocabulary: &TxVocabulary) -> (r: Result<
        TxWrite,
        String,
    >)
        requires
            state::may_begin(self.metadata.partition_map@),
        ensures
            refused(*self, tx_key, error@, *vocabulary, r),
    {
        let (pending, tx_eid) = self.begin();
        let shown = error.clone();
        let ghost facts = abort_facts(tx_key, tx_eid, error@, *vocabulary);
        match self.prepare_abort(tx_key, tx_eid, shown, vocabulary) {
            Ok(entries) => {
                proof {
                    keys::lemma_none_unknown(facts, self.metadata.schema);
                }
                Ok(
                    TxWrite { tx_key, tx_eid, pending, entries, schema: None, error: Some(error) },
                )
            },
            Err(e) => {
                let cause = e.message();
                Err(Indexer::abort_failure(tx_key, cause.as_str(), error.as_str()))
            },
        }
    }

    /// What is to be written of a transaction whose facts were checked, by what the rules of the
    /// schema say of them: that it commits, with the pending counters, which hold every number that
    /// was given out for it, and with the schema as it changes; or that it aborts, and then the
    /// pending counters and the change are dropped.
    pub fn conclude(
        &self,
        tx_key: TxKey,
        tx_eid: i64,
        pending: PartitionMap,
        written: &Vec<Datom>,
        verdict: Verdict,
        vocabulary: &TxVocabulary,
    ) -> (r: Result<TxWrite, String>)
        requires
            state::may_begin(self.metadata.partition_map@),
        ensures
            concluded(*self, tx_key, tx_eid, pending, written.deep_view(), verdict, *vocabulary, r),
    {
        let schema = match verdict {
            Verdict::Refused(error) => {
                return self.refuse(tx_key, error, vocabulary);
            },
            Verdict::Accepted(schema) => schema,
        };
        match self.index_entries(written, tx_eid) {
            Ok(entries) => {
                proof {
                    keys::lemma_none_unknown(written.deep_view(), self.metadata.schema);
                }
                Ok(TxWrite { tx_key, tx_eid, pending, entries, schema, error: None })
            },
            Err(e) => self.refuse(tx_key, e.message(), vocabulary),
        }
    }

    /// What is to be written of a transaction: that it commits, with its facts, the pending
    /// counters and the schema as it changes, or, where its facts are refused, by themselves or by
    /// the rules of the schema, that it aborts.
    pub fn transact<I: Index, J: Index, V: Fn(&Vec<Datom>) -> Verdict>(
        &self,
        tx_key: TxKey,
        tx_eid: i64,
        pending: PartitionMap,
        datoms: Vec<Datom>,
        vocabulary: &TxVocabulary,
        current: &mut I,
        owned: &mut J,
        rules: V,
    ) -> (r: Result<TxWrite, String>)
        requires
            state::may_begin(self.metadata.partition_map@),
            old(current).inv(),
            old(current).position() == 0,
            old(owned).inv(),
            old(owned).position() == 0,
            forall|facts: Vec<Datom>| #[trigger] call_requires(rules, (&facts,)),
        ensures
            ({
                let decided = checked(
                    with_tx_entity(datoms.deep_view(), tx_key, tx_eid, *vocabulary),
                    self.metadata.schema,
                    self.metadata.partition_map@,
                    old(current).entries(),
                    old(owned).entries(),
                );
                let told = exists|e: ErrorView|
                    refused(*self, tx_key, #[trigger] error::message_of(e), *vocabulary, r);
                let reliable = old(current).reliable() && old(owned).reliable();
                match decided {
                    Ok(written) => judged(
                        rules,
                        *self,
                        tx_key,
                        tx_eid,
                        pending,
                        written,
                        *vocabulary,
                        r,
                    ) || !reliable && told,
                    Err(e) => if reliable {
                        refused(*self, tx_key, error::message_of(e), *vocabulary, r)
                    } else {
                        told
                    },
                }
            }),
    {
        match self.check_facts(tx_key, tx_eid, datoms, vocabulary, current, owned) {
            Ok(written) => {
                let verdict = rules(&written);
                let ghost said = verdict;
                let r = self.conclude(tx_key, tx_eid, pending, &written, verdict, vocabulary);
                assert(call_ensures(rules, (&written,), said));
                r
            },
            Err(e) => {
                let ghost shown = e@;
                let r = self.refuse(tx_key, e.message(), vocabulary);
                assert(refused(*self, tx_key, error::message_of(shown), *vocabulary, r));
                r
            },
        }
    }

    /// What is to be written after a write failed: of a transaction that was to commit, that it
    /// aborts; of one that was to abort, nothing, and the result says why.
    pub fn write_failed(&self, write: TxWrite, cause: String, vocabulary: &TxVocabulary) -> (r:
        Result<TxWrite, String>)
        requires
            state::may_begin(self.metadata.partition_map@),
        ensures
            match write.error {
                None => refused(*self, write.tx_key, cause@, *vocabulary, r),
                Some(error) => r matches Err(told) && told@ == state::abort_failure_text(
                    write.tx_key,
                    cause@,
                    error@,
                ),
            },
    {
        match write.error {
            None => self.refuse(write.tx_key, cause, vocabulary),
            Some(error) => Err(
                Indexer::abort_failure(write.tx_key, cause.as_str(), error.as_str()),
            ),
        }
    }

    /// Takes over what has been written, and gives what is to be told.
    pub fn complete(&mut self, write: TxWrite) -> (r: TxMessage)
        requires
            write.schema is Some ==> old(self).metadata.generation < u64::MAX,
        ensures
            final(self).metadata.partition_map == write.pending,
            final(self).metadata.schema == (match (write.error, write.schema) {
                (None, Some(changed)) => changed,
                _ => old(self).metadata.schema,
            }),
            final(self).metadata.generation == old(self).metadata.generation + (if write.error
                is None && write.schema is Some {
                1int
            } else {
                0
            }),
            final(self).latest_indexed_tx == r.basis,
            r == (TxMessage {
                tx_key: write.tx_key,
                basis: Some(TxBasis { tx_key: write.tx_key, tx_eid: write.tx_eid }),
                error: write.error,
            }),
    {
        match write.error {
            None => self.commit(write.tx_key, write.tx_eid, write.pending, write.schema),
            Some(error) => self.abort(write.tx_key, write.tx_eid, write.pending, error),
        }
    }
}

/// Whether a transaction is to be written as committed, with these facts, counters and schema.
pub open spec fn committed_write(
    indexer: Indexer,
    tx_key: TxKey,
    tx_eid: i64,
    pending: PartitionMap,
    written: Seq<DatomView>,
    schema: Option<Schema>,
    r: Result<TxWrite, String>,
) -> bool {
    r matches Ok(write) && {
        &&& write.tx_key == tx_key
        &&& write.tx_eid == tx_eid
        &&& write.pending == pending
        &&& write.schema == schema
        &&& write.error is None
        &&& write.entries.deep_view() == keys::all_entries(
            written,
            indexer.metadata.schema,
            tx_eid,
        )
    }
}

/// Whether that is written of a transaction with these final facts which the rules' verdict asks
/// for.
pub open spec fn concluded(
    indexer: Indexer,
    tx_key: TxKey,
    tx_eid: i64,
    pending: PartitionMap,
    written: Seq<DatomView>,
    verdict: Verdict,
    vocabulary: TxVocabulary,
    r: Result<TxWrite, String>,
) -> bool {
    match verdict {
        Verdict::Refused(error) => refused(indexer, tx_key, error@, vocabulary, r),
        Verdict::Accepted(schema) => match keys::first_unknown(written, indexer.metadata.schema) {
            Some(name) => refused(
                indexer,
                tx_key,
                error::message_of(ErrorView::UnknownAttribute(name)),
                vocabulary,
                r,
            ),
            None => committed_write(indexer, tx_key, tx_eid, pending, written, schema, r),
        },
    }
}

/// Whether that is written which the rules' verdict on the final facts asks for.
pub open spec fn judged<V: Fn(&Vec<Datom>) -> Verdict>(
    rules: V,
    indexer: Indexer,
    tx_key: TxKey,
    tx_eid: i64,
    pending: PartitionMap,
    written: Seq<DatomView>,
    vocabulary: TxVocabulary,
    r: Result<TxWrite, String>,
) -> bool {
    exists|facts: Vec<Datom>, verdict: Verdict|
        facts.deep_view() == written && #[trigger] call_ensures(rules, (&facts,), verdict)
            && concluded(
            indexer,
            tx_key,
            tx_eid,
            pending,
            written,
            verdict,
            vocabulary,
            r,
        )
}

/// Whether a transaction is to be written as aborted for this reason, or, where the attributes of
/// that are not known, it is said why nothing can be written.
pub open spec fn refused(
    indexer: Indexer,
    tx_key: TxKey,
    error: Seq<char>,
    vocabulary: TxVocabulary,
    r: Result<TxWrite, String>,
) -> bool {
    let counters = indexer.metadata.partition_map@;
    let tx_eid = state::next_tx_eid(counters) as i64;
    let facts = abort_facts(tx_key, tx_eid, error, vocabulary);
    match keys::first_unknown(facts, indexer.metadata.schema) {
        Some(name) => r matches Err(told) && told@ == state::abort_failure_text(
            tx_key,
            error::message_of(ErrorView::UnknownAttribute(name)),
            error,
        ),
        None => r matches Ok(write) && {
            &&& write.tx_key == tx_key
            &&& write.tx_eid == tx_eid
            &&& write.pending@ == state::after_begin(counters)
            &&& write.schema is None
            &&& write.error matches Some(told) && told@ == error
            &&& write.entries.deep_view() == keys::all_entries(
                facts,
                indexer.metadata.schema,
                tx_eid,
            )
        },
    }
}

/// Whether two lists hold the same facts, in whatever order.
pub open spec fn same_facts(a: Seq<IndexedFact>, b: Seq<IndexedFact>) -> bool {
    forall|f: IndexedFact| #[trigger] a.contains(f) == b.contains(f)
}

/// Whether a unique value belongs to at most one entity.
pub open spec fn unique_held(facts: Seq<IndexedFact>, attribute: i64, value: Value) -> bool {
    forall|e: i64, f: i64|
        #![trigger laws::fact_holds(facts, e, attribute, value, i64::MAX), laws::fact_holds(facts, f, attribute, value, i64::MAX)]
        laws::fact_holds(facts, e, attribute, value, i64::MAX) && laws::fact_holds(
            facts,
            f,
            attribute,
            value,
            i64::MAX,
        ) ==> e == f
}

/// Whether each unique value belongs to at most one entity.
pub open spec fn all_unique_held(facts: Seq<IndexedFact>, schema: Schema) -> bool {
    forall|name: Seq<char>, value: Value|
        schema.find(name) is Some && schema.find(name).unwrap().unique ==> #[trigger] unique_held(
            facts,
            schema.find(name).unwrap().id,
            value,
        )
}

/// What holds does not depend on the order of the facts.
proof fn lemma_same_held(
    a: Seq<IndexedFact>,
    b: Seq<IndexedFact>,
    entity: i64,
    attribute: i64,
    value: Value,
)
    requires
        same_facts(a, b),
        laws::fact_holds(a, entity, attribute, value, i64::MAX),
    ensures
        laws::fact_holds(b, entity, attribute, value, i64::MAX),
{
    one_value::lemma_holds(a, entity, attribute, value, i64::MAX);
    one_value::lemma_holds(b, entity, attribute, value, i64::MAX);
    let i = choose|i: int|
        0 <= i < a.len() && #[trigger] one_value::decides(
            a,
            i,
            entity,
            attribute,
            value,
            i64::MAX,
        );
    assert(a.contains(a[i]));
    let k = b.index_of(a[i]);
    assert forall|j: int|
        0 <= j < b.len() && one_value::says(#[trigger] b[j], entity, attribute, value)
            && b[j].tx_eid <= i64::MAX implies !one_value::newer_fact(b[j], b[k]) by {
        assert(b.contains(b[j]));
        assert(a.contains(b[j]));
        let n = a.index_of(b[j]);
        assert(one_value::says(a[n], entity, attribute, value));
    }
    assert(one_value::decides(b, k, entity, attribute, value, i64::MAX));
}

/// A claim is to a value of a unique attribute.
proof fn lemma_claim_unique(datoms: Seq<DatomView>, schema: Schema, k: int)
    requires
        0 <= k < commit::claims(datoms, schema).len(),
    ensures
        ({
            let c = commit::claims(datoms, schema)[k];
            schema.find(c.ident) matches Some(info) && info.unique && info.id == c.attribute
        }),
    decreases datoms.len(),
{
    if datoms.len() > 0 {
        let before = commit::claims(datoms.drop_last(), schema);
        if k < before.len() {
            lemma_claim_unique(datoms.drop_last(), schema, k);
        }
    }
}

/// The owner that is read of a unique value is its owner.
pub proof fn lemma_owner_read(
    facts: Seq<IndexedFact>,
    by_value: Seq<IndexedFact>,
    attribute: i64,
    value: Value,
)
    requires
        laws::ascending(laws::version_keys(owners::owner_versions(by_value))),
        same_facts(facts, by_value),
        unique_held(facts, attribute, value),
    ensures
        owners::owner_in(owners::visible_owners(by_value), attribute, value) matches Ok(owner)
            && unique_value::is_owner(facts, attribute, value, owner),
{
    assert forall|e: i64| #[trigger]
        laws::fact_holds(by_value, e, attribute, value, i64::MAX) == laws::fact_holds(
            facts,
            e,
            attribute,
            value,
            i64::MAX,
        ) by {
        if laws::fact_holds(by_value, e, attribute, value, i64::MAX) {
            lemma_same_held(by_value, facts, e, attribute, value);
        }
        if laws::fact_holds(facts, e, attribute, value, i64::MAX) {
            lemma_same_held(facts, by_value, e, attribute, value);
        }
    }
    owners::law_owner_is_read(by_value, attribute, value);
    let owner = owners::owner_in(owners::visible_owners(by_value), attribute, value)->Ok_0;
    assert forall|e: i64| #[trigger]
        laws::fact_holds(facts, e, attribute, value, i64::MAX) == (owner == Some(e)) by {
        assert(laws::fact_holds(by_value, e, attribute, value, i64::MAX) == (owner == Some(e)));
    }
}

/// Where facts are not refused, and unique values belong to one entity each, they do so after the
/// transaction too: what is checked before the write holds of what is written. The facts stand in
/// the indexes by entity, attribute and value, and by value, attribute and entity.
pub proof fn law_commit_keeps_values_unique(
    facts: Seq<IndexedFact>,
    by_value: Seq<IndexedFact>,
    datoms: Seq<DatomView>,
    schema: Schema,
    counters: Map<u32, i64>,
    tx_eid: i64,
    written: Seq<DatomView>,
)
    requires
        laws::ascending(laws::version_keys(owners::owner_versions(by_value))),
        same_facts(facts, by_value),
        forall|i: int| 0 <= i < facts.len() ==> (#[trigger] facts[i]).tx_eid < tx_eid,
        one_value::numbers_apart(schema),
        all_unique_held(facts, schema),
        keys::first_unknown(written, schema) is None,
        checked(
            datoms,
            schema,
            counters,
            one_value::current_entries(facts),
            owners::visible_owners(by_value),
        ) == Ok::<Seq<DatomView>, ErrorView>(written),
    ensures
        all_unique_held(one_value::with_written(facts, written, schema, tx_eid), schema),
{
    let after = one_value::with_written(facts, written, schema, tx_eid);
    let owned = owners::visible_owners(by_value);
    let claims = commit::claims(written, schema);
    let found = Seq::new(
        claims.len(),
        |k: int| owners::owner_in(owned, claims[k].attribute, claims[k].value)->Ok_0,
    );
    keys::lemma_all_known(written, schema);
    assert forall|k: int| 0 <= k < found.len() implies unique_value::is_owner(
        facts,
        claims[k].attribute,
        claims[k].value,
        #[trigger] found[k],
    ) && !commit::taken(written, schema, claims[k], found[k]) by {
        lemma_claim_unique(written, schema, k);
        assert(unique_held(facts, schema.find(claims[k].ident).unwrap().id, claims[k].value));
        lemma_owner_read(facts, by_value, claims[k].attribute, claims[k].value);
        lemma_none_taken(claims, written, schema, owned, k);
    }
    assert forall|name: Seq<char>, value: Value|
        schema.find(name) is Some && schema.find(name).unwrap().unique implies #[trigger] unique_held(
        after,
        schema.find(name).unwrap().id,
        value,
    ) by {
        let a = schema.find(name).unwrap().id;
        assert(unique_held(facts, a, value));
        lemma_owner_read(facts, by_value, a, value);
        let owner = owners::owner_in(owned, a, value)->Ok_0;
        assert forall|e: i64, f: i64|
            #![trigger laws::fact_holds(after, e, a, value, i64::MAX), laws::fact_holds(after, f, a, value, i64::MAX)]
            laws::fact_holds(after, e, a, value, i64::MAX) && laws::fact_holds(
                after,
                f,
                a,
                value,
                i64::MAX,
            ) implies e == f by {
            unique_value::law_unique_kept(
                facts,
                written,
                schema,
                found,
                tx_eid,
                i64::MAX,
                name,
                value,
                owner,
                e,
                f,
            );
        }
    }
}

/// A transaction that aborts changes nothing but what is known of itself: whether a fact of another
/// entity holds is as before.
pub proof fn law_abort_keeps_other_facts(
    facts: Seq<IndexedFact>,
    tx_key: TxKey,
    tx_eid: i64,
    error: Seq<char>,
    vocabulary: TxVocabulary,
    schema: Schema,
    entity: i64,
    attribute: i64,
    value: Value,
    as_of: i64,
)
    requires
        entity != tx_eid,
    ensures
        laws::fact_holds(
            one_value::with_written(
                facts,
                abort_facts(tx_key, tx_eid, error, vocabulary),
                schema,
                tx_eid,
            ),
            entity,
            attribute,
            value,
            as_of,
        ) == laws::fact_holds(facts, entity, attribute, value, as_of),
{
    let written = abort_facts(tx_key, tx_eid, error, vocabulary);
    let after = one_value::with_written(facts, written, schema, tx_eid);
    one_value::lemma_holds(facts, entity, attribute, value, as_of);
    one_value::lemma_holds(after, entity, attribute, value, as_of);
    assert forall|i: int| 0 <= i < written.len() implies (#[trigger] written[i]).entity
        == tx_eid by {}
    assert forall|i: int| facts.len() <= i < after.len() implies !one_value::says(
        #[trigger] after[i],
        entity,
        attribute,
        value,
    ) by {
        assert(after[i] == one_value::indexed(written[i - facts.len()], schema, tx_eid));
    }
    assert forall|i: int| 0 <= i < facts.len() implies one_value::decides(
        facts,
        i,
        entity,
        attribute,
        value,
        as_of,
    ) == #[trigger] one_value::decides(after, i, entity, attribute, value, as_of) by {
        if one_value::decides(facts, i, entity, attribute, value, as_of) {
            assert forall|j: int|
                0 <= j < after.len() && one_value::says(
                    #[trigger] after[j],
                    entity,
                    attribute,
                    value,
                ) && after[j].tx_eid <= as_of implies !one_value::newer_fact(
                after[j],
                after[i],
            ) by {
                assert(after[j] == facts[j]);
            }
        }
        if one_value::decides(after, i, entity, attribute, value, as_of) {
            assert forall|j: int|
                0 <= j < facts.len() && one_value::says(
                    #[trigger] facts[j],
                    entity,
                    attribute,
                    value,
                ) && facts[j].tx_eid <= as_of implies !one_value::newer_fact(
                facts[j],
                facts[i],
            ) by {
                assert(after[j] == facts[j]);
            }
        }
    }
    if laws::fact_holds(after, entity, attribute, value, as_of) {
        let i = choose|i: int|
            0 <= i < after.len() && #[trigger] one_value::decides(
                after,
                i,
                entity,
                attribute,
                value,
                as_of,
            );
        assert(i < facts.len());
    }
    if laws::fact_holds(facts, entity, attribute, value, as_of) {
        let i = choose|i: int|
            0 <= i < facts.len() && #[trigger] one_value::decides(
                facts,
                i,
                entity,
                attribute,
                value,
                as_of,
            );
        assert(one_value::decides(after, i, entity, attribute, value, as_of));
    }
}

} // verus!
