//! A transaction log in memory.

use vstd::prelude::*;

use crate::byte_string;
use crate::error::{self, Error, ErrorView};
use crate::log::{self, bootstrap_record, Record, RecordView, TxId, TxLog, TxLogReader, TxLogWriter};
use crate::transaction::TxKey;

verus! {

/// A transaction log in memory: the number of a record is its place.
#[derive(Debug)]
pub struct MemoryLog {
    pub txs: Vec<Record>,
}

impl MemoryLog {
    /// An empty log.
    pub fn new() -> (r: Self)
        ensures
            r.inv(),
            r.records() == Seq::<RecordView>::empty(),
    {
        let r = MemoryLog { txs: Vec::new() };
        assert(r.records() =~= Seq::<RecordView>::empty());
        r
    }
}

impl TxLogReader for MemoryLog {
    open spec fn records(&self) -> Seq<RecordView> {
        self.txs.deep_view()
    }

    open spec fn inv(&self) -> bool {
        log::numbered(self.txs.deep_view())
    }

    fn read_txs_after(&self, after_tx_id: Option<TxId>, limit: u16) -> (r: Result<
        Vec<Record>,
        Error,
    >)
        ensures
            r is Ok,
    {
        let ghost all = self.txs.deep_view();
        let ghost rest = log::written_after(all, after_tx_id);
        let start: usize = match after_tx_id {
            None => 0,
            Some(id) => {
                if (id as u64) < self.txs.len() as u64 {
                    id as usize + 1
                } else {
                    self.txs.len()
                }
            },
        };
        assert(all.len() == self.txs@.len());
        proof {
            if let Some(id) = after_tx_id {
                log::lemma_passed_numbered(all, id);
            }
        }
        assert(start == log::passed(all, after_tx_id));
        let count: usize = if self.txs.len() - start < limit as usize {
            self.txs.len() - start
        } else {
            limit as usize
        };
        let mut out: Vec<Record> = Vec::new();
        let mut i: usize = 0;
        assert(out.deep_view() =~= rest.take(0));
        while i < count
            invariant
                i <= count,
                all == self.txs.deep_view(),
                all.len() == self.txs@.len(),
                start + count <= self.txs.len(),
                rest == all.skip(start as int),
                out.deep_view() == rest.take(i as int),
            decreases count - i,
        {
            let ghost earlier = out;
            let record = self.txs[start + i].clone();
            let ghost added = record;
            out.push(record);
            proof {
                byte_string::lemma_deep_push(earlier, out, added);
                assert(added@ == rest[i as int]);
                assert(rest.take(i + 1) =~= rest.take(i as int).push(rest[i as int]));
            }
            i += 1;
        }
        assert(out.deep_view() =~= log::up_to(rest, limit as int));
        Ok(out)
    }
}

impl TxLogWriter for MemoryLog {
    open spec fn has_room(&self) -> bool {
        self.txs@.len() < i64::MAX
    }

    fn append_tx(&mut self, record: Vec<u8>, now: i64) -> (r: Result<TxKey, Error>)
        ensures
            error::told(r) == Ok::<TxKey, ErrorView>(
                TxKey { tx_id: old(self).txs@.len() as i64, system_time: now },
            ),
    {
        let ghost earlier = self.txs;
        let tx_key = TxKey { tx_id: self.txs.len() as i64, system_time: now };
        let record = Record { tx_key, record };
        let ghost added = record;
        self.txs.push(record);
        proof {
            byte_string::lemma_deep_push(earlier, self.txs, added);
            assert(earlier.deep_view().len() == earlier@.len());
        }
        Ok(tx_key)
    }
}

impl TxLog for MemoryLog {
    fn ensure_bootstrap_record(&mut self) -> (r: Result<(), Error>)
        ensures
            error::told(r) == (if old(self).records().len() == 0 || old(self).records()[0] == log::bootstrap() {
                Ok::<(), ErrorView>(())
            } else {
                Err(ErrorView::ForeignStart(old(self).records()[0].tx_key))
            }),
            r is Err ==> *final(self) == *old(self),
    {
        let bootstrap = bootstrap_record();
        assert(self.txs.deep_view().len() == self.txs@.len());
        if self.txs.len() > 0 {
            assert(self.txs.deep_view()[0] == self.txs@[0]@);
            if self.txs[0].same(&bootstrap) {
                Ok(())
            } else {
                Err(Error::ForeignStart(self.txs[0].tx_key))
            }
        } else {
            let ghost earlier = self.txs;
            let ghost added = bootstrap;
            self.txs.push(bootstrap);
            proof {
                byte_string::lemma_deep_push(earlier, self.txs, added);
                assert(self.records() =~= seq![log::bootstrap()]);
            }
            Ok(())
        }
    }
}

} // verus!
