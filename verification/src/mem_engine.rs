//! An in-memory storage engine with three columns of ordered key-value pairs.

use crate::error::Error;
use crate::lex::has_prefix;
use crate::sorted_kv::{entry_view, is_next_entry, is_prev_entry, is_scan, SortedKv};
use vstd::prelude::*;

verus! {

/// The columns a storage engine keeps apart.
#[derive(PartialEq, Eq, Structural, Debug, Clone, Copy)]
pub enum DBColumnFamily {
    Default,
    Instance,
    Status,
}

/// One write of a batch.
#[derive(Debug, Clone)]
pub enum WriteEntry {
    Nil,
    Put(DBColumnFamily, Vec<u8>, Vec<u8>),
    Delete(DBColumnFamily, Vec<u8>),
}

/// The contents of an engine: one map of keys to values per column.
pub type EngineView = Map<DBColumnFamily, Map<Seq<u8>, Seq<u8>>>;

/// An engine with nothing stored.
pub open spec fn empty_engine() -> EngineView {
    Map::new(|cf: DBColumnFamily| true, |cf: DBColumnFamily| Map::<Seq<u8>, Seq<u8>>::empty())
}

/// `v` after storing `val` under `key` in column `cf`.
pub open spec fn engine_set(v: EngineView, cf: DBColumnFamily, key: Seq<u8>, val: Seq<u8>) -> EngineView {
    v.insert(cf, v[cf].insert(key, val))
}

/// `v` after removing `key` from column `cf`.
pub open spec fn engine_delete(v: EngineView, cf: DBColumnFamily, key: Seq<u8>) -> EngineView {
    v.insert(cf, v[cf].remove(key))
}

/// A write of a batch, its key and value as byte sequences.
pub enum WriteOp {
    Nil,
    Put(DBColumnFamily, Seq<u8>, Seq<u8>),
    Delete(DBColumnFamily, Seq<u8>),
}

/// The write that `e` makes.
pub open spec fn op_of(e: WriteEntry) -> WriteOp {
    match e {
        WriteEntry::Nil => WriteOp::Nil,
        WriteEntry::Put(cf, k, val) => WriteOp::Put(cf, k@, val@),
        WriteEntry::Delete(cf, k) => WriteOp::Delete(cf, k@),
    }
}

/// The writes that a batch makes, first to last.
pub open spec fn ops_of(es: Seq<WriteEntry>) -> Seq<WriteOp> {
    es.map_values(|e: WriteEntry| op_of(e))
}

/// `v` after one write.
pub open spec fn apply_op(v: EngineView, op: WriteOp) -> EngineView {
    match op {
        WriteOp::Nil => v,
        WriteOp::Put(cf, k, val) => engine_set(v, cf, k, val),
        WriteOp::Delete(cf, k) => engine_delete(v, cf, k),
    }
}

/// `v` after the writes of `ops`, first to last.
pub open spec fn apply_ops(v: EngineView, ops: Seq<WriteOp>) -> EngineView
    decreases ops.len(),
{
    if ops.len() == 0 {
        v
    } else {
        apply_op(apply_ops(v, ops.drop_last()), ops.last())
    }
}

/// A read after a write gives what was written; every other key, of every
/// column, reads as before.
pub proof fn lemma_read_after_set(
    v: EngineView,
    cf: DBColumnFamily,
    key: Seq<u8>,
    val: Seq<u8>,
    cf2: DBColumnFamily,
    key2: Seq<u8>,
)
    ensures
        engine_set(v, cf, key, val)[cf].contains_key(key),
        engine_set(v, cf, key, val)[cf][key] == val,
        cf2 != cf || key2 != key ==> engine_set(v, cf, key, val)[cf2].contains_key(key2)
            == v[cf2].contains_key(key2) && engine_set(v, cf, key, val)[cf2][key2] == v[cf2][key2],
{
}

/// After a delete the key reads as absent; every other key, of every
/// column, reads as before.
pub proof fn lemma_read_after_delete(
    v: EngineView,
    cf: DBColumnFamily,
    key: Seq<u8>,
    cf2: DBColumnFamily,
    key2: Seq<u8>,
)
    ensures
        !engine_delete(v, cf, key)[cf].contains_key(key),
        cf2 != cf || key2 != key ==> engine_delete(v, cf, key)[cf2].contains_key(key2)
            == v[cf2].contains_key(key2) && engine_delete(v, cf, key)[cf2][key2] == v[cf2][key2],
{
}

/// MemEngine is an in-memory storage for testing or non-persistent
/// environments: three ordered tables, one per column.
pub struct MemEngine {
    default_cf: SortedKv,
    instance_cf: SortedKv,
    status_cf: SortedKv,
    /// The tables as they were when the open transaction began.
    saved: Option<(SortedKv, SortedKv, SortedKv)>,
}

impl MemEngine {
    /// The table of column `cf`.
    pub closed spec fn table(&self, cf: DBColumnFamily) -> SortedKv {
        match cf {
            DBColumnFamily::Default => self.default_cf,
            DBColumnFamily::Instance => self.instance_cf,
            DBColumnFamily::Status => self.status_cf,
        }
    }

    /// Every table keeps its keys in order.
    pub closed spec fn wf(&self) -> bool {
        &&& self.default_cf.wf()
        &&& self.instance_cf.wf()
        &&& self.status_cf.wf()
        &&& match self.saved {
            Some(t) => t.0.wf() && t.1.wf() && t.2.wf(),
            None => true,
        }
    }

    /// A transaction is open.
    pub closed spec fn in_trans(&self) -> bool {
        self.saved is Some
    }

    /// The contents when the open transaction began.
    pub closed spec fn trans_start(&self) -> EngineView {
        let t = self.saved->Some_0;
        Map::new(
            |cf: DBColumnFamily| true,
            |cf: DBColumnFamily|
                match cf {
                    DBColumnFamily::Default => t.0@,
                    DBColumnFamily::Instance => t.1@,
                    DBColumnFamily::Status => t.2@,
                },
        )
    }
}

impl MemEngine {
    /// A stored value is held in memory: its length fits in a `usize`.
    pub proof fn lemma_value_fits(&self, cf: DBColumnFamily, k: Seq<u8>)
        requires
            self@[cf].contains_key(k),
        ensures
            self@[cf][k].len() <= usize::MAX,
    {
        self.table(cf).lemma_value_fits(k);
    }
}

impl View for MemEngine {
    type V = EngineView;

    closed spec fn view(&self) -> EngineView {
        Map::new(|cf: DBColumnFamily| true, |cf: DBColumnFamily| self.table(cf)@)
    }
}

impl MemEngine {
    /// A new engine with nothing stored; it cannot fail.
    pub fn new() -> (r: Result<MemEngine, Error>)
        ensures
            match r {
                Ok(e) => e.wf() && e@ == empty_engine() && !e.in_trans(),
                Err(_) => false,
            },
    {
        let e = MemEngine {
            default_cf: SortedKv::new(),
            instance_cf: SortedKv::new(),
            status_cf: SortedKv::new(),
            saved: None,
        };
        assert(e@ =~= empty_engine());
        Ok(e)
    }


    /// Stores `value` under `key` in column `cf`.
    pub fn set(&mut self, cf: DBColumnFamily, key: &[u8], value: &[u8]) -> (r: Result<(), Error>)
        requires
            old(self).wf(),
        ensures
            final(self).wf(),
            r is Ok,
            final(self)@ == engine_set(old(self)@, cf, key@, value@),
            final(self).in_trans() == old(self).in_trans(),
            final(self).trans_start() == old(self).trans_start(),
    {
        match cf {
            DBColumnFamily::Default => self.default_cf.set(key, value),
            DBColumnFamily::Instance => self.instance_cf.set(key, value),
            DBColumnFamily::Status => self.status_cf.set(key, value),
        }
        assert(self@ =~= engine_set(old(self)@, cf, key@, value@));
        Ok(())
    }

    /// The value stored under `key` in column `cf`.
    pub fn get(&self, cf: DBColumnFamily, key: &[u8]) -> (r: Result<Option<Vec<u8>>, Error>)
        requires
            self.wf(),
        ensures
            match r {
                Ok(Some(v)) => self@[cf].contains_key(key@) && self@[cf][key@] == v@,
                Ok(None) => !self@[cf].contains_key(key@),
                Err(_) => false,
            },
    {
        let v = match cf {
            DBColumnFamily::Default => self.default_cf.get(key),
            DBColumnFamily::Instance => self.instance_cf.get(key),
            DBColumnFamily::Status => self.status_cf.get(key),
        };
        Ok(v)
    }

    /// Removes `key` from column `cf`.
    pub fn delete(&mut self, cf: DBColumnFamily, key: &[u8]) -> (r: Result<(), Error>)
        requires
            old(self).wf(),
        ensures
            final(self).wf(),
            r is Ok,
            final(self)@ == engine_delete(old(self)@, cf, key@),
            final(self).in_trans() == old(self).in_trans(),
            final(self).trans_start() == old(self).trans_start(),
    {
        match cf {
            DBColumnFamily::Default => self.default_cf.delete(key),
            DBColumnFamily::Instance => self.instance_cf.delete(key),
            DBColumnFamily::Status => self.status_cf.delete(key),
        }
        assert(self@ =~= engine_delete(old(self)@, cf, key@));
        Ok(())
    }

    /// The entry of column `cf` with the smallest key after `key` (or equal
    /// to it, when `inclusive` is set).
    pub fn next(&self, cf: DBColumnFamily, key: &[u8], inclusive: bool) -> (r: Option<(Vec<u8>, Vec<u8>)>)
        requires
            self.wf(),
        ensures
            is_next_entry(self@[cf], key@, inclusive, entry_view(r)),
    {
        match cf {
            DBColumnFamily::Default => self.default_cf.next(key, inclusive),
            DBColumnFamily::Instance => self.instance_cf.next(key, inclusive),
            DBColumnFamily::Status => self.status_cf.next(key, inclusive),
        }
    }

    /// The entry of column `cf` with the greatest key before `key` (or equal
    /// to it, when `inclusive` is set).
    pub fn prev(&self, cf: DBColumnFamily, key: &[u8], inclusive: bool) -> (r: Option<(Vec<u8>, Vec<u8>)>)
        requires
            self.wf(),
        ensures
            is_prev_entry(self@[cf], key@, inclusive, entry_view(r)),
    {
        match cf {
            DBColumnFamily::Default => self.default_cf.prev(key, inclusive),
            DBColumnFamily::Instance => self.instance_cf.prev(key, inclusive),
            DBColumnFamily::Status => self.status_cf.prev(key, inclusive),
        }
    }

    /// Applies one write.
    pub fn write_entry(&mut self, e: &WriteEntry)
        requires
            old(self).wf(),
        ensures
            final(self).wf(),
            final(self)@ == apply_op(old(self)@, op_of(*e)),
            final(self).in_trans() == old(self).in_trans(),
            final(self).trans_start() == old(self).trans_start(),
    {
        match e {
            WriteEntry::Nil => {},
            WriteEntry::Put(cf, k, v) => {
                let _ = self.set(*cf, k.as_slice(), v.as_slice());
            },
            WriteEntry::Delete(cf, k) => {
                let _ = self.delete(*cf, k.as_slice());
            },
        }
    }

    /// Applies the writes of `entries`, first to last.
    pub fn write_batch(&mut self, entries: &Vec<WriteEntry>) -> (r: Result<(), Error>)
        requires
            old(self).wf(),
        ensures
            final(self).wf(),
            r is Ok,
            final(self)@ == apply_ops(old(self)@, ops_of(entries@)),
            final(self).in_trans() == old(self).in_trans(),
            final(self).trans_start() == old(self).trans_start(),
    {
        let mut i: usize = 0;
        while i < entries.len()
            invariant
                i <= entries@.len(),
                self.wf(),
                self@ == apply_ops(old(self)@, ops_of(entries@.subrange(0, i as int))),
                self.in_trans() == old(self).in_trans(),
                self.trans_start() == old(self).trans_start(),
            decreases entries@.len() - i,
        {
            proof {
                assert(ops_of(entries@.subrange(0, i + 1)).drop_last() =~= ops_of(
                    entries@.subrange(0, i as int),
                ));
            }
            self.write_entry(&entries[i]);
            i = i + 1;
        }
        proof {
            assert(entries@.subrange(0, i as int) =~= entries@);
        }
        Ok(())
    }

    /// The entries of column `cf` whose key starts with `prefix` and does not
    /// sort before `start`, in key order.
    pub fn scan(&self, cf: DBColumnFamily, start: &[u8], prefix: &[u8]) -> (r: Vec<(Vec<u8>, Vec<u8>)>)
        requires
            self.wf(),
            has_prefix(start@, prefix@),
        ensures
            is_scan(self@[cf], start@, prefix@, r@.map_values(|e: (Vec<u8>, Vec<u8>)| (e.0@, e.1@))),
    {
        match cf {
            DBColumnFamily::Default => self.default_cf.scan(start, prefix),
            DBColumnFamily::Instance => self.instance_cf.scan(start, prefix),
            DBColumnFamily::Status => self.status_cf.scan(start, prefix),
        }
    }

    /// Opens a transaction: what is stored now is what a rollback returns to.
    pub fn begin(&mut self)
        requires
            old(self).wf(),
        ensures
            final(self).wf(),
            final(self)@ == old(self)@,
            final(self).in_trans(),
            final(self).trans_start() == old(self)@,
    {
        let t = (self.default_cf.copy(), self.instance_cf.copy(), self.status_cf.copy());
        self.saved = Some(t);
        proof {
            assert(self.trans_start() =~= old(self)@);
        }
    }

    /// Closes the open transaction, keeping what it wrote.
    pub fn commit(&mut self) -> (r: Result<(), Error>)
        requires
            old(self).wf(),
        ensures
            final(self).wf(),
            final(self)@ == old(self)@,
            !final(self).in_trans(),
            match r {
                Ok(_) => old(self).in_trans(),
                Err(e) => !old(self).in_trans() && e == Error::NoTransaction,
            },
    {
        if self.saved.is_none() {
            return Err(Error::NoTransaction);
        }
        self.saved = None;
        Ok(())
    }

    /// Closes the open transaction, undoing what it wrote.
    pub fn rollback(&mut self) -> (r: Result<(), Error>)
        requires
            old(self).wf(),
        ensures
            final(self).wf(),
            !final(self).in_trans(),
            match r {
                Ok(_) => old(self).in_trans() && final(self)@ == old(self).trans_start(),
                Err(e) => !old(self).in_trans() && e == Error::NoTransaction && final(self)@
                    == old(self)@,
            },
    {
        let saved = self.saved.take();
        match saved {
            Some(t) => {
                self.default_cf = t.0;
                self.instance_cf = t.1;
                self.status_cf = t.2;
                proof {
                    assert(self@ =~= old(self).trans_start());
                }
                Ok(())
            },
            None => Err(Error::NoTransaction),
        }
    }
}

} // verus!
