//! The storage interface a replica works with: plain key-value access,
//! transactions, objects stored under keys, column references and
//! instances; and its implementation by the in-memory engine.

use crate::codec::{
    decode_instance, decode_instance_id, decoded_instance, decoded_instance_id, encode_instance,
    encode_instance_id, instance_bytes, instance_id_bytes,
};
use crate::error::{is_parse_error, parse_error, Error};
use crate::keys::{
    instance_key, lemma_ref_key_injective, make_ref_key, ref_key, replica_key_prefix, replica_prefix,
    ToKey,
};
use crate::lex::{has_prefix, lemma_lex_transitive, lex_lt, starts_with};
use crate::mem_engine::{DBColumnFamily, MemEngine};
use crate::qpaxos::{Instance, InstanceId, InstanceView, ReplicaID};
use crate::sorted_kv::{entry_view, is_next_entry, key_after, sorted_keys};
use vstd::prelude::*;
use vstd::string::StringSliceAdditionalSpecFns;

verus! {

/// Walks the keys of a `Base` engine in increasing order from a cursor.
pub struct BaseIter<'a, E: Base> {
    pub cursor: Vec<u8>,
    pub inclusive: bool,
    pub engine: &'a E,
}

impl<'a, E: Base> BaseIter<'a, E> {
    /// The entry with the smallest key after the cursor (or at it, the first
    /// time, when `inclusive` is set); the cursor moves to that key.
    pub fn next(&mut self) -> (r: Option<(Vec<u8>, Vec<u8>)>)
        requires
            old(self).engine.base_wf(),
        ensures
            is_next_entry(old(self).engine.kv_view(), old(self).cursor@, old(self).inclusive, entry_view(r)),
            final(self).engine == old(self).engine,
            !final(self).inclusive,
            match r {
                Some(e) => final(self).cursor@ == e.0@,
                None => final(self).cursor@ == old(self).cursor@,
            },
    {
        let r = self.engine.next_kv(&self.cursor, self.inclusive);
        self.inclusive = false;
        match r {
            Some(kv) => {
                self.cursor = vstd::slice::slice_to_vec(kv.0.as_slice());
                Some(kv)
            },
            None => None,
        }
    }
}

/// Base offers basic key-value access.
pub trait Base: Sized {
    /// What is stored.
    spec fn kv_view(&self) -> Map<Seq<u8>, Seq<u8>>;

    /// The engine is in a usable state.
    spec fn base_wf(&self) -> bool;

    /// Storing `value` under `key` succeeds.
    spec fn set_kv_ok(&self, key: Seq<u8>, value: Seq<u8>) -> bool;

    /// `other` differs from `self` at most in what `kv_view` shows: every
    /// other part of the engine's state is the same.
    spec fn kv_frame(&self, other: Self) -> bool;

    /// Sets a new key-value.
    fn set_kv(&mut self, key: Vec<u8>, value: Vec<u8>) -> (r: Result<(), Error>)
        requires
            old(self).base_wf(),
        ensures
            final(self).base_wf(),
            old(self).kv_frame(*final(self)),
            (r is Ok) == old(self).set_kv_ok(key@, value@),
            match r {
                Ok(_) => final(self).kv_view() == old(self).kv_view().insert(key@, value@),
                Err(_) => final(self).kv_view() == old(self).kv_view(),
            },
    ;

    /// Gets an existing value with key.
    fn get_kv(&self, key: &Vec<u8>) -> (r: Result<Vec<u8>, Error>)
        requires
            self.base_wf(),
        ensures
            match r {
                Ok(v) => self.kv_view().contains_key(key@) && self.kv_view()[key@] == v@,
                Err(e) => !self.kv_view().contains_key(key@) && e == Error::NotFound,
            },
    ;

    /// Returns a key-value pair greater than the given one (`inclusive`
    /// unset), or greater or equal the given one (`inclusive` set).
    fn next_kv(&self, key: &Vec<u8>, inclusive: bool) -> (r: Option<(Vec<u8>, Vec<u8>)>)
        requires
            self.base_wf(),
        ensures
            is_next_entry(self.kv_view(), key@, inclusive, entry_view(r)),
    ;

    /// An iterator from `key`.
    fn get_iter(&self, key: Vec<u8>, inclusive: bool) -> (it: BaseIter<'_, Self>)
        ensures
            it.cursor@ == key@,
            it.inclusive == inclusive,
            it.engine == self,
    {
        BaseIter { cursor: key, inclusive, engine: self }
    }
}

/// TxEngine offers a transactional operation on a storage.
pub trait TxEngine: Base {
    /// A transaction is open.
    spec fn tx_open(&self) -> bool;

    /// What was stored when the open transaction began.
    spec fn tx_start(&self) -> Map<Seq<u8>, Seq<u8>>;

    /// Starts a transaction.
    fn trans_begin(&mut self)
        requires
            old(self).base_wf(),
        ensures
            final(self).base_wf(),
            final(self).kv_view() == old(self).kv_view(),
            final(self).tx_open(),
            final(self).tx_start() == old(self).kv_view(),
    ;

    /// Commits a transaction.
    fn trans_commit(&mut self) -> (r: Result<(), Error>)
        requires
            old(self).base_wf(),
        ensures
            final(self).base_wf(),
            final(self).kv_view() == old(self).kv_view(),
            !final(self).tx_open(),
            match r {
                Ok(_) => old(self).tx_open(),
                Err(e) => !old(self).tx_open() && e == Error::NoTransaction,
            },
    ;

    /// Rolls back a transaction: what was stored when it began is stored
    /// again.
    fn trans_rollback(&mut self) -> (r: Result<(), Error>)
        requires
            old(self).base_wf(),
        ensures
            final(self).base_wf(),
            !final(self).tx_open(),
            match r {
                Ok(_) => old(self).tx_open() && final(self).kv_view() == old(self).tx_start(),
                Err(e) => !old(self).tx_open() && e == Error::NoTransaction && final(self).kv_view()
                    == old(self).kv_view(),
            },
    ;

    /// Gets a key to set exclusively; must be called in a transaction.
    fn get_kv_for_update(&self, key: &Vec<u8>) -> (r: Result<Vec<u8>, Error>)
        requires
            self.base_wf(),
            self.tx_open(),
        ensures
            match r {
                Ok(v) => self.kv_view().contains_key(key@) && self.kv_view()[key@] == v@,
                Err(e) => !self.kv_view().contains_key(key@) && e == Error::NotFound,
            },
    ;
}

/// `r` is what reading back a stored instance from `bs` answers: the
/// instance the bytes hold, or the parse error when they hold none.
pub open spec fn obj_answer(r: Result<Instance, Error>, bs: Seq<u8>) -> bool {
    match r {
        Ok(i) => decoded_instance(bs) == Some(i@),
        Err(e) => decoded_instance(bs) is None && is_parse_error(e),
    }
}

/// `r` is what reading the instance id stored under `key` answers: not
/// found when nothing is stored there, else the id its bytes hold, or the
/// parse error when they hold none; the encoding of an id is read back as
/// that id.
pub open spec fn reads_ref(r: Result<InstanceId, Error>, kv: Map<Seq<u8>, Seq<u8>>, key: Seq<u8>) -> bool {
    if !kv.contains_key(key) {
        r == Err::<InstanceId, Error>(Error::NotFound)
    } else {
        &&& match r {
            Ok(id) => decoded_instance_id(kv[key]) == Some(id),
            Err(e) => decoded_instance_id(kv[key]) is None && is_parse_error(e),
        }
        &&& forall|id: InstanceId| #[trigger] instance_id_bytes(id) == kv[key] ==> r == Ok::<
            InstanceId,
            Error,
        >(id)
    }
}

/// ObjectEngine wraps a bytes based storage engine into an object based
/// engine: an instance is stored under the key of its id, serialized as
/// protobuf.
pub trait ObjectEngine: Base {
    /// Stores `item` under the key of `item_id`.
    fn set_obj(&mut self, item_id: InstanceId, item: &Instance) -> (r: Result<(), Error>)
        requires
            old(self).base_wf(),
        ensures
            final(self).base_wf(),
            old(self).kv_frame(*final(self)),
            (r is Ok) == old(self).set_kv_ok(instance_key(item_id), instance_bytes(item@)),
            match r {
                Ok(_) => final(self).kv_view() == old(self).kv_view().insert(
                    instance_key(item_id),
                    instance_bytes(item@),
                ),
                Err(_) => final(self).kv_view() == old(self).kv_view(),
            },
    {
        let key = item_id.to_key();
        let value = self.encode_obj(item)?;
        self.set_kv(key, value)
    }

    /// The instance stored under the key of `item_id`; what `set_obj`
    /// stored is read back.
    fn get_obj(&self, item_id: &InstanceId) -> (r: Result<Instance, Error>)
        requires
            self.base_wf(),
        ensures
            !self.kv_view().contains_key(instance_key(*item_id)) ==> r == Err::<Instance, Error>(
                Error::NotFound,
            ),
            self.kv_view().contains_key(instance_key(*item_id)) ==> obj_answer(
                r,
                self.kv_view()[instance_key(*item_id)],
            ),
            forall|x: InstanceView| #[trigger]
                instance_bytes(x) == self.kv_view()[instance_key(*item_id)] && self.kv_view().contains_key(
                    instance_key(*item_id),
                ) ==> r is Ok && r->Ok_0@ == x,
    {
        let key = item_id.to_key();
        let val_bytes = self.get_kv(&key)?;
        let itm = self.decode_obj(&val_bytes)?;
        Ok(itm)
    }

    /// Serializes an instance.
    fn encode_obj(&self, itm: &Instance) -> (r: Result<Vec<u8>, Error>)
        ensures
            r is Ok && r->Ok_0@ == instance_bytes(itm@),
    {
        Ok(encode_instance(itm))
    }

    /// Reads back a serialized instance; bytes that hold none give the
    /// parse error.
    fn decode_obj(&self, bs: &Vec<u8>) -> (r: Result<Instance, Error>)
        ensures
            obj_answer(r, bs@),
            forall|x: InstanceView| #[trigger] instance_bytes(x) == bs@ ==> r is Ok && r->Ok_0@ == x,
    {
        match decode_instance(bs.as_slice()) {
            Ok(v) => Ok(v),
            Err(_) => Err(parse_error()),
        }
    }
}

/// ColumnedEngine organizes objects in columns: it stores a reference of a
/// kind (such as "max") in a column to an instance id.
pub trait ColumnedEngine: ObjectEngine {
    /// The key of the reference of kind `typ` in column `col_id`: it
    /// depends on the kind and the column alone, so that no write moves it.
    spec fn ref_key_view(typ: Seq<u8>, col_id: ReplicaID) -> Seq<u8>;

    fn make_ref_key(&self, typ: &str, col_id: ReplicaID) -> (r: Vec<u8>)
        ensures
            r@ == Self::ref_key_view(typ.spec_bytes(), col_id),
    ;

    /// Stores `item_id` as the reference of kind `typ` in column `col_id`.
    fn set_ref(&mut self, typ: &str, col_id: ReplicaID, item_id: InstanceId) -> (r: Result<(), Error>)
        requires
            old(self).base_wf(),
        ensures
            final(self).base_wf(),
            old(self).kv_frame(*final(self)),
            (r is Ok) == old(self).set_kv_ok(
                Self::ref_key_view(typ.spec_bytes(), col_id),
                instance_id_bytes(item_id),
            ),
            match r {
                Ok(_) => final(self).kv_view() == old(self).kv_view().insert(
                    Self::ref_key_view(typ.spec_bytes(), col_id),
                    instance_id_bytes(item_id),
                ),
                Err(_) => final(self).kv_view() == old(self).kv_view(),
            },
    {
        let key = self.make_ref_key(typ, col_id);
        let value = encode_instance_id(&item_id);
        self.set_kv(key, value)
    }

    /// The reference of kind `typ` in column `col_id`; what `set_ref` stored
    /// is read back.
    fn get_ref(&self, typ: &str, col_id: ReplicaID) -> (r: Result<InstanceId, Error>)
        requires
            self.base_wf(),
        ensures
            reads_ref(r, self.kv_view(), Self::ref_key_view(typ.spec_bytes(), col_id)),
    {
        let key = self.make_ref_key(typ, col_id);
        let val_bytes = self.get_kv(&key)?;
        match decode_instance_id(val_bytes.as_slice()) {
            Ok(v) => Ok(v),
            Err(_) => Err(parse_error()),
        }
    }
}

/// StatusEngine offers functions to operate the snapshot status.
pub trait StatusEngine: TxEngine + ColumnedEngine {
    /// The current maximum instance id of a leader replica: its "max"
    /// reference.
    fn get_max_instance_id(&self, rid: ReplicaID) -> (r: Result<InstanceId, Error>)
        requires
            self.base_wf(),
        ensures
            reads_ref(r, self.kv_view(), Self::ref_key_view("max".spec_bytes(), rid)),
    {
        self.get_ref("max", rid)
    }

    /// The executed maximum continuous instance id of a leader replica: its
    /// "exec" reference.
    fn get_max_exec_instance_id(&self, rid: ReplicaID) -> (r: Result<InstanceId, Error>)
        requires
            self.base_wf(),
        ensures
            reads_ref(r, self.kv_view(), Self::ref_key_view("exec".spec_bytes(), rid)),
    {
        self.get_ref("exec", rid)
    }

    /// Stores the encoding of `iid` under `key`.
    fn set_instance_id(&mut self, key: Vec<u8>, iid: InstanceId) -> (r: Result<(), Error>)
        requires
            old(self).base_wf(),
        ensures
            final(self).base_wf(),
            old(self).kv_frame(*final(self)),
            (r is Ok) == old(self).set_kv_ok(key@, instance_id_bytes(iid)),
            match r {
                Ok(_) => final(self).kv_view() == old(self).kv_view().insert(
                    key@,
                    instance_id_bytes(iid),
                ),
                Err(_) => final(self).kv_view() == old(self).kv_view(),
            },
    {
        let value = encode_instance_id(&iid);
        self.set_kv(key, value)
    }
}

/// Walks the instances of one leader replica in increasing index order.
pub struct InstanceIter<'a, E: InstanceEngine> {
    pub rid: ReplicaID,
    pub cursor: Vec<u8>,
    pub inclusive: bool,
    pub engine: &'a E,
}

impl<'a, E: InstanceEngine> InstanceIter<'a, E> {
    /// The next instance of the replica, read back from its encoding; `None`
    /// when the replica has no more.
    pub fn next(&mut self) -> (r: Option<Result<Instance, Error>>)
        requires
            old(self).engine.base_wf(),
        ensures
            final(self).engine == old(self).engine,
            final(self).rid == old(self).rid,
            !final(self).inclusive,
            ({
                let m = old(self).engine.instance_view();
                let p = replica_prefix(old(self).rid);
                match r {
                    Some(d) => exists|k: Seq<u8>| {
                        &&& #[trigger] is_next_entry(m, old(self).cursor@, old(self).inclusive, Some((k, m[k])))
                        &&& has_prefix(k, p)
                        &&& final(self).cursor@ == k
                        &&& match d {
                            Ok(i) => decoded_instance(m[k]) == Some(i@),
                            Err(_) => decoded_instance(m[k]) is None,
                        }
                        &&& forall|x: InstanceView| #[trigger] instance_bytes(x) == m[k] ==> d is Ok && d->Ok_0@ == x
                    },
                    None => forall|e: (Seq<u8>, Seq<u8>)| #[trigger] is_next_entry(m, old(self).cursor@, old(self).inclusive, Some(e)) ==> !has_prefix(e.0, p),
                }
            }),
    {
        let r = self.engine.next_instance_kv(&self.cursor, self.inclusive);
        self.inclusive = false;
        let p = replica_key_prefix(self.rid);
        match r {
            Some(kv) => {
                if starts_with(kv.0.as_slice(), p.as_slice()) {
                    let d = decode_instance(kv.1.as_slice());
                    self.cursor = kv.0;
                    Some(d)
                } else {
                    proof {
                        let m = old(self).engine.instance_view();
                        assert forall|e: (Seq<u8>, Seq<u8>)| #[trigger] is_next_entry(m, old(self).cursor@, old(self).inclusive, Some(e)) implies !has_prefix(e.0, p@) by {
                            crate::sorted_kv::lemma_next_entry_unique(m, old(self).cursor@, old(self).inclusive, e, (kv.0@, kv.1@));
                        }
                    }
                    None
                }
            },
            None => None,
        }
    }
}

/// InstanceEngine offers functions to operate the instances stored.
pub trait InstanceEngine: StatusEngine {
    /// The encoded instances, by key.
    spec fn instance_view(&self) -> Map<Seq<u8>, Seq<u8>>;

    /// Storing the encoded instance `value` under `key` succeeds.
    spec fn set_instance_ok(&self, key: Seq<u8>, value: Seq<u8>) -> bool;

    /// `other` differs from `self` at most in what `instance_view` shows:
    /// every other part of the engine's state is the same.
    spec fn instance_frame(&self, other: Self) -> bool;

    /// Sets a new instance.
    fn set_instance(&mut self, iid: InstanceId, inst: Instance) -> (r: Result<(), Error>)
        requires
            old(self).base_wf(),
        ensures
            final(self).base_wf(),
            (r is Ok) == old(self).set_instance_ok(instance_key(iid), instance_bytes(inst@)),
            old(self).instance_frame(*final(self)),
            final(self).kv_view() == old(self).kv_view(),
            match r {
                Ok(_) => final(self).instance_view() == old(self).instance_view().insert(
                    instance_key(iid),
                    instance_bytes(inst@),
                ),
                Err(_) => final(self).instance_view() == old(self).instance_view(),
            },
    ;

    /// Updates an existing instance: fails when none is stored under the id,
    /// and otherwise succeeds as storing a new one does.
    fn update_instance(&mut self, iid: InstanceId, inst: Instance) -> (r: Result<(), Error>)
        requires
            old(self).base_wf(),
        ensures
            final(self).base_wf(),
            old(self).instance_frame(*final(self)),
            final(self).kv_view() == old(self).kv_view(),
            old(self).instance_view().contains_key(instance_key(iid)) ==> (r is Ok)
                == old(self).set_instance_ok(instance_key(iid), instance_bytes(inst@)),
            match r {
                Ok(_) => old(self).instance_view().contains_key(instance_key(iid))
                    && final(self).instance_view() == old(self).instance_view().insert(
                    instance_key(iid),
                    instance_bytes(inst@),
                ),
                Err(_) => final(self).instance_view() == old(self).instance_view(),
            },
            !old(self).instance_view().contains_key(instance_key(iid)) ==> r == Err::<(), Error>(
                Error::NotFound,
            ),
    ;

    /// The instance stored under `iid`; what `set_instance` stored is read
    /// back.
    fn get_instance(&self, iid: &InstanceId) -> (r: Result<Instance, Error>)
        requires
            self.base_wf(),
        ensures
            !self.instance_view().contains_key(instance_key(*iid)) ==> r == Err::<Instance, Error>(
                Error::NotFound,
            ),
            self.instance_view().contains_key(instance_key(*iid)) ==> match r {
                Ok(i) => decoded_instance(self.instance_view()[instance_key(*iid)]) == Some(i@),
                Err(_) => decoded_instance(self.instance_view()[instance_key(*iid)]) is None,
            },
            forall|x: InstanceView| #[trigger]
                instance_bytes(x) == self.instance_view()[instance_key(*iid)]
                    && self.instance_view().contains_key(instance_key(*iid)) ==> r is Ok && r->Ok_0@
                    == x,
    ;

    /// The stored instance with the smallest key after `key`.
    fn next_instance_kv(&self, key: &Vec<u8>, inclusive: bool) -> (r: Option<(Vec<u8>, Vec<u8>)>)
        requires
            self.base_wf(),
        ensures
            is_next_entry(self.instance_view(), key@, inclusive, entry_view(r)),
    ;

    /// An iterator over the instances of leader replica `rid`.
    fn get_instance_iter(&self, rid: ReplicaID) -> (it: InstanceIter<'_, Self>)
        ensures
            it.rid == rid,
            it.cursor@ == replica_prefix(rid),
            it.inclusive,
            it.engine == self,
    {
        InstanceIter { rid, cursor: replica_key_prefix(rid), inclusive: true, engine: self }
    }
}

impl Base for MemEngine {
    open spec fn kv_view(&self) -> Map<Seq<u8>, Seq<u8>> {
        self@[DBColumnFamily::Default]
    }

    open spec fn base_wf(&self) -> bool {
        self.wf()
    }

    /// An in-memory write always succeeds.
    open spec fn set_kv_ok(&self, key: Seq<u8>, value: Seq<u8>) -> bool {
        true
    }

    /// The instance and status columns and the transaction are the same.
    open spec fn kv_frame(&self, other: Self) -> bool {
        &&& other@[DBColumnFamily::Instance] == self@[DBColumnFamily::Instance]
        &&& other@[DBColumnFamily::Status] == self@[DBColumnFamily::Status]
        &&& other.in_trans() == self.in_trans()
        &&& other.trans_start() == self.trans_start()
    }

    fn set_kv(&mut self, key: Vec<u8>, value: Vec<u8>) -> (r: Result<(), Error>) {
        self.set(DBColumnFamily::Default, key.as_slice(), value.as_slice())
    }

    fn get_kv(&self, key: &Vec<u8>) -> (r: Result<Vec<u8>, Error>) {
        match self.get(DBColumnFamily::Default, key.as_slice()) {
            Ok(Some(v)) => Ok(v),
            Ok(None) => Err(Error::NotFound),
            Err(e) => Err(e),
        }
    }

    fn next_kv(&self, key: &Vec<u8>, inclusive: bool) -> (r: Option<(Vec<u8>, Vec<u8>)>) {
        self.next(DBColumnFamily::Default, key.as_slice(), inclusive)
    }
}

impl TxEngine for MemEngine {
    open spec fn tx_open(&self) -> bool {
        self.in_trans()
    }

    open spec fn tx_start(&self) -> Map<Seq<u8>, Seq<u8>> {
        self.trans_start()[DBColumnFamily::Default]
    }

    /// Every column is saved for a rollback.
    fn trans_begin(&mut self)
        ensures
            final(self)@ == old(self)@,
            final(self).trans_start() == old(self)@,
    {
        self.begin();
    }

    fn trans_commit(&mut self) -> (r: Result<(), Error>)
        ensures
            final(self)@ == old(self)@,
    {
        self.commit()
    }

    /// Every column returns to what it held when the transaction began.
    fn trans_rollback(&mut self) -> (r: Result<(), Error>)
        ensures
            match r {
                Ok(_) => final(self)@ == old(self).trans_start(),
                Err(_) => final(self)@ == old(self)@,
            },
    {
        self.rollback()
    }

    fn get_kv_for_update(&self, key: &Vec<u8>) -> (r: Result<Vec<u8>, Error>) {
        self.get_kv(key)
    }
}

impl ObjectEngine for MemEngine {

}

impl ColumnedEngine for MemEngine {
    open spec fn ref_key_view(typ: Seq<u8>, col_id: ReplicaID) -> Seq<u8> {
        ref_key(typ, col_id)
    }

    fn make_ref_key(&self, typ: &str, col_id: ReplicaID) -> (r: Vec<u8>) {
        make_ref_key(typ, col_id)
    }
}

impl StatusEngine for MemEngine {

}

impl InstanceEngine for MemEngine {
    open spec fn instance_view(&self) -> Map<Seq<u8>, Seq<u8>> {
        self@[DBColumnFamily::Instance]
    }

    /// An in-memory write always succeeds.
    open spec fn set_instance_ok(&self, key: Seq<u8>, value: Seq<u8>) -> bool {
        true
    }

    /// The default and status columns and the transaction are the same.
    open spec fn instance_frame(&self, other: Self) -> bool {
        &&& other@[DBColumnFamily::Default] == self@[DBColumnFamily::Default]
        &&& other@[DBColumnFamily::Status] == self@[DBColumnFamily::Status]
        &&& other.in_trans() == self.in_trans()
        &&& other.trans_start() == self.trans_start()
    }

    fn set_instance(&mut self, iid: InstanceId, inst: Instance) -> (r: Result<(), Error>) {
        let key = iid.to_key();
        let value = encode_instance(&inst);
        self.set(DBColumnFamily::Instance, key.as_slice(), value.as_slice())
    }

    fn update_instance(&mut self, iid: InstanceId, inst: Instance) -> (r: Result<(), Error>) {
        let key = iid.to_key();
        match self.get(DBColumnFamily::Instance, key.as_slice()) {
            Ok(Some(_)) => {
                let value = encode_instance(&inst);
                self.set(DBColumnFamily::Instance, key.as_slice(), value.as_slice())
            },
            Ok(None) => Err(Error::NotFound),
            Err(e) => Err(e),
        }
    }

    fn get_instance(&self, iid: &InstanceId) -> (r: Result<Instance, Error>) {
        let key = iid.to_key();
        match self.get(DBColumnFamily::Instance, key.as_slice()) {
            Ok(Some(v)) => decode_instance(v.as_slice()),
            Ok(None) => Err(Error::NotFound),
            Err(e) => Err(e),
        }
    }

    fn next_instance_kv(&self, key: &Vec<u8>, inclusive: bool) -> (r: Option<(Vec<u8>, Vec<u8>)>) {
        self.next(DBColumnFamily::Instance, key.as_slice(), inclusive)
    }
}

// ---------------------------------------------------------------------
// Laws over several calls
// ---------------------------------------------------------------------

/// The cursor a walk from `c` has reached after handing out the first `i`
/// entries of `es`.
pub open spec fn walk_cursor(c: Seq<u8>, es: Seq<(Seq<u8>, Seq<u8>)>, i: int) -> Seq<u8> {
    if i == 0 {
        c
    } else {
        es[i - 1].0
    }
}

/// `es` is what successive calls of `BaseIter::next` hand out on an engine
/// that stores `m` and does not change, from cursor `c` (the first call
/// inclusive when `inclusive` is set), until a call hands out `None`.
pub open spec fn is_walk(
    m: Map<Seq<u8>, Seq<u8>>,
    c: Seq<u8>,
    inclusive: bool,
    es: Seq<(Seq<u8>, Seq<u8>)>,
) -> bool {
    &&& forall|i: int|
        0 <= i < es.len() ==> is_next_entry(
            m,
            walk_cursor(c, es, i),
            inclusive && i == 0,
            Some(#[trigger] es[i]),
        )
    &&& is_next_entry(m, walk_cursor(c, es, es.len() as int), inclusive && es.len() == 0, None)
}

proof fn lemma_walk_after(
    m: Map<Seq<u8>, Seq<u8>>,
    c: Seq<u8>,
    inclusive: bool,
    es: Seq<(Seq<u8>, Seq<u8>)>,
    i: int,
)
    requires
        is_walk(m, c, inclusive, es),
        0 <= i < es.len(),
    ensures
        key_after(es[i].0, c, inclusive),
        forall|j: int| 0 <= j < i ==> lex_lt(#[trigger] es[j].0, es[i].0),
    decreases i,
{
    assert(is_next_entry(m, walk_cursor(c, es, i), inclusive && i == 0, Some(es[i])));
    if i > 0 {
        lemma_walk_after(m, c, inclusive, es, i - 1);
        let p = es[i - 1].0;
        assert(lex_lt(p, es[i].0));
        if lex_lt(c, p) {
            lemma_lex_transitive(c, p, es[i].0);
        }
        assert forall|j: int| 0 <= j < i implies lex_lt(#[trigger] es[j].0, es[i].0) by {
            if j < i - 1 {
                lemma_lex_transitive(es[j].0, p, es[i].0);
            }
        }
    }
}

proof fn lemma_walk_misses(
    m: Map<Seq<u8>, Seq<u8>>,
    c: Seq<u8>,
    inclusive: bool,
    es: Seq<(Seq<u8>, Seq<u8>)>,
    k: Seq<u8>,
    i: int,
)
    requires
        is_walk(m, c, inclusive, es),
        m.contains_key(k),
        key_after(k, c, inclusive),
        0 <= i <= es.len(),
        forall|j: int| 0 <= j < i ==> (#[trigger] es[j]).0 != k,
    ensures
        key_after(k, walk_cursor(c, es, i), inclusive && i == 0),
    decreases i,
{
    if i > 0 {
        lemma_walk_misses(m, c, inclusive, es, k, i - 1);
        assert(is_next_entry(m, walk_cursor(c, es, i - 1), inclusive && i - 1 == 0, Some(es[i - 1])));
        assert(es[i - 1].0 != k);
    }
}

/// A walk over an engine that does not change hands out the entries whose
/// keys come after the cursor (or equal it, when the walk starts inclusive),
/// each once, in increasing key order.
pub proof fn lemma_walk_lists_entries(
    m: Map<Seq<u8>, Seq<u8>>,
    c: Seq<u8>,
    inclusive: bool,
    es: Seq<(Seq<u8>, Seq<u8>)>,
)
    requires
        is_walk(m, c, inclusive, es),
    ensures
        sorted_keys(es),
        forall|i: int|
            0 <= i < es.len() ==> m.contains_key((#[trigger] es[i]).0) && m[es[i].0] == es[i].1
                && key_after(es[i].0, c, inclusive),
        forall|k: Seq<u8>|
            #[trigger] m.contains_key(k) && key_after(k, c, inclusive) ==> exists|i: int|
                0 <= i < es.len() && (#[trigger] es[i]).0 == k,
{
    assert forall|i: int, j: int| 0 <= i < j < es.len() implies lex_lt(
        #[trigger] es[i].0,
        #[trigger] es[j].0,
    ) by {
        lemma_walk_after(m, c, inclusive, es, j);
    }
    assert forall|i: int| 0 <= i < es.len() implies m.contains_key((#[trigger] es[i]).0)
        && m[es[i].0] == es[i].1 && key_after(es[i].0, c, inclusive) by {
        lemma_walk_after(m, c, inclusive, es, i);
    }
    assert forall|k: Seq<u8>| #[trigger] m.contains_key(k) && key_after(k, c, inclusive) implies exists|
        i: int,
    | 0 <= i < es.len() && (#[trigger] es[i]).0 == k by {
        if forall|j: int| 0 <= j < es.len() ==> (#[trigger] es[j]).0 != k {
            lemma_walk_misses(m, c, inclusive, es, k, es.len() as int);
            assert(!key_after(k, walk_cursor(c, es, es.len() as int), inclusive && es.len() == 0));
        }
    }
}

/// After `set_ref` stores `id` as a reference, reading that reference back
/// answers `id`.
pub proof fn lemma_ref_round_trip<E: ColumnedEngine>(
    before: Map<Seq<u8>, Seq<u8>>,
    after: Map<Seq<u8>, Seq<u8>>,
    typ: Seq<u8>,
    col_id: ReplicaID,
    id: InstanceId,
    r: Result<InstanceId, Error>,
)
    requires
        after == before.insert(E::ref_key_view(typ, col_id), instance_id_bytes(id)),
        reads_ref(r, after, E::ref_key_view(typ, col_id)),
    ensures
        r == Ok::<InstanceId, Error>(id),
{
}

/// After `set_ref` stores `id` as the "max" reference of a column, the
/// maximum instance id of that column answers `id`.
pub proof fn lemma_max_round_trip<E: ColumnedEngine>(
    before: Map<Seq<u8>, Seq<u8>>,
    after: Map<Seq<u8>, Seq<u8>>,
    col_id: ReplicaID,
    id: InstanceId,
    r: Result<InstanceId, Error>,
)
    requires
        after == before.insert(E::ref_key_view("max".spec_bytes(), col_id), instance_id_bytes(id)),
        reads_ref(r, after, E::ref_key_view("max".spec_bytes(), col_id)),
    ensures
        r == Ok::<InstanceId, Error>(id),
{
    lemma_ref_round_trip::<E>(before, after, "max".spec_bytes(), col_id, id, r);
}

/// Where reference keys differ for different kinds or columns, storing one
/// reference leaves what every other reference reads unchanged.
pub proof fn lemma_ref_others_unchanged<E: ColumnedEngine>(
    before: Map<Seq<u8>, Seq<u8>>,
    after: Map<Seq<u8>, Seq<u8>>,
    typ: Seq<u8>,
    col_id: ReplicaID,
    v: Seq<u8>,
    other_typ: Seq<u8>,
    other_col: ReplicaID,
)
    requires
        forall|t1: Seq<u8>, c1: ReplicaID, t2: Seq<u8>, c2: ReplicaID|
            #[trigger] E::ref_key_view(t1, c1) == #[trigger] E::ref_key_view(t2, c2) ==> t1 == t2
                && c1 == c2,
        (other_typ, other_col) != (typ, col_id),
        after == before.insert(E::ref_key_view(typ, col_id), v),
    ensures
        forall|r: Result<InstanceId, Error>|
            #[trigger] reads_ref(r, after, E::ref_key_view(other_typ, other_col)) == reads_ref(
                r,
                before,
                E::ref_key_view(other_typ, other_col),
            ),
{
    let k = E::ref_key_view(other_typ, other_col);
    assert(k != E::ref_key_view(typ, col_id));
    assert(after.contains_key(k) == before.contains_key(k));
    if before.contains_key(k) {
        assert(after[k] == before[k]);
    }
}

/// In the in-memory engine, storing the "max" reference of any column
/// leaves what the "exec" reference of every column reads unchanged.
pub proof fn lemma_max_leaves_exec(
    before: Map<Seq<u8>, Seq<u8>>,
    after: Map<Seq<u8>, Seq<u8>>,
    col_id: ReplicaID,
    v: Seq<u8>,
    exec_col: ReplicaID,
)
    requires
        after == before.insert(MemEngine::ref_key_view("max".spec_bytes(), col_id), v),
    ensures
        forall|r: Result<InstanceId, Error>|
            #[trigger] reads_ref(r, after, MemEngine::ref_key_view("exec".spec_bytes(), exec_col))
                == reads_ref(r, before, MemEngine::ref_key_view("exec".spec_bytes(), exec_col)),
{
    reveal_strlit("max");
    reveal_strlit("exec");
    vstd::string::is_ascii_spec_bytes("max");
    vstd::string::is_ascii_spec_bytes("exec");
    let k = MemEngine::ref_key_view("exec".spec_bytes(), exec_col);
    let km = MemEngine::ref_key_view("max".spec_bytes(), col_id);
    assert(k[0] != km[0]);
    assert(after.contains_key(k) == before.contains_key(k));
    if before.contains_key(k) {
        assert(after[k] == before[k]);
    }
}

/// The in-memory engine keeps plain key-values in its default column and
/// instances in its instance column, the column a replica scans: the
/// key-values and instances its storage traits read and write are those
/// columns, and storing an instance or a key-value leaves the other columns
/// and the transaction alone.
pub proof fn lemma_mem_engine_columns(e: MemEngine, e2: MemEngine)
    ensures
        e.kv_view() == e@[DBColumnFamily::Default],
        e.instance_view() == e@[DBColumnFamily::Instance],
        e.instance_frame(e2) ==> e2@[DBColumnFamily::Default] == e@[DBColumnFamily::Default]
            && e2@[DBColumnFamily::Status] == e@[DBColumnFamily::Status] && e2.in_trans()
            == e.in_trans() && e2.trans_start() == e.trans_start(),
        e.kv_frame(e2) ==> e2@[DBColumnFamily::Instance] == e@[DBColumnFamily::Instance]
            && e2@[DBColumnFamily::Status] == e@[DBColumnFamily::Status] && e2.in_trans()
            == e.in_trans() && e2.trans_start() == e.trans_start(),
{
}

/// In the in-memory engine, distinct kinds or columns have distinct
/// reference keys: each leader's references are its own.
pub proof fn lemma_mem_ref_key_injective(t1: Seq<u8>, c1: ReplicaID, t2: Seq<u8>, c2: ReplicaID)
    ensures
        (MemEngine::ref_key_view(t1, c1) == MemEngine::ref_key_view(t2, c2)) == (t1 == t2 && c1
            == c2),
{
    lemma_ref_key_injective(t1, c1, t2, c2);
}

/// In the in-memory engine, storing one reference leaves what every other
/// reference, of another kind or column, reads unchanged.
pub proof fn lemma_mem_ref_others_unchanged(
    before: Map<Seq<u8>, Seq<u8>>,
    after: Map<Seq<u8>, Seq<u8>>,
    typ: Seq<u8>,
    col_id: ReplicaID,
    v: Seq<u8>,
    other_typ: Seq<u8>,
    other_col: ReplicaID,
)
    requires
        (other_typ, other_col) != (typ, col_id),
        after == before.insert(MemEngine::ref_key_view(typ, col_id), v),
    ensures
        forall|r: Result<InstanceId, Error>|
            #[trigger] reads_ref(r, after, MemEngine::ref_key_view(other_typ, other_col)) == reads_ref(
                r,
                before,
                MemEngine::ref_key_view(other_typ, other_col),
            ),
{
    assert forall|t1: Seq<u8>, c1: ReplicaID, t2: Seq<u8>, c2: ReplicaID|
        #[trigger] MemEngine::ref_key_view(t1, c1) == #[trigger] MemEngine::ref_key_view(t2, c2) implies t1
            == t2 && c1 == c2 by {
        lemma_mem_ref_key_injective(t1, c1, t2, c2);
    }
    lemma_ref_others_unchanged::<MemEngine>(before, after, typ, col_id, v, other_typ, other_col);
}

/// In the in-memory engine, the encoding of an instance stored in the
/// instance column under the key of an id is what the instance storage
/// reads under that id: it is read back as that instance.
pub proof fn lemma_mem_stored_instance_read(e: MemEngine, id: InstanceId, x: InstanceView)
    requires
        e@[DBColumnFamily::Instance].contains_key(instance_key(id)),
        e@[DBColumnFamily::Instance][instance_key(id)] == instance_bytes(x),
    ensures
        e.instance_view().contains_key(instance_key(id)),
        e.instance_view()[instance_key(id)] == instance_bytes(x),
        decoded_instance(e.instance_view()[instance_key(id)]) == Some(x),
{
    e.lemma_value_fits(DBColumnFamily::Instance, instance_key(id));
    crate::codec::lemma_instance_decodes(x);
}

} // verus!
