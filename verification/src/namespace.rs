//! Namespaces: several users share one engine, each under its own key
//! prefix, and see only their own keys.

use crate::byte_str::{
    append_bytes, decimal, digits_value, i64_decimal, is_digit, lemma_decimal, lemma_decimal_injective,
    lemma_decimal_reads_back,
};
use crate::error::Error;
use crate::lex::{
    compare_keys, has_prefix, lemma_lex_asymmetric, lemma_lex_common_prefix,
    lemma_prefix_block_after, lemma_prefix_block_before, lex_le, lex_lt, KeyOrder,
};
use crate::mem_engine::{
    apply_op, apply_ops, engine_delete, engine_set, op_of, ops_of, DBColumnFamily, EngineView,
    MemEngine, WriteEntry, WriteOp,
};
use crate::sorted_kv::{entry_view, is_next_entry, is_prev_entry, key_after, key_before};
use vstd::prelude::*;
use vstd::slice::{slice_subrange, slice_to_vec};
use vstd::string::StringSliceAdditionalSpecFns;

verus! {

/// The key that `key` stands for inside the namespace with prefix `p`, and
/// `None` when `key` lies outside it.
pub open spec fn unwrapped(p: Seq<u8>, key: Seq<u8>) -> Option<Seq<u8>> {
    if has_prefix(key, p) {
        Some(key.subrange(p.len() as int, key.len() as int))
    } else {
        None
    }
}

/// A namespace: something whose text, followed by `/`, prefixes the keys
/// stored under it.
pub trait NameSpace {
    /// The bytes that start every key of this namespace.
    spec fn ns_prefix(&self) -> Seq<u8>;

    /// The prefix, as bytes.
    fn prefix_bytes(&self) -> (r: Vec<u8>)
        ensures
            r@ == self.ns_prefix(),
    ;

    /// The key under which `key` is stored in this namespace.
    fn wrap_ns(&self, key: &[u8]) -> (r: Vec<u8>)
        ensures
            r@ == self.ns_prefix() + key@,
    {
        let mut r = self.prefix_bytes();
        append_bytes(&mut r, key);
        r
    }

    /// The key that a stored `key` stands for in this namespace, and `None`
    /// when it lies outside it.
    fn unwrap_ns(&self, key: &[u8]) -> (r: Option<Vec<u8>>)
        ensures
            match r {
                Some(k) => unwrapped(self.ns_prefix(), key@) == Some(k@),
                None => unwrapped(self.ns_prefix(), key@) is None,
            },
    {
        let p = self.prefix_bytes();
        if key.len() >= p.len() && compare_keys(slice_subrange(key, 0, p.len()), p.as_slice())
            == KeyOrder::Equal {
            Some(slice_to_vec(slice_subrange(key, p.len(), key.len())))
        } else {
            None
        }
    }
}

/// An integer namespace: its decimal text followed by `/`.
impl NameSpace for i64 {
    open spec fn ns_prefix(&self) -> Seq<u8> {
        decimal(*self as int).push(47u8)
    }

    fn prefix_bytes(&self) -> (r: Vec<u8>) {
        let mut r = i64_decimal(*self);
        r.push(47u8);
        r
    }
}

/// A text namespace: its bytes followed by `/`.
impl<'a> NameSpace for &'a str {
    open spec fn ns_prefix(&self) -> Seq<u8> {
        (*self).spec_bytes().push(47u8)
    }

    fn prefix_bytes(&self) -> (r: Vec<u8>) {
        let mut r = slice_to_vec((*self).as_bytes());
        r.push(47u8);
        r
    }
}

pub proof fn lemma_has_own_prefix(p: Seq<u8>, k: Seq<u8>)
    ensures
        has_prefix(p + k, p),
        (p + k).subrange(p.len() as int, (p + k).len() as int) == k,
{
    assert((p + k).subrange(0, p.len() as int) =~= p);
    assert((p + k).subrange(p.len() as int, (p + k).len() as int) =~= k);
}

/// What a namespace gives back of a key it wrapped is that key.
pub proof fn lemma_unwrap_wrap(p: Seq<u8>, k: Seq<u8>)
    ensures
        unwrapped(p, p + k) == Some(k),
{
    lemma_has_own_prefix(p, k);
}

/// A key that starts with the prefix is the prefix followed by what it
/// unwraps to.
pub proof fn lemma_wrap_unwrap(p: Seq<u8>, key: Seq<u8>)
    requires
        has_prefix(key, p),
    ensures
        p + unwrapped(p, key).unwrap() == key,
{
    assert(p + key.subrange(p.len() as int, key.len() as int) =~= key);
}

pub proof fn lemma_prefix_cancel(p: Seq<u8>, a: Seq<u8>, b: Seq<u8>)
    ensures
        (p + a == p + b) == (a == b),
{
    if p + a == p + b {
        lemma_has_own_prefix(p, a);
        lemma_has_own_prefix(p, b);
    }
}

/// Two different integer namespaces never store under the same key.
pub proof fn lemma_i64_namespaces_disjoint(a: i64, b: i64, ka: Seq<u8>, kb: Seq<u8>)
    requires
        a != b,
    ensures
        a.ns_prefix() + ka != b.ns_prefix() + kb,
{
    let pa = a.ns_prefix();
    let pb = b.ns_prefix();
    lemma_decimal(a as int);
    lemma_decimal(b as int);
    if pa + ka == pb + kb {
        let x = pa + ka;
        if pa.len() < pb.len() {
            assert(x[pa.len() - 1] == pa[pa.len() - 1]);
            assert(x[pa.len() - 1] == pb[pa.len() - 1]);
            assert(pb[pa.len() - 1] == decimal(b as int)[pa.len() - 1]);
        } else if pb.len() < pa.len() {
            assert(x[pb.len() - 1] == pb[pb.len() - 1]);
            assert(x[pb.len() - 1] == pa[pb.len() - 1]);
            assert(pa[pb.len() - 1] == decimal(a as int)[pb.len() - 1]);
        } else {
            assert(decimal(a as int) =~= decimal(b as int)) by {
                assert forall|i: int| 0 <= i < decimal(a as int).len() implies decimal(a as int)[i]
                    == decimal(b as int)[i] by {
                    assert(x[i] == pa[i]);
                    assert(x[i] == pb[i]);
                }
            }
            lemma_decimal_injective(a as int, b as int);
        }
    }
}

/// What a namespace with prefix `p` sees of a column: the keys that start
/// with `p`, with `p` taken off.
pub open spec fn ns_view(m: Map<Seq<u8>, Seq<u8>>, p: Seq<u8>) -> Map<Seq<u8>, Seq<u8>> {
    Map::new(|k: Seq<u8>| m.contains_key(p + k), |k: Seq<u8>| m[p + k])
}

/// A write of a batch, moved into the namespace with prefix `p`.
pub open spec fn op_in_ns(op: WriteOp, p: Seq<u8>) -> WriteOp {
    match op {
        WriteOp::Nil => WriteOp::Nil,
        WriteOp::Put(cf, k, v) => WriteOp::Put(cf, p + k, v),
        WriteOp::Delete(cf, k) => WriteOp::Delete(cf, p + k),
    }
}

/// The writes of a batch, moved into the namespace with prefix `p`.
pub open spec fn ops_in_ns(ops: Seq<WriteOp>, p: Seq<u8>) -> Seq<WriteOp> {
    ops.map_values(|op: WriteOp| op_in_ns(op, p))
}

proof fn lemma_order_in_ns(p: Seq<u8>, a: Seq<u8>, b: Seq<u8>, inclusive: bool)
    ensures
        key_after(p + a, p + b, inclusive) == key_after(a, b, inclusive),
        key_before(p + a, p + b, inclusive) == key_before(a, b, inclusive),
        lex_le(p + a, p + b) == lex_le(a, b),
{
    lemma_lex_common_prefix(p, a, b);
    lemma_lex_common_prefix(p, b, a);
    lemma_prefix_cancel(p, a, b);
}

/// Through a namespace, a read after a write gives what was written, and
/// every other key of the namespace reads as before.
pub proof fn lemma_ns_read_after_set(
    v: EngineView,
    p: Seq<u8>,
    cf: DBColumnFamily,
    key: Seq<u8>,
    val: Seq<u8>,
    key2: Seq<u8>,
)
    ensures
        ns_view(engine_set(v, cf, p + key, val)[cf], p).contains_key(key),
        ns_view(engine_set(v, cf, p + key, val)[cf], p)[key] == val,
        key2 != key ==> ns_view(engine_set(v, cf, p + key, val)[cf], p).contains_key(key2)
            == ns_view(v[cf], p).contains_key(key2),
        key2 != key && ns_view(v[cf], p).contains_key(key2) ==> ns_view(
            engine_set(v, cf, p + key, val)[cf],
            p,
        )[key2] == ns_view(v[cf], p)[key2],
{
    lemma_prefix_cancel(p, key, key2);
}

/// A write through one integer namespace leaves what any other integer
/// namespace sees, in every column, unchanged.
pub proof fn lemma_no_overriding(v: EngineView, a: i64, b: i64, op: WriteOp, cf: DBColumnFamily)
    requires
        a != b,
    ensures
        ns_view(apply_op(v, op_in_ns(op, a.ns_prefix()))[cf], b.ns_prefix()) == ns_view(
            v[cf],
            b.ns_prefix(),
        ),
{
    let pa = a.ns_prefix();
    let pb = b.ns_prefix();
    let w = apply_op(v, op_in_ns(op, pa));
    assert forall|y: Seq<u8>| w[cf].contains_key(pb + y) == v[cf].contains_key(pb + y) && (
    v[cf].contains_key(pb + y) ==> w[cf][pb + y] == v[cf][pb + y]) by {
        match op {
            WriteOp::Put(_, k, _) => lemma_i64_namespaces_disjoint(a, b, k, y),
            WriteOp::Delete(_, k) => lemma_i64_namespaces_disjoint(a, b, k, y),
            WriteOp::Nil => {},
        }
    }
    assert(ns_view(w[cf], pb) =~= ns_view(v[cf], pb));
}

/// A batch written through one integer namespace leaves what any other
/// integer namespace sees, in every column, unchanged.
pub proof fn lemma_batch_no_overriding(
    v: EngineView,
    a: i64,
    b: i64,
    ops: Seq<WriteOp>,
    cf: DBColumnFamily,
)
    requires
        a != b,
    ensures
        ns_view(apply_ops(v, ops_in_ns(ops, a.ns_prefix()))[cf], b.ns_prefix()) == ns_view(
            v[cf],
            b.ns_prefix(),
        ),
    decreases ops.len(),
{
    if ops.len() > 0 {
        let pa = a.ns_prefix();
        assert(ops_in_ns(ops, pa).drop_last() =~= ops_in_ns(ops.drop_last(), pa));
        lemma_batch_no_overriding(v, a, b, ops.drop_last(), cf);
        lemma_no_overriding(apply_ops(v, ops_in_ns(ops.drop_last(), pa)), a, b, ops.last(), cf);
    }
}

/// A view of a shared engine through one namespace: every key it is handed
/// is stored under the namespace's prefix.
pub struct WithNs<N: NameSpace> {
    pub ns: N,
}

impl<N: NameSpace> WithNs<N> {
    /// A view through namespace `ns`.
    pub fn new(ns: N) -> (w: Self)
        ensures
            w.ns == ns,
    {
        WithNs { ns }
    }

    /// Stores `value` under `key` of this namespace in column `cf`.
    pub fn set(&self, eng: &mut MemEngine, cf: DBColumnFamily, key: &[u8], value: &[u8]) -> (r:
        Result<(), Error>)
        requires
            old(eng).wf(),
        ensures
            final(eng).wf(),
            r is Ok,
            final(eng)@ == engine_set(old(eng)@, cf, self.ns.ns_prefix() + key@, value@),
    {
        let k = self.ns.wrap_ns(key);
        eng.set(cf, k.as_slice(), value)
    }

    /// The value stored under `key` of this namespace in column `cf`.
    pub fn get(&self, eng: &MemEngine, cf: DBColumnFamily, key: &[u8]) -> (r: Result<
        Option<Vec<u8>>,
        Error,
    >)
        requires
            eng.wf(),
        ensures
            match r {
                Ok(Some(v)) => ns_view(eng@[cf], self.ns.ns_prefix()).contains_key(key@) && ns_view(
                    eng@[cf],
                    self.ns.ns_prefix(),
                )[key@] == v@,
                Ok(None) => !ns_view(eng@[cf], self.ns.ns_prefix()).contains_key(key@),
                Err(_) => false,
            },
    {
        let k = self.ns.wrap_ns(key);
        eng.get(cf, k.as_slice())
    }

    /// Removes `key` of this namespace from column `cf`.
    pub fn delete(&self, eng: &mut MemEngine, cf: DBColumnFamily, key: &[u8]) -> (r: Result<
        (),
        Error,
    >)
        requires
            old(eng).wf(),
        ensures
            final(eng).wf(),
            r is Ok,
            final(eng)@ == engine_delete(old(eng)@, cf, self.ns.ns_prefix() + key@),
    {
        let k = self.ns.wrap_ns(key);
        eng.delete(cf, k.as_slice())
    }

    /// The entry of this namespace in column `cf` with the smallest key after
    /// `key` (or equal to it, when `inclusive` is set).
    pub fn next(&self, eng: &MemEngine, cf: DBColumnFamily, key: &[u8], inclusive: bool) -> (r:
        Option<(Vec<u8>, Vec<u8>)>)
        requires
            eng.wf(),
        ensures
            is_next_entry(ns_view(eng@[cf], self.ns.ns_prefix()), key@, inclusive, entry_view(r)),
    {
        let ghost p = self.ns.ns_prefix();
        let ghost m = eng@[cf];
        let ghost nv = ns_view(m, p);
        let k = self.ns.wrap_ns(key);
        let r = eng.next(cf, k.as_slice(), inclusive);
        match r {
            Some(kv) => {
                let (sk, v) = kv;
                let u = self.ns.unwrap_ns(sk.as_slice());
                match u {
                    Some(k2) => {
                        proof {
                            lemma_wrap_unwrap(p, sk@);
                            lemma_order_in_ns(p, k2@, key@, inclusive);
                            assert forall|y: Seq<u8>| #[trigger]
                                nv.contains_key(y) && key_after(y, key@, inclusive) implies lex_le(
                                k2@,
                                y,
                            ) by {
                                lemma_order_in_ns(p, y, key@, inclusive);
                                lemma_order_in_ns(p, k2@, y, inclusive);
                                assert(m.contains_key(p + y));
                            }
                        }
                        Some((k2, v))
                    },
                    None => {
                        proof {
                            assert forall|y: Seq<u8>| #[trigger] nv.contains_key(y) implies !key_after(
                                y,
                                key@,
                                inclusive,
                            ) by {
                                if key_after(y, key@, inclusive) {
                                    lemma_order_in_ns(p, y, key@, inclusive);
                                    assert(m.contains_key(p + y));
                                    lemma_has_own_prefix(p, y);
                                    lemma_has_own_prefix(p, key@);
                                    assert(sk@ != p + y);
                                    assert(sk@ != p + key@);
                                    lemma_prefix_block_after(p, p + key@, p + y, sk@);
                                    lemma_lex_asymmetric(sk@, p + y);
                                }
                            }
                        }
                        None
                    },
                }
            },
            None => {
                proof {
                    assert forall|y: Seq<u8>| #[trigger] nv.contains_key(y) implies !key_after(
                        y,
                        key@,
                        inclusive,
                    ) by {
                        lemma_order_in_ns(p, y, key@, inclusive);
                        assert(m.contains_key(p + y));
                    }
                }
                None
            },
        }
    }

    /// The entry of this namespace in column `cf` with the greatest key
    /// before `key` (or equal to it, when `inclusive` is set).
    pub fn prev(&self, eng: &MemEngine, cf: DBColumnFamily, key: &[u8], inclusive: bool) -> (r:
        Option<(Vec<u8>, Vec<u8>)>)
        requires
            eng.wf(),
        ensures
            is_prev_entry(ns_view(eng@[cf], self.ns.ns_prefix()), key@, inclusive, entry_view(r)),
    {
        let ghost p = self.ns.ns_prefix();
        let ghost m = eng@[cf];
        let ghost nv = ns_view(m, p);
        let k = self.ns.wrap_ns(key);
        let r = eng.prev(cf, k.as_slice(), inclusive);
        match r {
            Some(kv) => {
                let (sk, v) = kv;
                let u = self.ns.unwrap_ns(sk.as_slice());
                match u {
                    Some(k2) => {
                        proof {
                            lemma_wrap_unwrap(p, sk@);
                            lemma_order_in_ns(p, k2@, key@, inclusive);
                            assert forall|y: Seq<u8>| #[trigger]
                                nv.contains_key(y) && key_before(y, key@, inclusive) implies lex_le(
                                y,
                                k2@,
                            ) by {
                                lemma_order_in_ns(p, y, key@, inclusive);
                                lemma_order_in_ns(p, y, k2@, inclusive);
                                assert(m.contains_key(p + y));
                            }
                        }
                        Some((k2, v))
                    },
                    None => {
                        proof {
                            assert forall|y: Seq<u8>| #[trigger] nv.contains_key(y) implies !key_before(
                                y,
                                key@,
                                inclusive,
                            ) by {
                                if key_before(y, key@, inclusive) {
                                    lemma_order_in_ns(p, y, key@, inclusive);
                                    assert(m.contains_key(p + y));
                                    lemma_has_own_prefix(p, y);
                                    lemma_has_own_prefix(p, key@);
                                    assert(sk@ != p + y);
                                    assert(sk@ != p + key@);
                                    lemma_prefix_block_before(p, p + key@, p + y, sk@);
                                    lemma_lex_asymmetric(sk@, p + y);
                                }
                            }
                        }
                        None
                    },
                }
            },
            None => {
                proof {
                    assert forall|y: Seq<u8>| #[trigger] nv.contains_key(y) implies !key_before(
                        y,
                        key@,
                        inclusive,
                    ) by {
                        lemma_order_in_ns(p, y, key@, inclusive);
                        assert(m.contains_key(p + y));
                    }
                }
                None
            },
        }
    }

    /// Applies the writes of `entries` to this namespace, first to last.
    pub fn write_batch(&self, eng: &mut MemEngine, entries: &Vec<WriteEntry>) -> (r: Result<
        (),
        Error,
    >)
        requires
            old(eng).wf(),
        ensures
            final(eng).wf(),
            r is Ok,
            final(eng)@ == apply_ops(old(eng)@, ops_in_ns(ops_of(entries@), self.ns.ns_prefix())),
    {
        let ghost p = self.ns.ns_prefix();
        let mut i: usize = 0;
        while i < entries.len()
            invariant
                i <= entries@.len(),
                p == self.ns.ns_prefix(),
                eng.wf(),
                eng@ == apply_ops(old(eng)@, ops_in_ns(ops_of(entries@.subrange(0, i as int)), p)),
            decreases entries@.len() - i,
        {
            proof {
                assert(ops_in_ns(ops_of(entries@.subrange(0, i + 1)), p).drop_last() =~= ops_in_ns(
                    ops_of(entries@.subrange(0, i as int)),
                    p,
                ));
                assert(ops_in_ns(ops_of(entries@.subrange(0, i + 1)), p).last() == op_in_ns(
                    op_of(entries@[i as int]),
                    p,
                ));
            }
            match &entries[i] {
                WriteEntry::Nil => {},
                WriteEntry::Put(cf, k, v) => {
                    let _ = self.set(eng, *cf, k.as_slice(), v.as_slice());
                },
                WriteEntry::Delete(cf, k) => {
                    let _ = self.delete(eng, *cf, k.as_slice());
                },
            }
            i = i + 1;
        }
        proof {
            assert(entries@.subrange(0, i as int) =~= entries@);
        }
        Ok(())
    }
}

/// The keys of an integer namespace start with the namespace written in
/// decimal, then `/`: a `-` when it is negative, then digits, most
/// significant first and with no leading zero, that read back as the
/// namespace.
pub proof fn lemma_int_ns_prefix(n: i64, key: Seq<u8>)
    ensures
        ({
            let p = n.ns_prefix();
            let t = p.drop_last();
            let o: int = if n < 0 {
                1
            } else {
                0
            };
            &&& p.len() >= 1 && p.last() == 47u8
            &&& p + key == t.push(47u8) + key
            &&& n < 0 ==> t[0] == 45u8
            &&& t.len() >= o + 1
            &&& forall|i: int| o <= i < t.len() ==> is_digit(#[trigger] t[i])
            &&& t.len() > o + 1 ==> t[o] != 48u8
            &&& digits_value(t.subrange(o, t.len() as int)) == if n < 0 {
                -n
            } else {
                n as int
            }
        }),
{
    lemma_decimal_reads_back(n as int);
    let t = n.ns_prefix().drop_last();
    assert(t =~= decimal(n as int));
    assert(n.ns_prefix() + key =~= t.push(47u8) + key);
}

} // verus!
