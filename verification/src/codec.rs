//! The protobuf encodings of the protocol's data, as prost writes and reads
//! messages with these fields: scalar fields that hold their default are
//! left out; reading back keeps the last occurrence of a scalar field,
//! merges the occurrences of a message field, each read within its own
//! length, and collects those of a repeated field; a known field of another
//! wire type than its own is an error, and an unknown field is passed over.

use crate::error::Error;
use crate::qpaxos::{
    cmds_view, deps_view, BallotNum, Command, CommandView, Instance, InstanceId, InstanceIdVec,
    InstanceView,
};
use crate::wire::{
    decode_fields, encode_fields, field_view, fields_bytes, fields_ok, fields_view,
    lemma_parse_fields_bytes, parse_fields, FieldVal, FieldView, WireField, WireVal,
};
use vstd::prelude::*;
use vstd::slice::slice_to_vec;

verus! {

// ---------------------------------------------------------------------
// Reading fields by tag
// ---------------------------------------------------------------------

/// The value of the last varint field with `tag`.
pub open spec fn last_varint(fs: Seq<FieldView>, tag: u32) -> Option<u64>
    decreases fs.len(),
{
    if fs.len() == 0 {
        None
    } else if fs.last().tag == tag && fs.last().val is Varint {
        Some(fs.last().val->Varint_0)
    } else {
        last_varint(fs.drop_last(), tag)
    }
}

/// The payloads of the length-delimited fields with `tag`, in order.
pub open spec fn bytes_of(fs: Seq<FieldView>, tag: u32) -> Seq<Seq<u8>>
    decreases fs.len(),
{
    if fs.len() == 0 {
        Seq::empty()
    } else if fs.last().tag == tag && fs.last().val is Bytes {
        bytes_of(fs.drop_last(), tag).push(fs.last().val->Bytes_0)
    } else {
        bytes_of(fs.drop_last(), tag)
    }
}

/// Some field with `tag` is a varint.
pub open spec fn any_varint(fs: Seq<FieldView>, tag: u32) -> bool
    decreases fs.len(),
{
    if fs.len() == 0 {
        false
    } else {
        (fs.last().tag == tag && fs.last().val is Varint) || any_varint(fs.drop_last(), tag)
    }
}

/// Some field with `tag` is length-delimited.
pub open spec fn any_bytes(fs: Seq<FieldView>, tag: u32) -> bool {
    bytes_of(fs, tag).len() > 0
}

/// Some field with `tag` has a wire type other than varint and
/// length-delimited.
pub open spec fn any_skipped(fs: Seq<FieldView>, tag: u32) -> bool
    decreases fs.len(),
{
    if fs.len() == 0 {
        false
    } else {
        (fs.last().tag == tag && fs.last().val is Skipped) || any_skipped(fs.drop_last(), tag)
    }
}

/// Some field with `tag` is not a varint: a varint field with that tag
/// cannot be read.
pub open spec fn not_varint(fs: Seq<FieldView>, tag: u32) -> bool {
    any_bytes(fs, tag) || any_skipped(fs, tag)
}

/// Some field with `tag` is not length-delimited: a bytes or message field
/// with that tag cannot be read.
pub open spec fn not_bytes(fs: Seq<FieldView>, tag: u32) -> bool {
    any_varint(fs, tag) || any_skipped(fs, tag)
}

/// The value of a varint field, and 0 when it is absent.
pub open spec fn varint_or_zero(fs: Seq<FieldView>, tag: u32) -> u64 {
    match last_varint(fs, tag) {
        Some(v) => v,
        None => 0,
    }
}

pub proof fn lemma_by_tag_concat(a: Seq<FieldView>, b: Seq<FieldView>, tag: u32)
    ensures
        last_varint(a + b, tag) == (if last_varint(b, tag) is Some {
            last_varint(b, tag)
        } else {
            last_varint(a, tag)
        }),
        bytes_of(a + b, tag) == bytes_of(a, tag) + bytes_of(b, tag),
        any_varint(a + b, tag) == (any_varint(a, tag) || any_varint(b, tag)),
        any_skipped(a + b, tag) == (any_skipped(a, tag) || any_skipped(b, tag)),
        last_varint(b, tag) is Some <==> any_varint(b, tag),
    decreases b.len(),
{
    if b.len() == 0 {
        assert(a + b =~= a);
        assert(bytes_of(a, tag) + bytes_of(b, tag) =~= bytes_of(a, tag));
    } else {
        lemma_by_tag_concat(a, b.drop_last(), tag);
        assert((a + b).drop_last() =~= a + b.drop_last());
        assert((a + b).last() == b.last());
        assert(bytes_of(a, tag) + bytes_of(b.drop_last(), tag).push(b.last().val->Bytes_0) =~= (
        bytes_of(a, tag) + bytes_of(b.drop_last(), tag)).push(b.last().val->Bytes_0));
    }
}

pub proof fn lemma_one_field(f: FieldView, tag: u32)
    ensures
        last_varint(seq![f], tag) == (if f.tag == tag && f.val is Varint {
            Some(f.val->Varint_0)
        } else {
            None::<u64>
        }),
        bytes_of(seq![f], tag) == (if f.tag == tag && f.val is Bytes {
            seq![f.val->Bytes_0]
        } else {
            Seq::<Seq<u8>>::empty()
        }),
        any_varint(seq![f], tag) == (f.tag == tag && f.val is Varint),
        any_skipped(seq![f], tag) == (f.tag == tag && f.val is Skipped),
{
    assert(seq![f].drop_last() =~= Seq::<FieldView>::empty());
    assert(seq![f].last() == f);
    assert(last_varint(Seq::<FieldView>::empty(), tag) is None);
    assert(bytes_of(Seq::<FieldView>::empty(), tag) == Seq::<Seq<u8>>::empty());
    assert(!any_varint(Seq::<FieldView>::empty(), tag));
    assert(!any_skipped(Seq::<FieldView>::empty(), tag));
    assert(Seq::<Seq<u8>>::empty().push(f.val->Bytes_0) =~= seq![f.val->Bytes_0]);
}


/// The fields this crate writes carry no field of another wire type.
pub proof fn lemma_ok_not_skipped(fs: Seq<FieldView>, tag: u32)
    requires
        fields_ok(fs),
    ensures
        !any_skipped(fs, tag),
    decreases fs.len(),
{
    if fs.len() > 0 {
        assert(crate::wire::field_ok(fs[fs.len() - 1]));
        assert(fields_ok(fs.drop_last())) by {
            assert forall|i: int| 0 <= i < fs.drop_last().len() implies crate::wire::field_ok(
                #[trigger] fs.drop_last()[i],
            ) by {
                assert(fs.drop_last()[i] == fs[i]);
            }
        }
        lemma_ok_not_skipped(fs.drop_last(), tag);
    }
}

/// The varint field with `tag`: `Ok(None)` when there is none, an error
/// when a field with that tag has another wire type.
pub fn varint_field(fs: &Vec<WireField>, tag: u32) -> (r: Result<Option<u64>, Error>)
    ensures
        match r {
            Ok(v) => !not_varint(fields_view(fs@), tag) && v == last_varint(fields_view(fs@), tag),
            Err(_) => not_varint(fields_view(fs@), tag),
        },
{
    let mut found: Option<u64> = None;
    let mut clash = false;
    let mut i: usize = 0;
    while i < fs.len()
        invariant
            i <= fs@.len(),
            found == last_varint(fields_view(fs@.subrange(0, i as int)), tag),
            clash == not_varint(fields_view(fs@.subrange(0, i as int)), tag),
        decreases fs@.len() - i,
    {
        proof {
            assert(fields_view(fs@.subrange(0, i + 1)).drop_last() =~= fields_view(
                fs@.subrange(0, i as int),
            ));
            assert(fields_view(fs@.subrange(0, i + 1)).last() == field_view(fs@[i as int]));
        }
        if fs[i].tag == tag {
            match &fs[i].val {
                WireVal::Varint(v) => {
                    found = Some(*v);
                },
                WireVal::Bytes(_) => {
                    clash = true;
                },
                WireVal::Skipped => {
                    clash = true;
                },
            }
        }
        i = i + 1;
    }
    proof {
        assert(fs@.subrange(0, i as int) =~= fs@);
    }
    if clash {
        Err(Error::DBError { msg: String::from_str("a field has an unexpected wire type") })
    } else {
        Ok(found)
    }
}

/// The payloads of the length-delimited fields with `tag`, in order; an
/// error when a field with that tag has another wire type.
pub fn bytes_fields(fs: &Vec<WireField>, tag: u32) -> (r: Result<Vec<Vec<u8>>, Error>)
    ensures
        match r {
            Ok(v) => !not_bytes(fields_view(fs@), tag) && v@.map_values(|b: Vec<u8>| b@)
                == bytes_of(fields_view(fs@), tag),
            Err(_) => not_bytes(fields_view(fs@), tag),
        },
{
    let mut found: Vec<Vec<u8>> = Vec::new();
    let mut clash = false;
    let mut i: usize = 0;
    while i < fs.len()
        invariant
            i <= fs@.len(),
            found@.map_values(|b: Vec<u8>| b@) == bytes_of(fields_view(fs@.subrange(0, i as int)), tag),
            clash == not_bytes(fields_view(fs@.subrange(0, i as int)), tag),
        decreases fs@.len() - i,
    {
        proof {
            assert(fields_view(fs@.subrange(0, i + 1)).drop_last() =~= fields_view(
                fs@.subrange(0, i as int),
            ));
            assert(fields_view(fs@.subrange(0, i + 1)).last() == field_view(fs@[i as int]));
        }
        let ghost before = found@;
        if fs[i].tag == tag {
            match &fs[i].val {
                WireVal::Varint(_) => {
                    clash = true;
                },
                WireVal::Skipped => {
                    clash = true;
                },
                WireVal::Bytes(b) => {
                    found.push(slice_to_vec(b.as_slice()));
                    proof {
                        assert(found@.map_values(|b: Vec<u8>| b@) =~= before.map_values(
                            |b: Vec<u8>| b@,
                        ).push(b@));
                    }
                },
            }
        }
        i = i + 1;
    }
    proof {
        assert(fs@.subrange(0, i as int) =~= fs@);
    }
    if clash {
        Err(Error::DBError { msg: String::from_str("a field has an unexpected wire type") })
    } else {
        Ok(found)
    }
}

/// The last of a list of byte strings, and empty when there is none.
pub fn last_bytes(parts: &Vec<Vec<u8>>) -> (r: Vec<u8>)
    ensures
        r@ == (if parts@.len() == 0 {
            Seq::<u8>::empty()
        } else {
            parts@.last()@
        }),
{
    if parts.len() == 0 {
        Vec::new()
    } else {
        slice_to_vec(parts[parts.len() - 1].as_slice())
    }
}

// ---------------------------------------------------------------------
// Writing fields
// ---------------------------------------------------------------------

/// A varint field, left out when it holds 0.
pub open spec fn opt_varint(tag: u32, v: u64) -> Seq<FieldView> {
    if v == 0 {
        Seq::empty()
    } else {
        seq![FieldView { tag, val: FieldVal::Varint(v) }]
    }
}

/// A bytes field, left out when it is empty.
pub open spec fn opt_bytes(tag: u32, b: Seq<u8>) -> Seq<FieldView> {
    if b.len() == 0 {
        Seq::empty()
    } else {
        seq![FieldView { tag, val: FieldVal::Bytes(b) }]
    }
}

/// A message field, left out when the message is absent.
pub open spec fn opt_message(tag: u32, b: Option<Seq<u8>>) -> Seq<FieldView> {
    match b {
        Some(b) => seq![FieldView { tag, val: FieldVal::Bytes(b) }],
        None => Seq::empty(),
    }
}

fn push_varint(out: &mut Vec<WireField>, tag: u32, v: u64)
    ensures
        fields_view(final(out)@) == fields_view(old(out)@) + opt_varint(tag, v),
{
    if v != 0 {
        out.push(WireField { tag, val: WireVal::Varint(v) });
        proof {
            assert(fields_view(out@) =~= fields_view(old(out)@) + opt_varint(tag, v));
        }
    } else {
        proof {
            assert(fields_view(out@) =~= fields_view(old(out)@) + opt_varint(tag, v));
        }
    }
}

fn push_bytes(out: &mut Vec<WireField>, tag: u32, b: Vec<u8>)
    ensures
        fields_view(final(out)@) == fields_view(old(out)@) + opt_bytes(tag, b@),
{
    if b.len() != 0 {
        let ghost bv = b@;
        out.push(WireField { tag, val: WireVal::Bytes(b) });
        proof {
            assert(fields_view(out@) =~= fields_view(old(out)@) + opt_bytes(tag, bv));
        }
    } else {
        proof {
            assert(fields_view(out@) =~= fields_view(old(out)@) + opt_bytes(tag, b@));
        }
    }
}

fn push_message(out: &mut Vec<WireField>, tag: u32, b: Option<Vec<u8>>)
    ensures
        fields_view(final(out)@) == fields_view(old(out)@) + opt_message(
            tag,
            match b {
                Some(v) => Some(v@),
                None => None,
            },
        ),
{
    match b {
        Some(v) => {
            let ghost bv = v@;
            out.push(WireField { tag, val: WireVal::Bytes(v) });
            proof {
                assert(fields_view(out@) =~= fields_view(old(out)@) + opt_message(tag, Some(bv)));
            }
        },
        None => {
            proof {
                assert(fields_view(out@) =~= fields_view(old(out)@) + opt_message(tag, None));
            }
        },
    }
}

// ---------------------------------------------------------------------
// InstanceId
// ---------------------------------------------------------------------

/// The fields of an instance id: replica id (1), index (2).
pub open spec fn instance_id_fields(x: InstanceId) -> Seq<FieldView> {
    opt_varint(1, x.replica_id as u64) + opt_varint(2, x.idx as u64)
}

/// The encoding of an instance id.
pub open spec fn instance_id_bytes(x: InstanceId) -> Seq<u8> {
    fields_bytes(instance_id_fields(x))
}

/// The instance id that a list of fields holds.
pub open spec fn instance_id_of(fs: Seq<FieldView>) -> Option<InstanceId> {
    if not_varint(fs, 1) || not_varint(fs, 2) {
        None
    } else {
        Some(
            InstanceId {
                replica_id: varint_or_zero(fs, 1) as i64,
                idx: varint_or_zero(fs, 2) as i64,
            },
        )
    }
}

proof fn lemma_i64_round_trip(v: i64)
    ensures
        (v as u64) as i64 == v,
        (v as u64 == 0) == (v == 0),
{
    assert((v as u64) as i64 == v) by (bit_vector);
    assert((v as u64 == 0) == (v == 0)) by (bit_vector);
}

proof fn lemma_i32_round_trip(v: i32)
    ensures
        (v as u64) as i32 == v,
        (v as u64 == 0) == (v == 0),
{
    assert((v as u64) as i32 == v) by (bit_vector);
    assert((v as u64 == 0) == (v == 0)) by (bit_vector);
}

/// The tag-by-tag reading of an optional varint field.
proof fn lemma_opt_varint(tag: u32, v: u64, t: u32)
    ensures
        last_varint(opt_varint(tag, v), t) == (if t == tag && v != 0 {
            Some(v)
        } else {
            None::<u64>
        }),
        bytes_of(opt_varint(tag, v), t) == Seq::<Seq<u8>>::empty(),
        any_varint(opt_varint(tag, v), t) == (t == tag && v != 0),
        !any_skipped(opt_varint(tag, v), t),
{
    if v != 0 {
        lemma_one_field(FieldView { tag, val: FieldVal::Varint(v) }, t);
    }
}

proof fn lemma_opt_bytes(tag: u32, b: Seq<u8>, t: u32)
    ensures
        last_varint(opt_bytes(tag, b), t) is None,
        bytes_of(opt_bytes(tag, b), t) == (if t == tag && b.len() != 0 {
            seq![b]
        } else {
            Seq::<Seq<u8>>::empty()
        }),
        !any_varint(opt_bytes(tag, b), t),
        !any_skipped(opt_bytes(tag, b), t),
{
    if b.len() != 0 {
        lemma_one_field(FieldView { tag, val: FieldVal::Bytes(b) }, t);
    }
}

proof fn lemma_opt_message(tag: u32, b: Option<Seq<u8>>, t: u32)
    ensures
        last_varint(opt_message(tag, b), t) is None,
        bytes_of(opt_message(tag, b), t) == (if t == tag && b is Some {
            seq![b->Some_0]
        } else {
            Seq::<Seq<u8>>::empty()
        }),
        !any_varint(opt_message(tag, b), t),
        !any_skipped(opt_message(tag, b), t),
{
    if b is Some {
        lemma_one_field(FieldView { tag, val: FieldVal::Bytes(b->Some_0) }, t);
    }
}

pub proof fn lemma_instance_id_round_trip(x: InstanceId)
    ensures
        instance_id_of(instance_id_fields(x)) == Some(x),
        fields_ok(instance_id_fields(x)),
{
    let a = opt_varint(1, x.replica_id as u64);
    let b = opt_varint(2, x.idx as u64);
    lemma_by_tag_concat(a, b, 1);
    lemma_by_tag_concat(a, b, 2);
    lemma_opt_varint(1, x.replica_id as u64, 1);
    lemma_opt_varint(1, x.replica_id as u64, 2);
    lemma_opt_varint(2, x.idx as u64, 1);
    lemma_opt_varint(2, x.idx as u64, 2);
    lemma_i64_round_trip(x.replica_id);
    lemma_i64_round_trip(x.idx);
    assert(bytes_of(a + b, 1) =~= Seq::<Seq<u8>>::empty());
    assert(bytes_of(a + b, 2) =~= Seq::<Seq<u8>>::empty());
}

/// The fields of an instance id.
pub fn instance_id_to_fields(x: &InstanceId) -> (r: Vec<WireField>)
    ensures
        fields_view(r@) == instance_id_fields(*x),
{
    let mut out: Vec<WireField> = Vec::new();
    push_varint(&mut out, 1, x.replica_id as u64);
    push_varint(&mut out, 2, x.idx as u64);
    proof {
        assert(fields_view(Seq::<WireField>::empty()) =~= Seq::<FieldView>::empty());
        assert(Seq::<FieldView>::empty() + opt_varint(1, x.replica_id as u64) =~= opt_varint(
            1,
            x.replica_id as u64,
        ));
    }
    out
}

/// Encodes an instance id.
pub fn encode_instance_id(x: &InstanceId) -> (r: Vec<u8>)
    ensures
        r@ == instance_id_bytes(*x),
{
    let fs = instance_id_to_fields(x);
    proof {
        lemma_instance_id_round_trip(*x);
    }
    encode_fields(&fs)
}

/// The instance id that a list of fields holds.
pub fn instance_id_from_fields(fs: &Vec<WireField>) -> (r: Result<InstanceId, Error>)
    ensures
        match r {
            Ok(x) => instance_id_of(fields_view(fs@)) == Some(x),
            Err(_) => instance_id_of(fields_view(fs@)) is None,
        },
{
    let rid = varint_field(fs, 1)?;
    let idx = varint_field(fs, 2)?;
    let rid = match rid {
        Some(v) => v,
        None => 0,
    };
    let idx = match idx {
        Some(v) => v,
        None => 0,
    };
    Ok(InstanceId { replica_id: rid as i64, idx: idx as i64 })
}

/// The instance id that prost reads from `buf`.
pub open spec fn decoded_instance_id(buf: Seq<u8>) -> Option<InstanceId> {
    match parse_fields(buf) {
        Some(fs) => instance_id_of(fs),
        None => None,
    }
}

/// Decodes an instance id; what `encode_instance_id` wrote is read back.
pub fn decode_instance_id(buf: &[u8]) -> (r: Result<InstanceId, Error>)
    ensures
        match r {
            Ok(x) => decoded_instance_id(buf@) == Some(x),
            Err(_) => decoded_instance_id(buf@) is None,
        },
        forall|x: InstanceId| #[trigger] instance_id_bytes(x) == buf@ ==> r == Ok::<
            InstanceId,
            Error,
        >(x),
{
    let fs = decode_fields(buf)?;
    let r = instance_id_from_fields(&fs);
    proof {
        assert forall|x: InstanceId| #[trigger] instance_id_bytes(x) == buf@ implies r == Ok::<
            InstanceId,
            Error,
        >(x) by {
            lemma_instance_id_round_trip(x);
        }
    }
    r
}


pub proof fn lemma_fields_ok_concat(a: Seq<FieldView>, b: Seq<FieldView>)
    requires
        fields_ok(a),
        fields_ok(b),
    ensures
        fields_ok(a + b),
{
    assert forall|i: int| 0 <= i < (a + b).len() implies crate::wire::field_ok(#[trigger] (a + b)[i]) by {
        if i < a.len() {
            assert((a + b)[i] == a[i]);
        } else {
            assert((a + b)[i] == b[i - a.len()]);
        }
    }
}

proof fn lemma_opt_fields_ok(tag: u32, v: u64, b: Seq<u8>, m: Option<Seq<u8>>)
    requires
        1 <= tag <= 8,
    ensures
        fields_ok(opt_varint(tag, v)),
        fields_ok(opt_bytes(tag, b)),
        fields_ok(opt_message(tag, m)),
{
}

// ---------------------------------------------------------------------
// BallotNum
// ---------------------------------------------------------------------

/// The fields of a ballot: epoch (1), number (2), replica id (3).
pub open spec fn ballot_fields(b: BallotNum) -> Seq<FieldView> {
    opt_varint(1, b.epoch as u64) + opt_varint(2, b.num as u64) + opt_varint(3, b.replica_id as u64)
}

/// The encoding of a ballot.
pub open spec fn ballot_bytes(b: BallotNum) -> Seq<u8> {
    fields_bytes(ballot_fields(b))
}

/// The ballot that a list of fields holds.
pub open spec fn ballot_of(fs: Seq<FieldView>) -> Option<BallotNum> {
    if not_varint(fs, 1) || not_varint(fs, 2) || not_varint(fs, 3) {
        None
    } else {
        Some(
            BallotNum {
                epoch: varint_or_zero(fs, 1) as i32,
                num: varint_or_zero(fs, 2) as i32,
                replica_id: varint_or_zero(fs, 3) as i64,
            },
        )
    }
}

proof fn lemma_ballot_tag(b: BallotNum, t: u32)
    ensures
        last_varint(ballot_fields(b), t) == (if t == 1 && b.epoch as u64 != 0 {
            Some(b.epoch as u64)
        } else if t == 2 && b.num as u64 != 0 {
            Some(b.num as u64)
        } else if t == 3 && b.replica_id as u64 != 0 {
            Some(b.replica_id as u64)
        } else {
            None::<u64>
        }),
        bytes_of(ballot_fields(b), t) == Seq::<Seq<u8>>::empty(),
        !any_skipped(ballot_fields(b), t),
{
    let p1 = opt_varint(1, b.epoch as u64);
    let p2 = opt_varint(2, b.num as u64);
    let p3 = opt_varint(3, b.replica_id as u64);
    lemma_by_tag_concat(p1, p2, t);
    lemma_by_tag_concat(p1 + p2, p3, t);
    lemma_opt_varint(1, b.epoch as u64, t);
    lemma_opt_varint(2, b.num as u64, t);
    lemma_opt_varint(3, b.replica_id as u64, t);
    assert(Seq::<Seq<u8>>::empty() + Seq::<Seq<u8>>::empty() =~= Seq::<Seq<u8>>::empty());
}

pub proof fn lemma_ballot_round_trip(b: BallotNum)
    ensures
        ballot_of(ballot_fields(b)) == Some(b),
        fields_ok(ballot_fields(b)),
{
    lemma_ballot_tag(b, 1);
    lemma_ballot_tag(b, 2);
    lemma_ballot_tag(b, 3);
    lemma_i32_round_trip(b.epoch);
    lemma_i32_round_trip(b.num);
    lemma_i64_round_trip(b.replica_id);
    lemma_opt_fields_ok(1, b.epoch as u64, Seq::empty(), None);
    lemma_opt_fields_ok(2, b.num as u64, Seq::empty(), None);
    lemma_opt_fields_ok(3, b.replica_id as u64, Seq::empty(), None);
    lemma_fields_ok_concat(opt_varint(1, b.epoch as u64), opt_varint(2, b.num as u64));
    lemma_fields_ok_concat(
        opt_varint(1, b.epoch as u64) + opt_varint(2, b.num as u64),
        opt_varint(3, b.replica_id as u64),
    );
}

/// Encodes a ballot.
pub fn encode_ballot(b: &BallotNum) -> (r: Vec<u8>)
    ensures
        r@ == ballot_bytes(*b),
{
    let mut out: Vec<WireField> = Vec::new();
    push_varint(&mut out, 1, b.epoch as u64);
    push_varint(&mut out, 2, b.num as u64);
    push_varint(&mut out, 3, b.replica_id as u64);
    proof {
        assert(fields_view(Seq::<WireField>::empty()) =~= Seq::<FieldView>::empty());
        assert(fields_view(out@) =~= ballot_fields(*b));
        lemma_ballot_round_trip(*b);
    }
    encode_fields(&out)
}

/// The ballot that a list of fields holds.
pub fn ballot_from_fields(fs: &Vec<WireField>) -> (r: Result<BallotNum, Error>)
    ensures
        match r {
            Ok(b) => ballot_of(fields_view(fs@)) == Some(b),
            Err(_) => ballot_of(fields_view(fs@)) is None,
        },
{
    let e = varint_field(fs, 1)?;
    let n = varint_field(fs, 2)?;
    let rid = varint_field(fs, 3)?;
    let e = match e {
        Some(v) => v,
        None => 0,
    };
    let n = match n {
        Some(v) => v,
        None => 0,
    };
    let rid = match rid {
        Some(v) => v,
        None => 0,
    };
    Ok(BallotNum { epoch: e as i32, num: n as i32, replica_id: rid as i64 })
}

/// The ballot that prost reads from `buf`.
pub open spec fn decoded_ballot(buf: Seq<u8>) -> Option<BallotNum> {
    match parse_fields(buf) {
        Some(fs) => ballot_of(fs),
        None => None,
    }
}

/// Decodes a ballot; what `encode_ballot` wrote is read back.
pub fn decode_ballot(buf: &[u8]) -> (r: Result<BallotNum, Error>)
    ensures
        match r {
            Ok(b) => decoded_ballot(buf@) == Some(b),
            Err(_) => decoded_ballot(buf@) is None,
        },
        forall|b: BallotNum| #[trigger] ballot_bytes(b) == buf@ ==> r == Ok::<BallotNum, Error>(b),
{
    let fs = decode_fields(buf)?;
    let r = ballot_from_fields(&fs);
    proof {
        assert forall|b: BallotNum| #[trigger] ballot_bytes(b) == buf@ implies r == Ok::<
            BallotNum,
            Error,
        >(b) by {
            lemma_ballot_round_trip(b);
        }
    }
    r
}

// ---------------------------------------------------------------------
// Command
// ---------------------------------------------------------------------

/// The fields of a command: op (1), key (2), value (3).
pub open spec fn command_fields(c: CommandView) -> Seq<FieldView> {
    opt_varint(1, c.op as u64) + opt_bytes(2, c.key) + opt_bytes(3, c.value)
}

/// The encoding of a command.
pub open spec fn command_bytes(c: CommandView) -> Seq<u8> {
    fields_bytes(command_fields(c))
}

/// The last of some byte strings, and empty when there is none.
pub open spec fn last_or_empty(parts: Seq<Seq<u8>>) -> Seq<u8> {
    if parts.len() == 0 {
        Seq::empty()
    } else {
        parts.last()
    }
}

/// The command that a list of fields holds.
pub open spec fn command_of(fs: Seq<FieldView>) -> Option<CommandView> {
    if not_varint(fs, 1) || not_bytes(fs, 2) || not_bytes(fs, 3) {
        None
    } else {
        Some(
            CommandView {
                op: varint_or_zero(fs, 1) as i32,
                key: last_or_empty(bytes_of(fs, 2)),
                value: last_or_empty(bytes_of(fs, 3)),
            },
        )
    }
}

pub proof fn lemma_command_round_trip(c: CommandView)
    ensures
        command_of(command_fields(c)) == Some(c),
        fields_ok(command_fields(c)),
{
    let p1 = opt_varint(1, c.op as u64);
    let p2 = opt_bytes(2, c.key);
    let p3 = opt_bytes(3, c.value);
    assert forall|t: u32| 1 <= t <= 3 implies {
        &&& last_varint(command_fields(c), t) == last_varint(p1, t)
        &&& bytes_of(command_fields(c), t) == bytes_of(p2, t) + bytes_of(p3, t)
        &&& any_varint(command_fields(c), t) == any_varint(p1, t)
    } by {
        lemma_by_tag_concat(p1, p2, t);
        lemma_by_tag_concat(p1 + p2, p3, t);
        lemma_opt_varint(1, c.op as u64, t);
        lemma_opt_bytes(2, c.key, t);
        lemma_opt_bytes(3, c.value, t);
        assert(Seq::<Seq<u8>>::empty() + bytes_of(p2, t) =~= bytes_of(p2, t));
    }
    lemma_opt_varint(1, c.op as u64, 1);
    lemma_opt_varint(1, c.op as u64, 2);
    lemma_opt_varint(1, c.op as u64, 3);
    lemma_opt_bytes(2, c.key, 1);
    lemma_opt_bytes(2, c.key, 2);
    lemma_opt_bytes(2, c.key, 3);
    lemma_opt_bytes(3, c.value, 1);
    lemma_opt_bytes(3, c.value, 2);
    lemma_opt_bytes(3, c.value, 3);
    lemma_i32_round_trip(c.op);
    assert(bytes_of(command_fields(c), 2) =~= bytes_of(p2, 2));
    assert(bytes_of(command_fields(c), 3) =~= bytes_of(p3, 3));
    assert(bytes_of(command_fields(c), 1) =~= Seq::<Seq<u8>>::empty());
    if c.key.len() == 0 {
        assert(c.key =~= Seq::<u8>::empty());
    }
    if c.value.len() == 0 {
        assert(c.value =~= Seq::<u8>::empty());
    }
    lemma_opt_fields_ok(1, c.op as u64, c.key, None);
    lemma_opt_fields_ok(2, 0, c.key, None);
    lemma_opt_fields_ok(3, 0, c.value, None);
    lemma_fields_ok_concat(p1, p2);
    lemma_fields_ok_concat(p1 + p2, p3);
    lemma_ok_not_skipped(command_fields(c), 1);
    lemma_ok_not_skipped(command_fields(c), 2);
    lemma_ok_not_skipped(command_fields(c), 3);
}

/// Encodes a command.
pub fn encode_command(c: &Command) -> (r: Vec<u8>)
    ensures
        r@ == command_bytes(c@),
{
    let mut out: Vec<WireField> = Vec::new();
    push_varint(&mut out, 1, c.op as u64);
    push_bytes(&mut out, 2, slice_to_vec(c.key.as_slice()));
    push_bytes(&mut out, 3, slice_to_vec(c.value.as_slice()));
    proof {
        assert(fields_view(Seq::<WireField>::empty()) =~= Seq::<FieldView>::empty());
        assert(fields_view(out@) =~= command_fields(c@));
        lemma_command_round_trip(c@);
    }
    encode_fields(&out)
}

/// The command that a list of fields holds.
pub fn command_from_fields(fs: &Vec<WireField>) -> (r: Result<Command, Error>)
    ensures
        match r {
            Ok(c) => command_of(fields_view(fs@)) == Some(c@),
            Err(_) => command_of(fields_view(fs@)) is None,
        },
{
    let op = varint_field(fs, 1)?;
    let keys = bytes_fields(fs, 2)?;
    let values = bytes_fields(fs, 3)?;
    let op = match op {
        Some(v) => v,
        None => 0,
    };
    let key = last_bytes(&keys);
    let value = last_bytes(&values);
    let c = Command { op: op as i32, key, value };
    proof {
        let fv = fields_view(fs@);
        assert(bytes_of(fv, 2).len() == keys@.len());
        assert(bytes_of(fv, 3).len() == values@.len());
        if keys@.len() > 0 {
            assert(bytes_of(fv, 2).last() == keys@.last()@);
        }
        if values@.len() > 0 {
            assert(bytes_of(fv, 3).last() == values@.last()@);
        }
    }
    Ok(c)
}

/// The command that prost reads from `buf`.
pub open spec fn decoded_command(buf: Seq<u8>) -> Option<CommandView> {
    match parse_fields(buf) {
        Some(fs) => command_of(fs),
        None => None,
    }
}

/// Decodes a command; what `encode_command` wrote is read back.
pub fn decode_command(buf: &[u8]) -> (r: Result<Command, Error>)
    ensures
        match r {
            Ok(c) => decoded_command(buf@) == Some(c@),
            Err(_) => decoded_command(buf@) is None,
        },
        forall|c: CommandView| #[trigger] command_bytes(c) == buf@ ==> r is Ok && r->Ok_0@ == c,
{
    let fs = decode_fields(buf)?;
    let r = command_from_fields(&fs);
    proof {
        assert forall|c: CommandView| #[trigger] command_bytes(c) == buf@ implies r is Ok
            && r->Ok_0@ == c by {
            lemma_command_round_trip(c);
        }
    }
    r
}

// ---------------------------------------------------------------------
// Repeated message fields
// ---------------------------------------------------------------------

/// A repeated message field: one length-delimited field per message.
pub open spec fn tagged_bytes(tag: u32, parts: Seq<Seq<u8>>) -> Seq<FieldView> {
    parts.map_values(|b: Seq<u8>| FieldView { tag, val: FieldVal::Bytes(b) })
}

pub proof fn lemma_tagged_bytes(tag: u32, parts: Seq<Seq<u8>>, t: u32)
    ensures
        last_varint(tagged_bytes(tag, parts), t) is None,
        !any_varint(tagged_bytes(tag, parts), t),
        !any_skipped(tagged_bytes(tag, parts), t),
        bytes_of(tagged_bytes(tag, parts), t) == (if t == tag {
            parts
        } else {
            Seq::<Seq<u8>>::empty()
        }),
    decreases parts.len(),
{
    if parts.len() > 0 {
        lemma_tagged_bytes(tag, parts.drop_last(), t);
        assert(tagged_bytes(tag, parts).drop_last() =~= tagged_bytes(tag, parts.drop_last()));
        if t == tag {
            assert(parts.drop_last().push(parts.last()) =~= parts);
        }
    } else {
        assert(tagged_bytes(tag, parts) =~= Seq::<FieldView>::empty());
        if t == tag {
            assert(parts =~= Seq::<Seq<u8>>::empty());
        }
    }
}

pub proof fn lemma_tagged_fields_ok(tag: u32, parts: Seq<Seq<u8>>)
    requires
        1 <= tag <= 8,
    ensures
        fields_ok(tagged_bytes(tag, parts)),
{
}

// ---------------------------------------------------------------------
// InstanceIdVec
// ---------------------------------------------------------------------

/// The encodings of some instance ids.
pub open spec fn instance_ids_bytes(ids: Seq<InstanceId>) -> Seq<Seq<u8>> {
    ids.map_values(|x: InstanceId| instance_id_bytes(x))
}

/// The fields of an instance id list: one instance id field (1) per id.
pub open spec fn id_vec_fields(ids: Seq<InstanceId>) -> Seq<FieldView> {
    tagged_bytes(1, instance_ids_bytes(ids))
}

/// The encoding of an instance id list.
pub open spec fn id_vec_bytes(ids: Seq<InstanceId>) -> Seq<u8> {
    fields_bytes(id_vec_fields(ids))
}

/// The instance ids that prost reads from each of `parts`; `None` when one
/// fails.
pub open spec fn decoded_all_ids(parts: Seq<Seq<u8>>) -> Option<Seq<InstanceId>>
    decreases parts.len(),
{
    if parts.len() == 0 {
        Some(Seq::empty())
    } else {
        match (decoded_all_ids(parts.drop_last()), decoded_instance_id(parts.last())) {
            (Some(a), Some(x)) => Some(a.push(x)),
            _ => None,
        }
    }
}

proof fn lemma_all_ids_none(parts: Seq<Seq<u8>>, i: int)
    requires
        0 <= i <= parts.len(),
        decoded_all_ids(parts.subrange(0, i)) is None,
    ensures
        decoded_all_ids(parts) is None,
    decreases parts.len() - i,
{
    if i == parts.len() {
        assert(parts.subrange(0, i) =~= parts);
    } else {
        assert(parts.subrange(0, i + 1).drop_last() =~= parts.subrange(0, i));
        lemma_all_ids_none(parts, i + 1);
    }
}

/// The instance id list that a list of fields holds.
pub open spec fn id_vec_of(fs: Seq<FieldView>) -> Option<Seq<InstanceId>> {
    if not_bytes(fs, 1) {
        None
    } else {
        decoded_all_ids(bytes_of(fs, 1))
    }
}

/// The instance id list that prost reads from `buf`.
pub open spec fn decoded_id_vec(buf: Seq<u8>) -> Option<Seq<InstanceId>> {
    match parse_fields(buf) {
        Some(fs) => id_vec_of(fs),
        None => None,
    }
}

/// Encodes an instance id list.
pub fn encode_id_vec(v: &InstanceIdVec) -> (r: Vec<u8>)
    ensures
        r@ == id_vec_bytes(v@),
{
    let mut out: Vec<WireField> = Vec::new();
    let mut i: usize = 0;
    while i < v.ids.len()
        invariant
            i <= v.ids@.len(),
            fields_view(out@) == id_vec_fields(v.ids@.subrange(0, i as int)),
        decreases v.ids@.len() - i,
    {
        let b = encode_instance_id(&v.ids[i]);
        let ghost bv = b@;
        let ghost before = out@;
        out.push(WireField { tag: 1, val: WireVal::Bytes(b) });
        proof {
            assert(fields_view(out@) =~= fields_view(before).push(
                FieldView { tag: 1, val: FieldVal::Bytes(bv) },
            ));
            assert(id_vec_fields(v.ids@.subrange(0, i + 1)) =~= id_vec_fields(
                v.ids@.subrange(0, i as int),
            ).push(FieldView { tag: 1, val: FieldVal::Bytes(instance_id_bytes(v.ids@[i as int])) }));
        }
        i = i + 1;
    }
    proof {
        assert(v.ids@.subrange(0, i as int) =~= v.ids@);
        lemma_tagged_fields_ok(1, instance_ids_bytes(v.ids@));
    }
    encode_fields(&out)
}

/// Decodes each of some encoded instance ids.
fn decode_instance_ids(parts: &Vec<Vec<u8>>) -> (r: Result<Vec<InstanceId>, Error>)
    ensures
        match r {
            Ok(v) => decoded_all_ids(parts@.map_values(|b: Vec<u8>| b@)) == Some(v@),
            Err(_) => decoded_all_ids(parts@.map_values(|b: Vec<u8>| b@)) is None,
        },
        forall|ids: Seq<InstanceId>| #[trigger] instance_ids_bytes(ids) == parts@.map_values(
            |b: Vec<u8>| b@,
        ) ==> r is Ok && r->Ok_0@ == ids,
{
    let ghost pv = parts@.map_values(|b: Vec<u8>| b@);
    let mut out: Vec<InstanceId> = Vec::new();
    let mut i: usize = 0;
    while i < parts.len()
        invariant
            i <= parts@.len(),
            pv == parts@.map_values(|b: Vec<u8>| b@),
            decoded_all_ids(pv.subrange(0, i as int)) == Some(out@),
            forall|ids: Seq<InstanceId>| #[trigger] instance_ids_bytes(ids) == pv ==> out@
                == ids.subrange(0, i as int),
        decreases parts@.len() - i,
    {
        let d = decode_instance_id(parts[i].as_slice());
        proof {
            assert(pv.subrange(0, i + 1).drop_last() =~= pv.subrange(0, i as int));
            assert(pv.subrange(0, i + 1).last() == parts@[i as int]@);
        }
        match d {
            Ok(x) => {
                let ghost before = out@;
                out.push(x);
                proof {
                    assert forall|ids: Seq<InstanceId>| #[trigger] instance_ids_bytes(ids) == pv implies out@
                        == ids.subrange(0, i + 1) by {
                        assert(ids.len() == pv.len());
                        assert(instance_ids_bytes(ids)[i as int] == pv[i as int]);
                        assert(instance_id_bytes(ids[i as int]) == parts@[i as int]@);
                        assert(x == ids[i as int]);
                        assert(ids.subrange(0, i + 1) =~= ids.subrange(0, i as int).push(
                            ids[i as int],
                        ));
                    }
                }
            },
            Err(e) => {
                proof {
                    assert forall|ids: Seq<InstanceId>| #[trigger] instance_ids_bytes(ids) == pv implies false by {
                        assert(ids.len() == pv.len());
                        assert(instance_ids_bytes(ids)[i as int] == pv[i as int]);
                        assert(instance_id_bytes(ids[i as int]) == parts@[i as int]@);
                    }
                    lemma_all_ids_none(pv, i + 1);
                }
                return Err(e);
            },
        }
        i = i + 1;
    }
    proof {
        assert forall|ids: Seq<InstanceId>| #[trigger] instance_ids_bytes(ids) == pv implies out@
            == ids by {
            assert(ids.len() == pv.len());
            assert(ids.subrange(0, i as int) =~= ids);
        }
        assert(pv.subrange(0, i as int) =~= pv);
    }
    Ok(out)
}

/// The instance id list that a list of fields holds; what
/// `encode_id_vec`'s fields hold is read back.
pub fn id_vec_from_fields(fs: &Vec<WireField>) -> (r: Result<InstanceIdVec, Error>)
    ensures
        match r {
            Ok(v) => id_vec_of(fields_view(fs@)) == Some(v@),
            Err(_) => id_vec_of(fields_view(fs@)) is None,
        },
        forall|ids: Seq<InstanceId>| #[trigger] id_vec_fields(ids) == fields_view(fs@) ==> r is Ok
            && r->Ok_0@ == ids,
{
    let parts = match bytes_fields(fs, 1) {
        Ok(p) => p,
        Err(e) => {
            proof {
                assert forall|ids2: Seq<InstanceId>| #[trigger] id_vec_fields(ids2) == fields_view(
                    fs@,
                ) implies false by {
                    lemma_tagged_bytes(1, instance_ids_bytes(ids2), 1);
                }
            }
            return Err(e);
        },
    };
    proof {
        assert forall|ids2: Seq<InstanceId>| #[trigger] id_vec_fields(ids2) == fields_view(
            fs@,
        ) implies #[trigger] instance_ids_bytes(ids2) == parts@.map_values(|b: Vec<u8>| b@) by {
            lemma_tagged_bytes(1, instance_ids_bytes(ids2), 1);
        }
    }
    let ids = decode_instance_ids(&parts)?;
    Ok(InstanceIdVec { ids })
}

/// Decodes an instance id list; what `encode_id_vec` wrote is read back.
pub fn decode_id_vec(buf: &[u8]) -> (r: Result<InstanceIdVec, Error>)
    ensures
        match r {
            Ok(v) => decoded_id_vec(buf@) == Some(v@),
            Err(_) => decoded_id_vec(buf@) is None,
        },
        forall|ids: Seq<InstanceId>| #[trigger] id_vec_bytes(ids) == buf@ ==> r is Ok && r->Ok_0@
            == ids,
{
    let fs = decode_fields(buf)?;
    proof {
        assert forall|ids: Seq<InstanceId>| #[trigger] id_vec_bytes(ids) == buf@ implies id_vec_fields(ids)
            == fields_view(fs@) by {
            lemma_tagged_fields_ok(1, instance_ids_bytes(ids));
        }
    }
    id_vec_from_fields(&fs)
}


// ---------------------------------------------------------------------
// Instance
// ---------------------------------------------------------------------

/// The encodings of some commands.
pub open spec fn commands_bytes(cmds: Seq<CommandView>) -> Seq<Seq<u8>> {
    cmds.map_values(|c: CommandView| command_bytes(c))
}

pub open spec fn opt_ballot_bytes(b: Option<BallotNum>) -> Option<Seq<u8>> {
    match b {
        Some(b) => Some(ballot_bytes(b)),
        None => None,
    }
}

pub open spec fn opt_instance_id_bytes(x: Option<InstanceId>) -> Option<Seq<u8>> {
    match x {
        Some(x) => Some(instance_id_bytes(x)),
        None => None,
    }
}

pub open spec fn opt_id_vec_bytes(d: Option<Seq<InstanceId>>) -> Option<Seq<u8>> {
    match d {
        Some(ids) => Some(id_vec_bytes(ids)),
        None => None,
    }
}

pub open spec fn bool_u64(b: bool) -> u64 {
    if b {
        1
    } else {
        0
    }
}

/// The fields of an instance: ballot (1), instance id (2), commands (3),
/// initial deps (4), deps (5), final deps (6), committed (7), executed (8).
pub open spec fn instance_fields(x: InstanceView) -> Seq<FieldView> {
    opt_message(1, opt_ballot_bytes(x.ballot)) + opt_message(2, opt_instance_id_bytes(x.instance_id))
        + tagged_bytes(3, commands_bytes(x.cmds)) + opt_message(4, opt_id_vec_bytes(x.initial_deps))
        + opt_message(5, opt_id_vec_bytes(x.deps)) + opt_message(6, opt_id_vec_bytes(x.final_deps))
        + opt_varint(7, bool_u64(x.committed)) + opt_varint(8, bool_u64(x.executed))
}

/// The encoding of an instance.
pub open spec fn instance_bytes(x: InstanceView) -> Seq<u8> {
    fields_bytes(instance_fields(x))
}

pub open spec fn opt_parts(b: Option<Seq<u8>>) -> Seq<Seq<u8>> {
    match b {
        Some(b) => seq![b],
        None => Seq::empty(),
    }
}

/// The payloads an instance's fields carry under tag `t`.
pub open spec fn instance_parts(x: InstanceView, t: u32) -> Seq<Seq<u8>> {
    if t == 1 {
        opt_parts(opt_ballot_bytes(x.ballot))
    } else if t == 2 {
        opt_parts(opt_instance_id_bytes(x.instance_id))
    } else if t == 3 {
        commands_bytes(x.cmds)
    } else if t == 4 {
        opt_parts(opt_id_vec_bytes(x.initial_deps))
    } else if t == 5 {
        opt_parts(opt_id_vec_bytes(x.deps))
    } else if t == 6 {
        opt_parts(opt_id_vec_bytes(x.final_deps))
    } else {
        Seq::empty()
    }
}

/// The varint an instance's fields carry under tag `t`.
pub open spec fn instance_varint(x: InstanceView, t: u32) -> Option<u64> {
    if t == 7 && x.committed {
        Some(1)
    } else if t == 8 && x.executed {
        Some(1)
    } else {
        None
    }
}

pub proof fn lemma_instance_tag(x: InstanceView, t: u32)
    ensures
        bytes_of(instance_fields(x), t) == instance_parts(x, t),
        last_varint(instance_fields(x), t) == instance_varint(x, t),
        any_varint(instance_fields(x), t) == (instance_varint(x, t) is Some),
        !any_skipped(instance_fields(x), t),
        fields_ok(instance_fields(x)),
{
    let p1 = opt_message(1, opt_ballot_bytes(x.ballot));
    let p2 = opt_message(2, opt_instance_id_bytes(x.instance_id));
    let p3 = tagged_bytes(3, commands_bytes(x.cmds));
    let p4 = opt_message(4, opt_id_vec_bytes(x.initial_deps));
    let p5 = opt_message(5, opt_id_vec_bytes(x.deps));
    let p6 = opt_message(6, opt_id_vec_bytes(x.final_deps));
    let p7 = opt_varint(7, bool_u64(x.committed));
    let p8 = opt_varint(8, bool_u64(x.executed));
    lemma_by_tag_concat(p1, p2, t);
    lemma_by_tag_concat(p1 + p2, p3, t);
    lemma_by_tag_concat(p1 + p2 + p3, p4, t);
    lemma_by_tag_concat(p1 + p2 + p3 + p4, p5, t);
    lemma_by_tag_concat(p1 + p2 + p3 + p4 + p5, p6, t);
    lemma_by_tag_concat(p1 + p2 + p3 + p4 + p5 + p6, p7, t);
    lemma_by_tag_concat(p1 + p2 + p3 + p4 + p5 + p6 + p7, p8, t);
    lemma_opt_message(1, opt_ballot_bytes(x.ballot), t);
    lemma_opt_message(2, opt_instance_id_bytes(x.instance_id), t);
    lemma_tagged_bytes(3, commands_bytes(x.cmds), t);
    lemma_opt_message(4, opt_id_vec_bytes(x.initial_deps), t);
    lemma_opt_message(5, opt_id_vec_bytes(x.deps), t);
    lemma_opt_message(6, opt_id_vec_bytes(x.final_deps), t);
    lemma_opt_varint(7, bool_u64(x.committed), t);
    lemma_opt_varint(8, bool_u64(x.executed), t);
    let e = Seq::<Seq<u8>>::empty();
    assert(bytes_of(instance_fields(x), t) =~= instance_parts(x, t));
    lemma_opt_fields_ok(1, 0, Seq::empty(), opt_ballot_bytes(x.ballot));
    lemma_opt_fields_ok(2, 0, Seq::empty(), opt_instance_id_bytes(x.instance_id));
    lemma_tagged_fields_ok(3, commands_bytes(x.cmds));
    lemma_opt_fields_ok(4, 0, Seq::empty(), opt_id_vec_bytes(x.initial_deps));
    lemma_opt_fields_ok(5, 0, Seq::empty(), opt_id_vec_bytes(x.deps));
    lemma_opt_fields_ok(6, 0, Seq::empty(), opt_id_vec_bytes(x.final_deps));
    lemma_opt_fields_ok(7, bool_u64(x.committed), Seq::empty(), None);
    lemma_opt_fields_ok(8, bool_u64(x.executed), Seq::empty(), None);
    lemma_fields_ok_concat(p1, p2);
    lemma_fields_ok_concat(p1 + p2, p3);
    lemma_fields_ok_concat(p1 + p2 + p3, p4);
    lemma_fields_ok_concat(p1 + p2 + p3 + p4, p5);
    lemma_fields_ok_concat(p1 + p2 + p3 + p4 + p5, p6);
    lemma_fields_ok_concat(p1 + p2 + p3 + p4 + p5 + p6, p7);
    lemma_fields_ok_concat(p1 + p2 + p3 + p4 + p5 + p6 + p7, p8);
}

fn encode_opt_ballot(b: &Option<BallotNum>) -> (r: Option<Vec<u8>>)
    ensures
        match r {
            Some(v) => Some(v@),
            None => None,
        } == opt_ballot_bytes(*b),
{
    match b {
        Some(b) => Some(encode_ballot(b)),
        None => None,
    }
}

fn encode_opt_instance_id(x: &Option<InstanceId>) -> (r: Option<Vec<u8>>)
    ensures
        match r {
            Some(v) => Some(v@),
            None => None,
        } == opt_instance_id_bytes(*x),
{
    match x {
        Some(x) => Some(encode_instance_id(x)),
        None => None,
    }
}

fn encode_opt_id_vec(d: &Option<InstanceIdVec>) -> (r: Option<Vec<u8>>)
    ensures
        match r {
            Some(v) => Some(v@),
            None => None,
        } == opt_id_vec_bytes(deps_view(*d)),
{
    match d {
        Some(d) => Some(encode_id_vec(d)),
        None => None,
    }
}

/// Encodes an instance.
pub fn encode_instance(x: &Instance) -> (r: Vec<u8>)
    ensures
        r@ == instance_bytes(x@),
{
    let mut out: Vec<WireField> = Vec::new();
    push_message(&mut out, 1, encode_opt_ballot(&x.ballot));
    push_message(&mut out, 2, encode_opt_instance_id(&x.instance_id));
    let ghost head = fields_view(out@);
    let mut i: usize = 0;
    while i < x.cmds.len()
        invariant
            i <= x.cmds@.len(),
            fields_view(out@) == head + tagged_bytes(
                3,
                commands_bytes(cmds_view(x.cmds@.subrange(0, i as int))),
            ),
        decreases x.cmds@.len() - i,
    {
        let b = encode_command(&x.cmds[i]);
        let ghost bv = b@;
        let ghost before = out@;
        out.push(WireField { tag: 3, val: WireVal::Bytes(b) });
        proof {
            assert(fields_view(out@) =~= fields_view(before).push(
                FieldView { tag: 3, val: FieldVal::Bytes(bv) },
            ));
            assert(tagged_bytes(3, commands_bytes(cmds_view(x.cmds@.subrange(0, i + 1))))
                =~= tagged_bytes(3, commands_bytes(cmds_view(x.cmds@.subrange(0, i as int)))).push(
                FieldView { tag: 3, val: FieldVal::Bytes(command_bytes(x.cmds@[i as int]@)) },
            ));
        }
        i = i + 1;
    }
    proof {
        assert(x.cmds@.subrange(0, i as int) =~= x.cmds@);
    }
    push_message(&mut out, 4, encode_opt_id_vec(&x.initial_deps));
    push_message(&mut out, 5, encode_opt_id_vec(&x.deps));
    push_message(&mut out, 6, encode_opt_id_vec(&x.final_deps));
    push_varint(&mut out, 7, if x.committed { 1 } else { 0 });
    push_varint(&mut out, 8, if x.executed { 1 } else { 0 });
    proof {
        assert(fields_view(Seq::<WireField>::empty()) =~= Seq::<FieldView>::empty());
        assert(fields_view(out@) =~= instance_fields(x@));
        lemma_instance_tag(x@, 1);
    }
    encode_fields(&out)
}

/// The fields read from each of `parts`, one list after the other, as
/// prost merges the occurrences of a message field: each is read within its
/// own length. `None` when one of them cannot be read.
pub open spec fn parts_fields(parts: Seq<Seq<u8>>) -> Option<Seq<FieldView>>
    decreases parts.len(),
{
    if parts.len() == 0 {
        Some(Seq::empty())
    } else {
        match (parts_fields(parts.drop_last()), parse_fields(parts.last())) {
            (Some(a), Some(b)) => Some(a + b),
            _ => None,
        }
    }
}

proof fn lemma_parts_fields_none(parts: Seq<Seq<u8>>, i: int)
    requires
        0 <= i <= parts.len(),
        parts_fields(parts.subrange(0, i)) is None,
    ensures
        parts_fields(parts) is None,
    decreases parts.len() - i,
{
    if i == parts.len() {
        assert(parts.subrange(0, i) =~= parts);
    } else {
        assert(parts.subrange(0, i + 1).drop_last() =~= parts.subrange(0, i));
        lemma_parts_fields_none(parts, i + 1);
    }
}

/// The optional ballot a message field's occurrences hold: none when there
/// is none, else the ballot their fields hold together.
pub open spec fn decoded_opt_ballot(parts: Seq<Seq<u8>>) -> Option<Option<BallotNum>> {
    if parts.len() == 0 {
        Some(None)
    } else {
        match parts_fields(parts) {
            Some(fs) => match ballot_of(fs) {
                Some(b) => Some(Some(b)),
                None => None,
            },
            None => None,
        }
    }
}

/// The optional instance id a message field's occurrences hold.
pub open spec fn decoded_opt_instance_id(parts: Seq<Seq<u8>>) -> Option<Option<InstanceId>> {
    if parts.len() == 0 {
        Some(None)
    } else {
        match parts_fields(parts) {
            Some(fs) => match instance_id_of(fs) {
                Some(x) => Some(Some(x)),
                None => None,
            },
            None => None,
        }
    }
}

/// The optional instance id list a message field's occurrences hold.
pub open spec fn decoded_opt_id_vec(parts: Seq<Seq<u8>>) -> Option<Option<Seq<InstanceId>>> {
    if parts.len() == 0 {
        Some(None)
    } else {
        match parts_fields(parts) {
            Some(fs) => match id_vec_of(fs) {
                Some(v) => Some(Some(v)),
                None => None,
            },
            None => None,
        }
    }
}

/// The commands that prost reads from each of `parts`; `None` when one
/// fails.
pub open spec fn decoded_all_cmds(parts: Seq<Seq<u8>>) -> Option<Seq<CommandView>>
    decreases parts.len(),
{
    if parts.len() == 0 {
        Some(Seq::empty())
    } else {
        match (decoded_all_cmds(parts.drop_last()), decoded_command(parts.last())) {
            (Some(a), Some(c)) => Some(a.push(c)),
            _ => None,
        }
    }
}

proof fn lemma_all_cmds_none(parts: Seq<Seq<u8>>, i: int)
    requires
        0 <= i <= parts.len(),
        decoded_all_cmds(parts.subrange(0, i)) is None,
    ensures
        decoded_all_cmds(parts) is None,
    decreases parts.len() - i,
{
    if i == parts.len() {
        assert(parts.subrange(0, i) =~= parts);
    } else {
        assert(parts.subrange(0, i + 1).drop_last() =~= parts.subrange(0, i));
        lemma_all_cmds_none(parts, i + 1);
    }
}

/// The instance that a list of fields holds.
pub open spec fn instance_of(fs: Seq<FieldView>) -> Option<InstanceView> {
    if not_bytes(fs, 1) || not_bytes(fs, 2) || not_bytes(fs, 3) || not_bytes(fs, 4) || not_bytes(
        fs,
        5,
    ) || not_bytes(fs, 6) || not_varint(fs, 7) || not_varint(fs, 8) {
        None
    } else {
        match (
            decoded_opt_ballot(bytes_of(fs, 1)),
            decoded_opt_instance_id(bytes_of(fs, 2)),
            decoded_all_cmds(bytes_of(fs, 3)),
            decoded_opt_id_vec(bytes_of(fs, 4)),
            decoded_opt_id_vec(bytes_of(fs, 5)),
            decoded_opt_id_vec(bytes_of(fs, 6)),
        ) {
            (Some(b), Some(i), Some(c), Some(d4), Some(d5), Some(d6)) => Some(
                InstanceView {
                    ballot: b,
                    instance_id: i,
                    cmds: c,
                    initial_deps: d4,
                    deps: d5,
                    final_deps: d6,
                    committed: varint_or_zero(fs, 7) != 0,
                    executed: varint_or_zero(fs, 8) != 0,
                },
            ),
            _ => None,
        }
    }
}

/// The instance that prost reads from `buf`.
pub open spec fn decoded_instance(buf: Seq<u8>) -> Option<InstanceView> {
    match parse_fields(buf) {
        Some(fs) => instance_of(fs),
        None => None,
    }
}

/// The fields of each of `parts`, read one part at a time, one list after
/// the other.
fn fields_of_parts(parts: &Vec<Vec<u8>>) -> (r: Result<Vec<WireField>, Error>)
    ensures
        match r {
            Ok(fs) => parts_fields(parts@.map_values(|v: Vec<u8>| v@)) == Some(fields_view(fs@)),
            Err(_) => parts_fields(parts@.map_values(|v: Vec<u8>| v@)) is None,
        },
        forall|fs: Seq<FieldView>|
            fields_ok(fs) && #[trigger] opt_parts(Some(fields_bytes(fs))) == parts@.map_values(
                |v: Vec<u8>| v@,
            ) ==> r is Ok && fields_view(r->Ok_0@) == fs,
{
    let ghost pv = parts@.map_values(|v: Vec<u8>| v@);
    let mut out: Vec<WireField> = Vec::new();
    let mut i: usize = 0;
    proof {
        assert(fields_view(out@) =~= Seq::<FieldView>::empty());
        assert(pv.subrange(0, 0) =~= Seq::<Seq<u8>>::empty());
    }
    while i < parts.len()
        invariant
            i <= parts@.len(),
            pv == parts@.map_values(|v: Vec<u8>| v@),
            parts_fields(pv.subrange(0, i as int)) == Some(fields_view(out@)),
            forall|fs: Seq<FieldView>|
                fields_ok(fs) && #[trigger] opt_parts(Some(fields_bytes(fs))) == pv ==> if i == 0 {
                    out@.len() == 0
                } else {
                    fields_view(out@) == fs
                },
        decreases parts@.len() - i,
    {
        proof {
            assert(pv.subrange(0, i + 1).drop_last() =~= pv.subrange(0, i as int));
            assert(pv.subrange(0, i + 1).last() == parts@[i as int]@);
        }
        let mut more = match decode_fields(parts[i].as_slice()) {
            Ok(m) => m,
            Err(e) => {
                proof {
                    lemma_parts_fields_none(pv, i + 1);
                    assert forall|fs: Seq<FieldView>|
                        fields_ok(fs) && #[trigger] opt_parts(Some(fields_bytes(fs))) == pv implies false by {
                        assert(pv[i as int] == fields_bytes(fs));
                    }
                }
                return Err(e);
            },
        };
        let ghost before = out@;
        let ghost added = more@;
        proof {
            assert forall|fs: Seq<FieldView>|
                fields_ok(fs) && #[trigger] opt_parts(Some(fields_bytes(fs))) == pv implies i == 0
                    && fields_view(added) == fs by {
                assert(pv[i as int] == fields_bytes(fs));
            }
        }
        out.append(&mut more);
        proof {
            assert(fields_view(out@) =~= fields_view(before) + fields_view(added));
        }
        i = i + 1;
    }
    proof {
        assert(pv.subrange(0, i as int) =~= pv);
    }
    Ok(out)
}

fn decode_opt_ballot(parts: &Vec<Vec<u8>>) -> (r: Result<Option<BallotNum>, Error>)
    ensures
        match r {
            Ok(o) => decoded_opt_ballot(parts@.map_values(|v: Vec<u8>| v@)) == Some(o),
            Err(_) => decoded_opt_ballot(parts@.map_values(|v: Vec<u8>| v@)) is None,
        },
        parts@.len() == 0 ==> r == Ok::<Option<BallotNum>, Error>(None),
        forall|b: BallotNum| #[trigger] opt_parts(Some(ballot_bytes(b))) == parts@.map_values(
            |v: Vec<u8>| v@,
        ) ==> r == Ok::<Option<BallotNum>, Error>(Some(b)),
{
    if parts.len() == 0 {
        proof {
            assert forall|b: BallotNum| #[trigger] opt_parts(Some(ballot_bytes(b)))
                == parts@.map_values(|v: Vec<u8>| v@) implies false by {
                assert(opt_parts(Some(ballot_bytes(b))).len() == 1);
            }
        }
        Ok(None)
    } else {
        proof {
            assert forall|b: BallotNum| #[trigger] opt_parts(Some(ballot_bytes(b)))
                == parts@.map_values(|v: Vec<u8>| v@) implies opt_parts(
                Some(fields_bytes(ballot_fields(b))),
            ) == parts@.map_values(|v: Vec<u8>| v@) && fields_ok(ballot_fields(b)) by {
                lemma_ballot_round_trip(b);
            }
        }
        let fs = fields_of_parts(parts)?;
        proof {
            assert forall|b: BallotNum| #[trigger] opt_parts(Some(ballot_bytes(b)))
                == parts@.map_values(|v: Vec<u8>| v@) implies fields_view(fs@) == ballot_fields(b) && ballot_of(
                ballot_fields(b),
            ) == Some(b) by {
                lemma_ballot_round_trip(b);
            }
        }
        let b = ballot_from_fields(&fs)?;
        proof {
            assert forall|b2: BallotNum| #[trigger] opt_parts(Some(ballot_bytes(b2)))
                == parts@.map_values(|v: Vec<u8>| v@) implies b == b2 by {
                lemma_ballot_round_trip(b2);
            }
        }
        Ok(Some(b))
    }
}

fn decode_opt_instance_id(parts: &Vec<Vec<u8>>) -> (r: Result<Option<InstanceId>, Error>)
    ensures
        match r {
            Ok(o) => decoded_opt_instance_id(parts@.map_values(|v: Vec<u8>| v@)) == Some(o),
            Err(_) => decoded_opt_instance_id(parts@.map_values(|v: Vec<u8>| v@)) is None,
        },
        parts@.len() == 0 ==> r == Ok::<Option<InstanceId>, Error>(None),
        forall|x: InstanceId| #[trigger] opt_parts(Some(instance_id_bytes(x))) == parts@.map_values(
            |v: Vec<u8>| v@,
        ) ==> r == Ok::<Option<InstanceId>, Error>(Some(x)),
{
    if parts.len() == 0 {
        proof {
            assert forall|x: InstanceId| #[trigger] opt_parts(Some(instance_id_bytes(x)))
                == parts@.map_values(|v: Vec<u8>| v@) implies false by {
                assert(opt_parts(Some(instance_id_bytes(x))).len() == 1);
            }
        }
        Ok(None)
    } else {
        proof {
            assert forall|x: InstanceId| #[trigger] opt_parts(Some(instance_id_bytes(x)))
                == parts@.map_values(|v: Vec<u8>| v@) implies opt_parts(
                Some(fields_bytes(instance_id_fields(x))),
            ) == parts@.map_values(|v: Vec<u8>| v@) && fields_ok(instance_id_fields(x)) by {
                lemma_instance_id_round_trip(x);
            }
        }
        let fs = fields_of_parts(parts)?;
        proof {
            assert forall|x: InstanceId| #[trigger] opt_parts(Some(instance_id_bytes(x)))
                == parts@.map_values(|v: Vec<u8>| v@) implies fields_view(fs@) == instance_id_fields(x)
                && instance_id_of(instance_id_fields(x)) == Some(x) by {
                lemma_instance_id_round_trip(x);
            }
        }
        let x = instance_id_from_fields(&fs)?;
        proof {
            assert forall|x2: InstanceId| #[trigger] opt_parts(Some(instance_id_bytes(x2)))
                == parts@.map_values(|v: Vec<u8>| v@) implies x == x2 by {
                lemma_instance_id_round_trip(x2);
            }
        }
        Ok(Some(x))
    }
}

fn decode_opt_id_vec(parts: &Vec<Vec<u8>>) -> (r: Result<Option<InstanceIdVec>, Error>)
    ensures
        match r {
            Ok(o) => decoded_opt_id_vec(parts@.map_values(|v: Vec<u8>| v@)) == Some(deps_view(o)),
            Err(_) => decoded_opt_id_vec(parts@.map_values(|v: Vec<u8>| v@)) is None,
        },
        parts@.len() == 0 ==> r matches Ok(None),
        forall|ids: Seq<InstanceId>| #[trigger] opt_parts(Some(id_vec_bytes(ids)))
            == parts@.map_values(|v: Vec<u8>| v@) ==> (r matches Ok(Some(v)) && v@ == ids),
{
    if parts.len() == 0 {
        proof {
            assert forall|ids: Seq<InstanceId>| #[trigger] opt_parts(Some(id_vec_bytes(ids)))
                == parts@.map_values(|v: Vec<u8>| v@) implies false by {
                assert(opt_parts(Some(id_vec_bytes(ids))).len() == 1);
            }
        }
        Ok(None)
    } else {
        proof {
            assert forall|ids: Seq<InstanceId>| #[trigger] opt_parts(Some(id_vec_bytes(ids)))
                == parts@.map_values(|v: Vec<u8>| v@) implies opt_parts(
                Some(fields_bytes(id_vec_fields(ids))),
            ) == parts@.map_values(|v: Vec<u8>| v@) && fields_ok(id_vec_fields(ids)) by {
                lemma_tagged_fields_ok(1, instance_ids_bytes(ids));
            }
        }
        let fs = fields_of_parts(parts)?;
        proof {
            assert forall|ids: Seq<InstanceId>| #[trigger] opt_parts(Some(id_vec_bytes(ids)))
                == parts@.map_values(|v: Vec<u8>| v@) implies id_vec_fields(ids) == fields_view(fs@) by {
                lemma_tagged_fields_ok(1, instance_ids_bytes(ids));
            }
        }
        let v = id_vec_from_fields(&fs)?;
        Ok(Some(v))
    }
}

/// Decodes each of some encoded commands.
fn decode_commands(parts: &Vec<Vec<u8>>) -> (r: Result<Vec<Command>, Error>)
    ensures
        match r {
            Ok(v) => decoded_all_cmds(parts@.map_values(|b: Vec<u8>| b@)) == Some(cmds_view(v@)),
            Err(_) => decoded_all_cmds(parts@.map_values(|b: Vec<u8>| b@)) is None,
        },
        forall|cs: Seq<CommandView>| #[trigger] commands_bytes(cs) == parts@.map_values(
            |b: Vec<u8>| b@,
        ) ==> r is Ok && cmds_view(r->Ok_0@) == cs,
{
    let ghost pv = parts@.map_values(|b: Vec<u8>| b@);
    let mut out: Vec<Command> = Vec::new();
    let mut i: usize = 0;
    while i < parts.len()
        invariant
            i <= parts@.len(),
            pv == parts@.map_values(|b: Vec<u8>| b@),
            decoded_all_cmds(pv.subrange(0, i as int)) == Some(cmds_view(out@)),
            forall|cs: Seq<CommandView>| #[trigger] commands_bytes(cs) == pv ==> cmds_view(out@)
                == cs.subrange(0, i as int),
        decreases parts@.len() - i,
    {
        let d = decode_command(parts[i].as_slice());
        proof {
            assert(pv.subrange(0, i + 1).drop_last() =~= pv.subrange(0, i as int));
            assert(pv.subrange(0, i + 1).last() == parts@[i as int]@);
        }
        match d {
            Ok(c) => {
                let ghost before = out@;
                out.push(c);
                proof {
                    assert(cmds_view(out@) =~= cmds_view(before).push(c@));
                    assert forall|cs: Seq<CommandView>| #[trigger] commands_bytes(cs) == pv implies cmds_view(
                        out@,
                    ) == cs.subrange(0, i + 1) by {
                        assert(cs.len() == pv.len());
                        assert(commands_bytes(cs)[i as int] == pv[i as int]);
                        assert(command_bytes(cs[i as int]) == parts@[i as int]@);
                        assert(cs.subrange(0, i + 1) =~= cs.subrange(0, i as int).push(
                            cs[i as int],
                        ));
                    }
                }
            },
            Err(e) => {
                proof {
                    assert forall|cs: Seq<CommandView>| #[trigger] commands_bytes(cs) == pv implies false by {
                        assert(cs.len() == pv.len());
                        assert(commands_bytes(cs)[i as int] == pv[i as int]);
                        assert(command_bytes(cs[i as int]) == parts@[i as int]@);
                    }
                    lemma_all_cmds_none(pv, i + 1);
                }
                return Err(e);
            },
        }
        i = i + 1;
    }
    proof {
        assert forall|cs: Seq<CommandView>| #[trigger] commands_bytes(cs) == pv implies cmds_view(
            out@,
        ) == cs by {
            assert(cs.len() == pv.len());
            assert(cs.subrange(0, i as int) =~= cs);
        }
        assert(pv.subrange(0, i as int) =~= pv);
    }
    Ok(out)
}

/// The instance that a list of fields holds; what `encode_instance`'s
/// fields hold is read back.
pub fn instance_from_fields(fs: &Vec<WireField>) -> (r: Result<Instance, Error>)
    ensures
        match r {
            Ok(i) => instance_of(fields_view(fs@)) == Some(i@),
            Err(_) => instance_of(fields_view(fs@)) is None,
        },
        forall|x: InstanceView| #[trigger] instance_fields(x) == fields_view(fs@) ==> r is Ok
            && r->Ok_0@ == x,
{
    let ghost fv = fields_view(fs@);
    proof {
        assert forall|x: InstanceView| #[trigger] instance_fields(x) == fv implies {
            &&& bytes_of(fv, 1) == instance_parts(x, 1)
            &&& bytes_of(fv, 2) == instance_parts(x, 2)
            &&& bytes_of(fv, 3) == instance_parts(x, 3)
            &&& bytes_of(fv, 4) == instance_parts(x, 4)
            &&& bytes_of(fv, 5) == instance_parts(x, 5)
            &&& bytes_of(fv, 6) == instance_parts(x, 6)
            &&& bytes_of(fv, 7) == instance_parts(x, 7)
            &&& bytes_of(fv, 8) == instance_parts(x, 8)
            &&& !any_varint(fv, 1) && !any_varint(fv, 2) && !any_varint(fv, 3)
            &&& !any_varint(fv, 4) && !any_varint(fv, 5) && !any_varint(fv, 6)
            &&& !any_skipped(fv, 1) && !any_skipped(fv, 2) && !any_skipped(fv, 3)
            &&& !any_skipped(fv, 4) && !any_skipped(fv, 5) && !any_skipped(fv, 6)
            &&& !any_skipped(fv, 7) && !any_skipped(fv, 8)
            &&& last_varint(fv, 7) == instance_varint(x, 7)
            &&& last_varint(fv, 8) == instance_varint(x, 8)
        } by {
            lemma_instance_tag(x, 1);
            lemma_instance_tag(x, 2);
            lemma_instance_tag(x, 3);
            lemma_instance_tag(x, 4);
            lemma_instance_tag(x, 5);
            lemma_instance_tag(x, 6);
            lemma_instance_tag(x, 7);
            lemma_instance_tag(x, 8);
        }
    }
    let ballot_parts = bytes_fields(fs, 1)?;
    let id_parts = bytes_fields(fs, 2)?;
    let cmd_parts = bytes_fields(fs, 3)?;
    let initial_parts = bytes_fields(fs, 4)?;
    let deps_parts = bytes_fields(fs, 5)?;
    let final_parts = bytes_fields(fs, 6)?;
    let committed = varint_field(fs, 7)?;
    let executed = varint_field(fs, 8)?;
    let ballot = decode_opt_ballot(&ballot_parts)?;
    let instance_id = decode_opt_instance_id(&id_parts)?;
    let cmds = decode_commands(&cmd_parts)?;
    let initial_deps = decode_opt_id_vec(&initial_parts)?;
    let deps = decode_opt_id_vec(&deps_parts)?;
    let final_deps = decode_opt_id_vec(&final_parts)?;
    let committed = match committed {
        Some(v) => v != 0,
        None => false,
    };
    let executed = match executed {
        Some(v) => v != 0,
        None => false,
    };
    let inst = Instance {
        ballot,
        instance_id,
        cmds,
        initial_deps,
        deps,
        final_deps,
        committed,
        executed,
    };
    proof {
        assert forall|x: InstanceView| #[trigger] instance_fields(x) == fv implies inst@ == x by {
            match x.ballot {
                Some(b) => {},
                None => {},
            }
            match x.instance_id {
                Some(b) => {},
                None => {},
            }
            match x.initial_deps {
                Some(b) => {},
                None => {},
            }
            match x.deps {
                Some(b) => {},
                None => {},
            }
            match x.final_deps {
                Some(b) => {},
                None => {},
            }
        }
    }
    Ok(inst)
}

/// Decodes an instance; what `encode_instance` wrote is read back.
pub fn decode_instance(buf: &[u8]) -> (r: Result<Instance, Error>)
    ensures
        match r {
            Ok(i) => decoded_instance(buf@) == Some(i@),
            Err(_) => decoded_instance(buf@) is None,
        },
        forall|x: InstanceView| #[trigger] instance_bytes(x) == buf@ ==> r is Ok && r->Ok_0@ == x,
{
    let fs = decode_fields(buf)?;
    proof {
        assert forall|x: InstanceView| #[trigger] instance_bytes(x) == buf@ implies instance_fields(x)
            == fields_view(fs@) by {
            lemma_instance_tag(x, 1);
        }
    }
    instance_from_fields(&fs)
}

// ---------------------------------------------------------------------
// What is written is read back
// ---------------------------------------------------------------------

/// No payload of a length-delimited field is longer than the bytes of all
/// the fields.
pub proof fn lemma_bytes_of_len(fs: Seq<FieldView>, t: u32)
    ensures
        forall|j: int|
            0 <= j < bytes_of(fs, t).len() ==> (#[trigger] bytes_of(fs, t)[j]).len() <= fields_bytes(
                fs,
            ).len(),
    decreases fs.len(),
{
    if fs.len() > 0 {
        let d = fs.drop_last();
        let f = fs.last();
        lemma_bytes_of_len(d, t);
        assert(fields_bytes(fs) == fields_bytes(d) + crate::wire::field_bytes(f));
        assert forall|j: int| 0 <= j < bytes_of(fs, t).len() implies (#[trigger] bytes_of(
            fs,
            t,
        )[j]).len() <= fields_bytes(fs).len() by {
            if j < bytes_of(d, t).len() {
                assert(bytes_of(fs, t)[j] == bytes_of(d, t)[j]);
            } else {
                assert(f.tag == t && f.val is Bytes);
                assert(bytes_of(fs, t)[j] == f.val->Bytes_0);
            }
        }
    }
}

/// The fields of one occurrence are those of its bytes.
proof fn lemma_parts_one(b: Seq<u8>)
    requires
        parse_fields(b) is Some,
    ensures
        parts_fields(opt_parts(Some(b))) == parse_fields(b),
{
    let p = opt_parts(Some(b));
    assert(p.drop_last() =~= Seq::<Seq<u8>>::empty());
    assert(parts_fields(Seq::<Seq<u8>>::empty()) == Some(Seq::<FieldView>::empty()));
    assert(p.last() == b);
    assert(Seq::<FieldView>::empty() + parse_fields(b)->Some_0 =~= parse_fields(b)->Some_0);
}

/// The encoding of an instance id is read back as that id.
pub proof fn lemma_instance_id_decodes(x: InstanceId)
    requires
        instance_id_bytes(x).len() <= u64::MAX,
    ensures
        decoded_instance_id(instance_id_bytes(x)) == Some(x),
{
    lemma_instance_id_round_trip(x);
    lemma_parse_fields_bytes(instance_id_fields(x));
}

/// The encoding of a ballot is read back as that ballot.
pub proof fn lemma_ballot_decodes(b: BallotNum)
    requires
        ballot_bytes(b).len() <= u64::MAX,
    ensures
        decoded_ballot(ballot_bytes(b)) == Some(b),
{
    lemma_ballot_round_trip(b);
    lemma_parse_fields_bytes(ballot_fields(b));
}

/// The encoding of a command is read back as that command.
pub proof fn lemma_command_decodes(c: CommandView)
    requires
        command_bytes(c).len() <= u64::MAX,
    ensures
        decoded_command(command_bytes(c)) == Some(c),
{
    lemma_command_round_trip(c);
    lemma_parse_fields_bytes(command_fields(c));
}

proof fn lemma_all_ids_decode(ids: Seq<InstanceId>)
    requires
        forall|i: int| 0 <= i < ids.len() ==> (#[trigger] instance_id_bytes(ids[i])).len() <= u64::MAX,
    ensures
        decoded_all_ids(instance_ids_bytes(ids)) == Some(ids),
    decreases ids.len(),
{
    let p = instance_ids_bytes(ids);
    if ids.len() == 0 {
        assert(p =~= Seq::<Seq<u8>>::empty());
    } else {
        let d = ids.drop_last();
        assert(p.drop_last() =~= instance_ids_bytes(d));
        assert forall|i: int| 0 <= i < d.len() implies (#[trigger] instance_id_bytes(d[i])).len()
            <= u64::MAX by {
            assert(d[i] == ids[i]);
        }
        lemma_all_ids_decode(d);
        assert(instance_id_bytes(ids[ids.len() - 1]).len() <= u64::MAX);
        lemma_instance_id_decodes(ids.last());
        assert(d.push(ids.last()) =~= ids);
    }
}

proof fn lemma_all_cmds_decode(cs: Seq<CommandView>)
    requires
        forall|i: int| 0 <= i < cs.len() ==> (#[trigger] command_bytes(cs[i])).len() <= u64::MAX,
    ensures
        decoded_all_cmds(commands_bytes(cs)) == Some(cs),
    decreases cs.len(),
{
    let p = commands_bytes(cs);
    if cs.len() == 0 {
        assert(p =~= Seq::<Seq<u8>>::empty());
    } else {
        let d = cs.drop_last();
        assert(p.drop_last() =~= commands_bytes(d));
        assert forall|i: int| 0 <= i < d.len() implies (#[trigger] command_bytes(d[i])).len()
            <= u64::MAX by {
            assert(d[i] == cs[i]);
        }
        lemma_all_cmds_decode(d);
        assert(command_bytes(cs[cs.len() - 1]).len() <= u64::MAX);
        lemma_command_decodes(cs.last());
        assert(d.push(cs.last()) =~= cs);
    }
}

/// The encoding of an instance id list is read back as that list.
pub proof fn lemma_id_vec_decodes(ids: Seq<InstanceId>)
    requires
        id_vec_bytes(ids).len() <= u64::MAX,
    ensures
        decoded_id_vec(id_vec_bytes(ids)) == Some(ids),
{
    let fs = id_vec_fields(ids);
    lemma_tagged_fields_ok(1, instance_ids_bytes(ids));
    lemma_parse_fields_bytes(fs);
    lemma_tagged_bytes(1, instance_ids_bytes(ids), 1);
    lemma_bytes_of_len(fs, 1);
    assert forall|i: int| 0 <= i < ids.len() implies (#[trigger] instance_id_bytes(ids[i])).len()
        <= u64::MAX by {
        assert(bytes_of(fs, 1)[i] == instance_id_bytes(ids[i]));
    }
    lemma_all_ids_decode(ids);
}

/// The encoding of an instance is read back as that instance.
pub proof fn lemma_instance_decodes(x: InstanceView)
    requires
        instance_bytes(x).len() <= u64::MAX,
    ensures
        decoded_instance(instance_bytes(x)) == Some(x),
{
    let fs = instance_fields(x);
    lemma_instance_tag(x, 1);
    lemma_instance_tag(x, 2);
    lemma_instance_tag(x, 3);
    lemma_instance_tag(x, 4);
    lemma_instance_tag(x, 5);
    lemma_instance_tag(x, 6);
    lemma_instance_tag(x, 7);
    lemma_instance_tag(x, 8);
    lemma_parse_fields_bytes(fs);
    lemma_bytes_of_len(fs, 1);
    lemma_bytes_of_len(fs, 2);
    lemma_bytes_of_len(fs, 3);
    lemma_bytes_of_len(fs, 4);
    lemma_bytes_of_len(fs, 5);
    lemma_bytes_of_len(fs, 6);
    match x.ballot {
        Some(b) => {
            assert(bytes_of(fs, 1)[0] == ballot_bytes(b));
            lemma_ballot_decodes(b);
            lemma_parse_fields_bytes(ballot_fields(b));
            lemma_parts_one(ballot_bytes(b));
        },
        None => {},
    }
    match x.instance_id {
        Some(i) => {
            assert(bytes_of(fs, 2)[0] == instance_id_bytes(i));
            lemma_instance_id_decodes(i);
            lemma_instance_id_round_trip(i);
            lemma_parse_fields_bytes(instance_id_fields(i));
            lemma_parts_one(instance_id_bytes(i));
        },
        None => {},
    }
    match x.initial_deps {
        Some(d) => {
            assert(bytes_of(fs, 4)[0] == id_vec_bytes(d));
            lemma_id_vec_decodes(d);
            lemma_parts_one(id_vec_bytes(d));
        },
        None => {},
    }
    match x.deps {
        Some(d) => {
            assert(bytes_of(fs, 5)[0] == id_vec_bytes(d));
            lemma_id_vec_decodes(d);
            lemma_parts_one(id_vec_bytes(d));
        },
        None => {},
    }
    match x.final_deps {
        Some(d) => {
            assert(bytes_of(fs, 6)[0] == id_vec_bytes(d));
            lemma_id_vec_decodes(d);
            lemma_parts_one(id_vec_bytes(d));
        },
        None => {},
    }
    assert forall|i: int| 0 <= i < x.cmds.len() implies (#[trigger] command_bytes(x.cmds[i])).len()
        <= u64::MAX by {
        assert(bytes_of(fs, 3)[i] == command_bytes(x.cmds[i]));
    }
    lemma_all_cmds_decode(x.cmds);
}

} // verus!
