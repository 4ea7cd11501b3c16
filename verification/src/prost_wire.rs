//! The protobuf wire primitives of `prost::encoding` that the message codecs
//! of this crate call, each behind a small trusted wrapper whose contract
//! states what prost's source does.

use prost::encoding::{DecodeContext, WireType};
use prost::DecodeError;
use vstd::prelude::*;

verus! {

#[verifier::external_type_specification]
#[verifier::external_body]
pub struct ExDecodeError(DecodeError);

/// The largest field tag protobuf allows.
pub const MAX_TAG: u32 = 536870911u32;

/// The six protobuf wire types, in the order of their numbers.
#[derive(PartialEq, Eq, Structural, Debug, Clone, Copy)]
pub enum WireKind {
    Varint,
    SixtyFourBit,
    LengthDelimited,
    StartGroup,
    EndGroup,
    ThirtyTwoBit,
}

/// The number of a wire type.
pub open spec fn kind_number(k: WireKind) -> u64 {
    match k {
        WireKind::Varint => 0,
        WireKind::SixtyFourBit => 1,
        WireKind::LengthDelimited => 2,
        WireKind::StartGroup => 3,
        WireKind::EndGroup => 4,
        WireKind::ThirtyTwoBit => 5,
    }
}

/// The wire type with number `n`, for `n <= 5`.
pub open spec fn kind_of(n: u64) -> WireKind {
    if n == 0 {
        WireKind::Varint
    } else if n == 1 {
        WireKind::SixtyFourBit
    } else if n == 2 {
        WireKind::LengthDelimited
    } else if n == 3 {
        WireKind::StartGroup
    } else if n == 4 {
        WireKind::EndGroup
    } else {
        WireKind::ThirtyTwoBit
    }
}

/// The LEB128 encoding of `v`: seven bits per byte, least significant
/// first, the high bit set on every byte but the last.
pub open spec fn leb128(v: u64) -> Seq<u8>
    decreases v,
{
    if v < 128 {
        seq![v as u8]
    } else {
        seq![(v % 128 + 128) as u8] + leb128(v / 128)
    }
}

/// The key that starts a field: tag and wire type in one varint.
pub open spec fn field_key(tag: u32, kind: WireKind) -> Seq<u8> {
    leb128((tag * 8 + kind_number(kind)) as u64)
}

/// A key can be read from the front of `buf`: a varint no greater than
/// `u32::MAX`, with a wire type of at most 5 and a tag of at least 1.
pub open spec fn key_decodes(buf: Seq<u8>) -> bool {
    match prost_decoded_varint(buf) {
        None => false,
        Some((k, n)) => k <= u32::MAX && k % 8 <= 5 && k / 8 >= 1,
    }
}

/// A varint length can be read from the front of `buf`, and at least that
/// many bytes follow it.
pub open spec fn bytes_decode(buf: Seq<u8>) -> bool {
    match prost_decoded_varint(buf) {
        None => false,
        Some((len, n)) => len <= buf.len() - n,
    }
}

/// The number of bytes of the varint at the front of `buf`, reading at most
/// `max` bytes: up to and with the first byte below 0x80; `None` when there
/// is none.
pub open spec fn varint_len_within(buf: Seq<u8>, max: nat) -> Option<nat>
    decreases max,
{
    if max == 0 || buf.len() == 0 {
        None
    } else if buf[0] < 128 {
        Some(1)
    } else {
        match varint_len_within(buf.drop_first(), (max - 1) as nat) {
            Some(n) => Some(n + 1),
            None => None,
        }
    }
}

/// The first `n` bytes of `buf` read as base-128 digits, least significant
/// first, the high bit of each left out.
pub open spec fn leb128_digits(buf: Seq<u8>, n: nat) -> nat
    decreases n,
{
    if n == 0 || buf.len() == 0 {
        0
    } else {
        (buf[0] % 128) as nat + 128 * leb128_digits(buf.drop_first(), (n - 1) as nat)
    }
}

/// What `prost::encoding::decode_varint` reads from the front of `buf`: the
/// varint that ends at the first byte below 0x80 among the first ten, its
/// value modulo 2^64 and the number of bytes it takes; `None` where no such
/// byte is found.
#[verifier::opaque]
pub open spec fn prost_decoded_varint(buf: Seq<u8>) -> Option<(u64, nat)> {
    match varint_len_within(buf, 10) {
        Some(n) => Some(((leb128_digits(buf, n) % 0x1_0000_0000_0000_0000) as u64, n)),
        None => None,
    }
}

/// `128` to the power `j`.
pub open spec fn pow128(j: nat) -> nat
    decreases j,
{
    if j == 0 {
        1
    } else {
        128 * pow128((j - 1) as nat)
    }
}

proof fn lemma_leb128_len_bound(v: u64, j: nat)
    requires
        j >= 1,
        v < pow128(j),
    ensures
        leb128(v).len() <= j,
    decreases j,
{
    if v >= 128 {
        assert(j >= 2) by {
            if j == 1 {
                assert(pow128(1) == 128 * pow128(0));
            }
        }
        assert(((v / 128) as u64) < pow128((j - 1) as nat));
        lemma_leb128_len_bound((v / 128) as u64, (j - 1) as nat);
    }
}

proof fn lemma_leb128_within(v: u64, t: Seq<u8>, max: nat)
    requires
        leb128(v).len() <= max,
    ensures
        varint_len_within(leb128(v) + t, max) == Some(leb128(v).len()),
        leb128_digits(leb128(v) + t, leb128(v).len()) == v,
    decreases v,
{
    let b = leb128(v) + t;
    if v < 128 {
        assert(b[0] == v as u8);
        assert(leb128_digits(b.drop_first(), 0) == 0);
    } else {
        let w = (v / 128) as u64;
        assert(b.drop_first() =~= leb128(w) + t);
        assert(b[0] == (v % 128 + 128) as u8);
        lemma_leb128_within(w, t, (max - 1) as nat);
    }
}

/// A LEB128 encoding at the front of `buf` is read back, with its length.
pub proof fn lemma_leb128_decodes(v: u64, t: Seq<u8>)
    ensures
        prost_decoded_varint(leb128(v) + t) == Some((v, leb128(v).len())),
        1 <= leb128(v).len() <= 10,
{
    assert(pow128(10) == 1180591620717411303424nat) by {
        reveal_with_fuel(pow128, 11);
    }
    lemma_leb128_len_bound(v, 10);
    lemma_leb128_within(v, t, 10);
    reveal(prost_decoded_varint);
    if v >= 128 {
        assert(leb128(v).len() >= 1);
    }
}

/// What `prost::encoding::skip_field` consumes from the front of `buf` to
/// pass over a group of tag `tag` whose start key was read already: the
/// fields inside, up to and with the group's end key; `None` where it
/// fails.
pub uninterp spec fn prost_skipped_group(tag: u32, buf: Seq<u8>) -> Option<nat>;

/// What `prost::encoding::skip_field` consumes from the front of `buf` to
/// pass over the value of a field of wire type `kind` and tag `tag`, whose
/// key was read already: a varint, four or eight bytes, a varint length and
/// that many bytes, or a group; `None` where it fails, as on an end key.
pub open spec fn prost_skipped_field(kind: WireKind, tag: u32, buf: Seq<u8>) -> Option<nat> {
    match kind {
        WireKind::Varint => match prost_decoded_varint(buf) {
            Some((_, n)) => Some(n),
            None => None,
        },
        WireKind::ThirtyTwoBit => if 4 <= buf.len() {
            Some(4)
        } else {
            None
        },
        WireKind::SixtyFourBit => if 8 <= buf.len() {
            Some(8)
        } else {
            None
        },
        WireKind::LengthDelimited => match prost_decoded_varint(buf) {
            Some((len, n)) => if n <= buf.len() && len <= buf.len() - n {
                Some((n + len) as nat)
            } else {
                None
            },
            None => None,
        },
        WireKind::StartGroup => prost_skipped_group(tag, buf),
        WireKind::EndGroup => None,
    }
}

/// `prost::encoding::uint64::encode`: appends the key of field `tag` with
/// the varint wire type, then the LEB128 encoding of `value`.
#[verifier::external_body]
pub fn encode_uint64_field(tag: u32, value: u64, buf: &mut Vec<u8>)
    requires
        1 <= tag <= MAX_TAG,
    ensures
        final(buf)@ == old(buf)@ + field_key(tag, WireKind::Varint) + leb128(value),
{
    prost::encoding::uint64::encode(tag, &value, buf)
}

/// `prost::encoding::bytes::encode`: appends the key of field `tag` with the
/// length-delimited wire type, the LEB128 encoding of the length of `value`,
/// then `value` itself.
#[verifier::external_body]
pub fn encode_bytes_field(tag: u32, value: &Vec<u8>, buf: &mut Vec<u8>)
    requires
        1 <= tag <= MAX_TAG,
    ensures
        final(buf)@ == old(buf)@ + field_key(tag, WireKind::LengthDelimited) + leb128(
            value@.len() as u64,
        ) + value@,
{
    prost::encoding::bytes::encode(tag, value, buf)
}

/// `prost::encoding::decode_varint` on `buf`: the value read and what is
/// left of `buf`; on success at least one byte is consumed.
#[verifier::external_body]
pub fn decode_varint<'a>(buf: &'a [u8]) -> (r: (Result<u64, DecodeError>, &'a [u8]))
    ensures
        (r.0 is Ok) == (prost_decoded_varint(buf@) is Some),
        r.0 is Ok ==> {
            let (v, n) = prost_decoded_varint(buf@)->Some_0;
            &&& r.0->Ok_0 == v
            &&& 1 <= n <= buf@.len()
            &&& r.1@ == buf@.subrange(n as int, buf@.len() as int)
        },
{
    let mut b = buf;
    let r = prost::encoding::decode_varint(&mut b);
    (r, b)
}

/// `prost::encoding::decode_key` on `buf`: a varint split into tag (the
/// high bits) and wire type (the low three bits); it fails on a key above
/// `u32::MAX`, a wire type above 5, or a tag of 0; on success at least one
/// byte is consumed.
#[verifier::external_body]
pub fn decode_key<'a>(buf: &'a [u8]) -> (r: (Result<(u32, WireKind), DecodeError>, &'a [u8]))
    ensures
        (r.0 is Ok) == key_decodes(buf@),
        r.0 is Ok ==> {
            let (k, n) = prost_decoded_varint(buf@)->Some_0;
            &&& r.0->Ok_0 == ((k / 8) as u32, kind_of(k % 8))
            &&& 1 <= n <= buf@.len()
            &&& r.1@ == buf@.subrange(n as int, buf@.len() as int)
        },
        r.0 is Ok ==> r.1@.len() < buf@.len(),
{
    let mut b = buf;
    let r = match prost::encoding::decode_key(&mut b) {
        Ok((tag, WireType::Varint)) => Ok((tag, WireKind::Varint)),
        Ok((tag, WireType::SixtyFourBit)) => Ok((tag, WireKind::SixtyFourBit)),
        Ok((tag, WireType::LengthDelimited)) => Ok((tag, WireKind::LengthDelimited)),
        Ok((tag, WireType::StartGroup)) => Ok((tag, WireKind::StartGroup)),
        Ok((tag, WireType::EndGroup)) => Ok((tag, WireKind::EndGroup)),
        Ok((tag, WireType::ThirtyTwoBit)) => Ok((tag, WireKind::ThirtyTwoBit)),
        Err(e) => Err(e),
    };
    (r, b)
}

/// `prost::encoding::bytes::merge` into an empty vector: for the
/// length-delimited wire type, a varint length followed by that many bytes;
/// it fails on another wire type or when fewer bytes are left.
#[verifier::external_body]
pub fn merge_bytes<'a>(kind: WireKind, buf: &'a [u8]) -> (r: (Result<Vec<u8>, DecodeError>, &'a [u8]))
    ensures
        (r.0 is Ok) == (kind == WireKind::LengthDelimited && bytes_decode(buf@)),
        r.0 is Ok ==> {
            let (len, n) = prost_decoded_varint(buf@)->Some_0;
            &&& r.0->Ok_0@ == buf@.subrange(n as int, n + len)
            &&& r.1@ == buf@.subrange(n + len, buf@.len() as int)
        },
        r.0 is Ok ==> r.1@.len() <= buf@.len(),
{
    let mut b = buf;
    let mut value: Vec<u8> = Vec::new();
    let wire_type = match kind {
        WireKind::Varint => WireType::Varint,
        WireKind::SixtyFourBit => WireType::SixtyFourBit,
        WireKind::LengthDelimited => WireType::LengthDelimited,
        WireKind::StartGroup => WireType::StartGroup,
        WireKind::EndGroup => WireType::EndGroup,
        WireKind::ThirtyTwoBit => WireType::ThirtyTwoBit,
    };
    match prost::encoding::bytes::merge(wire_type, &mut value, &mut b, DecodeContext::default()) {
        Ok(()) => (Ok(value), b),
        Err(e) => (Err(e), b),
    }
}

/// `prost::encoding::skip_field`: passes over one field of wire type `kind`
/// and tag `tag` at the front of `buf`, whose key was read already; a group
/// is passed over as far as `prost_skipped_group` says.
#[verifier::external_body]
pub fn skip_field<'a>(kind: WireKind, tag: u32, buf: &'a [u8]) -> (r: (Result<(), DecodeError>, &'a [u8]))
    ensures
        (r.0 is Ok) == (prost_skipped_field(kind, tag, buf@) is Some),
        kind == WireKind::StartGroup ==> (r.0 is Ok) == (prost_skipped_group(tag, buf@) is Some),
        r.0 is Ok ==> {
            let n = prost_skipped_field(kind, tag, buf@)->Some_0;
            &&& n <= buf@.len()
            &&& r.1@ == buf@.subrange(n as int, buf@.len() as int)
        },
{
    let mut b = buf;
    let wire_type = match kind {
        WireKind::Varint => WireType::Varint,
        WireKind::SixtyFourBit => WireType::SixtyFourBit,
        WireKind::LengthDelimited => WireType::LengthDelimited,
        WireKind::StartGroup => WireType::StartGroup,
        WireKind::EndGroup => WireType::EndGroup,
        WireKind::ThirtyTwoBit => WireType::ThirtyTwoBit,
    };
    let r = prost::encoding::skip_field(wire_type, tag, &mut b, DecodeContext::default());
    (r, b)
}

} // verus!
