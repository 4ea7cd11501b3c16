//! Protobuf messages as lists of fields: encoding a list to bytes and
//! reading it back, one field at a time, with prost's wire primitives.

use crate::error::Error;
use crate::prost_wire::{
    bytes_decode, decode_key, decode_varint, encode_bytes_field, encode_uint64_field, field_key,
    key_decodes, kind_number, kind_of, lemma_leb128_decodes, leb128, merge_bytes, prost_decoded_varint,
    prost_skipped_field, skip_field, WireKind, MAX_TAG,
};
use vstd::prelude::*;

verus! {

/// The value of a field: a varint, a length-delimited byte string, or a
/// value of another wire type that was passed over.
pub enum WireVal {
    Varint(u64),
    Bytes(Vec<u8>),
    Skipped,
}

/// One field of an encoded message.
pub struct WireField {
    pub tag: u32,
    pub val: WireVal,
}

/// The value of a field, its bytes as a sequence.
pub enum FieldVal {
    Varint(u64),
    Bytes(Seq<u8>),
    Skipped,
}

/// One field of an encoded message, its bytes as a sequence.
pub struct FieldView {
    pub tag: u32,
    pub val: FieldVal,
}

pub open spec fn field_view(f: WireField) -> FieldView {
    FieldView {
        tag: f.tag,
        val: match f.val {
            WireVal::Varint(v) => FieldVal::Varint(v),
            WireVal::Bytes(b) => FieldVal::Bytes(b@),
            WireVal::Skipped => FieldVal::Skipped,
        },
    }
}

pub open spec fn fields_view(fs: Seq<WireField>) -> Seq<FieldView> {
    fs.map_values(|f: WireField| field_view(f))
}

/// A field this crate writes: a tag in range, and a varint or
/// length-delimited value.
pub open spec fn field_ok(f: FieldView) -> bool {
    1 <= f.tag <= MAX_TAG && !(f.val is Skipped)
}

pub open spec fn fields_ok(fs: Seq<FieldView>) -> bool {
    forall|i: int| 0 <= i < fs.len() ==> field_ok(#[trigger] fs[i])
}

/// The bytes of one field: its key, then its value.
pub open spec fn field_bytes(f: FieldView) -> Seq<u8> {
    match f.val {
        FieldVal::Varint(v) => field_key(f.tag, WireKind::Varint) + leb128(v),
        FieldVal::Bytes(b) => field_key(f.tag, WireKind::LengthDelimited) + leb128(b.len() as u64)
            + b,
        FieldVal::Skipped => Seq::empty(),
    }
}

/// The bytes of a list of fields, one after the other.
pub open spec fn fields_bytes(fs: Seq<FieldView>) -> Seq<u8>
    decreases fs.len(),
{
    if fs.len() == 0 {
        Seq::empty()
    } else {
        fields_bytes(fs.drop_last()) + field_bytes(fs.last())
    }
}

pub proof fn lemma_leb128_nonempty(v: u64)
    ensures
        leb128(v).len() >= 1,
    decreases v,
{
    if v >= 128 {
        lemma_leb128_nonempty(v / 128);
    }
}

pub proof fn lemma_field_bytes_nonempty(f: FieldView)
    requires
        !(f.val is Skipped),
    ensures
        field_bytes(f).len() >= 1,
{
    match f.val {
        FieldVal::Varint(v) => lemma_leb128_nonempty((f.tag * 8 + 0) as u64),
        FieldVal::Bytes(b) => lemma_leb128_nonempty((f.tag * 8 + 2) as u64),
        FieldVal::Skipped => {},
    }
}

pub proof fn lemma_fields_bytes_first(fs: Seq<FieldView>)
    requires
        fs.len() > 0,
    ensures
        fields_bytes(fs) == field_bytes(fs[0]) + fields_bytes(fs.drop_first()),
    decreases fs.len(),
{
    if fs.len() == 1 {
        assert(fs.drop_last() =~= Seq::<FieldView>::empty());
        assert(fs.drop_first() =~= Seq::<FieldView>::empty());
        assert(fields_bytes(fs) =~= field_bytes(fs[0]) + fields_bytes(fs.drop_first()));
    } else {
        lemma_fields_bytes_first(fs.drop_last());
        assert(fs.drop_last().drop_first() =~= fs.drop_first().drop_last());
        assert(fs.drop_first().last() == fs.last());
        assert(fs.drop_last()[0] == fs[0]);
        assert(fields_bytes(fs) =~= field_bytes(fs[0]) + fields_bytes(fs.drop_first()));
    }
}

pub proof fn lemma_fields_bytes_split(fs: Seq<FieldView>, j: int)
    requires
        0 <= j < fs.len(),
    ensures
        fields_bytes(fs.subrange(j, fs.len() as int)) == field_bytes(fs[j]) + fields_bytes(
            fs.subrange(j + 1, fs.len() as int),
        ),
{
    let s = fs.subrange(j, fs.len() as int);
    lemma_fields_bytes_first(s);
    assert(s.drop_first() =~= fs.subrange(j + 1, fs.len() as int));
}

pub proof fn lemma_fields_bytes_push(fs: Seq<FieldView>, f: FieldView)
    ensures
        fields_bytes(fs.push(f)) == fields_bytes(fs) + field_bytes(f),
{
    assert(fs.push(f).drop_last() =~= fs);
}

/// The number in the key of field `tag` with wire type `kind` splits back
/// into the two.
pub proof fn lemma_key_number(tag: u32, kind: WireKind)
    requires
        1 <= tag <= MAX_TAG,
    ensures
        ({
            let k = (tag * 8 + kind_number(kind)) as u64;
            &&& k <= u32::MAX
            &&& k % 8 == kind_number(kind)
            &&& k / 8 == tag
            &&& k / 8 >= 1
            &&& kind_of(k % 8) == kind
            &&& field_key(tag, kind) == leb128(k)
        }),
{
    let c = kind_number(kind);
    let k = tag * 8 + c;
    assert(0 <= c <= 5);
    assert(k / 8 == tag && k % 8 == c) by (nonlinear_arith)
        requires
            k == tag * 8 + c,
            0 <= c <= 5,
            tag >= 1,
    ;
}

/// Writes the fields of `fs`, one after the other.
pub fn encode_fields(fs: &Vec<WireField>) -> (r: Vec<u8>)
    requires
        fields_ok(fields_view(fs@)),
    ensures
        r@ == fields_bytes(fields_view(fs@)),
{
    let mut buf: Vec<u8> = Vec::new();
    let mut i: usize = 0;
    while i < fs.len()
        invariant
            i <= fs@.len(),
            fields_ok(fields_view(fs@)),
            buf@ == fields_bytes(fields_view(fs@.subrange(0, i as int))),
        decreases fs@.len() - i,
    {
        let ghost before = buf@;
        let f = &fs[i];
        proof {
            assert(field_ok(fields_view(fs@)[i as int]));
        }
        match &f.val {
            WireVal::Varint(v) => {
                encode_uint64_field(f.tag, *v, &mut buf);
            },
            WireVal::Bytes(b) => {
                encode_bytes_field(f.tag, b, &mut buf);
            },
            WireVal::Skipped => {},
        }
        proof {
            assert(fields_view(fs@.subrange(0, i + 1)) =~= fields_view(fs@.subrange(0, i as int)).push(
                field_view(fs@[i as int]),
            ));
            lemma_fields_bytes_push(fields_view(fs@.subrange(0, i as int)), field_view(fs@[i as int]));
            assert(buf@ =~= before + field_bytes(field_view(fs@[i as int])));
        }
        i = i + 1;
    }
    proof {
        assert(fs@.subrange(0, i as int) =~= fs@);
    }
    buf
}

/// `f` followed by the fields of `r`, when `r` holds any.
pub open spec fn prepend(f: FieldView, r: Option<Seq<FieldView>>) -> Option<Seq<FieldView>> {
    match r {
        Some(fs) => Some(seq![f] + fs),
        None => None,
    }
}

/// `o` followed by the fields of `r`, when `r` holds any.
pub open spec fn join_front(o: Seq<FieldView>, r: Option<Seq<FieldView>>) -> Option<Seq<FieldView>> {
    match r {
        Some(fs) => Some(o + fs),
        None => None,
    }
}

/// The fields that prost's primitives read from `buf`, one after the
/// other: a key, then a varint or a length-delimited value; the value of a
/// field of another wire type is passed over, and the field is kept, with
/// its tag, as `Skipped`. `None` where a read fails.
pub open spec fn parse_fields(buf: Seq<u8>) -> Option<Seq<FieldView>>
    decreases buf.len(),
{
    if buf.len() == 0 {
        Some(Seq::empty())
    } else if !key_decodes(buf) {
        None
    } else {
        let (k, n) = prost_decoded_varint(buf)->Some_0;
        let tag = (k / 8) as u32;
        let kind = kind_of(k % 8);
        let rest = buf.subrange(n as int, buf.len() as int);
        if n < 1 || n > buf.len() {
            None
        } else if kind == WireKind::Varint {
            match prost_decoded_varint(rest) {
                Some((v, m)) => if m <= rest.len() {
                    prepend(
                        FieldView { tag, val: FieldVal::Varint(v) },
                        parse_fields(rest.subrange(m as int, rest.len() as int)),
                    )
                } else {
                    None
                },
                None => None,
            }
        } else if kind == WireKind::LengthDelimited {
            if bytes_decode(rest) {
                let (len, m) = prost_decoded_varint(rest)->Some_0;
                prepend(
                    FieldView { tag, val: FieldVal::Bytes(rest.subrange(m as int, m + len)) },
                    parse_fields(rest.subrange(m + len, rest.len() as int)),
                )
            } else {
                None
            }
        } else {
            match prost_skipped_field(kind, tag, rest) {
                Some(m) => if m <= rest.len() {
                    prepend(
                        FieldView { tag, val: FieldVal::Skipped },
                        parse_fields(rest.subrange(m as int, rest.len() as int)),
                    )
                } else {
                    None
                },
                None => None,
            }
        }
    }
}

/// The fields a decoder has read so far when `buf` holds the fields `fs`:
/// the first ones of `fs`, and `rest` holds the others.
pub open spec fn read_so_far(fs: Seq<FieldView>, out: Seq<FieldView>, rest: Seq<u8>) -> bool {
    &&& out.len() <= fs.len()
    &&& out == fs.subrange(0, out.len() as int)
    &&& rest == fields_bytes(fs.subrange(out.len() as int, fs.len() as int))
}

proof fn lemma_parse_varint_step(buf: Seq<u8>, r1: Seq<u8>, r2: Seq<u8>, x: u64)
    requires
        key_decodes(buf),
        ({
            let (k, n) = prost_decoded_varint(buf)->Some_0;
            &&& 1 <= n <= buf.len()
            &&& kind_of(k % 8) == WireKind::Varint
            &&& r1 == buf.subrange(n as int, buf.len() as int)
        }),
        prost_decoded_varint(r1) is Some,
        ({
            let (v, m) = prost_decoded_varint(r1)->Some_0;
            &&& v == x
            &&& m <= r1.len()
            &&& r2 == r1.subrange(m as int, r1.len() as int)
        }),
    ensures
        parse_fields(buf) == prepend(
            FieldView {
                tag: (prost_decoded_varint(buf)->Some_0.0 / 8) as u32,
                val: FieldVal::Varint(x),
            },
            parse_fields(r2),
        ),
{
}

/// What prost's primitives read from the front of a field this crate
/// writes, followed by any bytes `t`: its key, then its value.
proof fn lemma_read_front(f: FieldView, t: Seq<u8>)
    requires
        field_ok(f),
    ensures
        ({
            let buf = field_bytes(f) + t;
            let c = if f.val is Varint {
                WireKind::Varint
            } else {
                WireKind::LengthDelimited
            };
            let k = (f.tag * 8 + kind_number(c)) as u64;
            let n = field_key(f.tag, c).len();
            let rest = buf.subrange(n as int, buf.len() as int);
            &&& key_decodes(buf)
            &&& prost_decoded_varint(buf) == Some((k, n))
            &&& (k / 8) as u32 == f.tag
            &&& kind_of(k % 8) == c
            &&& 1 <= n <= buf.len()
            &&& match f.val {
                FieldVal::Varint(v) => rest == leb128(v) + t && prost_decoded_varint(rest) == Some(
                    (v, leb128(v).len()),
                ),
                FieldVal::Bytes(b) => rest == leb128(b.len() as u64) + b + t && prost_decoded_varint(
                    rest,
                ) == Some((b.len() as u64, leb128(b.len() as u64).len())),
                FieldVal::Skipped => true,
            }
        }),
{
    let buf = field_bytes(f) + t;
    match f.val {
        FieldVal::Varint(v) => {
            let k = (f.tag * 8 + 0) as u64;
            lemma_key_number(f.tag, WireKind::Varint);
            assert(buf =~= leb128(k) + (leb128(v) + t));
            lemma_leb128_decodes(k, leb128(v) + t);
            assert(buf.subrange(leb128(k).len() as int, buf.len() as int) =~= leb128(v) + t);
            lemma_leb128_decodes(v, t);
        },
        FieldVal::Bytes(b) => {
            let k = (f.tag * 8 + 2) as u64;
            let l = b.len() as u64;
            lemma_key_number(f.tag, WireKind::LengthDelimited);
            assert(buf =~= leb128(k) + (leb128(l) + b + t));
            lemma_leb128_decodes(k, leb128(l) + b + t);
            assert(buf.subrange(leb128(k).len() as int, buf.len() as int) =~= leb128(l) + b + t);
            assert(leb128(l) + b + t =~= leb128(l) + (b + t));
            lemma_leb128_decodes(l, b + t);
        },
        FieldVal::Skipped => {},
    }
}

/// The fields this crate writes are read back, one after the other, where
/// their bytes are no more than a length can count.
pub proof fn lemma_parse_fields_bytes(fs: Seq<FieldView>)
    requires
        fields_ok(fs),
        fields_bytes(fs).len() <= u64::MAX,
    ensures
        parse_fields(fields_bytes(fs)) == Some(fs),
    decreases fs.len(),
{
    if fs.len() == 0 {
        assert(fields_bytes(fs) == Seq::<u8>::empty());
    } else {
        let f = fs[0];
        let tl = fs.drop_first();
        let t = fields_bytes(tl);
        assert(field_ok(f));
        assert(fields_ok(tl)) by {
            assert forall|i: int| 0 <= i < tl.len() implies field_ok(#[trigger] tl[i]) by {
                assert(tl[i] == fs[i + 1]);
            }
        }
        lemma_fields_bytes_first(fs);
        lemma_read_front(f, t);
        lemma_field_bytes_nonempty(f);
        let buf = field_bytes(f) + t;
        assert(fields_bytes(fs) == buf);
        assert(t.len() <= buf.len());
        lemma_parse_fields_bytes(tl);
        match f.val {
            FieldVal::Varint(v) => {
                let k = (f.tag * 8 + 0) as u64;
                let n = field_key(f.tag, WireKind::Varint).len();
                let rest = buf.subrange(n as int, buf.len() as int);
                let m = leb128(v).len();
                assert(rest.subrange(m as int, rest.len() as int) =~= t);
                assert(FieldView { tag: f.tag, val: FieldVal::Varint(v) } == f);
            },
            FieldVal::Bytes(b) => {
                let n = field_key(f.tag, WireKind::LengthDelimited).len();
                let rest = buf.subrange(n as int, buf.len() as int);
                let l = b.len() as u64;
                let m = leb128(l).len();
                assert(b.len() <= field_bytes(f).len());
                assert(l == b.len());
                assert(rest =~= leb128(l) + (b + t));
                assert(rest.subrange(m as int, m + l) =~= b);
                assert(rest.subrange(m + l, rest.len() as int) =~= t);
                assert(bytes_decode(rest));
                assert(FieldView { tag: f.tag, val: FieldVal::Bytes(b) } == f);
            },
            FieldVal::Skipped => {},
        }
        assert(seq![f] + tl =~= fs);
    }
}

fn malformed() -> (e: Error)
    ensures
        e matches Error::DBError { msg } && msg@ == "malformed protobuf message"@,
{
    Error::DBError { msg: String::from_str("malformed protobuf message") }
}

/// Reads one field from the front of `rest`: a varint or length-delimited
/// value, or one of another wire type passed over (then `Skipped`); hands
/// back what follows it.
fn read_field<'a>(rest: &'a [u8]) -> (r: Result<(WireField, &'a [u8]), Error>)
    requires
        rest@.len() > 0,
    ensures
        match r {
            Ok((f, r2)) => parse_fields(rest@) == prepend(field_view(f), parse_fields(r2@))
                && r2@.len() < rest@.len(),
            Err(_) => parse_fields(rest@) is None,
        },
        forall|f: FieldView, t: Seq<u8>|
            field_ok(f) && #[trigger] (field_bytes(f) + t) == rest@ ==> (r matches Ok((g, r2))
                && field_view(g) == f && r2@ == t),
{
    let rest_len = rest.len();
    let ghost rest0 = rest@;
    let (k, r1) = decode_key(rest);
    let (tag, kind) = match k {
        Ok(tk) => tk,
        Err(_) => {
            proof {
                assert forall|f: FieldView, t: Seq<u8>|
                    field_ok(f) && #[trigger] (field_bytes(f) + t) == rest0 implies false by {
                    lemma_read_front(f, t);
                }
            }
            return Err(malformed());
        },
    };
    let ghost r1v = r1@;
    // The key read is that of any field at the front of `rest`.
    assert forall|f: FieldView, t: Seq<u8>| field_ok(f) && #[trigger] (field_bytes(f) + t) == rest0 implies {
        &&& f.tag == tag
        &&& match f.val {
            FieldVal::Varint(v) => kind == WireKind::Varint && r1v == leb128(v) + t,
            FieldVal::Bytes(b) => kind == WireKind::LengthDelimited && r1v == leb128(b.len() as u64)
                + b + t && b.len() <= rest0.len(),
            FieldVal::Skipped => false,
        }
    } by {
        lemma_read_front(f, t);
    }
    match kind {
        WireKind::Varint => {
            let (v, r2) = decode_varint(r1);
            match v {
                Ok(x) => {
                    let g = WireField { tag, val: WireVal::Varint(x) };
                    proof {
                        lemma_parse_varint_step(rest0, r1v, r2@, x);
                        assert forall|f: FieldView, t: Seq<u8>| field_ok(f) && #[trigger] (field_bytes(f)
                            + t) == rest0 implies field_view(g) == f && r2@ == t by {
                            match f.val {
                                FieldVal::Varint(y) => {
                                    assert(r1v == leb128(y) + t);
                                    lemma_leb128_decodes(y, t);
                                    assert(r1v.subrange(leb128(y).len() as int, r1v.len() as int) =~= t);
                                },
                                FieldVal::Bytes(_) => {},
                                FieldVal::Skipped => {},
                            }
                        }
                    }
                    Ok((g, r2))
                },
                Err(_) => {
                    proof {
                        assert forall|f: FieldView, t: Seq<u8>| field_ok(f) && #[trigger] (field_bytes(f)
                            + t) == rest0 implies false by {
                            match f.val {
                                FieldVal::Varint(y) => {
                                    assert(r1v == leb128(y) + t);
                                    lemma_leb128_decodes(y, t);
                                    assert(r1v.subrange(leb128(y).len() as int, r1v.len() as int) =~= t);
                                },
                                FieldVal::Bytes(_) => {},
                                FieldVal::Skipped => {},
                            }
                        }
                    }
                    Err(malformed())
                },
            }
        },
        WireKind::LengthDelimited => {
            let (b, r2) = merge_bytes(kind, r1);
            match b {
                Ok(x) => {
                    let g = WireField { tag, val: WireVal::Bytes(x) };
                    proof {
                        assert forall|f: FieldView, t: Seq<u8>| field_ok(f) && #[trigger] (field_bytes(f)
                            + t) == rest0 implies field_view(g) == f && r2@ == t by {
                            match f.val {
                                FieldVal::Bytes(y) => {
                                    let l = y.len() as u64;
                                    let m = leb128(l).len();
                                    assert(r1v == leb128(l) + y + t);
                                    lemma_leb128_decodes(l, y + t);
                                    assert(r1v =~= leb128(l) + (y + t));
                                    assert(r1v.subrange(m as int, m + l) =~= y);
                                    assert(r1v.subrange(m + l, r1v.len() as int) =~= t);
                                },
                                FieldVal::Varint(_) => {},
                                FieldVal::Skipped => {},
                            }
                        }
                    }
                    Ok((g, r2))
                },
                Err(_) => {
                    proof {
                        assert forall|f: FieldView, t: Seq<u8>| field_ok(f) && #[trigger] (field_bytes(f)
                            + t) == rest0 implies false by {
                            match f.val {
                                FieldVal::Bytes(y) => {
                                    let l = y.len() as u64;
                                    let m = leb128(l).len();
                                    assert(r1v == leb128(l) + y + t);
                                    lemma_leb128_decodes(l, y + t);
                                    assert(r1v =~= leb128(l) + (y + t));
                                    assert(r1v.subrange(m as int, m + l) =~= y);
                                    assert(r1v.subrange(m + l, r1v.len() as int) =~= t);
                                },
                                FieldVal::Varint(_) => {},
                                FieldVal::Skipped => {},
                            }
                        }
                    }
                    Err(malformed())
                },
            }
        },
        _ => {
            // No field this crate writes has such a wire type: pass over its
            // value, and keep its tag.
            let (s, r2) = skip_field(kind, tag, r1);
            match s {
                Ok(_) => Ok((WireField { tag, val: WireVal::Skipped }, r2)),
                Err(_) => Err(malformed()),
            }
        },
    }
}

/// Reads the fields of an encoded message, one after the other; the value
/// of a field of another wire type than varint and length-delimited is
/// passed over. Whatever list of fields was written is read back.
pub fn decode_fields(buf: &[u8]) -> (r: Result<Vec<WireField>, Error>)
    ensures
        match r {
            Ok(fs) => parse_fields(buf@) == Some(fields_view(fs@)),
            Err(_) => parse_fields(buf@) is None,
        },
        forall|fs: Seq<FieldView>|
            fields_ok(fs) && #[trigger] fields_bytes(fs) == buf@ ==> r is Ok && fields_view(
                r->Ok_0@,
            ) == fs,
{
    let mut rest = buf;
    let mut out: Vec<WireField> = Vec::new();
    proof {
        assert(fields_view(out@) =~= Seq::<FieldView>::empty());
        if parse_fields(rest@) is Some {
            assert(Seq::<FieldView>::empty() + parse_fields(rest@)->Some_0 =~= parse_fields(
                rest@,
            )->Some_0);
        }
        assert forall|fs: Seq<FieldView>| fields_ok(fs) && #[trigger] fields_bytes(fs) == buf@ implies read_so_far(
            fs,
            fields_view(out@),
            rest@,
        ) by {
            assert(fields_view(out@) =~= fs.subrange(0, 0));
            assert(fs.subrange(0, fs.len() as int) =~= fs);
        }
    }
    while rest.len() > 0
        invariant
            parse_fields(buf@) == join_front(fields_view(out@), parse_fields(rest@)),
            forall|fs: Seq<FieldView>|
                fields_ok(fs) && #[trigger] fields_bytes(fs) == buf@ ==> read_so_far(
                    fs,
                    fields_view(out@),
                    rest@,
                ),
        decreases rest@.len(),
    {
        let ghost rest0 = rest@;
        let ghost out0 = fields_view(out@);
        let ghost j = out@.len() as int;
        proof {
            assert forall|fs: Seq<FieldView>| fields_ok(fs) && #[trigger] fields_bytes(fs) == buf@ implies {
                &&& j < fs.len()
                &&& field_ok(fs[j])
                &&& (field_bytes(fs[j]) + fields_bytes(fs.subrange(j + 1, fs.len() as int))) == rest0
            } by {
                if j == fs.len() {
                    assert(fs.subrange(j, fs.len() as int) =~= Seq::<FieldView>::empty());
                }
                lemma_fields_bytes_split(fs, j);
            }
        }
        match read_field(rest) {
            Ok((g, r2)) => {
                out.push(g);
                rest = r2;
                proof {
                    let f = field_view(g);
                    assert(fields_view(out@) =~= out0.push(f));
                    if parse_fields(rest@) is Some {
                        assert(out0 + (seq![f] + parse_fields(rest@)->Some_0) =~= out0.push(f)
                            + parse_fields(rest@)->Some_0);
                    }
                    assert forall|fs: Seq<FieldView>| fields_ok(fs) && #[trigger] fields_bytes(fs)
                        == buf@ implies read_so_far(fs, fields_view(out@), rest@) by {
                        let t = fields_bytes(fs.subrange(j + 1, fs.len() as int));
                        assert((field_bytes(fs[j]) + t) == rest0);
                        assert(fs.subrange(0, j + 1) =~= fs.subrange(0, j).push(fs[j]));
                    }
                }
            },
            Err(e) => {
                proof {
                    assert forall|fs: Seq<FieldView>| fields_ok(fs) && #[trigger] fields_bytes(fs)
                        == buf@ implies false by {
                        let t = fields_bytes(fs.subrange(j + 1, fs.len() as int));
                        assert((field_bytes(fs[j]) + t) == rest0);
                    }
                }
                return Err(e);
            },
        }
    }
    proof {
        assert(fields_view(out@) + Seq::<FieldView>::empty() =~= fields_view(out@));
        assert forall|fs: Seq<FieldView>| fields_ok(fs) && #[trigger] fields_bytes(fs) == buf@ implies fields_view(
            out@,
        ) == fs by {
            let j = out@.len() as int;
            if j < fs.len() {
                lemma_fields_bytes_split(fs, j);
                lemma_field_bytes_nonempty(fs[j]);
            }
            assert(fs.subrange(0, fs.len() as int) =~= fs);
        }
    }
    Ok(out)
}

} // verus!
