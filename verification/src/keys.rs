//! The keys under which instances and column references are stored:
//! integers written as sixteen lowercase hexadecimal digits, as Rust's
//! `{:016x}` writes them, so that the keys of one replica sort by index.

use crate::byte_str::append_bytes;
use crate::lex::{has_prefix, lemma_lex_common_prefix, lemma_lex_irreflexive, lemma_lex_total, lex_lt};
use crate::qpaxos::InstanceId;
use vstd::prelude::*;
use vstd::string::StringSliceAdditionalSpecFns;

verus! {

/// The lowercase hexadecimal digit for `d < 16`.
pub open spec fn hex_digit(d: nat) -> u8 {
    if d < 10 {
        (48 + d) as u8
    } else {
        (87 + d) as u8
    }
}

/// The last `n` hexadecimal digits of `v`, most significant first.
pub open spec fn hex_width(v: nat, n: nat) -> Seq<u8>
    decreases n,
{
    if n == 0 {
        Seq::empty()
    } else {
        hex_width(v / 16, (n - 1) as nat).push(hex_digit(v % 16))
    }
}

/// `v` as sixteen hexadecimal digits.
pub open spec fn hex16(v: u64) -> Seq<u8> {
    hex_width(v as nat, 16)
}

/// The sixteen hexadecimal digits of `v`.
pub fn u64_hex16(v: u64) -> (r: Vec<u8>)
    ensures
        r@ == hex16(v),
{
    let mut out: Vec<u8> = Vec::new();
    let mut x = v;
    let mut n: usize = 0;
    while n < 16
        invariant
            n <= 16,
            hex16(v) == hex_width(x as nat, (16 - n) as nat) + out@,
        decreases 16 - n,
    {
        let d = x % 16;
        let c: u8 = if d < 10 {
            (48 + d) as u8
        } else {
            (87 + d) as u8
        };
        proof {
            assert(hex_width(x as nat, (16 - n) as nat) == hex_width(
                (x / 16) as nat,
                (16 - n - 1) as nat,
            ).push(hex_digit((x % 16) as nat)));
            assert(c == hex_digit((x % 16) as nat));
        }
        let ghost before = out@;
        out.insert(0, c);
        x = x / 16;
        n = n + 1;
        proof {
            assert(hex16(v) =~= hex_width(x as nat, (16 - n) as nat) + out@);
        }
    }
    proof {
        assert(hex_width(x as nat, 0) =~= Seq::<u8>::empty());
        assert(hex16(v) =~= out@);
    }
    out
}

/// The prefix of the keys of the instances led by replica `rid`.
pub open spec fn replica_prefix(rid: i64) -> Seq<u8> {
    hex16(rid as u64).push(47u8)
}

/// The key of instance `id`: leader, `/`, index.
pub open spec fn instance_key(id: InstanceId) -> Seq<u8> {
    replica_prefix(id.replica_id) + hex16(id.idx as u64)
}

/// The key of the reference of kind `typ` of column `col`: `typ`, `/`, the
/// column.
pub open spec fn ref_key(typ: Seq<u8>, col: i64) -> Seq<u8> {
    typ.push(47u8) + hex16(col as u64)
}

pub proof fn lemma_instance_key_prefix(id: InstanceId)
    ensures
        has_prefix(instance_key(id), replica_prefix(id.replica_id)),
{
    assert(instance_key(id).subrange(0, replica_prefix(id.replica_id).len() as int) =~= replica_prefix(
        id.replica_id,
    ));
}

/// The prefix of the keys of the instances led by `rid`.
pub fn replica_key_prefix(rid: i64) -> (r: Vec<u8>)
    ensures
        r@ == replica_prefix(rid),
{
    let mut r = u64_hex16(rid as u64);
    r.push(47u8);
    r
}

/// Something that is stored under a key of its own.
pub trait ToKey {
    spec fn key_view(&self) -> Seq<u8>;

    fn to_key(&self) -> (r: Vec<u8>)
        ensures
            r@ == self.key_view(),
    ;
}

impl ToKey for InstanceId {
    open spec fn key_view(&self) -> Seq<u8> {
        instance_key(*self)
    }

    fn to_key(&self) -> (r: Vec<u8>) {
        let mut r = replica_key_prefix(self.replica_id);
        let h = u64_hex16(#[verifier::truncate] (self.idx as u64));
        append_bytes(&mut r, h.as_slice());
        proof {
            assert(r@ == instance_key(*self));
            assert(self.key_view() == instance_key(*self));
        }
        r
    }
}

/// The key of the reference of kind `typ` of column `col`.
pub fn make_ref_key(typ: &str, col: i64) -> (r: Vec<u8>)
    ensures
        r@ == ref_key(typ.spec_bytes(), col),
{
    let mut r = vstd::slice::slice_to_vec(typ.as_bytes());
    r.push(47u8);
    let h = u64_hex16(col as u64);
    append_bytes(&mut r, h.as_slice());
    r
}

/// `16` to the power `n`.
pub open spec fn pow16(n: nat) -> nat
    decreases n,
{
    if n == 0 {
        1
    } else {
        16 * pow16((n - 1) as nat)
    }
}

proof fn lemma_hex_width_len(v: nat, n: nat)
    ensures
        hex_width(v, n).len() == n,
    decreases n,
{
    if n > 0 {
        lemma_hex_width_len(v / 16, (n - 1) as nat);
    }
}

/// Of two byte strings of one length, each followed by one byte, the order
/// is that of the strings, and of the bytes where the strings are equal.
proof fn lemma_lex_push(s1: Seq<u8>, c1: u8, s2: Seq<u8>, c2: u8)
    requires
        s1.len() == s2.len(),
    ensures
        lex_lt(s1.push(c1), s2.push(c2)) == (lex_lt(s1, s2) || (s1 == s2 && c1 < c2)),
    decreases s1.len(),
{
    if s1.len() == 0 {
        assert(s1 =~= s2);
        assert(s1.push(c1) =~= seq![c1]);
        assert(s2.push(c2) =~= seq![c2]);
        assert(seq![c1].drop_first() =~= Seq::<u8>::empty());
        assert(seq![c2].drop_first() =~= Seq::<u8>::empty());
        assert(!lex_lt(Seq::<u8>::empty(), Seq::<u8>::empty()));
        assert(!lex_lt(s1, s2));
    } else {
        assert(s1.push(c1)[0] == s1[0]);
        assert(s2.push(c2)[0] == s2[0]);
        assert(s1.push(c1).drop_first() =~= s1.drop_first().push(c1));
        assert(s2.push(c2).drop_first() =~= s2.drop_first().push(c2));
        lemma_lex_push(s1.drop_first(), c1, s2.drop_first(), c2);
        if s1[0] == s2[0] && s1.drop_first() == s2.drop_first() {
            assert(s1 =~= s2) by {
                assert forall|i: int| 0 <= i < s1.len() implies s1[i] == s2[i] by {
                    if i > 0 {
                        assert(s1[i] == s1.drop_first()[i - 1]);
                        assert(s2[i] == s2.drop_first()[i - 1]);
                    }
                }
            }
        }
        if s1 == s2 {
            lemma_lex_irreflexive(s1);
        }
    }
}

proof fn lemma_div_mod_order(x: nat, y: nat)
    ensures
        (x < y) == (x / 16 < y / 16 || (x / 16 == y / 16 && x % 16 < y % 16)),
{
    assert(x == 16 * (x / 16) + x % 16) by (nonlinear_arith);
    assert(y == 16 * (y / 16) + y % 16) by (nonlinear_arith);
    assert(0 <= x % 16 < 16 && 0 <= y % 16 < 16);
    if x / 16 < y / 16 {
        assert(16 * (x / 16) + 16 <= 16 * (y / 16)) by (nonlinear_arith)
            requires
                x / 16 < y / 16,
        ;
    }
    if y / 16 < x / 16 {
        assert(16 * (y / 16) + 16 <= 16 * (x / 16)) by (nonlinear_arith)
            requires
                y / 16 < x / 16,
        ;
    }
}

/// Hexadecimal texts of one width sort as the numbers they write.
pub proof fn lemma_hex_width_order(x: nat, y: nat, n: nat)
    requires
        x < pow16(n),
        y < pow16(n),
    ensures
        lex_lt(hex_width(x, n), hex_width(y, n)) == (x < y),
        (hex_width(x, n) == hex_width(y, n)) == (x == y),
    decreases n,
{
    if n == 0 {
        assert(hex_width(x, n) =~= hex_width(y, n));
        lemma_lex_irreflexive(hex_width(x, n));
    } else {
        let m = (n - 1) as nat;
        assert(x / 16 < pow16(m) && y / 16 < pow16(m)) by (nonlinear_arith)
            requires
                x < 16 * pow16(m),
                y < 16 * pow16(m),
        ;
        lemma_hex_width_order(x / 16, y / 16, m);
        lemma_hex_width_len(x / 16, m);
        lemma_hex_width_len(y / 16, m);
        lemma_lex_push(hex_width(x / 16, m), hex_digit(x % 16), hex_width(y / 16, m), hex_digit(y % 16));
        lemma_div_mod_order(x, y);
        lemma_div_mod_order(y, x);
        assert(x == 16 * (x / 16) + x % 16) by (nonlinear_arith);
        assert(y == 16 * (y / 16) + y % 16) by (nonlinear_arith);
        if hex_width(x, n) == hex_width(y, n) {
            assert(hex_width(x, n).last() == hex_digit(x % 16));
            assert(hex_width(y, n).last() == hex_digit(y % 16));
            assert(hex_width(x, n).drop_last() =~= hex_width(x / 16, m));
            assert(hex_width(y, n).drop_last() =~= hex_width(y / 16, m));
        }
    }
}

proof fn lemma_pow16_16()
    ensures
        pow16(16) == 0x1_0000_0000_0000_0000,
{
    reveal_with_fuel(pow16, 17);
}

/// The keys of the instances of one leader sort by index, the index read
/// as an unsigned 64-bit number.
pub proof fn lemma_instance_key_order(rid: i64, a: i64, b: i64)
    ensures
        lex_lt(
            instance_key(InstanceId { replica_id: rid, idx: a }),
            instance_key(InstanceId { replica_id: rid, idx: b }),
        ) == ((a as u64) < (b as u64)),
        (instance_key(InstanceId { replica_id: rid, idx: a }) == instance_key(
            InstanceId { replica_id: rid, idx: b },
        )) == (a == b),
{
    lemma_pow16_16();
    lemma_hex_width_order(a as u64 as nat, b as u64 as nat, 16);
    let p = replica_prefix(rid);
    lemma_lex_common_prefix(p, hex16(a as u64), hex16(b as u64));
    lemma_hex_width_len(a as u64 as nat, 16);
    lemma_hex_width_len(b as u64 as nat, 16);
    if p + hex16(a as u64) == p + hex16(b as u64) {
        assert(hex16(a as u64) =~= (p + hex16(a as u64)).subrange(p.len() as int, p.len() + 16int));
        assert(hex16(b as u64) =~= (p + hex16(b as u64)).subrange(p.len() as int, p.len() + 16int));
        lemma_hex_width_len(a as u64 as nat, 16);
        lemma_hex_width_len(b as u64 as nat, 16);
    }
    assert((a as u64 == b as u64) == (a == b)) by (bit_vector);
}

/// Distinct instances are stored under distinct keys.
pub proof fn lemma_instance_key_injective(a: InstanceId, b: InstanceId)
    ensures
        (instance_key(a) == instance_key(b)) == (a == b),
{
    lemma_pow16_16();
    lemma_hex_width_len(a.replica_id as u64 as nat, 16);
    lemma_hex_width_len(b.replica_id as u64 as nat, 16);
    lemma_hex_width_len(a.idx as u64 as nat, 16);
    lemma_hex_width_len(b.idx as u64 as nat, 16);
    if instance_key(a) == instance_key(b) {
        let ka = instance_key(a);
        let kb = instance_key(b);
        assert(hex16(a.replica_id as u64) =~= ka.subrange(0, 16));
        assert(hex16(b.replica_id as u64) =~= kb.subrange(0, 16));
        assert(hex16(a.idx as u64) =~= ka.subrange(17, 33));
        assert(hex16(b.idx as u64) =~= kb.subrange(17, 33));
        lemma_hex_width_order(a.replica_id as u64 as nat, b.replica_id as u64 as nat, 16);
        lemma_hex_width_order(a.idx as u64 as nat, b.idx as u64 as nat, 16);
        let (ar, br, ai, bi) = (a.replica_id, b.replica_id, a.idx, b.idx);
        assert((ar as u64 == br as u64) ==> ar == br) by (bit_vector);
        assert((ai as u64 == bi as u64) ==> ai == bi) by (bit_vector);
    }
}

/// Distinct kinds or columns have distinct reference keys.
pub proof fn lemma_ref_key_injective(t1: Seq<u8>, c1: i64, t2: Seq<u8>, c2: i64)
    ensures
        (ref_key(t1, c1) == ref_key(t2, c2)) == (t1 == t2 && c1 == c2),
{
    lemma_pow16_16();
    lemma_hex_width_len(c1 as u64 as nat, 16);
    lemma_hex_width_len(c2 as u64 as nat, 16);
    if ref_key(t1, c1) == ref_key(t2, c2) {
        let k1 = ref_key(t1, c1);
        let k2 = ref_key(t2, c2);
        assert(hex16(c1 as u64).len() == 16);
        assert(hex16(c2 as u64).len() == 16);
        assert(k1.len() == t1.len() + 17);
        assert(k2.len() == t2.len() + 17);
        assert(t1.len() == t2.len());
        let n = t1.len() as int;
        assert(t1 =~= k1.subrange(0, n));
        assert(t2 =~= k2.subrange(0, n));
        assert(hex16(c1 as u64) =~= k1.subrange(n + 1, n + 17));
        assert(hex16(c2 as u64) =~= k2.subrange(n + 1, n + 17));
        lemma_hex_width_order(c1 as u64 as nat, c2 as u64 as nat, 16);
        assert((c1 as u64 == c2 as u64) ==> c1 == c2) by (bit_vector);
    }
}

} // verus!
