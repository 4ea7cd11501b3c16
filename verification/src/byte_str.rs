//! Small byte-string helpers: appending, and decimal and hexadecimal text
//! of integers.

use vstd::prelude::*;

verus! {

/// Appends `src` to `dst`.
pub fn append_bytes(dst: &mut Vec<u8>, src: &[u8])
    ensures
        final(dst)@ == old(dst)@ + src@,
{
    let mut i: usize = 0;
    while i < src.len()
        invariant
            i <= src@.len(),
            dst@ == old(dst)@ + src@.subrange(0, i as int),
        decreases src@.len() - i,
    {
        dst.push(src[i]);
        i = i + 1;
        proof {
            assert(src@.subrange(0, i as int) =~= src@.subrange(0, i - 1).push(src@[i - 1]));
            assert(dst@ =~= old(dst)@ + src@.subrange(0, i as int));
        }
    }
    proof {
        assert(src@.subrange(0, i as int) =~= src@);
    }
}

/// The decimal digits of `n`, most significant first, in ASCII.
pub open spec fn digits(n: nat) -> Seq<u8>
    decreases n,
{
    if n < 10 {
        seq![(48 + n) as u8]
    } else {
        digits(n / 10).push((48 + n % 10) as u8)
    }
}

/// The decimal text of `n`, with a leading `-` when it is negative, as
/// Rust's `Display` writes an integer.
pub open spec fn decimal(n: int) -> Seq<u8> {
    if n < 0 {
        seq![45u8] + digits((-n) as nat)
    } else {
        digits(n as nat)
    }
}

/// An ASCII decimal digit.
pub open spec fn is_digit(b: u8) -> bool {
    48 <= b <= 57
}

pub proof fn lemma_digits_are_digits(n: nat)
    ensures
        digits(n).len() >= 1,
        forall|i: int| 0 <= i < digits(n).len() ==> is_digit(#[trigger] digits(n)[i]),
        n < 10 <==> digits(n).len() == 1,
    decreases n,
{
    if n >= 10 {
        lemma_digits_are_digits(n / 10);
    }
}

pub proof fn lemma_digits_injective(a: nat, b: nat)
    requires
        digits(a) == digits(b),
    ensures
        a == b,
    decreases a,
{
    lemma_digits_are_digits(a);
    lemma_digits_are_digits(b);
    if a >= 10 && b >= 10 {
        assert(digits(a).drop_last() == digits(a / 10));
        assert(digits(b).drop_last() == digits(b / 10));
        assert(digits(a).last() == digits(b).last());
        assert(digits(a).last() == (48 + a % 10) as u8);
        assert(digits(b).last() == (48 + b % 10) as u8);
        assert(0 <= a % 10 < 10 && 0 <= b % 10 < 10);
        assert((48 + a % 10) as u8 == 48 + a % 10);
        assert((48 + b % 10) as u8 == 48 + b % 10);
        assert(a % 10 == b % 10);
        lemma_digits_injective(a / 10, b / 10);
        assert(a == 10 * (a / 10) + a % 10) by (nonlinear_arith);
        assert(b == 10 * (b / 10) + b % 10) by (nonlinear_arith);
        assert(a == b);
    } else if a < 10 && b < 10 {
        assert(digits(a) == seq![(48 + a) as u8]);
        assert(digits(b) == seq![(48 + b) as u8]);
        assert(digits(a)[0] == (48 + a) as u8);
        assert(digits(b)[0] == (48 + b) as u8);
        assert((48 + a) as u8 == 48 + a);
        assert((48 + b) as u8 == 48 + b);
        assert(a == b);
    } else {
        assert(digits(a).len() != digits(b).len());
    }
}

/// No byte of a decimal text is `/`, and distinct integers have distinct
/// texts.
pub proof fn lemma_decimal(a: int)
    ensures
        decimal(a).len() >= 1,
        forall|i: int| 0 <= i < decimal(a).len() ==> #[trigger] decimal(a)[i] != 47u8,
{
    if a < 0 {
        lemma_digits_are_digits((-a) as nat);
        assert forall|i: int| 0 <= i < decimal(a).len() implies #[trigger] decimal(a)[i] != 47u8 by {
            if i > 0 {
                assert(decimal(a)[i] == digits((-a) as nat)[i - 1]);
            }
        }
    } else {
        lemma_digits_are_digits(a as nat);
    }
}

pub proof fn lemma_decimal_injective(a: int, b: int)
    requires
        decimal(a) == decimal(b),
    ensures
        a == b,
{
    if a < 0 {
        lemma_digits_are_digits((-a) as nat);
    } else {
        lemma_digits_are_digits(a as nat);
    }
    if b < 0 {
        lemma_digits_are_digits((-b) as nat);
    } else {
        lemma_digits_are_digits(b as nat);
    }
    if a < 0 && b < 0 {
        assert(digits((-a) as nat) =~= decimal(a).drop_first());
        assert(digits((-b) as nat) =~= decimal(b).drop_first());
        lemma_digits_injective((-a) as nat, (-b) as nat);
    } else if a >= 0 && b >= 0 {
        lemma_digits_injective(a as nat, b as nat);
    } else if a < 0 {
        assert(decimal(a)[0] == 45u8);
        assert(is_digit(digits(b as nat)[0]));
    } else {
        assert(decimal(b)[0] == 45u8);
        assert(is_digit(digits(a as nat)[0]));
    }
}

/// The decimal digits of `n`.
pub fn u64_digits(n: u64) -> (r: Vec<u8>)
    ensures
        r@ == digits(n as nat),
{
    let mut v = n;
    let mut out: Vec<u8> = Vec::new();
    while v >= 10
        invariant
            digits(n as nat) == digits(v as nat) + out@,
        decreases v,
    {
        out.insert(0, (48 + v % 10) as u8);
        proof {
            assert(digits(v as nat) == digits((v / 10) as nat).push((48 + v % 10) as u8));
        }
        let ghost old_v = v;
        v = v / 10;
        proof {
            assert(digits(n as nat) =~= digits(v as nat) + out@);
        }
    }
    out.insert(0, (48 + v) as u8);
    proof {
        assert(digits(n as nat) =~= out@);
    }
    out
}

/// The decimal text of `n`.
pub fn i64_decimal(n: i64) -> (r: Vec<u8>)
    ensures
        r@ == decimal(n as int),
{
    if n < 0 {
        let m: u64 = (-(n as i128)) as u64;
        let d = u64_digits(m);
        let mut r: Vec<u8> = Vec::new();
        r.push(45u8);
        append_bytes(&mut r, d.as_slice());
        proof {
            assert(r@ =~= decimal(n as int));
        }
        r
    } else {
        u64_digits(n as u64)
    }
}

/// The number that ASCII decimal digits write, read most significant
/// first.
pub open spec fn digits_value(s: Seq<u8>) -> int
    decreases s.len(),
{
    if s.len() == 0 {
        0
    } else {
        digits_value(s.drop_last()) * 10 + (s.last() - 48)
    }
}

proof fn lemma_digits_value(n: nat)
    ensures
        digits_value(digits(n)) == n,
        n >= 10 ==> digits(n)[0] != 48u8,
    decreases n,
{
    if n < 10 {
        assert(digits(n).drop_last() =~= Seq::<u8>::empty());
        assert(digits(n).last() == (48 + n) as u8);
        assert((48 + n) as u8 == 48 + n);
        assert(digits_value(Seq::<u8>::empty()) == 0);
        assert(digits_value(digits(n)) == digits_value(digits(n).drop_last()) * 10 + (digits(n).last() - 48));
    } else {
        lemma_digits_value(n / 10);
        assert(digits(n).drop_last() =~= digits(n / 10));
        assert(digits(n).last() == (48 + n % 10) as u8);
        assert((48 + n % 10) as u8 == 48 + n % 10);
        assert(digits_value(digits(n)) == digits_value(digits(n / 10)) * 10 + (n % 10));
        assert(n == (n / 10) * 10 + n % 10) by (nonlinear_arith);
        lemma_digits_are_digits(n / 10);
        if n / 10 < 10 {
            assert(digits(n / 10)[0] == (48 + n / 10) as u8);
        }
        assert(digits(n)[0] == digits(n / 10)[0]);
    }
}

/// The decimal text of an integer is its sign, when negative, then its
/// digits, most significant first and with no leading zero, which read
/// back as the integer.
pub proof fn lemma_decimal_reads_back(n: int)
    ensures
        ({
            let s = decimal(n);
            let o: int = if n < 0 {
                1
            } else {
                0
            };
            &&& n < 0 ==> s[0] == 45u8
            &&& s.len() >= o + 1
            &&& forall|i: int| o <= i < s.len() ==> is_digit(#[trigger] s[i])
            &&& s.len() > o + 1 ==> s[o] != 48u8
            &&& digits_value(s.subrange(o, s.len() as int)) == if n < 0 {
                -n
            } else {
                n
            }
        }),
{
    let m: nat = if n < 0 {
        (-n) as nat
    } else {
        n as nat
    };
    lemma_digits_are_digits(m);
    lemma_digits_value(m);
    let s = decimal(n);
    if n < 0 {
        assert(s.subrange(1, s.len() as int) =~= digits(m));
        assert forall|i: int| 1 <= i < s.len() implies is_digit(#[trigger] s[i]) by {
            assert(s[i] == digits(m)[i - 1]);
        }
    } else {
        assert(s.subrange(0, s.len() as int) =~= digits(m));
    }
}

} // verus!
