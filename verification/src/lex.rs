//! Lexicographic order on byte strings: the order in which the storage
//! engines walk their keys.

use vstd::prelude::*;

verus! {

/// `a` sorts strictly before `b`, byte by byte; a proper prefix sorts first.
pub open spec fn lex_lt(a: Seq<u8>, b: Seq<u8>) -> bool
    decreases a.len(),
{
    if a.len() == 0 {
        b.len() > 0
    } else if b.len() == 0 {
        false
    } else if a[0] != b[0] {
        a[0] < b[0]
    } else {
        lex_lt(a.drop_first(), b.drop_first())
    }
}

/// `a` sorts before `b` or equals it.
pub open spec fn lex_le(a: Seq<u8>, b: Seq<u8>) -> bool {
    a == b || lex_lt(a, b)
}

/// `p` is a prefix of `s`.
pub open spec fn has_prefix(s: Seq<u8>, p: Seq<u8>) -> bool {
    p.len() <= s.len() && s.subrange(0, p.len() as int) == p
}

pub proof fn lemma_lex_irreflexive(a: Seq<u8>)
    ensures
        !lex_lt(a, a),
    decreases a.len(),
{
    if a.len() > 0 {
        lemma_lex_irreflexive(a.drop_first());
    }
}

pub proof fn lemma_lex_asymmetric(a: Seq<u8>, b: Seq<u8>)
    ensures
        !(lex_lt(a, b) && lex_lt(b, a)),
    decreases a.len(),
{
    if a.len() > 0 && b.len() > 0 && a[0] == b[0] {
        lemma_lex_asymmetric(a.drop_first(), b.drop_first());
    }
}

pub proof fn lemma_lex_total(a: Seq<u8>, b: Seq<u8>)
    ensures
        a == b || lex_lt(a, b) || lex_lt(b, a),
    decreases a.len(),
{
    if a.len() == 0 && b.len() == 0 {
        assert(a =~= b);
    } else if a.len() > 0 && b.len() > 0 && a[0] == b[0] {
        lemma_lex_total(a.drop_first(), b.drop_first());
        if a.drop_first() == b.drop_first() {
            let (ra, rb) = (a.drop_first(), b.drop_first());
            assert(a.len() == ra.len() + 1);
            assert(b.len() == rb.len() + 1);
            assert(a =~= b) by {
                assert forall|i: int| 0 <= i < a.len() implies a[i] == b[i] by {
                    if i > 0 {
                        assert(a[i] == ra[i - 1]);
                        assert(b[i] == rb[i - 1]);
                        assert(ra[i - 1] == rb[i - 1]);
                    }
                }
            }
        }
    }
}

pub proof fn lemma_lex_transitive(a: Seq<u8>, b: Seq<u8>, c: Seq<u8>)
    requires
        lex_lt(a, b),
        lex_lt(b, c),
    ensures
        lex_lt(a, c),
    decreases a.len(),
{
    if a.len() > 0 && b.len() > 0 && c.len() > 0 && a[0] == b[0] && b[0] == c[0] {
        lemma_lex_transitive(a.drop_first(), b.drop_first(), c.drop_first());
    }
}

/// `lex_lt` followed by `lex_le` is `lex_lt`.
pub proof fn lemma_lex_lt_le(a: Seq<u8>, b: Seq<u8>, c: Seq<u8>)
    requires
        lex_lt(a, b),
        lex_le(b, c),
    ensures
        lex_lt(a, c),
{
    if b != c {
        lemma_lex_transitive(a, b, c);
    }
}

/// A common prefix does not change the order.
pub proof fn lemma_lex_common_prefix(p: Seq<u8>, a: Seq<u8>, b: Seq<u8>)
    ensures
        lex_lt(p + a, p + b) == lex_lt(a, b),
    decreases p.len(),
{
    if p.len() > 0 {
        assert((p + a).drop_first() =~= p.drop_first() + a);
        assert((p + b).drop_first() =~= p.drop_first() + b);
        assert((p + a)[0] == p[0]);
        assert((p + b)[0] == p[0]);
        lemma_lex_common_prefix(p.drop_first(), a, b);
    } else {
        assert(p + a =~= a);
        assert(p + b =~= b);
    }
}

proof fn lemma_prefix_drop_first(s: Seq<u8>, p: Seq<u8>)
    requires
        p.len() > 0,
        s.len() > 0,
        s[0] == p[0],
    ensures
        has_prefix(s, p) == has_prefix(s.drop_first(), p.drop_first()),
{
    if has_prefix(s, p) {
        assert(s.drop_first().subrange(0, p.len() - 1) =~= p.drop_first()) by {
            assert forall|i: int| 0 <= i < p.len() - 1 implies s.drop_first().subrange(
                0,
                p.len() - 1,
            )[i] == p.drop_first()[i] by {
                assert(s.subrange(0, p.len() as int)[i + 1] == p[i + 1]);
            }
        }
    }
    if has_prefix(s.drop_first(), p.drop_first()) {
        assert(s.subrange(0, p.len() as int) =~= p) by {
            assert forall|i: int| 0 <= i < p.len() implies s.subrange(0, p.len() as int)[i]
                == p[i] by {
                if i > 0 {
                    assert(s.drop_first().subrange(0, p.len() - 1)[i - 1] == p.drop_first()[i
                        - 1]);
                }
            }
        }
    }
}

/// The keys that start with `p` form a block in the order: a key outside the
/// block that sorts after one key of the block sorts after all of them.
pub proof fn lemma_prefix_block_after(p: Seq<u8>, w: Seq<u8>, x: Seq<u8>, y: Seq<u8>)
    requires
        has_prefix(w, p),
        has_prefix(x, p),
        !has_prefix(y, p),
        lex_lt(w, y),
    ensures
        lex_lt(x, y),
    decreases p.len(),
{
    if p.len() == 0 {
        assert(y.subrange(0, 0) =~= p);
    } else {
        assert(w[0] == w.subrange(0, p.len() as int)[0]);
        assert(x[0] == x.subrange(0, p.len() as int)[0]);
        if y.len() > 0 && y[0] == p[0] {
            lemma_prefix_drop_first(w, p);
            lemma_prefix_drop_first(x, p);
            lemma_prefix_drop_first(y, p);
            lemma_prefix_block_after(p.drop_first(), w.drop_first(), x.drop_first(), y.drop_first());
        }
    }
}

/// The mirror of `lemma_prefix_block_after`.
pub proof fn lemma_prefix_block_before(p: Seq<u8>, w: Seq<u8>, x: Seq<u8>, y: Seq<u8>)
    requires
        has_prefix(w, p),
        has_prefix(x, p),
        !has_prefix(y, p),
        lex_lt(y, w),
    ensures
        lex_lt(y, x),
    decreases p.len(),
{
    if p.len() == 0 {
        assert(y.subrange(0, 0) =~= p);
    } else {
        assert(w[0] == w.subrange(0, p.len() as int)[0]);
        assert(x[0] == x.subrange(0, p.len() as int)[0]);
        if y.len() > 0 && y[0] == p[0] {
            lemma_prefix_drop_first(w, p);
            lemma_prefix_drop_first(x, p);
            lemma_prefix_drop_first(y, p);
            lemma_prefix_block_before(p.drop_first(), w.drop_first(), x.drop_first(), y.drop_first());
        }
    }
}

/// The outcome of comparing two keys.
#[derive(PartialEq, Eq, Structural, Debug, Clone, Copy)]
pub enum KeyOrder {
    Less,
    Equal,
    Greater,
}

/// Compares two byte strings in lexicographic order.
pub fn compare_keys(a: &[u8], b: &[u8]) -> (r: KeyOrder)
    ensures
        (r == KeyOrder::Less) == lex_lt(a@, b@),
        (r == KeyOrder::Equal) == (a@ == b@),
        (r == KeyOrder::Greater) == lex_lt(b@, a@),
{
    let mut i: usize = 0;
    while i < a.len() && i < b.len() && a[i] == b[i]
        invariant
            i <= a@.len(),
            i <= b@.len(),
            a@.subrange(0, i as int) == b@.subrange(0, i as int),
        decreases a@.len() - i,
    {
        assert(a@.subrange(0, i + 1) =~= a@.subrange(0, i as int).push(a@[i as int]));
        assert(b@.subrange(0, i + 1) =~= b@.subrange(0, i as int).push(b@[i as int]));
        i = i + 1;
    }
    proof {
        let p = a@.subrange(0, i as int);
        let ra = a@.subrange(i as int, a@.len() as int);
        let rb = b@.subrange(i as int, b@.len() as int);
        assert(a@ =~= p + ra);
        assert(b@ =~= p + rb);
        lemma_lex_common_prefix(p, ra, rb);
        lemma_lex_common_prefix(p, rb, ra);
        lemma_lex_irreflexive(a@);
        lemma_lex_asymmetric(a@, b@);
        if i < a@.len() && i < b@.len() {
            assert(ra[0] == a@[i as int]);
            assert(rb[0] == b@[i as int]);
            assert(a@[i as int] != b@[i as int]);
        }
    }
    if i < a.len() && i < b.len() {
        if a[i] < b[i] {
            KeyOrder::Less
        } else {
            KeyOrder::Greater
        }
    } else if i < a.len() {
        KeyOrder::Greater
    } else if i < b.len() {
        KeyOrder::Less
    } else {
        proof {
            assert(a@ =~= b@);
        }
        KeyOrder::Equal
    }
}

/// `s` starts with `p`.
pub fn starts_with(s: &[u8], p: &[u8]) -> (r: bool)
    ensures
        r == has_prefix(s@, p@),
{
    if s.len() < p.len() {
        false
    } else {
        let head = vstd::slice::slice_subrange(s, 0, p.len());
        compare_keys(head, p) == KeyOrder::Equal
    }
}

} // verus!
