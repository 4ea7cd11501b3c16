//! An ordered key-value table: the entries of one column of an in-memory
//! engine, kept sorted by key so that the next and previous key can be found.

use crate::lex::{
    compare_keys, has_prefix, lemma_prefix_block_after, starts_with, lemma_lex_asymmetric, lemma_lex_irreflexive, lemma_lex_lt_le, lemma_lex_total,
    lemma_lex_transitive, lex_le, lex_lt, KeyOrder,
};
use vstd::prelude::*;
use vstd::slice::slice_to_vec;

verus! {

/// A sequence of entries whose keys strictly increase.
pub open spec fn sorted_keys(s: Seq<(Seq<u8>, Seq<u8>)>) -> bool {
    forall|i: int, j: int| 0 <= i < j < s.len() ==> lex_lt(#[trigger] s[i].0, #[trigger] s[j].0)
}

/// The map that a sequence of entries stands for.
pub open spec fn pairs_map(s: Seq<(Seq<u8>, Seq<u8>)>) -> Map<Seq<u8>, Seq<u8>> {
    Map::new(
        |k: Seq<u8>| exists|i: int| 0 <= i < s.len() && s[i].0 == k,
        |k: Seq<u8>| s[key_index(s, k)].1,
    )
}

/// A position of `k` among the keys of `s`.
pub open spec fn key_index(s: Seq<(Seq<u8>, Seq<u8>)>, k: Seq<u8>) -> int {
    choose|i: int| 0 <= i < s.len() && s[i].0 == k
}

/// `x` comes after `k`: strictly, or also equal when `inclusive` is set.
pub open spec fn key_after(x: Seq<u8>, k: Seq<u8>, inclusive: bool) -> bool {
    lex_lt(k, x) || (inclusive && x == k)
}

/// `x` comes before `k`: strictly, or also equal when `inclusive` is set.
pub open spec fn key_before(x: Seq<u8>, k: Seq<u8>, inclusive: bool) -> bool {
    lex_lt(x, k) || (inclusive && x == k)
}

/// `r` is the entry of `m` with the smallest key after `k`, and `None` when
/// no key of `m` comes after `k`.
pub open spec fn is_next_entry(
    m: Map<Seq<u8>, Seq<u8>>,
    k: Seq<u8>,
    inclusive: bool,
    r: Option<(Seq<u8>, Seq<u8>)>,
) -> bool {
    match r {
        None => forall|x: Seq<u8>| #[trigger] m.contains_key(x) ==> !key_after(x, k, inclusive),
        Some(e) => {
            &&& m.contains_key(e.0)
            &&& m[e.0] == e.1
            &&& key_after(e.0, k, inclusive)
            &&& forall|x: Seq<u8>| #[trigger]
                m.contains_key(x) && key_after(x, k, inclusive) ==> lex_le(e.0, x)
        },
    }
}

/// `r` is the entry of `m` with the greatest key before `k`, and `None` when
/// no key of `m` comes before `k`.
pub open spec fn is_prev_entry(
    m: Map<Seq<u8>, Seq<u8>>,
    k: Seq<u8>,
    inclusive: bool,
    r: Option<(Seq<u8>, Seq<u8>)>,
) -> bool {
    match r {
        None => forall|x: Seq<u8>| #[trigger] m.contains_key(x) ==> !key_before(x, k, inclusive),
        Some(e) => {
            &&& m.contains_key(e.0)
            &&& m[e.0] == e.1
            &&& key_before(e.0, k, inclusive)
            &&& forall|x: Seq<u8>| #[trigger]
                m.contains_key(x) && key_before(x, k, inclusive) ==> lex_le(x, e.0)
        },
    }
}

/// The key and value of an entry handed out, as byte sequences.
pub open spec fn entry_view(r: Option<(Vec<u8>, Vec<u8>)>) -> Option<(Seq<u8>, Seq<u8>)> {
    match r {
        Some(e) => Some((e.0@, e.1@)),
        None => None,
    }
}

proof fn lemma_unique(s: Seq<(Seq<u8>, Seq<u8>)>, i: int, j: int)
    requires
        sorted_keys(s),
        0 <= i < s.len(),
        0 <= j < s.len(),
        s[i].0 == s[j].0,
    ensures
        i == j,
{
    lemma_lex_irreflexive(s[i].0);
    if i < j {
        assert(lex_lt(s[i].0, s[j].0));
    } else if j < i {
        assert(lex_lt(s[j].0, s[i].0));
    }
}

proof fn lemma_map_at(s: Seq<(Seq<u8>, Seq<u8>)>, i: int)
    requires
        sorted_keys(s),
        0 <= i < s.len(),
    ensures
        pairs_map(s).contains_key(s[i].0),
        pairs_map(s)[s[i].0] == s[i].1,
{
    let k = s[i].0;
    assert(exists|j: int| 0 <= j < s.len() && s[j].0 == k);
    let c = key_index(s, k);
    lemma_unique(s, i, c);
}

proof fn lemma_map_has(s: Seq<(Seq<u8>, Seq<u8>)>, k: Seq<u8>) -> (i: int)
    requires
        pairs_map(s).contains_key(k),
    ensures
        0 <= i < s.len(),
        s[i].0 == k,
{
    choose|j: int| 0 <= j < s.len() && s[j].0 == k
}

proof fn lemma_sorted_le(s: Seq<(Seq<u8>, Seq<u8>)>, i: int, j: int)
    requires
        sorted_keys(s),
        0 <= i <= j < s.len(),
    ensures
        lex_le(s[i].0, s[j].0),
{
    if i < j {
        assert(lex_lt(s[i].0, s[j].0));
    }
}

/// Below the lower bound of `k` every key sorts before `k`; from it on, none.
pub open spec fn is_lower_bound(s: Seq<(Seq<u8>, Seq<u8>)>, k: Seq<u8>, i: int) -> bool {
    &&& 0 <= i <= s.len()
    &&& forall|j: int| 0 <= j < i ==> lex_lt(#[trigger] s[j].0, k)
    &&& i < s.len() ==> lex_le(k, s[i].0)
}

proof fn lemma_lower_bound_above(s: Seq<(Seq<u8>, Seq<u8>)>, k: Seq<u8>, i: int, j: int)
    requires
        sorted_keys(s),
        is_lower_bound(s, k, i),
        i <= j < s.len(),
    ensures
        lex_le(k, s[j].0),
{
    lemma_sorted_le(s, i, j);
    if k != s[i].0 {
        lemma_lex_lt_le(k, s[i].0, s[j].0);
    }
}

proof fn lemma_insert(s: Seq<(Seq<u8>, Seq<u8>)>, i: int, k: Seq<u8>, v: Seq<u8>)
    requires
        sorted_keys(s),
        is_lower_bound(s, k, i),
        !pairs_map(s).contains_key(k),
    ensures
        sorted_keys(s.insert(i, (k, v))),
        pairs_map(s.insert(i, (k, v))) =~= pairs_map(s).insert(k, v),
{
    let t = s.insert(i, (k, v));
    assert forall|j: int| 0 <= j < s.len() && j >= i implies lex_lt(k, #[trigger] s[j].0) by {
        lemma_lower_bound_above(s, k, i, j);
        if s[j].0 == k {
            lemma_map_at(s, j);
        }
    }
    assert forall|a: int, b: int| 0 <= a < b < t.len() implies lex_lt(#[trigger] t[a].0, #[trigger] t[b].0) by {
        if b < i {
            assert(t[a] == s[a] && t[b] == s[b]);
        } else if b == i {
            assert(t[a] == s[a]);
        } else if a < i {
            assert(t[a] == s[a] && t[b] == s[b - 1]);
            lemma_lex_transitive(s[a].0, k, s[b - 1].0);
        } else if a == i {
            assert(t[b] == s[b - 1]);
        } else {
            assert(t[a] == s[a - 1] && t[b] == s[b - 1]);
        }
    }
    let m = pairs_map(s).insert(k, v);
    assert forall|x: Seq<u8>| pairs_map(t).contains_key(x) <==> m.contains_key(x) by {
        if pairs_map(t).contains_key(x) {
            let j = lemma_map_has(t, x);
            if j < i {
                lemma_map_at(s, j);
            } else if j > i {
                lemma_map_at(s, j - 1);
            }
        }
        if m.contains_key(x) && x != k {
            let j = lemma_map_has(s, x);
            if j < i {
                lemma_map_at(t, j);
            } else {
                assert(t[j + 1] == s[j]);
                lemma_map_at(t, j + 1);
            }
        }
        if x == k {
            lemma_map_at(t, i);
        }
    }
    assert forall|x: Seq<u8>| #[trigger] pairs_map(t).contains_key(x) implies pairs_map(t)[x] == m[x] by {
        let j = lemma_map_has(t, x);
        lemma_map_at(t, j);
        if j < i {
            lemma_map_at(s, j);
        } else if j > i {
            lemma_map_at(s, j - 1);
        }
    }
}

proof fn lemma_update(s: Seq<(Seq<u8>, Seq<u8>)>, i: int, v: Seq<u8>)
    requires
        sorted_keys(s),
        0 <= i < s.len(),
    ensures
        sorted_keys(s.update(i, (s[i].0, v))),
        pairs_map(s.update(i, (s[i].0, v))) =~= pairs_map(s).insert(s[i].0, v),
{
    let k = s[i].0;
    let t = s.update(i, (k, v));
    assert forall|a: int, b: int| 0 <= a < b < t.len() implies lex_lt(#[trigger] t[a].0, #[trigger] t[b].0) by {
        assert(t[a].0 == s[a].0 && t[b].0 == s[b].0);
    }
    let m = pairs_map(s).insert(k, v);
    assert forall|x: Seq<u8>| pairs_map(t).contains_key(x) <==> m.contains_key(x) by {
        if pairs_map(t).contains_key(x) {
            let j = lemma_map_has(t, x);
            lemma_map_at(s, j);
        }
        if m.contains_key(x) {
            if x == k {
                lemma_map_at(t, i);
            } else {
                let j = lemma_map_has(s, x);
                lemma_map_at(t, j);
            }
        }
    }
    assert forall|x: Seq<u8>| #[trigger] pairs_map(t).contains_key(x) implies pairs_map(t)[x] == m[x] by {
        let j = lemma_map_has(t, x);
        lemma_map_at(t, j);
        lemma_map_at(s, j);
        if x == k {
            lemma_unique(t, i, j);
        }
    }
}

proof fn lemma_remove(s: Seq<(Seq<u8>, Seq<u8>)>, i: int)
    requires
        sorted_keys(s),
        0 <= i < s.len(),
    ensures
        sorted_keys(s.remove(i)),
        pairs_map(s.remove(i)) =~= pairs_map(s).remove(s[i].0),
{
    let k = s[i].0;
    let t = s.remove(i);
    assert forall|a: int, b: int| 0 <= a < b < t.len() implies lex_lt(#[trigger] t[a].0, #[trigger] t[b].0) by {
        if b < i {
            assert(t[a] == s[a] && t[b] == s[b]);
        } else if a < i {
            assert(t[a] == s[a] && t[b] == s[b + 1]);
        } else {
            assert(t[a] == s[a + 1] && t[b] == s[b + 1]);
        }
    }
    let m = pairs_map(s).remove(k);
    assert forall|x: Seq<u8>| pairs_map(t).contains_key(x) <==> m.contains_key(x) by {
        if pairs_map(t).contains_key(x) {
            let j = lemma_map_has(t, x);
            if j < i {
                lemma_map_at(s, j);
                if s[j].0 == k {
                    lemma_unique(s, i, j);
                }
            } else {
                assert(t[j] == s[j + 1]);
                lemma_map_at(s, j + 1);
                if s[j + 1].0 == k {
                    lemma_unique(s, i, j + 1);
                }
            }
        }
        if m.contains_key(x) {
            let j = lemma_map_has(s, x);
            if j < i {
                lemma_map_at(t, j);
            } else if j > i {
                assert(t[j - 1] == s[j]);
                lemma_map_at(t, j - 1);
            }
        }
    }
    assert forall|x: Seq<u8>| #[trigger] pairs_map(t).contains_key(x) implies pairs_map(t)[x] == m[x] by {
        let j = lemma_map_has(t, x);
        lemma_map_at(t, j);
        if j < i {
            lemma_map_at(s, j);
            if s[j].0 == k {
                lemma_unique(s, i, j);
            }
        } else {
            assert(t[j] == s[j + 1]);
            lemma_map_at(s, j + 1);
            if s[j + 1].0 == k {
                lemma_unique(s, i, j + 1);
            }
        }
    }
}

/// One column of an in-memory engine: entries kept in increasing key order.
///
/// The entries sit in a `Vec` sorted by key rather than in a `BTreeMap`:
/// vstd specifies `BTreeMap` only for keys whose `Ord` it models, which
/// byte vectors are not, and gives no specification of `range`, the lookup
/// of the next key that this table exists for.
pub struct SortedKv {
    entries: Vec<(Vec<u8>, Vec<u8>)>,
}

impl SortedKv {
    /// The entries, key and value as byte sequences, in key order.
    pub closed spec fn pairs(&self) -> Seq<(Seq<u8>, Seq<u8>)> {
        self.entries@.map_values(|e: (Vec<u8>, Vec<u8>)| (e.0@, e.1@))
    }

    /// The keys strictly increase.
    pub closed spec fn wf(&self) -> bool {
        sorted_keys(self.pairs())
    }
}

impl SortedKv {
    /// A stored value is held in memory: its length fits in a `usize`.
    pub proof fn lemma_value_fits(&self, k: Seq<u8>)
        requires
            self@.contains_key(k),
        ensures
            self@[k].len() <= usize::MAX,
    {
        let s = self.pairs();
        let i = key_index(s, k);
        assert(exists|j: int| 0 <= j < s.len() && s[j].0 == k);
        assert(0 <= i < s.len());
        assert(s[i].1 == self.entries@[i].1@);
        assert(self.entries@[i].1.len() == self.entries@[i].1@.len());
    }
}

impl View for SortedKv {
    type V = Map<Seq<u8>, Seq<u8>>;

    closed spec fn view(&self) -> Map<Seq<u8>, Seq<u8>> {
        pairs_map(self.pairs())
    }
}

impl SortedKv {
    /// An empty table.
    pub fn new() -> (t: SortedKv)
        ensures
            t.wf(),
            t@ == Map::<Seq<u8>, Seq<u8>>::empty(),
    {
        let t = SortedKv { entries: Vec::new() };
        assert(t.pairs() =~= Seq::<(Seq<u8>, Seq<u8>)>::empty());
        assert(t@ =~= Map::<Seq<u8>, Seq<u8>>::empty());
        t
    }

    /// The first position whose key does not sort before `key`.
    fn lower_bound(&self, key: &[u8]) -> (i: usize)
        requires
            self.wf(),
        ensures
            is_lower_bound(self.pairs(), key@, i as int),
    {
        let mut i: usize = 0;
        while i < self.entries.len() && compare_keys(self.entries[i].0.as_slice(), key)
            == KeyOrder::Less
            invariant
                i <= self.entries@.len(),
                forall|j: int| 0 <= j < i ==> lex_lt(#[trigger] self.pairs()[j].0, key@),
            decreases self.entries@.len() - i,
        {
            i = i + 1;
        }
        if i < self.entries.len() {
            let o = compare_keys(self.entries[i].0.as_slice(), key);
            proof {
                lemma_lex_total(key@, self.pairs()[i as int].0);
            }
        }
        i
    }

    /// The value stored under `key`.
    pub fn get(&self, key: &[u8]) -> (r: Option<Vec<u8>>)
        requires
            self.wf(),
        ensures
            match r {
                Some(v) => self@.contains_key(key@) && self@[key@] == v@,
                None => !self@.contains_key(key@),
            },
    {
        let ghost s = self.pairs();
        let i = self.lower_bound(key);
        if i < self.entries.len() && compare_keys(self.entries[i].0.as_slice(), key)
            == KeyOrder::Equal {
            proof {
                lemma_map_at(s, i as int);
            }
            Some(slice_to_vec(self.entries[i].1.as_slice()))
        } else {
            proof {
                if self@.contains_key(key@) {
                    let j = lemma_map_has(s, key@);
                    lemma_lex_irreflexive(key@);
                    if j >= i {
                        lemma_lower_bound_above(s, key@, i as int, j);
                        if j > i {
                            lemma_sorted_le(s, i as int, j);
                            lemma_lex_lt_le(key@, s[i as int].0, s[j].0);
                        }
                    }
                }
            }
            None
        }
    }

    /// Stores `value` under `key`, replacing what was there.
    pub fn set(&mut self, key: &[u8], value: &[u8])
        requires
            old(self).wf(),
        ensures
            final(self).wf(),
            final(self)@ == old(self)@.insert(key@, value@),
    {
        let ghost s = self.pairs();
        let i = self.lower_bound(key);
        let k = slice_to_vec(key);
        let v = slice_to_vec(value);
        if i < self.entries.len() && compare_keys(self.entries[i].0.as_slice(), key)
            == KeyOrder::Equal {
            self.entries.set(i, (k, v));
            proof {
                lemma_update(s, i as int, value@);
                assert(self.pairs() =~= s.update(i as int, (s[i as int].0, value@)));
            }
        } else {
            proof {
                if pairs_map(s).contains_key(key@) {
                    let j = lemma_map_has(s, key@);
                    lemma_lex_irreflexive(key@);
                    if j >= i {
                        lemma_lower_bound_above(s, key@, i as int, j);
                        if j > i {
                            lemma_sorted_le(s, i as int, j);
                            lemma_lex_lt_le(key@, s[i as int].0, s[j].0);
                        }
                    }
                }
                lemma_insert(s, i as int, key@, value@);
            }
            self.entries.insert(i, (k, v));
            proof {
                assert(self.pairs() =~= s.insert(i as int, (key@, value@)));
            }
        }
    }

    /// Removes `key` and what is stored under it, if anything is.
    pub fn delete(&mut self, key: &[u8])
        requires
            old(self).wf(),
        ensures
            final(self).wf(),
            final(self)@ == old(self)@.remove(key@),
    {
        let ghost s = self.pairs();
        let i = self.lower_bound(key);
        if i < self.entries.len() && compare_keys(self.entries[i].0.as_slice(), key)
            == KeyOrder::Equal {
            proof {
                lemma_remove(s, i as int);
            }
            self.entries.remove(i);
            proof {
                assert(self.pairs() =~= s.remove(i as int));
            }
        } else {
            proof {
                if pairs_map(s).contains_key(key@) {
                    let j = lemma_map_has(s, key@);
                    lemma_lex_irreflexive(key@);
                    if j >= i {
                        lemma_lower_bound_above(s, key@, i as int, j);
                        if j > i {
                            lemma_sorted_le(s, i as int, j);
                            lemma_lex_lt_le(key@, s[i as int].0, s[j].0);
                        }
                    }
                }
                assert(self@ =~= pairs_map(s).remove(key@));
            }
        }
    }

    fn entry_at(&self, i: usize) -> (r: (Vec<u8>, Vec<u8>))
        requires
            i < self.entries@.len(),
        ensures
            r.0@ == self.pairs()[i as int].0,
            r.1@ == self.pairs()[i as int].1,
    {
        (slice_to_vec(self.entries[i].0.as_slice()), slice_to_vec(self.entries[i].1.as_slice()))
    }

    /// The entry with the smallest key after `key` (or equal to it, when
    /// `inclusive` is set).
    pub fn next(&self, key: &[u8], inclusive: bool) -> (r: Option<(Vec<u8>, Vec<u8>)>)
        requires
            self.wf(),
        ensures
            is_next_entry(self@, key@, inclusive, entry_view(r)),
    {
        let ghost s = self.pairs();
        let mut i = self.lower_bound(key);
        let ghost i0 = i as int;
        if !inclusive && i < self.entries.len() && compare_keys(self.entries[i].0.as_slice(), key)
            == KeyOrder::Equal {
            i = i + 1;
        }
        proof {
            lemma_lex_irreflexive(key@);
            assert forall|j: int| 0 <= j < i implies !key_after(#[trigger] s[j].0, key@, inclusive) by {
                if j < s.len() && lex_lt(s[j].0, key@) {
                    lemma_lex_asymmetric(s[j].0, key@);
                }
            }
            assert forall|j: int| i <= j < s.len() implies key_after(#[trigger] s[j].0, key@, inclusive) by {
                lemma_lower_bound_above(s, key@, i0, j);
                if s[j].0 == key@ && !inclusive {
                    lemma_unique(s, j, i - 1);
                }
            }
        }
        if i < self.entries.len() {
            let e = self.entry_at(i);
            proof {
                lemma_map_at(s, i as int);
                assert forall|x: Seq<u8>| #[trigger]
                    self@.contains_key(x) && key_after(x, key@, inclusive) implies lex_le(
                    s[i as int].0,
                    x,
                ) by {
                    let j = lemma_map_has(s, x);
                    if j >= i {
                        lemma_sorted_le(s, i as int, j);
                    }
                }
            }
            Some(e)
        } else {
            proof {
                assert forall|x: Seq<u8>| #[trigger] self@.contains_key(x) implies !key_after(
                    x,
                    key@,
                    inclusive,
                ) by {
                    let j = lemma_map_has(s, x);
                }
            }
            None
        }
    }

    /// The entry with the greatest key before `key` (or equal to it, when
    /// `inclusive` is set).
    pub fn prev(&self, key: &[u8], inclusive: bool) -> (r: Option<(Vec<u8>, Vec<u8>)>)
        requires
            self.wf(),
        ensures
            is_prev_entry(self@, key@, inclusive, entry_view(r)),
    {
        let ghost s = self.pairs();
        let mut i = self.lower_bound(key);
        let ghost i0 = i as int;
        if inclusive && i < self.entries.len() && compare_keys(self.entries[i].0.as_slice(), key)
            == KeyOrder::Equal {
            i = i + 1;
        }
        // now the entries before `i` are exactly those before `key`
        proof {
            lemma_lex_irreflexive(key@);
            assert forall|j: int| 0 <= j < i implies key_before(#[trigger] s[j].0, key@, inclusive) by {
                if j < s.len() && !lex_lt(s[j].0, key@) {
                    assert(j == i0);
                }
            }
            assert forall|j: int| i <= j < s.len() implies !key_before(#[trigger] s[j].0, key@, inclusive) by {
                lemma_lower_bound_above(s, key@, i0, j);
                if s[j].0 == key@ {
                    if inclusive {
                        lemma_unique(s, j, i - 1);
                    }
                } else {
                    lemma_lex_asymmetric(s[j].0, key@);
                }
            }
        }
        if i > 0 {
            let e = self.entry_at(i - 1);
            proof {
                lemma_map_at(s, i - 1);
                assert forall|x: Seq<u8>| #[trigger]
                    self@.contains_key(x) && key_before(x, key@, inclusive) implies lex_le(
                    x,
                    s[i - 1].0,
                ) by {
                    let j = lemma_map_has(s, x);
                    if j < i {
                        lemma_sorted_le(s, j, i - 1);
                    }
                }
            }
            Some(e)
        } else {
            proof {
                assert forall|x: Seq<u8>| #[trigger] self@.contains_key(x) implies !key_before(
                    x,
                    key@,
                    inclusive,
                ) by {
                    let j = lemma_map_has(s, x);
                }
            }
            None
        }
    }

    /// A copy of the table.
    pub fn copy(&self) -> (r: SortedKv)
        requires
            self.wf(),
        ensures
            r.wf(),
            r@ == self@,
    {
        let mut entries: Vec<(Vec<u8>, Vec<u8>)> = Vec::new();
        let mut i: usize = 0;
        while i < self.entries.len()
            invariant
                i <= self.entries@.len(),
                entries@.map_values(|e: (Vec<u8>, Vec<u8>)| (e.0@, e.1@)) == self.pairs().subrange(
                    0,
                    i as int,
                ),
            decreases self.entries@.len() - i,
        {
            let e = self.entry_at(i);
            let ghost before = entries@;
            proof {
                assert((e.0@, e.1@) == self.pairs()[i as int]);
            }
            entries.push(e);
            proof {
                assert(entries@.map_values(|e: (Vec<u8>, Vec<u8>)| (e.0@, e.1@)) =~= before.map_values(
                    |e: (Vec<u8>, Vec<u8>)| (e.0@, e.1@),
                ).push(self.pairs()[i as int]));
                assert(entries@.map_values(|e: (Vec<u8>, Vec<u8>)| (e.0@, e.1@)) =~= self.pairs().subrange(
                    0,
                    i + 1,
                ));
            }
            i = i + 1;
        }
        let r = SortedKv { entries };
        proof {
            assert(r.pairs() =~= self.pairs());
        }
        r
    }

    /// The entries whose key starts with `prefix` and does not sort before
    /// `start`, in key order; `start` itself starts with `prefix`.
    pub fn scan(&self, start: &[u8], prefix: &[u8]) -> (r: Vec<(Vec<u8>, Vec<u8>)>)
        requires
            self.wf(),
            has_prefix(start@, prefix@),
        ensures
            is_scan(self@, start@, prefix@, r@.map_values(|e: (Vec<u8>, Vec<u8>)| (e.0@, e.1@))),
    {
        let ghost s = self.pairs();
        let lb = self.lower_bound(start);
        let mut i = lb;
        let mut out: Vec<(Vec<u8>, Vec<u8>)> = Vec::new();
        while i < self.entries.len() && starts_with(self.entries[i].0.as_slice(), prefix)
            invariant
                lb <= i <= self.entries@.len(),
                s == self.pairs(),
                self.wf(),
                is_lower_bound(s, start@, lb as int),
                out@.map_values(|e: (Vec<u8>, Vec<u8>)| (e.0@, e.1@)) == s.subrange(lb as int, i as int),
                forall|j: int| lb <= j < i ==> has_prefix(#[trigger] s[j].0, prefix@),
            decreases self.entries@.len() - i,
        {
            let e = self.entry_at(i);
            let ghost before = out@;
            proof {
                assert((e.0@, e.1@) == s[i as int]);
            }
            out.push(e);
            proof {
                assert(out@.map_values(|e: (Vec<u8>, Vec<u8>)| (e.0@, e.1@)) =~= before.map_values(
                    |e: (Vec<u8>, Vec<u8>)| (e.0@, e.1@),
                ).push(s[i as int]));
                assert(out@.map_values(|e: (Vec<u8>, Vec<u8>)| (e.0@, e.1@)) =~= s.subrange(
                    lb as int,
                    i + 1,
                ));
            }
            i = i + 1;
        }
        proof {
            let rv = s.subrange(lb as int, i as int);
            assert(out@.map_values(|e: (Vec<u8>, Vec<u8>)| (e.0@, e.1@)) == rv);
            assert forall|a: int, b: int| 0 <= a < b < rv.len() implies lex_lt(#[trigger] rv[a].0, #[trigger] rv[b].0) by {
                assert(rv[a] == s[lb + a] && rv[b] == s[lb + b]);
            }
            assert forall|j: int| 0 <= j < rv.len() implies {
                &&& self@.contains_key(#[trigger] rv[j].0)
                &&& self@[rv[j].0] == rv[j].1
                &&& in_scan(rv[j].0, start@, prefix@)
            } by {
                assert(rv[j] == s[lb + j]);
                lemma_map_at(s, lb + j);
                lemma_lower_bound_above(s, start@, lb as int, lb + j);
            }
            assert forall|k: Seq<u8>| #[trigger] self@.contains_key(k) && in_scan(k, start@, prefix@) implies exists|j: int|
                0 <= j < rv.len() && rv[j].0 == k by {
                let t = lemma_map_has(s, k);
                if t < lb {
                    assert(lex_lt(s[t].0, start@));
                    lemma_lex_asymmetric(s[t].0, start@);
                    lemma_lex_irreflexive(start@);
                } else if t >= i {
                    // the entry at `i` does not start with the prefix, yet
                    // sorts after `start`: every key of the block sorts before it
                    lemma_lower_bound_above(s, start@, lb as int, i as int);
                    assert(!has_prefix(s[i as int].0, prefix@));
                    assert(s[i as int].0 != start@);
                    lemma_prefix_block_after(prefix@, start@, k, s[i as int].0);
                    lemma_sorted_le(s, i as int, t);
                    lemma_lex_asymmetric(k, s[i as int].0);
                    lemma_lex_irreflexive(k);
                } else {
                    assert(rv[t - lb] == s[t]);
                }
            }
        }
        out
    }
}

/// `k` starts with `prefix` and does not sort before `start`.
pub open spec fn in_scan(k: Seq<u8>, start: Seq<u8>, prefix: Seq<u8>) -> bool {
    lex_le(start, k) && has_prefix(k, prefix)
}

/// `r` holds, in increasing key order, exactly the entries of `m` whose key
/// starts with `prefix` and does not sort before `start`.
pub open spec fn is_scan(
    m: Map<Seq<u8>, Seq<u8>>,
    start: Seq<u8>,
    prefix: Seq<u8>,
    r: Seq<(Seq<u8>, Seq<u8>)>,
) -> bool {
    &&& sorted_keys(r)
    &&& forall|j: int|
        0 <= j < r.len() ==> {
            &&& m.contains_key(#[trigger] r[j].0)
            &&& m[r[j].0] == r[j].1
            &&& in_scan(r[j].0, start, prefix)
        }
    &&& forall|k: Seq<u8>| #[trigger]
        m.contains_key(k) && in_scan(k, start, prefix) ==> exists|j: int|
            0 <= j < r.len() && r[j].0 == k
}

/// The next entry after a key is unique.
pub proof fn lemma_next_entry_unique(
    m: Map<Seq<u8>, Seq<u8>>,
    k: Seq<u8>,
    inclusive: bool,
    a: (Seq<u8>, Seq<u8>),
    b: (Seq<u8>, Seq<u8>),
)
    requires
        is_next_entry(m, k, inclusive, Some(a)),
        is_next_entry(m, k, inclusive, Some(b)),
    ensures
        a == b,
{
    assert(lex_le(a.0, b.0));
    assert(lex_le(b.0, a.0));
    if a.0 != b.0 {
        lemma_lex_asymmetric(a.0, b.0);
    }
}

} // verus!
