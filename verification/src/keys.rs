//! Keys are byte strings compared lexicographically as unsigned bytes.
//!
//! This module defines the specification-level order, the executable
//! comparison, and range bounds for scans.

use vstd::prelude::*;

verus! {

/// Strict lexicographic order on byte sequences.
pub open spec fn lex_lt(a: Seq<u8>, b: Seq<u8>) -> bool
    decreases a.len(),
{
    if b.len() == 0 {
        false
    } else if a.len() == 0 {
        true
    } else if a[0] < b[0] {
        true
    } else if a[0] > b[0] {
        false
    } else {
        lex_lt(a.drop_first(), b.drop_first())
    }
}

/// Non-strict lexicographic order on byte sequences.
pub open spec fn lex_le(a: Seq<u8>, b: Seq<u8>) -> bool {
    lex_lt(a, b) || a == b
}

/// The order is irreflexive and asymmetric.
pub proof fn lemma_lex_asym(a: Seq<u8>, b: Seq<u8>)
    ensures
        lex_lt(a, b) ==> !lex_lt(b, a),
        lex_lt(a, b) ==> a != b,
    decreases a.len(),
{
    if b.len() == 0 || a.len() == 0 {
    } else if a[0] == b[0] {
        lemma_lex_asym(a.drop_first(), b.drop_first());
        if lex_lt(a, b) && a == b {
            assert(a.drop_first() == b.drop_first());
        }
        if lex_lt(a, b) && lex_lt(b, a) {
            assert(lex_lt(a.drop_first(), b.drop_first()) && lex_lt(b.drop_first(), a.drop_first()));
        }
    }
}

/// Any two byte sequences are ordered or equal.
pub proof fn lemma_lex_total(a: Seq<u8>, b: Seq<u8>)
    ensures
        lex_lt(a, b) || a == b || lex_lt(b, a),
    decreases a.len(),
{
    if a.len() == 0 || b.len() == 0 {
        if a.len() == 0 && b.len() == 0 {
            assert(a =~= b);
        }
    } else if a[0] == b[0] {
        lemma_lex_total(a.drop_first(), b.drop_first());
        if a.drop_first() == b.drop_first() {
            assert(a.drop_first().len() == a.len() - 1);
            assert(b.drop_first().len() == b.len() - 1);
            assert(a.len() == b.len());
            assert forall|i: int| 0 <= i < a.len() implies a[i] == b[i] by {
                if i >= 1 {
                    assert(a[i] == a.drop_first()[i - 1]);
                    assert(b[i] == b.drop_first()[i - 1]);
                }
            }
            assert(a =~= b);
        }
    }
}

/// The order is transitive.
pub proof fn lemma_lex_trans(a: Seq<u8>, b: Seq<u8>, c: Seq<u8>)
    requires
        lex_lt(a, b),
        lex_lt(b, c),
    ensures
        lex_lt(a, c),
    decreases a.len(),
{
    if a.len() == 0 {
    } else if b.len() == 0 {
    } else if c.len() == 0 {
    } else {
        if a[0] == b[0] && b[0] == c[0] {
            lemma_lex_trans(a.drop_first(), b.drop_first(), c.drop_first());
        }
    }
}

/// Transitivity for the non-strict order.
pub proof fn lemma_lex_le_trans(a: Seq<u8>, b: Seq<u8>, c: Seq<u8>)
    requires
        lex_le(a, b),
        lex_le(b, c),
    ensures
        lex_le(a, c),
{
    if a != b && b != c {
        lemma_lex_trans(a, b, c);
    }
}

/// Transitivity for the non-strict order against the strict one.
pub proof fn lemma_lex_le_lt_trans(a: Seq<u8>, b: Seq<u8>, c: Seq<u8>)
    requires
        lex_le(a, b),
        lex_lt(b, c),
    ensures
        lex_lt(a, c),
{
    if a != b {
        lemma_lex_trans(a, b, c);
    }
}

/// Transitivity for the strict order against the non-strict one.
pub proof fn lemma_lex_lt_le_trans(a: Seq<u8>, b: Seq<u8>, c: Seq<u8>)
    requires
        lex_lt(a, b),
        lex_le(b, c),
    ensures
        lex_lt(a, c),
{
    if b != c {
        lemma_lex_trans(a, b, c);
    }
}

/// Relates the order to the first position where two sequences differ: if the
/// first `i` bytes agree, the order is decided at position `i`.
pub proof fn lemma_lex_from_prefix(a: Seq<u8>, b: Seq<u8>, i: int)
    requires
        0 <= i <= a.len(),
        0 <= i <= b.len(),
        a.subrange(0, i) == b.subrange(0, i),
    ensures
        i < a.len() && i < b.len() && a[i] < b[i] ==> lex_lt(a, b),
        i == a.len() && i < b.len() ==> lex_lt(a, b),
        i == a.len() && i == b.len() ==> a == b,
    decreases i,
{
    if i == 0 {
        if a.len() == 0 && b.len() == 0 {
            assert(a =~= b);
        }
    } else {
        assert(a.subrange(0, i)[0] == a[0]);
        assert(b.subrange(0, i)[0] == b[0]);
        assert(a.drop_first().subrange(0, i - 1) =~= a.subrange(0, i).drop_first());
        assert(b.drop_first().subrange(0, i - 1) =~= b.subrange(0, i).drop_first());
        lemma_lex_from_prefix(a.drop_first(), b.drop_first(), i - 1);
        if i == a.len() && i == b.len() && a.drop_first() == b.drop_first() {
            assert forall|j: int| 0 <= j < a.len() implies a[j] == b[j] by {
                if j >= 1 {
                    assert(a[j] == a.drop_first()[j - 1]);
                    assert(b[j] == b.drop_first()[j - 1]);
                }
            }
            assert(a =~= b);
        }
        if i < a.len() && i < b.len() {
            assert(a.drop_first()[i - 1] == a[i]);
            assert(b.drop_first()[i - 1] == b[i]);
        }
    }
}

/// Result of an executable three-way key comparison.
pub enum KeyOrd {
    Less,
    Equal,
    Greater,
}

/// Three-way lexicographic comparison of two byte strings.
pub fn key_cmp(a: &Vec<u8>, b: &Vec<u8>) -> (r: KeyOrd)
    ensures
        r is Less <==> lex_lt(a@, b@),
        r is Equal <==> a@ == b@,
        r is Greater <==> lex_lt(b@, a@),
{
    let n = if a.len() < b.len() {
        a.len()
    } else {
        b.len()
    };
    let mut i: usize = 0;
    while i < n
        invariant
            0 <= i <= n,
            n == if a@.len() < b@.len() {
                a@.len()
            } else {
                b@.len()
            },
            a@.subrange(0, i as int) =~= b@.subrange(0, i as int),
        decreases n - i,
    {
        let x = a[i];
        let y = b[i];
        if x < y {
            proof {
                lemma_lex_from_prefix(a@, b@, i as int);
                lemma_lex_asym(a@, b@);
            }
            return KeyOrd::Less;
        }
        if x > y {
            proof {
                lemma_lex_from_prefix(b@, a@, i as int);
                lemma_lex_asym(b@, a@);
            }
            return KeyOrd::Greater;
        }
        proof {
            assert(a@.subrange(0, i + 1) =~= a@.subrange(0, i as int).push(a@[i as int]));
            assert(b@.subrange(0, i + 1) =~= b@.subrange(0, i as int).push(b@[i as int]));
        }
        i = i + 1;
    }
    if a.len() == b.len() {
        proof {
            lemma_lex_from_prefix(a@, b@, n as int);
            lemma_lex_asym(a@, b@);
            lemma_lex_asym(b@, a@);
        }
        KeyOrd::Equal
    } else if a.len() < b.len() {
        proof {
            lemma_lex_from_prefix(a@, b@, n as int);
            lemma_lex_asym(a@, b@);
        }
        KeyOrd::Less
    } else {
        proof {
            lemma_lex_from_prefix(b@, a@, n as int);
            lemma_lex_asym(b@, a@);
        }
        KeyOrd::Greater
    }
}

/// One end of a scan range.
#[derive(Clone)]
pub enum KeyBound {
    Unbounded,
    Included(Vec<u8>),
    Excluded(Vec<u8>),
}

/// Whether a key lies at or above the lower bound.
pub open spec fn lower_admits(b: KeyBound, k: Seq<u8>) -> bool {
    match b {
        KeyBound::Unbounded => true,
        KeyBound::Included(l) => lex_le(l@, k),
        KeyBound::Excluded(l) => lex_lt(l@, k),
    }
}

/// Whether a key lies at or below the upper bound.
pub open spec fn upper_admits(b: KeyBound, k: Seq<u8>) -> bool {
    match b {
        KeyBound::Unbounded => true,
        KeyBound::Included(u) => lex_le(k, u@),
        KeyBound::Excluded(u) => lex_lt(k, u@),
    }
}

/// Whether a key lies within both bounds of a range.
pub open spec fn in_bounds(lo: KeyBound, hi: KeyBound, k: Seq<u8>) -> bool {
    lower_admits(lo, k) && upper_admits(hi, k)
}

/// Executable test of the lower bound.
pub fn check_lower(b: &KeyBound, k: &Vec<u8>) -> (r: bool)
    ensures
        r == lower_admits(*b, k@),
{
    match b {
        KeyBound::Unbounded => true,
        KeyBound::Included(l) => matches!(key_cmp(l, k), KeyOrd::Less | KeyOrd::Equal),
        KeyBound::Excluded(l) => matches!(key_cmp(l, k), KeyOrd::Less),
    }
}

/// Executable test of the upper bound.
pub fn check_upper(b: &KeyBound, k: &Vec<u8>) -> (r: bool)
    ensures
        r == upper_admits(*b, k@),
{
    match b {
        KeyBound::Unbounded => true,
        KeyBound::Included(u) => matches!(key_cmp(k, u), KeyOrd::Less | KeyOrd::Equal),
        KeyBound::Excluded(u) => matches!(key_cmp(k, u), KeyOrd::Less),
    }
}


/// Copy a byte string.
pub fn dup_bytes(v: &Vec<u8>) -> (r: Vec<u8>)
    ensures
        r@ == v@,
{
    let mut out: Vec<u8> = Vec::new();
    let mut i: usize = 0;
    while i < v.len()
        invariant
            0 <= i <= v@.len(),
            out@ =~= v@.subrange(0, i as int),
        decreases v@.len() - i,
    {
        out.push(v[i]);
        proof {
            assert(out@ =~= v@.subrange(0, i + 1));
        }
        i = i + 1;
    }
    proof {
        assert(out@ =~= v@);
    }
    out
}

/// Two bounds of the same shape with the same key bytes admit the same
/// keys.
pub open spec fn bound_matches(a: KeyBound, b: KeyBound) -> bool {
    match (a, b) {
        (KeyBound::Unbounded, KeyBound::Unbounded) => true,
        (KeyBound::Included(x), KeyBound::Included(y)) => x@ == y@,
        (KeyBound::Excluded(x), KeyBound::Excluded(y)) => x@ == y@,
        _ => false,
    }
}

/// Matching bounds admit the same keys, on either side.
pub proof fn lemma_bound_matches(a: KeyBound, b: KeyBound)
    requires
        bound_matches(a, b),
    ensures
        forall|k: Seq<u8>| #[trigger] lower_admits(a, k) == lower_admits(b, k),
        forall|k: Seq<u8>| #[trigger] upper_admits(a, k) == upper_admits(b, k),
{
}

impl KeyBound {
    /// Copy a bound.
    pub fn duplicate(&self) -> (r: KeyBound)
        ensures
            bound_matches(r, *self),
            bound_matches(*self, r),
    {
        match self {
            KeyBound::Unbounded => KeyBound::Unbounded,
            KeyBound::Included(v) => KeyBound::Included(dup_bytes(v)),
            KeyBound::Excluded(v) => KeyBound::Excluded(dup_bytes(v)),
        }
    }
}

} // verus!
