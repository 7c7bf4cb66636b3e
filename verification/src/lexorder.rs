//! Lexicographic ordering of byte strings.
//!
//! Keys in a table are compared byte-wise; this module defines the
//! mathematical order, an executable comparison, and the order lemmas the
//! index and chunk-scan proofs rely on.

use vstd::prelude::*;

verus! {

/// Result of comparing two byte strings.
#[derive(Clone, Copy, PartialEq, Eq, Structural, Debug)]
pub enum Cmp {
    Less,
    Equal,
    Greater,
}

/// Lexicographic three-way comparison of byte sequences: the first unequal
/// byte decides; a proper prefix sorts before its extensions.
pub open spec fn lex_cmp(a: Seq<u8>, b: Seq<u8>) -> Cmp
    decreases a.len(),
{
    if a.len() == 0 && b.len() == 0 {
        Cmp::Equal
    } else if a.len() == 0 {
        Cmp::Less
    } else if b.len() == 0 {
        Cmp::Greater
    } else if a[0] < b[0] {
        Cmp::Less
    } else if a[0] > b[0] {
        Cmp::Greater
    } else {
        lex_cmp(a.subrange(1, a.len() as int), b.subrange(1, b.len() as int))
    }
}

/// Strict lexicographic order.
pub open spec fn lex_lt(a: Seq<u8>, b: Seq<u8>) -> bool {
    lex_cmp(a, b) == Cmp::Less
}

/// Non-strict lexicographic order.
pub open spec fn lex_le(a: Seq<u8>, b: Seq<u8>) -> bool {
    lex_cmp(a, b) != Cmp::Greater
}

/// Comparison is `Equal` exactly on equal sequences.
pub proof fn lemma_lex_cmp_eq(a: Seq<u8>, b: Seq<u8>)
    ensures
        (lex_cmp(a, b) == Cmp::Equal) <==> (a == b),
    decreases a.len(),
{
    if a.len() == 0 && b.len() == 0 {
        assert(a =~= b);
    } else if a.len() == 0 || b.len() == 0 {
        assert(a != b);
    } else if a[0] == b[0] {
        let a1 = a.subrange(1, a.len() as int);
        let b1 = b.subrange(1, b.len() as int);
        lemma_lex_cmp_eq(a1, b1);
        if lex_cmp(a, b) == Cmp::Equal {
            assert(a =~= seq![a[0]] + a1);
            assert(b =~= seq![b[0]] + b1);
        } else {
            if a == b {
                assert(a1 =~= b1);
            }
        }
    } else {
        assert(a != b);
    }
}

/// Swapping the arguments swaps `Less` and `Greater`.
pub proof fn lemma_lex_cmp_flip(a: Seq<u8>, b: Seq<u8>)
    ensures
        (lex_cmp(a, b) == Cmp::Less) <==> (lex_cmp(b, a) == Cmp::Greater),
    decreases a.len(),
{
    if a.len() != 0 && b.len() != 0 && a[0] == b[0] {
        lemma_lex_cmp_flip(a.subrange(1, a.len() as int), b.subrange(1, b.len() as int));
    }
}

/// The strict order is transitive.
pub proof fn lemma_lex_lt_trans(a: Seq<u8>, b: Seq<u8>, c: Seq<u8>)
    requires
        lex_lt(a, b),
        lex_lt(b, c),
    ensures
        lex_lt(a, c),
    decreases a.len(),
{
    if a.len() == 0 {
        lemma_lex_cmp_eq(b, c);
        assert(c.len() != 0);
    } else {
        if b.len() == 0 {
            assert(false);
        } else if c.len() == 0 {
            assert(false);
        } else {
            if a[0] == b[0] && b[0] == c[0] {
                lemma_lex_lt_trans(
                    a.subrange(1, a.len() as int),
                    b.subrange(1, b.len() as int),
                    c.subrange(1, c.len() as int),
                );
            }
        }
    }
}

/// `le` and `lt` compose transitively.
pub proof fn lemma_lex_le_lt_trans(a: Seq<u8>, b: Seq<u8>, c: Seq<u8>)
    requires
        lex_le(a, b),
        lex_lt(b, c),
    ensures
        lex_lt(a, c),
{
    lemma_lex_cmp_eq(a, b);
    lemma_lex_cmp_flip(a, b);
    if lex_cmp(a, b) == Cmp::Equal {
        assert(a == b);
    } else {
        lemma_lex_lt_trans(a, b, c);
    }
}

/// `lt` and `le` compose transitively.
pub proof fn lemma_lex_lt_le_trans(a: Seq<u8>, b: Seq<u8>, c: Seq<u8>)
    requires
        lex_lt(a, b),
        lex_le(b, c),
    ensures
        lex_lt(a, c),
{
    lemma_lex_cmp_eq(b, c);
    lemma_lex_cmp_flip(b, c);
    if lex_cmp(b, c) == Cmp::Equal {
        assert(b == c);
    } else {
        lemma_lex_lt_trans(a, b, c);
    }
}

/// The order is reflexive in its non-strict form.
pub proof fn lemma_lex_le_refl(a: Seq<u8>)
    ensures
        lex_le(a, a),
{
    lemma_lex_cmp_eq(a, a);
}

/// A shared proper prefix does not decide the comparison: it is decided by
/// the remainders.
proof fn lemma_lex_cmp_common_prefix(a: Seq<u8>, b: Seq<u8>, i: int)
    requires
        0 <= i <= a.len(),
        i <= b.len(),
        forall|j: int| 0 <= j < i ==> a[j] == b[j],
    ensures
        lex_cmp(a, b) == lex_cmp(a.subrange(i, a.len() as int), b.subrange(i, b.len() as int)),
    decreases i,
{
    if i == 0 {
        assert(a.subrange(0, a.len() as int) =~= a);
        assert(b.subrange(0, b.len() as int) =~= b);
    } else {
        let a1 = a.subrange(1, a.len() as int);
        let b1 = b.subrange(1, b.len() as int);
        lemma_lex_cmp_common_prefix(a1, b1, i - 1);
        assert(a1.subrange(i - 1, a1.len() as int) =~= a.subrange(i, a.len() as int));
        assert(b1.subrange(i - 1, b1.len() as int) =~= b.subrange(i, b.len() as int));
    }
}

/// Executable three-way comparison of byte slices, matching `lex_cmp`.
pub fn cmp_bytes(a: &[u8], b: &[u8]) -> (r: Cmp)
    ensures
        r == lex_cmp(a@, b@),
{
    let alen = a.len();
    let blen = b.len();
    let mut i: usize = 0;
    while i < alen && i < blen
        invariant
            0 <= i <= alen,
            i <= blen,
            alen == a@.len(),
            blen == b@.len(),
            forall|j: int| 0 <= j < i ==> a@[j] == b@[j],
        decreases alen - i,
    {
        let x = *vstd::slice::slice_index_get(a, i);
        let y = *vstd::slice::slice_index_get(b, i);
        if x < y {
            proof {
                lemma_lex_cmp_common_prefix(a@, b@, i as int);
            }
            return Cmp::Less;
        }
        if x > y {
            proof {
                lemma_lex_cmp_common_prefix(a@, b@, i as int);
            }
            return Cmp::Greater;
        }
        i = i + 1;
    }
    proof {
        lemma_lex_cmp_common_prefix(a@, b@, i as int);
    }
    if alen == blen {
        Cmp::Equal
    } else if alen < blen {
        Cmp::Less
    } else {
        Cmp::Greater
    }
}

} // verus!
