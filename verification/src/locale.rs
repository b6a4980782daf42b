//! Deterministic string comparison for the ranking tie-break.
//!
//! Entries carry a collation key; comparing keys byte-wise gives a total,
//! deterministic order.  A platform front-end may fill the key with a
//! locale-transformed form of the display text; when none is available the
//! key is the display text itself and the order degrades to plain byte order.

use vstd::prelude::*;

verus! {

use core::cmp::Ordering;

/// Lexicographic byte order: the first differing byte decides; a proper
/// prefix orders before the longer string.
pub open spec fn lex_cmp_spec(a: Seq<u8>, b: Seq<u8>) -> Ordering
    decreases a.len(),
{
    if a.len() == 0 && b.len() == 0 {
        Ordering::Equal
    } else if a.len() == 0 {
        Ordering::Less
    } else if b.len() == 0 {
        Ordering::Greater
    } else if a[0] < b[0] {
        Ordering::Less
    } else if a[0] > b[0] {
        Ordering::Greater
    } else {
        lex_cmp_spec(a.skip(1), b.skip(1))
    }
}

/// Compare two byte strings in lexicographic order.
pub fn string_collate(a: &[u8], b: &[u8]) -> (r: Ordering)
    ensures
        r == lex_cmp_spec(a@, b@),
{
    let mut i: usize = 0;
    assert(a@.skip(0) =~= a@);
    assert(b@.skip(0) =~= b@);
    while i < a.len() && i < b.len()
        invariant
            i <= a@.len(),
            i <= b@.len(),
            lex_cmp_spec(a@, b@) == lex_cmp_spec(a@.skip(i as int), b@.skip(i as int)),
        decreases a@.len() - i,
    {
        let ab = a[i];
        let bb = b[i];
        assert(a@.skip(i as int)[0] == a@[i as int]);
        assert(b@.skip(i as int)[0] == b@[i as int]);
        if ab < bb {
            return Ordering::Less;
        }
        if ab > bb {
            return Ordering::Greater;
        }
        assert(a@.skip(i as int).skip(1) =~= a@.skip(i + 1));
        assert(b@.skip(i as int).skip(1) =~= b@.skip(i + 1));
        i = i + 1;
    }
    if a.len() == b.len() {
        Ordering::Equal
    } else if a.len() < b.len() {
        Ordering::Less
    } else {
        Ordering::Greater
    }
}

/// Byte order reports `Equal` exactly for equal strings, so the tie-break is
/// consistent: it never disagrees with itself across calls.
pub proof fn lemma_lex_cmp_equal(a: Seq<u8>, b: Seq<u8>)
    ensures
        (lex_cmp_spec(a, b) == Ordering::Equal) <==> a == b,
    decreases a.len(),
{
    if a.len() == 0 && b.len() == 0 {
        assert(a =~= b);
    } else if a.len() == 0 || b.len() == 0 {
        assert(a != b);
    } else if a[0] == b[0] {
        lemma_lex_cmp_equal(a.skip(1), b.skip(1));
        if lex_cmp_spec(a, b) == Ordering::Equal {
            assert(a.skip(1) == b.skip(1));
            assert forall|i: int| 0 <= i < a.len() implies a[i] == b[i] by {
                if i > 0 {
                    assert(a.skip(1)[i - 1] == a[i]);
                    assert(b.skip(1)[i - 1] == b[i]);
                }
            }
            assert(a =~= b);
        }
        if a == b {
            assert(a.skip(1) =~= b.skip(1));
        }
    } else {
        assert(a != b);
    }
}

/// Swapping the arguments reverses the answer.
pub proof fn lemma_lex_cmp_flip(a: Seq<u8>, b: Seq<u8>)
    ensures
        lex_cmp_spec(b, a) == (match lex_cmp_spec(a, b) {
            Ordering::Less => Ordering::Greater,
            Ordering::Equal => Ordering::Equal,
            Ordering::Greater => Ordering::Less,
        }),
    decreases a.len(),
{
    if a.len() > 0 && b.len() > 0 && a[0] == b[0] {
        lemma_lex_cmp_flip(a.skip(1), b.skip(1));
    }
}

/// Byte order is transitive, and strictly so when either step is strict.
pub proof fn lemma_lex_cmp_trans(a: Seq<u8>, b: Seq<u8>, c: Seq<u8>)
    requires
        lex_cmp_spec(a, b) != Ordering::Greater,
        lex_cmp_spec(b, c) != Ordering::Greater,
    ensures
        lex_cmp_spec(a, c) != Ordering::Greater,
        (lex_cmp_spec(a, b) == Ordering::Less || lex_cmp_spec(b, c) == Ordering::Less)
            ==> lex_cmp_spec(a, c) == Ordering::Less,
    decreases a.len(),
{
    if a.len() == 0 {
        if c.len() == 0 {
            assert(b.len() == 0);
        }
    } else {
        assert(b.len() > 0);
        assert(c.len() > 0);
        if a[0] == b[0] && b[0] == c[0] {
            lemma_lex_cmp_trans(a.skip(1), b.skip(1), c.skip(1));
        }
    }
}

} // verus!
