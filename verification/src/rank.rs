//! The ranking comparator: the total order that sorts the visible entry
//! list.  The key compares, most significant first: score descending, usage
//! count descending, last-used time descending, then the collation key
//! ascending.  `Less` means "ranks before", i.e. appears higher in the list.

use vstd::prelude::*;

use crate::locale::{lemma_lex_cmp_equal, lemma_lex_cmp_flip, lemma_lex_cmp_trans, lex_cmp_spec};

verus! {

use core::cmp::Ordering;

/// The mathematical ranking key of an entry.
pub struct RankKey {
    pub score: int,
    pub usage_count: int,
    pub last_used: int,
    pub collate: Seq<u8>,
}

/// The comparator over ranking keys.
pub open spec fn rank_cmp_spec(x: RankKey, y: RankKey) -> Ordering {
    if x.score > y.score {
        Ordering::Less
    } else if x.score < y.score {
        Ordering::Greater
    } else if x.usage_count > y.usage_count {
        Ordering::Less
    } else if x.usage_count < y.usage_count {
        Ordering::Greater
    } else if x.last_used > y.last_used {
        Ordering::Less
    } else if x.last_used < y.last_used {
        Ordering::Greater
    } else {
        lex_cmp_spec(x.collate, y.collate)
    }
}

/// "Ranks no later than": the reflexive order backing the sort.
pub open spec fn rank_le(x: RankKey, y: RankKey) -> bool {
    rank_cmp_spec(x, y) != Ordering::Greater
}

/// The comparator answers `Equal` on a pair exactly when the two keys agree
/// in every component; in particular it is irreflexive as a strict order.
pub proof fn lemma_rank_cmp_equal(x: RankKey, y: RankKey)
    ensures
        (rank_cmp_spec(x, y) == Ordering::Equal) <==> (x.score == y.score && x.usage_count
            == y.usage_count && x.last_used == y.last_used && x.collate == y.collate),
{
    lemma_lex_cmp_equal(x.collate, y.collate);
}

/// Swapping the arguments reverses the answer, so "A before B" and "B before
/// A" never hold together.
pub proof fn lemma_rank_cmp_flip(x: RankKey, y: RankKey)
    ensures
        rank_cmp_spec(y, x) == (match rank_cmp_spec(x, y) {
            Ordering::Less => Ordering::Greater,
            Ordering::Equal => Ordering::Equal,
            Ordering::Greater => Ordering::Less,
        }),
{
    lemma_lex_cmp_flip(x.collate, y.collate);
}

/// The order is total: of any two keys, one ranks no later than the other.
pub proof fn lemma_rank_total(x: RankKey, y: RankKey)
    ensures
        rank_le(x, y) || rank_le(y, x),
{
    lemma_rank_cmp_flip(x, y);
}

/// The order is transitive, and strictly so when either step is strict:
/// if A ranks before B and B ranks before C then A ranks before C.
pub proof fn lemma_rank_trans(x: RankKey, y: RankKey, z: RankKey)
    requires
        rank_le(x, y),
        rank_le(y, z),
    ensures
        rank_le(x, z),
        (rank_cmp_spec(x, y) == Ordering::Less || rank_cmp_spec(y, z) == Ordering::Less)
            ==> rank_cmp_spec(x, z) == Ordering::Less,
{
    if x.score == y.score && y.score == z.score && x.usage_count == y.usage_count && y.usage_count
        == z.usage_count && x.last_used == y.last_used && y.last_used == z.last_used {
        lemma_lex_cmp_trans(x.collate, y.collate, z.collate);
    }
}

} // verus!
