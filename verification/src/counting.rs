use vstd::prelude::*;
use crate::tile::Tile;

verus! {

/// Tile predicates, shared by the counting specifications. Returning the
/// closure from a named function keeps every use the same term, so counts
/// taken in different places agree.
pub open spec fn is_mined() -> spec_fn(Tile) -> bool {
    |t: Tile| t.has_mine
}

pub open spec fn is_unmined() -> spec_fn(Tile) -> bool {
    |t: Tile| !t.has_mine
}

pub open spec fn is_flagged() -> spec_fn(Tile) -> bool {
    |t: Tile| t.has_flag
}

pub open spec fn is_revealed() -> spec_fn(Tile) -> bool {
    |t: Tile| t.revealed
}

pub open spec fn is_unrevealed() -> spec_fn(Tile) -> bool {
    |t: Tile| !t.revealed
}

/// A remaining tile: neither revealed nor flagged.
pub open spec fn is_hidden() -> spec_fn(Tile) -> bool {
    |t: Tile| !t.revealed && !t.has_flag
}

/// How many tiles of `s` satisfy `p`.
pub open spec fn count_if(s: Seq<Tile>, p: spec_fn(Tile) -> bool) -> nat
    decreases s.len(),
{
    if s.len() == 0 {
        0
    } else {
        count_if(s.drop_last(), p) + (if p(s.last()) {
            1nat
        } else {
            0nat
        })
    }
}

pub proof fn lemma_count_le_len(s: Seq<Tile>, p: spec_fn(Tile) -> bool)
    ensures
        count_if(s, p) <= s.len(),
    decreases s.len(),
{
    if s.len() > 0 {
        lemma_count_le_len(s.drop_last(), p);
    }
}

/// Extending a prefix by one element adds that element's contribution.
pub proof fn lemma_count_take_step(s: Seq<Tile>, p: spec_fn(Tile) -> bool, i: int)
    requires
        0 <= i < s.len(),
    ensures
        count_if(s.take(i + 1), p) == count_if(s.take(i), p) + (if p(s[i]) {
            1nat
        } else {
            0nat
        }),
{
    assert(s.take(i + 1).drop_last() =~= s.take(i));
    assert(s.take(i + 1).last() == s[i]);
}

pub proof fn lemma_count_whole(s: Seq<Tile>, p: spec_fn(Tile) -> bool)
    ensures
        count_if(s.take(s.len() as int), p) == count_if(s, p),
{
    assert(s.take(s.len() as int) =~= s);
}

/// Replacing one element adjusts the count by the difference of the two
/// elements' contributions.
pub proof fn lemma_count_update(s: Seq<Tile>, p: spec_fn(Tile) -> bool, i: int, t: Tile)
    requires
        0 <= i < s.len(),
    ensures
        count_if(s.update(i, t), p) + (if p(s[i]) {
            1nat
        } else {
            0nat
        }) == count_if(s, p) + (if p(t) {
            1nat
        } else {
            0nat
        }),
    decreases s.len(),
{
    let su = s.update(i, t);
    if i == s.len() - 1 {
        assert(su.drop_last() =~= s.drop_last());
        assert(su.last() == t);
    } else {
        assert(su.drop_last() =~= s.drop_last().update(i, t));
        assert(su.last() == s.last());
        lemma_count_update(s.drop_last(), p, i, t);
        assert(s.drop_last()[i] == s[i]);
    }
}

/// If no element satisfies `p`, the count is zero, and conversely.
pub proof fn lemma_count_zero(s: Seq<Tile>, p: spec_fn(Tile) -> bool)
    ensures
        count_if(s, p) == 0 <==> (forall|i: int| 0 <= i < s.len() ==> !p(#[trigger] s[i])),
    decreases s.len(),
{
    if s.len() > 0 {
        lemma_count_zero(s.drop_last(), p);
        assert(s.last() == s[s.len() - 1]);
        assert forall|i: int| 0 <= i < s.len() - 1 implies s.drop_last()[i] == s[i] by {}
        if count_if(s, p) == 0 {
            assert forall|i: int| 0 <= i < s.len() implies !p(s[i]) by {
                if i < s.len() - 1 {
                    assert(s[i] == s.drop_last()[i]);
                }
            }
        }
    }
}

/// Predicates that are pointwise complementary split the length.
pub proof fn lemma_count_complement(s: Seq<Tile>, p: spec_fn(Tile) -> bool, q: spec_fn(Tile) -> bool)
    requires
        forall|t: Tile| #[trigger] q(t) == !p(t),
    ensures
        count_if(s, p) + count_if(s, q) == s.len(),
    decreases s.len(),
{
    if s.len() > 0 {
        lemma_count_complement(s.drop_last(), p, q);
    }
}

/// An element that satisfies `p` makes the count positive.
pub proof fn lemma_count_pos(s: Seq<Tile>, p: spec_fn(Tile) -> bool, i: int)
    requires
        0 <= i < s.len(),
        p(s[i]),
    ensures
        count_if(s, p) >= 1,
    decreases s.len(),
{
    if i < s.len() - 1 {
        assert(s.drop_last()[i] == s[i]);
        lemma_count_pos(s.drop_last(), p, i);
    }
}

/// Tiles with a valid flag state fall in exactly one of three classes:
/// remaining (hidden), flagged, or revealed. Their counts partition the board.
pub proof fn lemma_tile_partition(s: Seq<Tile>)
    requires
        forall|i: int| 0 <= i < s.len() ==> (#[trigger] s[i]).ok(),
    ensures
        count_if(s, is_hidden()) + count_if(s, is_flagged()) + count_if(s, is_revealed())
            == s.len(),
    decreases s.len(),
{
    if s.len() > 0 {
        assert forall|i: int| 0 <= i < s.len() - 1 implies (#[trigger] s.drop_last()[i]).ok() by {
            assert(s.drop_last()[i] == s[i]);
        }
        lemma_tile_partition(s.drop_last());
        assert(s.last() == s[s.len() - 1]);
    }
}

} // verus!
