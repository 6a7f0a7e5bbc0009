//! Counting tiles of a sequence that satisfy a predicate, with the lemmas
//! the board operations need: how a count changes under one update, how it
//! grows pointwise, and why a count of tiles with distinct coordinates is
//! bounded by the number of coordinates available to them.

use vstd::prelude::*;

use crate::game::Coord;
use crate::game::Tile;

verus! {

/// Number of tiles of `s` that satisfy `p`.
pub open spec fn count_matching(s: Seq<Tile>, p: spec_fn(Tile) -> bool) -> int
    decreases s.len(),
{
    if s.len() == 0 {
        0
    } else {
        count_matching(s.drop_last(), p) + if p(s.last()) {
            1int
        } else {
            0int
        }
    }
}

pub proof fn lemma_count_bounds(s: Seq<Tile>, p: spec_fn(Tile) -> bool)
    ensures
        0 <= count_matching(s, p) <= s.len(),
    decreases s.len(),
{
    if s.len() > 0 {
        lemma_count_bounds(s.drop_last(), p);
    }
}

/// Updating one tile changes a count by the difference of the two
/// indicator values at that position.
pub proof fn lemma_count_update(s: Seq<Tile>, p: spec_fn(Tile) -> bool, i: int, t: Tile)
    requires
        0 <= i < s.len(),
    ensures
        count_matching(s.update(i, t), p) == count_matching(s, p) - (if p(s[i]) {
            1int
        } else {
            0int
        }) + (if p(t) {
            1int
        } else {
            0int
        }),
    decreases s.len(),
{
    if i == s.len() - 1 {
        assert(s.update(i, t).drop_last() =~= s.drop_last());
        assert(s.update(i, t).last() == t);
    } else {
        assert(s.update(i, t).drop_last() =~= s.drop_last().update(i, t));
        lemma_count_update(s.drop_last(), p, i, t);
    }
}

/// If every tile counted in `s1` has its counterpart counted in `s2`,
/// the count can only grow.
pub proof fn lemma_count_le_pointwise(
    s1: Seq<Tile>,
    s2: Seq<Tile>,
    p1: spec_fn(Tile) -> bool,
    p2: spec_fn(Tile) -> bool,
)
    requires
        s1.len() == s2.len(),
        forall|i: int| 0 <= i < s1.len() && p1(#[trigger] s1[i]) ==> p2(s2[i]),
    ensures
        count_matching(s1, p1) <= count_matching(s2, p2),
    decreases s1.len(),
{
    if s1.len() > 0 {
        lemma_count_le_pointwise(s1.drop_last(), s2.drop_last(), p1, p2);
    }
}

/// Two sequences whose tiles agree on `p` position by position have the
/// same count.
pub proof fn lemma_count_eq_pointwise(
    s1: Seq<Tile>,
    s2: Seq<Tile>,
    p: spec_fn(Tile) -> bool,
)
    requires
        s1.len() == s2.len(),
        forall|i: int| 0 <= i < s1.len() ==> (p(#[trigger] s1[i]) <==> p(#[trigger] s2[i])),
    ensures
        count_matching(s1, p) == count_matching(s2, p),
    decreases s1.len(),
{
    if s1.len() > 0 {
        lemma_count_eq_pointwise(s1.drop_last(), s2.drop_last(), p);
    }
}

/// One step of a prefix scan: the count of the first `i + 1` tiles is the
/// count of the first `i` plus the indicator of tile `i`.
pub proof fn lemma_count_take_step(s: Seq<Tile>, p: spec_fn(Tile) -> bool, i: int)
    requires
        0 <= i < s.len(),
    ensures
        count_matching(s.take(i + 1), p) == count_matching(s.take(i), p) + if p(s[i]) {
            1int
        } else {
            0int
        },
{
    assert(s.take(i + 1).drop_last() =~= s.take(i));
    assert(s.take(i + 1).last() == s[i]);
}

/// A full prefix is the sequence itself.
pub proof fn lemma_count_take_full(s: Seq<Tile>, p: spec_fn(Tile) -> bool)
    ensures
        count_matching(s.take(s.len() as int), p) == count_matching(s, p),
{
    assert(s.take(s.len() as int) =~= s);
}

/// A count of zero means no tile matches, and the other way round.
pub proof fn lemma_count_zero(s: Seq<Tile>, p: spec_fn(Tile) -> bool)
    ensures
        (count_matching(s, p) == 0) <==> (forall|i: int| 0 <= i < s.len() ==> !p(#[trigger] s[i])),
    decreases s.len(),
{
    if s.len() > 0 {
        lemma_count_zero(s.drop_last(), p);
        lemma_count_bounds(s.drop_last(), p);
        if count_matching(s, p) == 0 {
            assert forall|i: int| 0 <= i < s.len() implies !p(#[trigger] s[i]) by {
                if i < s.len() - 1 {
                    assert(s.drop_last()[i] == s[i]);
                } else {
                    assert(s[i] == s.last());
                }
            }
        }
        if forall|i: int| 0 <= i < s.len() ==> !p(#[trigger] s[i]) {
            assert forall|i: int|
                0 <= i < s.drop_last().len() implies !p(#[trigger] s.drop_last()[i]) by {
                assert(s.drop_last()[i] == s[i]);
            }
            assert(!p(s[s.len() - 1]));
            assert(count_matching(s, p) == 0);
        }
    }
}

/// A positive count yields a matching position.
pub proof fn lemma_count_pos_exists(s: Seq<Tile>, p: spec_fn(Tile) -> bool)
    requires
        count_matching(s, p) > 0,
    ensures
        exists|i: int| 0 <= i < s.len() && p(#[trigger] s[i]),
    decreases s.len(),
{
    if p(s.last()) {
        assert(p(s[s.len() - 1]));
    } else {
        lemma_count_pos_exists(s.drop_last(), p);
        let i = choose|i: int| 0 <= i < s.drop_last().len() && p(#[trigger] s.drop_last()[i]);
        assert(p(s[i]));
    }
}

/// Counting a predicate implied by `p` or `q` is bounded by the two
/// separate counts.
pub proof fn lemma_count_or_le(
    s: Seq<Tile>,
    p: spec_fn(Tile) -> bool,
    q: spec_fn(Tile) -> bool,
    r: spec_fn(Tile) -> bool,
)
    requires
        forall|t: Tile| #[trigger] r(t) ==> p(t) || q(t),
    ensures
        count_matching(s, r) <= count_matching(s, p) + count_matching(s, q),
    decreases s.len(),
{
    if s.len() > 0 {
        lemma_count_or_le(s.drop_last(), p, q, r);
    }
}

/// Complementary predicates split the whole sequence between them.
pub proof fn lemma_count_complement(s: Seq<Tile>, p: spec_fn(Tile) -> bool, q: spec_fn(Tile) -> bool)
    requires
        forall|t: Tile| #[trigger] q(t) <==> !p(t),
    ensures
        count_matching(s, p) + count_matching(s, q) == s.len(),
    decreases s.len(),
{
    if s.len() > 0 {
        lemma_count_complement(s.drop_last(), p, q);
    }
}

/// Tiles with pairwise distinct coordinates that are counted only when
/// their coordinate lies in `cs` number at most `cs.len()`.
pub proof fn lemma_count_le_card(s: Seq<Tile>, p: spec_fn(Tile) -> bool, cs: Set<Coord>)
    requires
        cs.finite(),
        forall|i: int, j: int| 0 <= i < j < s.len() ==> (#[trigger] s[i].coord) != (#[trigger] s[j].coord),
        forall|i: int| 0 <= i < s.len() && p(#[trigger] s[i]) ==> cs.contains(s[i].coord),
    ensures
        count_matching(s, p) <= cs.len(),
    decreases s.len(),
{
    if s.len() > 0 {
        let t = s.last();
        if p(t) {
            let cs2 = cs.remove(t.coord);
            assert(forall|i: int| 0 <= i < s.drop_last().len() && p(#[trigger] s.drop_last()[i])
                ==> cs2.contains(s.drop_last()[i].coord));
            lemma_count_le_card(s.drop_last(), p, cs2);
        } else {
            lemma_count_le_card(s.drop_last(), p, cs);
        }
    }
}

} // verus!
