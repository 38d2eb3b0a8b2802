//! Laws of region expansion and of the lower bound that the search prunes with.
use vstd::prelude::*;
use vstd::set_lib::*;

use crate::board::{BoardModel, Colour};
use crate::flood::{closed, expansion, touches};
use crate::search::play;

verus! {

/// The expansion holds the mask, is closed, and lies inside every closed
/// set that holds the mask.
pub proof fn lemma_expansion_basics(b: BoardModel, m: Set<int>, c: int)
    ensures
        m.subset_of(expansion(b, m, c)),
        closed(b, expansion(b, m, c), c),
        forall|s: Set<int>| #[trigger] closed(b, s, c) && m.subset_of(s) ==> expansion(b, m, c).subset_of(s),
{
    let e = expansion(b, m, c);
    assert forall|p: int, q: int| e.contains(p) && #[trigger] b.adjacent(p, q) && b.cells[q] == c implies e.contains(q) by {
        assert forall|s: Set<int>| #[trigger] closed(b, s, c) && m.subset_of(s) implies s.contains(q) by {
            assert(s.contains(p));
        }
    }
}

/// A cell that flooding with `c` adds to `m` has colour `c`.
pub proof fn lemma_expansion_new_cells(b: BoardModel, m: Set<int>, c: int, q: int)
    requires
        expansion(b, m, c).contains(q),
        !m.contains(q),
    ensures
        b.cells[q] == c,
{
    let s = m.union(Set::new(|p: int| b.cells[p] == c));
    assert(closed(b, s, c));
    lemma_expansion_basics(b, m, c);
    assert(s.contains(q));
}

/// Flooding with a colour that no uncovered neighbour of the mask holds
/// leaves the mask as it is.
pub proof fn lemma_nonproductive_expansion(b: BoardModel, m: Set<int>, c: int)
    requires
        forall|q: int| touches(b, m, q) && !m.contains(q) ==> b.cells[q] != c,
    ensures
        expansion(b, m, c) == m,
{
    lemma_expansion_basics(b, m, c);
    assert(closed(b, m, c)) by {
        assert forall|p: int, q: int| m.contains(p) && #[trigger] b.adjacent(p, q) && b.cells[q] == c implies m.contains(q) by {
            assert(touches(b, m, q));
        }
    }
    assert(expansion(b, m, c) =~= m);
}

/// Flooding twice with the same colour covers nothing beyond the first flood.
pub proof fn lemma_expansion_idempotent(b: BoardModel, m: Set<int>, c: int)
    ensures
        expansion(b, expansion(b, m, c), c) == expansion(b, m, c),
{
    let e = expansion(b, m, c);
    lemma_expansion_basics(b, m, c);
    lemma_expansion_basics(b, e, c);
    assert(expansion(b, e, c) =~= e);
}

/// Along any sequence of moves the covered cells only grow: after the first
/// `i` moves they are among those covered after the first `j`, for `i <= j`.
pub proof fn lemma_coverage_monotone(b: BoardModel, m: Set<int>, moves: Seq<Colour>, i: int, j: int)
    requires
        0 <= i <= j <= moves.len(),
    ensures
        play(b, m, moves.take(i)).subset_of(play(b, m, moves.take(j))),
    decreases j - i,
{
    if i < j {
        lemma_coverage_monotone(b, m, moves, i, j - 1);
        let prev = play(b, m, moves.take(j - 1));
        assert(moves.take(j).drop_last() =~= moves.take(j - 1));
        lemma_expansion_basics(b, prev, moves[j - 1] as int);
    }
}

/// Every cell covered after `moves` was covered at the start or holds one of
/// the colours played.
pub proof fn lemma_played_colours(b: BoardModel, m: Set<int>, moves: Seq<Colour>, q: int)
    requires
        play(b, m, moves).contains(q),
        !m.contains(q),
    ensures
        exists|i: int| 0 <= i < moves.len() && b.cells[q] == moves[i],
    decreases moves.len(),
{
    let prev = play(b, m, moves.drop_last());
    if prev.contains(q) {
        lemma_played_colours(b, m, moves.drop_last(), q);
        let i = choose|i: int| 0 <= i < moves.drop_last().len() && b.cells[q] == moves.drop_last()[i];
        assert(moves[i] == moves.drop_last()[i]);
    } else {
        lemma_expansion_new_cells(b, prev, moves.last() as int, q);
        assert(b.cells[q] == moves[moves.len() - 1]);
    }
}

/// The lower bound is admissible: any move list that covers the whole board
/// from the mask `m` has at least as many moves as the cells outside `m`
/// have distinct colours.
pub proof fn lemma_bound_admissible(b: BoardModel, m: Set<int>, moves: Seq<Colour>)
    requires
        b.wf(),
        play(b, m, moves) == b.all_cells(),
    ensures
        b.remaining_colours(m) <= moves.len(),
{
    let played = moves.map_values(|c: Colour| c as int);
    assert forall|k: int| #[trigger] b.colours_left(m).contains(k) implies played.to_set().contains(k) by {
        let p = choose|p: int| 0 <= p < b.len() && !m.contains(p) && b.cells[p] == k;
        assert(b.all_cells().contains(p));
        lemma_played_colours(b, m, moves, p);
        let i = choose|i: int| 0 <= i < moves.len() && b.cells[p] == moves[i];
        assert(played[i] == k);
    }
    played.lemma_cardinality_of_set();
    lemma_len_subset(b.colours_left(m), played.to_set());
}

} // verus!
