//! The Life rule, stated over sets of live positions.
use crate::board::Position;
use vstd::prelude::*;

verus! {

/// How many entries of `nb` are live in `s`.
pub open spec fn count_in(s: Set<Position>, nb: Seq<Position>) -> nat
    decreases nb.len(),
{
    if nb.len() == 0 {
        0
    } else {
        count_in(s, nb.drop_last()) + if s.contains(nb.last()) {
            1nat
        } else {
            0nat
        }
    }
}

/// The number of live cells around `p` when `s` is the set of live cells.
pub open spec fn alive_neighbours(s: Set<Position>, p: Position) -> nat {
    count_in(s, p.neighbour_seq())
}

/// Whether a cell is alive in the next generation, given its state and its
/// number of live neighbours.
pub open spec fn next_state(alive: bool, n: nat) -> bool {
    if alive {
        n == 2 || n == 3
    } else {
        n == 3
    }
}

/// The live set one generation after `s`.
pub open spec fn next_generation(s: Set<Position>) -> Set<Position> {
    Set::new(|p: Position| p.valid() && next_state(s.contains(p), alive_neighbours(s, p)))
}

/// The fate of a single cell: a live cell survives with two or three live
/// neighbours; a dead cell is born with exactly three.
pub fn next_cell_state(alive: bool, n: usize) -> (r: bool)
    ensures
        r == next_state(alive, n as nat),
        alive && n < 2 ==> !r,
        alive && n > 3 ==> !r,
        alive && (n == 2 || n == 3) ==> r,
        !alive ==> (r <==> n == 3),
{
    match (alive, n) {
        (true, 2) | (true, 3) => true,
        (false, 3) => true,
        _ => false,
    }
}

/// A positive count has a live entry behind it.
pub proof fn lemma_count_witness(s: Set<Position>, nb: Seq<Position>)
    requires
        count_in(s, nb) > 0,
    ensures
        exists|i: int| 0 <= i < nb.len() && s.contains(#[trigger] nb[i]),
    decreases nb.len(),
{
    if !s.contains(nb.last()) {
        lemma_count_witness(s, nb.drop_last());
        let i = choose|i: int| 0 <= i < nb.drop_last().len() && s.contains(#[trigger] nb.drop_last()[i]);
        assert(nb[i] == nb.drop_last()[i]);
    } else {
        assert(s.contains(nb[nb.len() - 1]));
    }
}

} // verus!
