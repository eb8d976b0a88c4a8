//! Conway's Game of Life rules and the mathematical model of one
//! generation step over a set of alive coordinates.

use vstd::prelude::*;

verus! {

/// Survival rule of B3/S23: a live cell keeps living with 2 or 3 neighbors.
pub open spec fn spec_survives(n: int) -> bool {
    n == 2 || n == 3
}

/// Birth rule of B3/S23: a dead cell comes alive with exactly 3 neighbors.
pub open spec fn spec_born(n: int) -> bool {
    n == 3
}

/// Determines if a cell should survive based on Conway's rules.
///
/// Live cells with 2 or 3 neighbors survive; all other live cells die.
pub fn should_cell_survive(neighbor_count: usize) -> (r: bool)
    ensures
        r == spec_survives(neighbor_count as int),
{
    neighbor_count == 2 || neighbor_count == 3
}

/// Determines if a cell should be born based on Conway's rules.
///
/// Dead cells with exactly 3 neighbors become alive.
pub fn should_cell_be_born(neighbor_count: usize) -> (r: bool)
    ensures
        r == spec_born(neighbor_count as int),
{
    neighbor_count == 3
}

/// 1 when the set holds the cell at the given offset from `p`, else 0.
pub open spec fn nbr_ind(s: Set<(int, int)>, p: (int, int), dx: int, dy: int) -> int {
    if s.contains((p.0 + dx, p.1 + dy)) {
        1int
    } else {
        0int
    }
}

/// Number of alive cells in the Moore neighborhood of `p`: the eight
/// cells horizontally, vertically and diagonally adjacent to it.
pub open spec fn nbr_count(s: Set<(int, int)>, p: (int, int)) -> int {
    nbr_ind(s, p, -1, -1) + nbr_ind(s, p, 0, -1) + nbr_ind(s, p, 1, -1) + nbr_ind(s, p, -1, 0)
        + nbr_ind(s, p, 1, 0) + nbr_ind(s, p, -1, 1) + nbr_ind(s, p, 0, 1) + nbr_ind(s, p, 1, 1)
}

/// Whether `a` lies in the Moore neighborhood of `b` (and is not `b` itself).
pub open spec fn adjacent(a: (int, int), b: (int, int)) -> bool {
    a != b && -1 <= a.0 - b.0 <= 1 && -1 <= a.1 - b.1 <= 1
}

/// The alive cells that die in one generation: those with a neighbor
/// count outside {2, 3}.
pub open spec fn kills_of(s: Set<(int, int)>) -> Set<(int, int)> {
    Set::new(|p: (int, int)| s.contains(p) && !spec_survives(nbr_count(s, p)))
}

/// The dead cells that come alive in one generation: those with a
/// neighbor count of exactly 3.
pub open spec fn births_of(s: Set<(int, int)>) -> Set<(int, int)> {
    Set::new(|p: (int, int)| !s.contains(p) && spec_born(nbr_count(s, p)))
}

/// The alive set after one generation of B3/S23.
pub open spec fn next_generation(s: Set<(int, int)>) -> Set<(int, int)> {
    Set::new(
        |p: (int, int)|
            if s.contains(p) {
                spec_survives(nbr_count(s, p))
            } else {
                spec_born(nbr_count(s, p))
            },
    )
}

/// The alive set after `n` generations.
pub open spec fn nth_generation(s: Set<(int, int)>, n: nat) -> Set<(int, int)>
    decreases n,
{
    if n == 0 {
        s
    } else {
        next_generation(nth_generation(s, (n - 1) as nat))
    }
}

/// One generation equals removing the kill set and adding the birth set.
pub proof fn lemma_next_generation_split(s: Set<(int, int)>)
    ensures
        next_generation(s) =~= s.difference(kills_of(s)).union(births_of(s)),
{
}

/// The kill set and the birth set of one generation are always
/// disjoint: an alive cell with 3 neighbors is classified as
/// surviving, never as reborn.
pub proof fn lemma_kills_births_disjoint(s: Set<(int, int)>)
    ensures
        kills_of(s).intersect(births_of(s)) =~= Set::<(int, int)>::empty(),
{
}

/// Adding one alive cell raises the neighbor count of exactly the
/// cells adjacent to it, each by one.
pub proof fn lemma_count_after_insert(s: Set<(int, int)>, a: (int, int), p: (int, int))
    requires
        !s.contains(a),
    ensures
        nbr_count(s.insert(a), p) == nbr_count(s, p) + (if adjacent(a, p) {
            1int
        } else {
            0int
        }),
{
}

/// A cell with a positive neighbor count has at least one alive
/// cell adjacent to it.
pub proof fn lemma_positive_count_has_neighbor(s: Set<(int, int)>, p: (int, int))
    requires
        nbr_count(s, p) > 0,
    ensures
        exists|a: (int, int)| s.contains(a) && adjacent(a, p),
{
    if s.contains((p.0 - 1, p.1 - 1)) {
        assert(adjacent((p.0 - 1, p.1 - 1), p));
    } else if s.contains((p.0, p.1 - 1)) {
        assert(adjacent((p.0, p.1 - 1), p));
    } else if s.contains((p.0 + 1, p.1 - 1)) {
        assert(adjacent((p.0 + 1, p.1 - 1), p));
    } else if s.contains((p.0 - 1, p.1)) {
        assert(adjacent((p.0 - 1, p.1), p));
    } else if s.contains((p.0 + 1, p.1)) {
        assert(adjacent((p.0 + 1, p.1), p));
    } else if s.contains((p.0 - 1, p.1 + 1)) {
        assert(adjacent((p.0 - 1, p.1 + 1), p));
    } else if s.contains((p.0, p.1 + 1)) {
        assert(adjacent((p.0, p.1 + 1), p));
    } else {
        assert(s.contains((p.0 + 1, p.1 + 1)));
        assert(adjacent((p.0 + 1, p.1 + 1), p));
    }
}

/// The stable two-by-two block pattern.
pub open spec fn block_pattern() -> Set<(int, int)> {
    set![(0int, 0int), (1int, 0int), (0int, 1int), (1int, 1int)]
}

/// One generation leaves the block pattern unchanged.
pub proof fn lemma_block_step()
    ensures
        next_generation(block_pattern()) =~= block_pattern(),
{
    let b = block_pattern();
    assert forall|p: (int, int)|
        next_generation(b).contains(p) == b.contains(p) by {
        if b.contains(p) {
            assert(nbr_count(b, p) == 3);
        } else {
            assert(nbr_count(b, p) != 3);
        }
    };
}

/// The block pattern is a fixed point: it is unchanged after any
/// number of generations.
pub proof fn lemma_block_stable(n: nat)
    ensures
        nth_generation(block_pattern(), n) =~= block_pattern(),
    decreases n,
{
    if n > 0 {
        lemma_block_stable((n - 1) as nat);
        assert(nth_generation(block_pattern(), (n - 1) as nat) == block_pattern());
        lemma_block_step();
    }
}

} // verus!
