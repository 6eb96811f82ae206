//! The mathematical model of the evolution rule.
//!
//! A cell is a pair of unbounded integers `(row, column)`; a generation is the
//! set of live cells. The B3/S23 rule is stated here as spec functions, and
//! the executable engine in `board` is proved against them.

use vstd::prelude::*;

verus! {

/// The coordinates representable by the executable engine, which stores each
/// component as an `i32`. A birth whose coordinates fall outside this range is
/// discarded (treated as permanently dead), the same clipping policy a finite
/// grid applies at its edges.
pub open spec fn in_coord_range(p: (int, int)) -> bool {
    i32::MIN <= p.0 <= i32::MAX && i32::MIN <= p.1 <= i32::MAX
}

/// 1 if `(r, c)` is live in `s`, else 0.
pub open spec fn live_ind(s: Set<(int, int)>, r: int, c: int) -> int {
    if s.contains((r, c)) {
        1
    } else {
        0
    }
}

/// The number of live cells among the 8 Moore neighbors of `p` in `s`.
pub open spec fn neighbor_count(s: Set<(int, int)>, p: (int, int)) -> int {
    live_ind(s, p.0 - 1, p.1 - 1) + live_ind(s, p.0 - 1, p.1) + live_ind(s, p.0 - 1, p.1 + 1)
        + live_ind(s, p.0, p.1 - 1) + live_ind(s, p.0, p.1 + 1) + live_ind(s, p.0 + 1, p.1 - 1)
        + live_ind(s, p.0 + 1, p.1) + live_ind(s, p.0 + 1, p.1 + 1)
}

/// The B3/S23 transition rule: `p` is live in the next generation iff it has
/// exactly 3 live neighbors, or exactly 2 and is itself live now.
pub open spec fn step_alive(s: Set<(int, int)>, p: (int, int)) -> bool {
    neighbor_count(s, p) == 3 || (neighbor_count(s, p) == 2 && s.contains(p))
}

/// The next generation: exactly the representable cells the rule keeps alive.
pub open spec fn next_gen(s: Set<(int, int)>) -> Set<(int, int)> {
    Set::new(|p: (int, int)| in_coord_range(p) && step_alive(s, p))
}

/// `n` generations after `s`.
pub open spec fn next_gen_n(s: Set<(int, int)>, n: nat) -> Set<(int, int)>
    decreases n,
{
    if n == 0 {
        s
    } else {
        next_gen(next_gen_n(s, (n - 1) as nat))
    }
}

/// The rule, cell by cell: with fewer than 2 live neighbors a cell is dead
/// next generation; with exactly 2 it keeps its current state; with exactly 3
/// it is live regardless of its current state; with more than 3 it is dead.
pub proof fn lemma_rule_correctness(s: Set<(int, int)>, p: (int, int))
    ensures
        neighbor_count(s, p) < 2 ==> !step_alive(s, p),
        neighbor_count(s, p) == 2 ==> (step_alive(s, p) <==> s.contains(p)),
        neighbor_count(s, p) == 3 ==> step_alive(s, p),
        neighbor_count(s, p) > 3 ==> !step_alive(s, p),
{
}

/// A cell with a positive neighbor count has a live neighbor: every cell the
/// rule keeps or makes alive lies within one step of the current generation.
pub proof fn lemma_live_neighbor_exists(s: Set<(int, int)>, p: (int, int))
    requires
        neighbor_count(s, p) >= 1,
    ensures
        exists|dr: int, dc: int|
            #![trigger s.contains((p.0 + dr, p.1 + dc))]
            -1 <= dr <= 1 && -1 <= dc <= 1 && !(dr == 0 && dc == 0) && s.contains(
                (p.0 + dr, p.1 + dc),
            ),
{
    if s.contains((p.0 - 1, p.1 - 1)) {
        assert(s.contains((p.0 + (-1), p.1 + (-1))));
    } else if s.contains((p.0 - 1, p.1)) {
        assert(s.contains((p.0 + (-1), p.1 + 0)));
    } else if s.contains((p.0 - 1, p.1 + 1)) {
        assert(s.contains((p.0 + (-1), p.1 + 1)));
    } else if s.contains((p.0, p.1 - 1)) {
        assert(s.contains((p.0 + 0, p.1 + (-1))));
    } else if s.contains((p.0, p.1 + 1)) {
        assert(s.contains((p.0 + 0, p.1 + 1)));
    } else if s.contains((p.0 + 1, p.1 - 1)) {
        assert(s.contains((p.0 + 1, p.1 + (-1))));
    } else if s.contains((p.0 + 1, p.1)) {
        assert(s.contains((p.0 + 1, p.1 + 0)));
    } else if s.contains((p.0 + 1, p.1 + 1)) {
        assert(s.contains((p.0 + 1, p.1 + 1)));
    } else {
        assert(neighbor_count(s, p) == 0);
    }
}

/// An empty generation stays empty forever: its population is 0 after any
/// number of steps.
pub proof fn lemma_empty_stasis(n: nat)
    ensures
        next_gen_n(Set::<(int, int)>::empty(), n) == Set::<(int, int)>::empty(),
        next_gen_n(Set::<(int, int)>::empty(), n).len() == 0,
    decreases n,
{
    let e = Set::<(int, int)>::empty();
    if n == 0 {
        assert(e.len() == 0);
    } else {
        lemma_empty_stasis((n - 1) as nat);
        assert(next_gen(e) =~= e);
    }
}

} // verus!
