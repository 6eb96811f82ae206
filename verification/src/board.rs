//! The executable engine: a board holding the sparse set of live cells and a
//! generation counter, evolved in place by `update`.

use vstd::prelude::*;

use crate::life::in_coord_range;
use crate::life::next_gen;
use crate::life::step_alive;

verus! {

/// A position on the (conceptually unbounded) grid. Equality is structural:
/// two coordinates name the same cell iff both components match.
#[derive(Default, Debug, Clone, Copy, PartialEq, Eq, Hash, Structural)]
pub struct Coord {
    pub row: i32,
    pub column: i32,
}

/// The unbounded-integer cell a coordinate names.
pub open spec fn cell_of(c: Coord) -> (int, int) {
    (c.row as int, c.column as int)
}

/// The set of cells named by a sequence of coordinates.
pub open spec fn coords_set(s: Seq<Coord>) -> Set<(int, int)> {
    s.map_values(|c: Coord| cell_of(c)).to_set()
}

impl Coord {
    pub fn new(row: i32, column: i32) -> (r: Self)
        ensures
            r.row == row,
            r.column == column,
    {
        Self { row, column }
    }
}

/// Distinct coordinates name distinct cells.
pub proof fn lemma_cell_of_injective()
    ensures
        vstd::relations::injective(|c: Coord| cell_of(c)),
{
    assert forall|a: Coord, b: Coord| #[trigger] cell_of(a) == #[trigger] cell_of(b) implies a
        == b by {
        assert(a.row == b.row);
        assert(a.column == b.column);
    }
}

/// Every cell named by a coordinate sequence has both components in `i32`
/// range.
pub proof fn lemma_coords_set_in_range(s: Seq<Coord>)
    ensures
        forall|p: (int, int)| coords_set(s).contains(p) ==> in_coord_range(p),
{
    assert forall|p: (int, int)| coords_set(s).contains(p) implies in_coord_range(p) by {
        let m = s.map_values(|c: Coord| cell_of(c));
        assert(m.to_set().contains(p));
        let i = choose|i: int| 0 <= i < m.len() && m[i] == p;
        assert(p == cell_of(s[i]));
    }
}

/// A sequence of coordinates names a cell iff it holds a coordinate for it.
pub proof fn lemma_coords_set_contains(s: Seq<Coord>, c: Coord)
    ensures
        coords_set(s).contains(cell_of(c)) <==> s.contains(c),
{
    let m = s.map_values(|co: Coord| cell_of(co));
    if s.contains(c) {
        let i = choose|i: int| 0 <= i < s.len() && s[i] == c;
        assert(m[i] == cell_of(c));
        assert(m.contains(cell_of(c)));
    }
    if m.to_set().contains(cell_of(c)) {
        let i = choose|i: int| 0 <= i < m.len() && m[i] == cell_of(c);
        assert(cell_of(s[i]) == cell_of(c));
        assert(s[i].row == c.row && s[i].column == c.column);
        assert(s[i] == c);
    }
}

/// Every cell a coordinate sequence names comes from one of its coordinates.
pub proof fn lemma_coords_set_gives_coord(s: Seq<Coord>, p: (int, int))
    requires
        coords_set(s).contains(p),
    ensures
        exists|c: Coord| s.contains(c) && cell_of(c) == p,
{
    let m = s.map_values(|co: Coord| cell_of(co));
    let i = choose|i: int| 0 <= i < m.len() && m[i] == p;
    assert(s.contains(s[i]) && cell_of(s[i]) == p);
}

/// Appending a coordinate adds exactly its cell to the named set.
pub proof fn lemma_coords_set_push(s: Seq<Coord>, c: Coord)
    ensures
        coords_set(s.push(c)) == coords_set(s).insert(cell_of(c)),
{
    let f = |co: Coord| cell_of(co);
    assert(s.push(c).map_values(f) =~= s.map_values(f).push(cell_of(c)));
    s.map_values(f).lemma_push_to_set_commute(cell_of(c));
    assert(coords_set(s.push(c)) =~= coords_set(s).insert(cell_of(c)));
}

/// Relies on rand::random: one draw from the thread-local generator. Nothing
/// is assumed of the value drawn.
pub assume_specification<T>[ rand::random::<T> ]() -> (r: T) where
    rand::distributions::Standard: rand::distributions::Distribution<T>,
;

/// Numerator of the random-seeding probability over the full `u32` range:
/// about one cell in ten is seeded live.
pub const SEED_NUMERATOR: u32 = 429496729;

/// The cell of the seeding region that candidate index `i` names, row-major:
/// row `i / width`, column `i % width`.
pub open spec fn region_cell(i: int, width: int) -> (int, int) {
    (i / width, i % width)
}

/// The cells seeded by a sequence of draws, one draw per region cell in
/// row-major order: exactly those whose draw fell below `SEED_NUMERATOR`.
pub open spec fn drawn_cells(draws: Seq<u32>, width: int) -> Set<(int, int)>
    decreases draws.len(),
{
    if draws.len() == 0 {
        Set::empty()
    } else if draws.last() < SEED_NUMERATOR {
        drawn_cells(draws.drop_last(), width).insert(region_cell(draws.len() - 1, width))
    } else {
        drawn_cells(draws.drop_last(), width)
    }
}

/// A cell is seeded iff some candidate index names it and that index's draw
/// fell below the threshold.
pub proof fn lemma_drawn_cells_characterization(draws: Seq<u32>, width: int, p: (int, int))
    ensures
        drawn_cells(draws, width).contains(p) <==> exists|i: int|
            0 <= i < draws.len() && draws[i] < SEED_NUMERATOR && p == region_cell(i, width),
    decreases draws.len(),
{
    if draws.len() == 0 {
    } else {
        let prev = draws.drop_last();
        let n = draws.len() - 1;
        lemma_drawn_cells_characterization(prev, width, p);
        if drawn_cells(draws, width).contains(p) {
            if draws.last() < SEED_NUMERATOR && p == region_cell(n, width) {
                assert(draws[n] < SEED_NUMERATOR && p == region_cell(n, width));
            } else {
                assert(drawn_cells(prev, width).contains(p));
                let i0 = choose|i: int|
                    0 <= i < prev.len() && prev[i] < SEED_NUMERATOR && p == region_cell(i, width);
                assert(draws[i0] < SEED_NUMERATOR && p == region_cell(i0, width));
            }
        }
        if exists|i: int|
            0 <= i < draws.len() && draws[i] < SEED_NUMERATOR && p == region_cell(i, width) {
            let i0 = choose|i: int|
                0 <= i < draws.len() && draws[i] < SEED_NUMERATOR && p == region_cell(i, width);
            if i0 == n {
                assert(draws.last() == draws[n]);
            } else {
                assert(prev[i0] < SEED_NUMERATOR && p == region_cell(i0, width));
                assert(drawn_cells(prev, width).contains(p));
            }
            assert(drawn_cells(draws, width).contains(p));
        }
    }
}

/// Seeding a coordinate a second time changes nothing: the cells named by a
/// seed that repeats a coordinate are those named with the repetition
/// dropped, and a fresh coordinate grows the named set by exactly 1.
pub proof fn lemma_seed_idempotent(seed: Seq<Coord>, c: Coord)
    ensures
        coords_set(seed.push(c).push(c)) == coords_set(seed.push(c)),
        coords_set(seed.push(c)).contains(cell_of(c)),
        !seed.contains(c) ==> coords_set(seed.push(c)).len() == coords_set(seed).len() + 1,
        seed.contains(c) ==> coords_set(seed.push(c)) == coords_set(seed),
{
    broadcast use vstd::seq_lib::seq_to_set_is_finite;

    lemma_coords_set_push(seed, c);
    lemma_coords_set_push(seed.push(c), c);
    lemma_coords_set_contains(seed, c);
    assert(coords_set(seed.push(c)).insert(cell_of(c)) =~= coords_set(seed).insert(cell_of(c)));
    if seed.contains(c) {
        assert(coords_set(seed).insert(cell_of(c)) =~= coords_set(seed));
    }
}

/// Appending a coordinate that is not yet present keeps the store free of
/// duplicates.
proof fn lemma_push_keeps_no_duplicates(s: Seq<Coord>, c: Coord)
    requires
        s.no_duplicates(),
        !s.contains(c),
    ensures
        s.push(c).no_duplicates(),
{
    let t = s.push(c);
    assert forall|a: int, b: int| 0 <= a < b < t.len() implies t[a] != t[b] by {
        if b == s.len() {
            assert(t[a] == s[a]);
            if s[a] == c {
                assert(s.contains(s[a]));
            }
        }
    }
}

/// The scanned candidates `checked` cover `q` and all 8 of its neighbors, as
/// far as they are representable.
spec fn covered(q: (int, int), checked: Set<(int, int)>) -> bool {
    forall|dr: int, dc: int|
        #![trigger checked.contains((q.0 + dr, q.1 + dc))]
        -1 <= dr <= 1 && -1 <= dc <= 1 && in_coord_range((q.0 + dr, q.1 + dc))
            ==> checked.contains((q.0 + dr, q.1 + dc))
}

/// Coverage is preserved as the checked set grows.
proof fn lemma_covered_grows(q: (int, int), s1: Set<(int, int)>, s2: Set<(int, int)>)
    requires
        covered(q, s1),
        forall|p: (int, int)| s1.contains(p) ==> s2.contains(p),
    ensures
        covered(q, s2),
{
    assert forall|dr: int, dc: int|
        #![trigger s2.contains((q.0 + dr, q.1 + dc))]
        -1 <= dr <= 1 && -1 <= dc <= 1 && in_coord_range(
            (q.0 + dr, q.1 + dc),
        ) implies s2.contains((q.0 + dr, q.1 + dc)) by {
        assert(s1.contains((q.0 + dr, q.1 + dc)));
    }
}

/// Linear membership scan: whether `v` holds the coordinate `*c`.
fn vec_has_coord(v: &Vec<Coord>, c: &Coord) -> (r: bool)
    ensures
        r == v@.contains(*c),
        r == coords_set(v@).contains(cell_of(*c)),
{
    proof {
        lemma_coords_set_contains(v@, *c);
    }
    let mut i: usize = 0;
    while i < v.len()
        invariant
            0 <= i <= v@.len(),
            forall|k: int| 0 <= k < i ==> v@[k] != *c,
        decreases v@.len() - i,
    {
        if v[i] == *c {
            proof {
                assert(v@.contains(*c));
                lemma_coords_set_contains(v@, *c);
            }
            return true;
        }
        i += 1;
    }
    assert(!v@.contains(*c));
    false
}

/// The board: the sparse set of live cells (each held exactly once) and the
/// number of generations evolved so far.
pub struct Board {
    cells: Vec<Coord>,
    generation: u32,
}

impl Board {
    /// The set of live cells, as unbounded-integer pairs.
    pub closed spec fn live(self) -> Set<(int, int)> {
        coords_set(self.cells@)
    }

    /// The generation counter.
    pub closed spec fn spec_generation(self) -> u32 {
        self.generation
    }

    /// Internal invariant: no live cell is stored twice, so the stored count
    /// is the population.
    pub closed spec fn well_formed(self) -> bool {
        self.cells@.no_duplicates()
    }

    /// The number of coordinates the store holds.
    pub closed spec fn spec_population(self) -> nat {
        self.cells@.len()
    }

    /// In a well-formed board the stored coordinates count the live set
    /// exactly: the population is the cardinality of `live()`.
    pub proof fn lemma_population_invariant(self)
        requires
            self.well_formed(),
        ensures
            self.live().finite(),
            self.live().len() == self.spec_population(),
    {
        let f = |c: Coord| cell_of(c);
        let m = self.cells@.map_values(f);
        lemma_cell_of_injective();
        self.cells@.lemma_no_duplicates_injective(f);
        m.unique_seq_to_set();
        broadcast use vstd::seq_lib::seq_to_set_is_finite;

    }

    /// Builds a board from an explicit seed: every listed coordinate is live,
    /// duplicates collapse, and the generation counter starts at 0.
    pub fn new(seed: Vec<Coord>) -> (b: Board)
        ensures
            b.well_formed(),
            b.live() == coords_set(seed@),
            b.spec_generation() == 0,
    {
        let mut cells: Vec<Coord> = Vec::new();
        let mut i: usize = 0;
        while i < seed.len()
            invariant
                0 <= i <= seed@.len(),
                cells@.no_duplicates(),
                coords_set(cells@) == coords_set(seed@.take(i as int)),
            decreases seed@.len() - i,
        {
            let c = seed[i];
            let present = vec_has_coord(&cells, &c);
            if !present {
                proof {
                    lemma_coords_set_push(cells@, c);
                }
                cells.push(c);
            }
            proof {
                assert(seed@.take(i + 1) =~= seed@.take(i as int).push(c));
                lemma_coords_set_push(seed@.take(i as int), c);
                if present {
                    assert(coords_set(seed@.take(i as int)).insert(cell_of(c)) =~= coords_set(
                        seed@.take(i as int),
                    ));
                }
            }
            i += 1;
        }
        proof {
            assert(seed@.take(seed@.len() as int) =~= seed@);
        }
        Board { cells, generation: 0 }
    }

    /// Builds a board from one draw per cell of the region
    /// `[0, height) x [0, width)`, row-major: the cell for candidate index
    /// `i` — row `i / width`, column `i % width` — is live iff
    /// `draws[i] < SEED_NUMERATOR`. The live set is fixed exactly as a
    /// function of the draws; the generation counter starts at 0.
    pub fn new_from_draws(width: u32, height: u32, draws: Vec<u32>) -> (b: Board)
        requires
            draws@.len() == width as int * height as int,
            width <= i32::MAX as u32,
            height <= i32::MAX as u32,
        ensures
            b.well_formed(),
            b.spec_generation() == 0,
            b.live() == drawn_cells(draws@, width as int),
            forall|p: (int, int)|
                #![trigger b.live().contains(p)]
                b.live().contains(p) ==> 0 <= p.0 < height as int && 0 <= p.1 < width as int,
    {
        let mut seed: Vec<Coord> = Vec::new();
        let mut i: usize = 0;
        while i < draws.len()
            invariant
                0 <= i <= draws@.len(),
                draws@.len() == width as int * height as int,
                width <= i32::MAX as u32,
                height <= i32::MAX as u32,
                coords_set(seed@) == drawn_cells(draws@.take(i as int), width as int),
            decreases draws@.len() - i,
        {
            let d = draws[i];
            proof {
                assert(draws@.take(i + 1).drop_last() =~= draws@.take(i as int));
                assert(draws@.take(i + 1).last() == draws@[i as int]);
            }
            if d < SEED_NUMERATOR {
                proof {
                    if width == 0 {
                        assert(width as int * height as int == 0) by (nonlinear_arith)
                            requires
                                width == 0,
                        ;
                        assert(false);
                    }
                    vstd::arithmetic::div_mod::lemma_multiply_divide_lt(
                        i as int,
                        width as int,
                        height as int,
                    );
                }
                let row = i / (width as usize);
                let col = i % (width as usize);
                let c = Coord::new(row as i32, col as i32);
                proof {
                    assert(cell_of(c) == region_cell(i as int, width as int));
                    lemma_coords_set_push(seed@, c);
                }
                seed.push(c);
            }
            i += 1;
        }
        proof {
            assert(draws@.take(draws@.len() as int) =~= draws@);
        }
        let b = Board::new(seed);
        proof {
            assert forall|p: (int, int)| b.live().contains(p) implies 0 <= p.0 < height as int && 0
                <= p.1 < width as int by {
                lemma_drawn_cells_characterization(draws@, width as int, p);
                let i0 = choose|i: int|
                    0 <= i < draws@.len() && draws@[i] < SEED_NUMERATOR && p == region_cell(
                        i,
                        width as int,
                    );
                if width == 0 {
                    assert(width as int * height as int == 0) by (nonlinear_arith)
                        requires
                            width == 0,
                    ;
                }
                vstd::arithmetic::div_mod::lemma_multiply_divide_lt(
                    i0,
                    width as int,
                    height as int,
                );
                vstd::arithmetic::div_mod::lemma_mod_bound(i0, width as int);
            }
        }
        b
    }

    /// Builds a board seeded at random over the region
    /// `[0, height) x [0, width)`: one independent draw per coordinate, live
    /// with probability about one in ten. What the draws produce is fixed by
    /// `new_from_draws`, which this function hands one fresh draw per region
    /// cell; whatever is drawn, every live cell lies in the region, the board
    /// is well formed, and the generation counter starts at 0.
    pub fn new_random(width: u32, height: u32) -> (b: Board)
        requires
            width as int * height as int <= u32::MAX as int,
            width <= i32::MAX as u32,
            height <= i32::MAX as u32,
        ensures
            b.well_formed(),
            b.spec_generation() == 0,
            forall|p: (int, int)|
                #![trigger b.live().contains(p)]
                b.live().contains(p) ==> 0 <= p.0 < height as int && 0 <= p.1 < width as int,
    {
        let total = width * height;
        let mut draws: Vec<u32> = Vec::new();
        let mut i: u32 = 0;
        while i < total
            invariant
                i <= total,
                draws@.len() == i as int,
            decreases total - i,
        {
            let draw: u32 = rand::random::<u32>();
            draws.push(draw);
            i += 1;
        }
        Board::new_from_draws(width, height, draws)
    }

    /// The live cells, one coordinate per live cell, in unspecified order.
    pub fn cells(&self) -> (r: &Vec<Coord>)
        requires
            self.well_formed(),
        ensures
            r@.no_duplicates(),
            coords_set(r@) == self.live(),
            r@.len() == self.live().len(),
    {
        proof {
            self.lemma_population_invariant();
        }
        &self.cells
    }

    /// The generation counter: 0 at construction, incremented by exactly 1
    /// per `update`.
    pub fn generation(&self) -> (r: u32)
        ensures
            r == self.spec_generation(),
    {
        self.generation
    }

    /// The number of live cells, recomputed from the store.
    pub fn population(&self) -> (r: u32)
        requires
            self.well_formed(),
        ensures
            self.live().len() <= u32::MAX ==> r == self.live().len(),
    {
        proof {
            self.lemma_population_invariant();
        }
        #[verifier::truncate] (self.cells.len() as u32)
    }

    /// Whether the cell `(r, c)` is live. Widened arguments let callers name
    /// any neighbor of a stored coordinate without overflow; a cell outside
    /// the `i32` range is never live.
    fn live_at(&self, r: i64, c: i64) -> (b: bool)
        ensures
            b == self.live().contains((r as int, c as int)),
    {
        if i32::MIN as i64 <= r && r <= i32::MAX as i64 && i32::MIN as i64 <= c && c
            <= i32::MAX as i64 {
            let co = Coord { row: r as i32, column: c as i32 };
            proof {
                assert(cell_of(co) == (r as int, c as int));
            }
            vec_has_coord(&self.cells, &co)
        } else {
            proof {
                lemma_coords_set_in_range(self.cells@);
            }
            false
        }
    }

    /// The number of live cells among the 8 Moore neighbors of `*cell`,
    /// computed against the current store. Neighbors whose coordinates fall
    /// outside the `i32` range count as dead.
    pub fn get_live_neighbors_count(&self, cell: &Coord) -> (count: u32)
        ensures
            count == crate::life::neighbor_count(self.live(), cell_of(*cell)),
            count <= 8,
    {
        let r = cell.row as i64;
        let c = cell.column as i64;
        let mut count: u32 = 0;

        if self.live_at(r - 1, c - 1) {
            count += 1;
        }
        if self.live_at(r - 1, c) {
            count += 1;
        }
        if self.live_at(r - 1, c + 1) {
            count += 1;
        }
        if self.live_at(r, c - 1) {
            count += 1;
        }
        if self.live_at(r, c + 1) {
            count += 1;
        }
        if self.live_at(r + 1, c - 1) {
            count += 1;
        }
        if self.live_at(r + 1, c) {
            count += 1;
        }
        if self.live_at(r + 1, c + 1) {
            count += 1;
        }

        count
    }

    /// Resolves one candidate cell `(r, c)` of the next generation: if it is
    /// representable and not yet checked, it is decided once by the rule
    /// against the current store, recorded in `next` iff it lives, and marked
    /// checked.
    fn consider(&self, r: i64, c: i64, next: &mut Vec<Coord>, checked: &mut Vec<Coord>)
        requires
            old(next)@.no_duplicates(),
            old(checked)@.no_duplicates(),
            forall|p: (int, int)|
                #![trigger coords_set(old(next)@).contains(p)]
                coords_set(old(next)@).contains(p) <==> (coords_set(old(checked)@).contains(p)
                    && step_alive(self.live(), p)),
        ensures
            final(next)@.no_duplicates(),
            final(checked)@.no_duplicates(),
            forall|p: (int, int)|
                #![trigger coords_set(final(next)@).contains(p)]
                coords_set(final(next)@).contains(p) <==> (coords_set(final(checked)@).contains(p)
                    && step_alive(self.live(), p)),
            in_coord_range((r as int, c as int)) ==> coords_set(final(checked)@) == coords_set(
                old(checked)@,
            ).insert((r as int, c as int)),
            !in_coord_range((r as int, c as int)) ==> final(checked)@ == old(checked)@ && final(
                next)@ == old(next)@,
    {
        if i32::MIN as i64 <= r && r <= i32::MAX as i64 && i32::MIN as i64 <= c && c
            <= i32::MAX as i64 {
            let co = Coord { row: r as i32, column: c as i32 };
            let ghost p = (r as int, c as int);
            proof {
                assert(cell_of(co) == p);
            }
            let already = vec_has_coord(checked, &co);
            if !already {
                let n = self.get_live_neighbors_count(&co);
                let live_now = vec_has_coord(&self.cells, &co);
                proof {
                    lemma_coords_set_contains(next@, co);
                    lemma_push_keeps_no_duplicates(checked@, co);
                    lemma_coords_set_push(checked@, co);
                }
                proof {
                    assert(coords_set(next@).contains(p) <==> (coords_set(checked@).contains(p)
                        && step_alive(self.live(), p)));
                }
                if n == 3 || (n == 2 && live_now) {
                    proof {
                        assert(step_alive(self.live(), p));
                        assert(!next@.contains(co));
                        lemma_push_keeps_no_duplicates(next@, co);
                        lemma_coords_set_push(next@, co);
                    }
                    next.push(co);
                } else {
                    proof {
                        assert(!step_alive(self.live(), p));
                    }
                }
                checked.push(co);
            } else {
                proof {
                    assert(coords_set(checked@).insert(p) =~= coords_set(checked@));
                }
            }
        }
        proof {
            assert forall|pp: (int, int)|
                coords_set(next@).contains(pp) <==> (coords_set(checked@).contains(pp)
                    && step_alive(self.live(), pp)) by {
                assert(coords_set(old(next)@).contains(pp) <==> (coords_set(
                    old(checked)@,
                ).contains(pp) && step_alive(self.live(), pp)));
            }
        }
    }

    /// Advances the board by exactly one generation. The new live set is
    /// exactly what the rule yields from the old one, decided cell by cell
    /// against the frozen current store; the generation counter grows by 1.
    pub fn update(&mut self)
        requires
            old(self).well_formed(),
            old(self).spec_generation() < u32::MAX,
        ensures
            final(self).well_formed(),
            final(self).live() == next_gen(old(self).live()),
            final(self).spec_generation() == old(self).spec_generation() + 1,
    {
        let ghost cells0 = self.cells@;
        let ghost live0 = self.live();
        let ghost gen0 = self.generation;
        let mut next: Vec<Coord> = Vec::new();
        let mut checked: Vec<Coord> = Vec::new();
        let count = self.cells.len();
        let mut i: usize = 0;
        while i < count
            invariant
                0 <= i <= count,
                self.cells@ == cells0,
                self.generation == gen0,
                count == cells0.len(),
                live0 == coords_set(cells0),
                next@.no_duplicates(),
                checked@.no_duplicates(),
                forall|p: (int, int)|
                    #![trigger coords_set(next@).contains(p)]
                    coords_set(next@).contains(p) <==> (coords_set(checked@).contains(p)
                        && step_alive(live0, p)),
                forall|p: (int, int)|
                    #![trigger coords_set(checked@).contains(p)]
                    coords_set(checked@).contains(p) ==> in_coord_range(p),
                forall|j: int| 0 <= j < i ==> covered(cell_of(cells0[j]), coords_set(checked@)),
            decreases count - i,
        {
            let cell = self.cells[i];
            let ghost q = cell_of(cell);
            let r = cell.row as i64;
            let c = cell.column as i64;
            let ghost ck0 = coords_set(checked@);
            self.consider(r - 1, c - 1, &mut next, &mut checked);
            let ghost ck1 = coords_set(checked@);
            self.consider(r - 1, c, &mut next, &mut checked);
            let ghost ck2 = coords_set(checked@);
            self.consider(r - 1, c + 1, &mut next, &mut checked);
            let ghost ck3 = coords_set(checked@);
            self.consider(r, c - 1, &mut next, &mut checked);
            let ghost ck4 = coords_set(checked@);
            self.consider(r, c, &mut next, &mut checked);
            let ghost ck5 = coords_set(checked@);
            self.consider(r, c + 1, &mut next, &mut checked);
            let ghost ck6 = coords_set(checked@);
            self.consider(r + 1, c - 1, &mut next, &mut checked);
            let ghost ck7 = coords_set(checked@);
            self.consider(r + 1, c, &mut next, &mut checked);
            let ghost ck8 = coords_set(checked@);
            self.consider(r + 1, c + 1, &mut next, &mut checked);
            let ghost ck9 = coords_set(checked@);
            proof {
                assert forall|p: (int, int)| ck0.contains(p) implies ck9.contains(p) by {}
                assert forall|j: int| 0 <= j < i + 1 implies covered(
                    cell_of(cells0[j]),
                    ck9,
                ) by {
                    if j < i {
                        lemma_covered_grows(cell_of(cells0[j]), ck0, ck9);
                    } else {
                        assert forall|dr: int, dc: int|
                            #![trigger ck9.contains((q.0 + dr, q.1 + dc))]
                            -1 <= dr <= 1 && -1 <= dc <= 1 && in_coord_range(
                                (q.0 + dr, q.1 + dc),
                            ) implies ck9.contains((q.0 + dr, q.1 + dc)) by {
                            let pt = (q.0 + dr, q.1 + dc);
                            if dr == -1 && dc == -1 {
                                assert(pt == ((r - 1) as int, (c - 1) as int));
                                assert(ck1.contains(pt));
                            } else if dr == -1 && dc == 0 {
                                assert(pt == ((r - 1) as int, c as int));
                                assert(ck2.contains(pt));
                            } else if dr == -1 && dc == 1 {
                                assert(pt == ((r - 1) as int, (c + 1) as int));
                                assert(ck3.contains(pt));
                            } else if dr == 0 && dc == -1 {
                                assert(pt == (r as int, (c - 1) as int));
                                assert(ck4.contains(pt));
                            } else if dr == 0 && dc == 0 {
                                assert(pt == (r as int, c as int));
                                assert(ck5.contains(pt));
                            } else if dr == 0 && dc == 1 {
                                assert(pt == (r as int, (c + 1) as int));
                                assert(ck6.contains(pt));
                            } else if dr == 1 && dc == -1 {
                                assert(pt == ((r + 1) as int, (c - 1) as int));
                                assert(ck7.contains(pt));
                            } else if dr == 1 && dc == 0 {
                                assert(pt == ((r + 1) as int, c as int));
                                assert(ck8.contains(pt));
                            } else {
                                assert(pt == ((r + 1) as int, (c + 1) as int));
                                assert(ck9.contains(pt));
                            }
                        }
                    }
                }
            }
            i += 1;
        }
        proof {
            let ns = coords_set(next@);
            let ck = coords_set(checked@);
            assert forall|p: (int, int)| ns.contains(p) implies next_gen(live0).contains(p) by {
                assert(in_coord_range(p));
            }
            assert forall|p: (int, int)| next_gen(live0).contains(p) implies ns.contains(p) by {
                assert(in_coord_range(p) && step_alive(live0, p));
                crate::life::lemma_live_neighbor_exists(live0, p);
                let (dr, dc) = choose|dr: int, dc: int|
                    #![trigger live0.contains((p.0 + dr, p.1 + dc))]
                    -1 <= dr <= 1 && -1 <= dc <= 1 && !(dr == 0 && dc == 0) && live0.contains(
                        (p.0 + dr, p.1 + dc),
                    );
                let nq = (p.0 + dr, p.1 + dc);
                lemma_coords_set_gives_coord(cells0, nq);
                let co = choose|co: Coord| cells0.contains(co) && cell_of(co) == nq;
                let j = choose|j: int| 0 <= j < cells0.len() && cells0[j] == co;
                assert(covered(cell_of(cells0[j]), ck));
                assert(ck.contains((cell_of(cells0[j]).0 + (-dr), cell_of(cells0[j]).1 + (-dc))));
                assert(ck.contains(p));
            }
            assert(ns =~= next_gen(live0));
        }
        self.cells = next;
        self.generation = self.generation + 1;
    }
}

} // verus!
