//! The simulation state: the sparse index of live cells, the population and
//! generation counters, the tick rate and the run mode, and every operation
//! that changes them.
use crate::board::{lemma_neighbour_symmetric, Position, BOARD_CELLS, BOARD_HEIGHT, BOARD_WIDTH};
use crate::rules::{
    alive_neighbours, count_in, lemma_count_witness, next_cell_state, next_generation, next_state,
};
use std::collections::HashMap;
use std::collections::HashSet;
use vstd::prelude::*;
use vstd::relations::injective_on;
use vstd::set_lib::{lemma_int_range, lemma_len_subset, lemma_map_size, set_int_range};

verus! {

broadcast use vstd::std_specs::hash::group_hash_axioms;

/// Tick rate of a fresh simulation, in ticks per second.
pub const DEFAULT_SIMULATION_SPEED_HZ: u32 = 10;

/// A draw above this value brings its cell to life: four fifths of the draws
/// fall at or below it, so about one cell in five is seeded.
pub const RANDOMIZE_THRESHOLD: u32 = 3435973836;

/// Where the draw for each cell stands in a sequence of draws: column by
/// column, and down each column.
pub open spec fn draw_index(p: Position) -> int {
    p.x * BOARD_HEIGHT + p.y
}

/// The live set that a sequence of draws, one per cell, seeds.
pub open spec fn seeded(draws: Seq<u32>) -> Set<Position> {
    Set::new(|p: Position| p.valid() && draws[draw_index(p)] > RANDOMIZE_THRESHOLD)
}

/// Relies on rand::random: a `u32` from the thread-local generator; nothing is
/// known of its value.
#[verifier::external_body]
fn random_draw() -> (r: u32) {
    rand::random::<u32>()
}

/// Whether generations advance on their own.
#[derive(Clone, Copy, Debug, Default, PartialEq, Eq, Structural, Hash)]
pub enum SimulationState {
    #[default]
    Paused,
    Running,
}

/// Misuse of the simulation's operations.
#[derive(Clone, Copy, Debug, PartialEq, Eq, Structural)]
pub enum SimError {
    /// A cell was spawned where one is already alive.
    CellAlreadyAlive,
    /// A cell was despawned where none is alive.
    CellNotAlive,
    /// A tick rate of zero was asked for.
    InvalidSpeed,
}

/// The party that draws cells. It hands out an opaque handle for each cell
/// that comes alive and is given that handle back when the cell dies. Its
/// model is the log of calls it has received.
pub trait CellRenderer {
    /// The cells drawn so far, each with the handle it was given, in order.
    spec fn created(&self) -> Seq<(Position, u64)>;

    /// The handles released so far, in order.
    spec fn destroyed(&self) -> Seq<u64>;

    /// A cell came alive at `pos`; returns the handle of its representation.
    fn create_cell(&mut self, pos: Position) -> (h: u64)
        ensures
            final(self).created() == old(self).created().push((pos, h)),
            final(self).destroyed() == old(self).destroyed(),
    ;

    /// The cell whose representation is `handle` died.
    fn destroy_cell(&mut self, handle: u64)
        ensures
            final(self).destroyed() == old(self).destroyed().push(handle),
            final(self).created() == old(self).created(),
    ;
}

/// A renderer that draws nothing: it numbers the cells it is asked to draw
/// and keeps the log of every call.
pub struct CellLog {
    next: u64,
    created: Vec<(Position, u64)>,
    destroyed: Vec<u64>,
}

impl CellLog {
    /// An empty log whose first handle is `first`.
    pub fn new(first: u64) -> (r: CellLog)
        ensures
            r.created() == Seq::<(Position, u64)>::empty(),
            r.destroyed() == Seq::<u64>::empty(),
    {
        CellLog { next: first, created: Vec::new(), destroyed: Vec::new() }
    }

    /// The cells drawn so far, each with its handle, in order.
    pub fn created_cells(&self) -> (r: &Vec<(Position, u64)>)
        ensures
            r@ == self.created(),
    {
        &self.created
    }

    /// The handles released so far, in order.
    pub fn destroyed_handles(&self) -> (r: &Vec<u64>)
        ensures
            r@ == self.destroyed(),
    {
        &self.destroyed
    }

    /// Hands over both logs and starts them afresh; the numbering of handles
    /// goes on where it was.
    pub fn take_log(&mut self) -> (r: (Vec<(Position, u64)>, Vec<u64>))
        ensures
            r.0@ == old(self).created(),
            r.1@ == old(self).destroyed(),
            final(self).created() == Seq::<(Position, u64)>::empty(),
            final(self).destroyed() == Seq::<u64>::empty(),
    {
        let mut created: Vec<(Position, u64)> = Vec::new();
        let mut destroyed: Vec<u64> = Vec::new();
        std::mem::swap(&mut created, &mut self.created);
        std::mem::swap(&mut destroyed, &mut self.destroyed);
        (created, destroyed)
    }
}

impl CellRenderer for CellLog {
    closed spec fn created(&self) -> Seq<(Position, u64)> {
        self.created@
    }

    closed spec fn destroyed(&self) -> Seq<u64> {
        self.destroyed@
    }

    fn create_cell(&mut self, pos: Position) -> (h: u64) {
        let h = self.next;
        self.next = self.next.wrapping_add(1);
        self.created.push((pos, h));
        h
    }

    fn destroy_cell(&mut self, handle: u64) {
        self.destroyed.push(handle);
    }
}

/// The handles of `ps`, in order, as `cells` holds them.
pub open spec fn handles_of(ps: Seq<Position>, cells: Map<Position, u64>) -> Seq<u64> {
    ps.map_values(|p: Position| cells[p])
}

/// The positions `ps`, in order, each with the handle `cells` holds for it.
pub open spec fn drawn_as(ps: Seq<Position>, cells: Map<Position, u64>) -> Seq<(Position, u64)> {
    ps.map_values(|p: Position| (p, cells[p]))
}

/// `ps` lists each position of `s` exactly once.
pub open spec fn lists(ps: Seq<Position>, s: Set<Position>) -> bool {
    ps.no_duplicates() && ps.to_set() == s
}

/// `after` is `before` followed by one release of the handle of each cell of
/// `cells`, in some order.
pub open spec fn releases_each(cells: Map<Position, u64>, before: Seq<u64>, after: Seq<u64>) -> bool {
    exists|ps: Seq<Position>| #[trigger] lists(ps, cells.dom()) && after == before + handles_of(ps, cells)
}

/// `after` is `before` followed by one drawing of each cell of `cells`, with
/// the handle it holds, in some order.
pub open spec fn draws_each(
    cells: Map<Position, u64>,
    before: Seq<(Position, u64)>,
    after: Seq<(Position, u64)>,
) -> bool {
    exists|ps: Seq<Position>| #[trigger] lists(ps, cells.dom()) && after == before + drawn_as(ps, cells)
}

/// Appending to a sequence that lacks the new element keeps it free of duplicates.
proof fn lemma_push_no_duplicates<T>(s: Seq<T>, x: T)
    requires
        s.no_duplicates(),
        !s.contains(x),
    ensures
        s.push(x).no_duplicates(),
{
    assert forall|a: int, b: int| 0 <= a < b < s.push(x).len() implies s.push(x)[a] != s.push(x)[b] by {
        if b == s.len() {
            assert(s[a] == s.push(x)[a]);
        }
    }
}

/// Appending `x` adds exactly `x` to what a sequence contains.
proof fn lemma_push_contains<T>(s: Seq<T>, x: T)
    ensures
        forall|y: T| #[trigger] s.push(x).contains(y) <==> s.contains(y) || y == x,
{
    assert forall|y: T| #[trigger] s.push(x).contains(y) <==> s.contains(y) || y == x by {
        if s.contains(y) {
            let t = choose|t: int| 0 <= t < s.len() && s[t] == y;
            assert(s.push(x)[t] == y);
        }
        if s.push(x).contains(y) && y != x {
            let t = choose|t: int| 0 <= t < s.push(x).len() && s.push(x)[t] == y;
            assert(s[t] == y);
        }
        if y == x {
            assert(s.push(x)[s.len() as int] == y);
        }
    }
}

/// The index key of a board position: its row-major cell number.
pub open spec fn key_of(p: Position) -> u64 {
    (p.y * BOARD_WIDTH + p.x) as u64
}

/// The board position with row-major cell number `k`.
pub open spec fn position_of(k: u64) -> Position {
    Position { x: (k % (BOARD_WIDTH as u64)) as usize, y: (k / (BOARD_WIDTH as u64)) as usize }
}

proof fn lemma_key_roundtrip(p: Position)
    requires
        p.valid(),
    ensures
        key_of(p) < BOARD_CELLS,
        position_of(key_of(p)) == p,
{
}

proof fn lemma_position_roundtrip(k: u64)
    requires
        k < BOARD_CELLS,
    ensures
        position_of(k).valid(),
        key_of(position_of(k)) == k,
{
}

fn key(p: &Position) -> (r: u64)
    requires
        p.valid(),
    ensures
        r == key_of(*p),
{
    (p.y * BOARD_WIDTH + p.x) as u64
}

fn position(k: u64) -> (r: Position)
    requires
        k < BOARD_CELLS,
    ensures
        r == position_of(k),
        r.valid(),
{
    Position { x: (k % (BOARD_WIDTH as u64)) as usize, y: (k / (BOARD_WIDTH as u64)) as usize }
}

/// A set of cell numbers of the board has at most as many elements as the board has cells.
proof fn lemma_keys_bounded(m: Set<u64>)
    requires
        m.finite(),
        forall|k: u64| #[trigger] m.contains(k) ==> k < BOARD_CELLS,
    ensures
        m.len() <= BOARD_CELLS,
{
    let all = Set::new(|k: u64| k < BOARD_CELLS);
    let ints = set_int_range(0, BOARD_CELLS as int);
    let f = |i: int| i as u64;
    lemma_int_range(0, BOARD_CELLS as int);
    assert(ints.map(f) =~= all) by {
        assert forall|k: u64| all.contains(k) implies ints.map(f).contains(k) by {
            assert(ints.contains(k as int) && f(k as int) == k);
        }
    }
    lemma_map_size(ints, all, f);
    lemma_len_subset(m, all);
}

/// One more element taken from a sequence adds exactly that element.
proof fn lemma_take_one_more<T>(s: Seq<T>, i: int)
    requires
        0 <= i < s.len(),
    ensures
        forall|q: T| #[trigger] s.take(i + 1).contains(q) <==> s.take(i).contains(q) || q == s[i],
{
    let s0 = s.take(i);
    let s1 = s.take(i + 1);
    assert forall|q: T| #[trigger] s1.contains(q) <==> s0.contains(q) || q == s[i] by {
        if s1.contains(q) {
            let t = choose|t: int| 0 <= t < s1.len() && s1[t] == q;
            if t < i {
                assert(s0[t] == q);
            }
        }
        if s0.contains(q) {
            let t = choose|t: int| 0 <= t < s0.len() && s0[t] == q;
            assert(s1[t] == q);
        }
        if q == s[i] {
            assert(s1[i] == q);
        }
    }
}

/// The state of a game: which cells live, with the handle each was drawn
/// with, how many there are, how many generations have passed, how fast they
/// pass and whether they pass on their own.
pub struct Simulation {
    index: HashMap<u64, u64>,
    population: usize,
    generation: u64,
    speed: u32,
    state: SimulationState,
}

impl Simulation {
    /// The live cells and their handles.
    pub closed spec fn cells(self) -> Map<Position, u64> {
        Map::new(
            |p: Position| p.valid() && self.index@.contains_key(key_of(p)),
            |p: Position| self.index@[key_of(p)],
        )
    }

    /// The live cells.
    pub open spec fn live(self) -> Set<Position> {
        self.cells().dom()
    }

    /// The population counter.
    pub closed spec fn spec_population(&self) -> usize {
        self.population
    }

    /// The generation counter.
    pub closed spec fn spec_generation(&self) -> u64 {
        self.generation
    }

    /// The tick rate.
    pub closed spec fn spec_speed(&self) -> u32 {
        self.speed
    }

    /// The run mode.
    pub closed spec fn spec_state(&self) -> SimulationState {
        self.state
    }

    /// The index holds board cells only, the population counts its entries,
    /// and the tick rate is positive.
    pub closed spec fn wf(self) -> bool {
        &&& forall|k: u64| #[trigger] self.index@.contains_key(k) ==> k < BOARD_CELLS
        &&& self.population == self.index@.len()
        &&& self.speed > 0
    }

    /// A paused, empty board at generation zero, ticking at the default rate.
    pub fn new() -> (r: Simulation)
        ensures
            r.wf(),
            r.cells() == Map::<Position, u64>::empty(),
            r.population() == 0,
            r.generation() == 0,
            r.speed() == DEFAULT_SIMULATION_SPEED_HZ,
            r.speed() > 0,
            r.state() == SimulationState::Paused,
    {
        let r = Simulation {
            index: HashMap::new(),
            population: 0,
            generation: 0,
            speed: DEFAULT_SIMULATION_SPEED_HZ,
            state: SimulationState::Paused,
        };
        assert(r.cells() =~= Map::<Position, u64>::empty());
        r
    }

    /// The number of live cells.
    #[verifier::when_used_as_spec(spec_population)]
    pub fn population(&self) -> (r: usize)
        ensures
            r == self.spec_population(),
    {
        self.population
    }

    /// The number of generations since the last reset.
    #[verifier::when_used_as_spec(spec_generation)]
    pub fn generation(&self) -> (r: u64)
        ensures
            r == self.spec_generation(),
    {
        self.generation
    }

    /// The tick rate, in ticks per second.
    #[verifier::when_used_as_spec(spec_speed)]
    pub fn speed(&self) -> (r: u32)
        ensures
            r == self.spec_speed(),
    {
        self.speed
    }

    /// Whether the simulation runs or is paused.
    #[verifier::when_used_as_spec(spec_state)]
    pub fn state(&self) -> (r: SimulationState)
        ensures
            r == self.spec_state(),
    {
        self.state
    }

    /// Whether a cell is alive at `pos`.
    pub fn state_at_position(&self, pos: &Position) -> (r: bool)
        requires
            pos.valid(),
        ensures
            r == self.live().contains(*pos),
    {
        let k = key(pos);
        self.index.contains_key(&k)
    }

    /// The number of live cells among the eight neighbours of `pos`.
    pub fn alive_neighbours_at_position(&self, pos: Position) -> (r: usize)
        requires
            pos.valid(),
        ensures
            r == alive_neighbours(self.live(), pos),
            r <= 8,
    {
        let nbs = pos.neighbours();
        let mut result: usize = 0;
        for i in 0..8
            invariant
                nbs@ == pos.neighbour_seq(),
                result == count_in(self.live(), nbs@.take(i as int)),
                result <= i,
        {
            let q = nbs[i];
            assert(nbs@.take(i + 1).drop_last() =~= nbs@.take(i as int));
            result += self.state_at_position(&q) as usize;
        }
        assert(nbs@.take(8) =~= nbs@);
        result
    }

    /// The live set is the index read through `position_of`, and it has as many
    /// elements as the index.
    proof fn lemma_live_matches_index(self)
        requires
            self.wf(),
        ensures
            self.index@.dom().map(|k: u64| position_of(k)) == self.live(),
            self.live().finite(),
            self.live().len() == self.index@.len(),
    {
        let f = |k: u64| position_of(k);
        let keys = self.index@.dom();
        assert(keys.map(f) =~= self.live()) by {
            assert forall|p: Position| self.live().contains(p) implies keys.map(f).contains(p) by {
                lemma_key_roundtrip(p);
                assert(keys.contains(key_of(p)) && f(key_of(p)) == p);
            }
            assert forall|p: Position| keys.map(f).contains(p) implies self.live().contains(p) by {
                let k = choose|k: u64| keys.contains(k) && f(k) == p;
                lemma_position_roundtrip(k);
            }
        }
        assert(injective_on(f, keys)) by {
            assert forall|a: u64, b: u64| keys.contains(a) && keys.contains(b) && #[trigger] f(a) == #[trigger] f(b) implies a == b by {
                lemma_position_roundtrip(a);
                lemma_position_roundtrip(b);
            }
        }
        lemma_map_size(keys, self.live(), f);
    }

    /// The population counter always equals the number of live cells.
    pub proof fn lemma_population_matches(self)
        requires
            self.wf(),
        ensures
            self.population() == self.live().len(),
            self.live().finite(),
            forall|p: Position| #[trigger] self.live().contains(p) ==> p.valid(),
    {
        self.lemma_live_matches_index();
    }

    /// The tick rate of a well-formed state is positive: no operation can set
    /// it to zero.
    pub proof fn lemma_speed_positive(self)
        requires
            self.wf(),
        ensures
            self.speed() > 0,
    {
    }

    /// Brings a cell to life at a dead position, with a handle from `renderer`.
    fn insert_cell<R: CellRenderer>(&mut self, pos: Position, renderer: &mut R) -> (h: u64)
        requires
            old(self).wf(),
            pos.valid(),
            !old(self).live().contains(pos),
        ensures
            final(self).wf(),
            final(self).cells() == old(self).cells().insert(pos, h),
            same_settings(*old(self), *final(self)),
            final(renderer).created() == old(renderer).created().push((pos, h)),
            final(renderer).destroyed() == old(renderer).destroyed(),
    {
        let h = renderer.create_cell(pos);
        let k = key(&pos);
        proof {
            lemma_key_roundtrip(pos);
        }
        self.index.insert(k, h);
        proof {
            lemma_keys_bounded(self.index@.dom());
        }
        self.population = self.population + 1;
        assert(self.cells() =~= old(self).cells().insert(pos, h)) by {
            assert forall|q: Position| q.valid() && key_of(q) == k implies q == pos by {
                lemma_key_roundtrip(q);
            }
        }
        h
    }

    /// Kills the cell at a live position and hands its handle back to `renderer`.
    fn remove_cell<R: CellRenderer>(&mut self, pos: Position, renderer: &mut R) -> (h: u64)
        requires
            old(self).wf(),
            pos.valid(),
            old(self).live().contains(pos),
        ensures
            final(self).wf(),
            h == old(self).cells()[pos],
            final(self).cells() == old(self).cells().remove(pos),
            same_settings(*old(self), *final(self)),
            final(renderer).destroyed() == old(renderer).destroyed().push(h),
            final(renderer).created() == old(renderer).created(),
    {
        let k = key(&pos);
        let h = self.index.remove(&k).unwrap();
        self.population = self.population - 1;
        renderer.destroy_cell(h);
        assert(self.cells() =~= old(self).cells().remove(pos)) by {
            assert forall|q: Position| q.valid() && key_of(q) == k implies q == pos by {
                lemma_key_roundtrip(q);
                lemma_key_roundtrip(pos);
            }
        }
        h
    }

    /// Brings cells to life at the distinct dead positions `ps`, in order.
    fn insert_cells<R: CellRenderer>(&mut self, ps: &Vec<Position>, renderer: &mut R)
        requires
            old(self).wf(),
            ps@.no_duplicates(),
            forall|p: Position| #[trigger] ps@.contains(p) ==> p.valid() && !old(self).live().contains(p),
        ensures
            final(self).wf(),
            same_settings(*old(self), *final(self)),
            final(self).live() == old(self).live() + ps@.to_set(),
            forall|p: Position| #[trigger] old(self).live().contains(p) ==> final(self).cells()[p] == old(
                self,
            ).cells()[p],
            final(renderer).created() == old(renderer).created() + drawn_as(ps@, final(self).cells()),
            final(renderer).destroyed() == old(renderer).destroyed(),
    {
        for i in 0..ps.len()
            invariant
                self.wf(),
                same_settings(*old(self), *self),
                ps@.no_duplicates(),
                forall|p: Position| #[trigger] ps@.contains(p) ==> p.valid() && !old(self).live().contains(p),
                self.live() == old(self).live() + ps@.take(i as int).to_set(),
                forall|p: Position| #[trigger] old(self).live().contains(p) ==> self.cells()[p] == old(
                    self,
                ).cells()[p],
                renderer.created() == old(renderer).created() + drawn_as(ps@.take(i as int), self.cells()),
                renderer.destroyed() == old(renderer).destroyed(),
        {
            let p = ps[i];
            let ghost c0 = self.cells();
            let ghost l0 = renderer.created();
            assert(ps@.contains(p));
            assert(!ps@.take(i as int).contains(p)) by {
                if ps@.take(i as int).contains(p) {
                    let t = choose|t: int| 0 <= t < i && ps@.take(i as int)[t] == p;
                    assert(ps@[t] == ps@[i as int]);
                }
            }
            let h = self.insert_cell(p, renderer);
            proof {
                lemma_take_one_more(ps@, i as int);
                assert(ps@.take(i + 1).to_set() =~= ps@.take(i as int).to_set().insert(p));
                assert(drawn_as(ps@.take(i + 1), self.cells()) =~= drawn_as(ps@.take(i as int), c0).push((p, h)))
                    by {
                    assert forall|t: int| 0 <= t < i implies ps@.take(i as int)[t] != p by {
                        assert(ps@.take(i as int).contains(ps@.take(i as int)[t]));
                    }
                }
                assert(old(self).live().insert(p) == old(self).live() + set![p]);
            }
        }
        assert(ps@.take(ps@.len() as int) =~= ps@);
    }

    /// Kills the cells at the distinct live positions `ps`, in order.
    fn remove_cells<R: CellRenderer>(&mut self, ps: &Vec<Position>, renderer: &mut R)
        requires
            old(self).wf(),
            ps@.no_duplicates(),
            forall|p: Position| #[trigger] ps@.contains(p) ==> old(self).live().contains(p),
        ensures
            final(self).wf(),
            same_settings(*old(self), *final(self)),
            final(self).cells() == old(self).cells().remove_keys(ps@.to_set()),
            final(renderer).destroyed() == old(renderer).destroyed() + handles_of(ps@, old(self).cells()),
            final(renderer).created() == old(renderer).created(),
    {
        proof {
            old(self).lemma_population_matches();
        }
        for i in 0..ps.len()
            invariant
                self.wf(),
                same_settings(*old(self), *self),
                ps@.no_duplicates(),
                forall|p: Position| #[trigger] ps@.contains(p) ==> old(self).live().contains(p),
                forall|p: Position| #[trigger] old(self).live().contains(p) ==> p.valid(),
                self.cells() == old(self).cells().remove_keys(ps@.take(i as int).to_set()),
                renderer.destroyed() == old(renderer).destroyed() + handles_of(ps@.take(i as int), old(self).cells()),
                renderer.created() == old(renderer).created(),
        {
            let p = ps[i];
            let ghost c0 = self.cells();
            assert(ps@.contains(p));
            assert(!ps@.take(i as int).contains(p)) by {
                if ps@.take(i as int).contains(p) {
                    let t = choose|t: int| 0 <= t < i && ps@.take(i as int)[t] == p;
                    assert(ps@[t] == ps@[i as int]);
                }
            }
            assert(self.live().contains(p));
            let h = self.remove_cell(p, renderer);
            proof {
                lemma_take_one_more(ps@, i as int);
                assert(ps@.take(i + 1).to_set() =~= ps@.take(i as int).to_set().insert(p));
                assert(self.cells() =~= old(self).cells().remove_keys(ps@.take(i + 1).to_set()));
                assert(handles_of(ps@.take(i + 1), old(self).cells()) =~= handles_of(
                    ps@.take(i as int),
                    old(self).cells(),
                ).push(h));
            }
        }
        assert(ps@.take(ps@.len() as int) =~= ps@);
    }

    /// Brings a cell to life at `pos`, drawn by `renderer`; returns its handle.
    /// Fails, changing nothing, where a cell is already alive.
    pub fn spawn<R: CellRenderer>(&mut self, pos: Position, renderer: &mut R) -> (r: Result<u64, SimError>)
        requires
            old(self).wf(),
            pos.valid(),
        ensures
            final(self).wf(),
            same_settings(*old(self), *final(self)),
            old(self).live().contains(pos) ==> r == Err::<u64, SimError>(SimError::CellAlreadyAlive)
                && final(self).cells() == old(self).cells() && *final(renderer) == *old(renderer),
            !old(self).live().contains(pos) ==> r is Ok
                && final(self).cells() == old(self).cells().insert(pos, r->Ok_0)
                && final(renderer).created() == old(renderer).created().push((pos, r->Ok_0))
                && final(renderer).destroyed() == old(renderer).destroyed(),
    {
        if self.state_at_position(&pos) {
            Err(SimError::CellAlreadyAlive)
        } else {
            let h = self.insert_cell(pos, renderer);
            Ok(h)
        }
    }

    /// Kills the cell at `pos` and returns the handle it was drawn with, after
    /// handing that handle to `renderer`. Fails, changing nothing, where no
    /// cell is alive.
    pub fn despawn<R: CellRenderer>(&mut self, pos: Position, renderer: &mut R) -> (r: Result<u64, SimError>)
        requires
            old(self).wf(),
            pos.valid(),
        ensures
            final(self).wf(),
            same_settings(*old(self), *final(self)),
            old(self).live().contains(pos) ==> r == Ok::<u64, SimError>(old(self).cells()[pos])
                && final(self).cells() == old(self).cells().remove(pos)
                && final(renderer).destroyed() == old(renderer).destroyed().push(old(self).cells()[pos])
                && final(renderer).created() == old(renderer).created(),
            !old(self).live().contains(pos) ==> r == Err::<u64, SimError>(SimError::CellNotAlive)
                && final(self).cells() == old(self).cells() && *final(renderer) == *old(renderer),
    {
        if self.state_at_position(&pos) {
            let h = self.remove_cell(pos, renderer);
            Ok(h)
        } else {
            Err(SimError::CellNotAlive)
        }
    }

    /// Flips the cell at `pos`: kills it if alive, brings it to life if dead.
    /// Returns whether it is alive afterwards.
    pub fn toggle<R: CellRenderer>(&mut self, pos: Position, renderer: &mut R) -> (alive: bool)
        requires
            old(self).wf(),
            pos.valid(),
        ensures
            final(self).wf(),
            toggled(*old(self), *final(self), pos),
            alive == !old(self).live().contains(pos),
            old(self).live().contains(pos) ==> final(renderer).destroyed() == old(renderer).destroyed().push(
                old(self).cells()[pos],
            ) && final(renderer).created() == old(renderer).created(),
            !old(self).live().contains(pos) ==> final(renderer).created() == old(renderer).created().push(
                (pos, final(self).cells()[pos]),
            ) && final(renderer).destroyed() == old(renderer).destroyed(),
    {
        if self.state_at_position(&pos) {
            self.remove_cell(pos, renderer);
            false
        } else {
            self.insert_cell(pos, renderer);
            true
        }
    }

    /// The live cells, each once.
    fn live_positions(&self) -> (r: Vec<Position>)
        requires
            self.wf(),
        ensures
            lists(r@, self.live()),
    {
        let keys = self.live_keys();
        let mut r: Vec<Position> = Vec::new();
        for i in 0..keys.len()
            invariant
                self.wf(),
                keys@.to_set() == self.index@.dom(),
                keys@.no_duplicates(),
                r@ == keys@.take(i as int).map_values(|k: u64| position_of(k)),
        {
            assert(keys@.to_set().contains(keys@[i as int]));
            r.push(position(keys[i]));
            assert(r@ =~= keys@.take(i + 1).map_values(|k: u64| position_of(k)));
        }
        assert(keys@.take(keys@.len() as int) =~= keys@);
        assert forall|a: int, b: int| 0 <= a < b < r@.len() implies r@[a] != r@[b] by {
            assert(keys@.to_set().contains(keys@[a]) && keys@.to_set().contains(keys@[b]));
            lemma_position_roundtrip(keys@[a]);
            lemma_position_roundtrip(keys@[b]);
        }
        assert forall|p: Position| #[trigger] r@.to_set().contains(p) <==> self.live().contains(p) by {
            if r@.to_set().contains(p) {
                let t = choose|t: int| 0 <= t < r@.len() && r@[t] == p;
                assert(keys@.to_set().contains(keys@[t]));
                lemma_position_roundtrip(keys@[t]);
            }
            if self.live().contains(p) {
                lemma_key_roundtrip(p);
                assert(keys@.to_set().contains(key_of(p)));
                let t = choose|t: int| 0 <= t < keys@.len() && keys@[t] == key_of(p);
                assert(r@[t] == p);
            }
        }
        assert(r@.to_set() =~= self.live());
        r
    }

    /// Kills every cell, handing each cell's handle to `renderer` once, and
    /// sets the generation back to zero. The tick rate and run mode stay. The
    /// board does not check the run mode: pausing first is the caller's rule.
    pub fn reset<R: CellRenderer>(&mut self, renderer: &mut R)
        requires
            old(self).wf(),
        ensures
            final(self).wf(),
            final(self).cells() == Map::<Position, u64>::empty(),
            final(self).population() == 0,
            final(self).generation() == 0,
            final(self).speed() == old(self).speed(),
            final(self).state() == old(self).state(),
            releases_each(old(self).cells(), old(renderer).destroyed(), final(renderer).destroyed()),
            final(renderer).created() == old(renderer).created(),
    {
        let ps = self.live_positions();
        self.remove_cells(&ps, renderer);
        self.generation = 0;
        assert(self.cells() =~= Map::<Position, u64>::empty());
        proof {
            self.lemma_population_matches();
            assert(lists(ps@, old(self).cells().dom()));
        }
    }

    /// Clears the board as `reset` does, then seeds it from `draws`, one draw
    /// per cell taken column by column: a cell comes alive where its draw is
    /// above `RANDOMIZE_THRESHOLD`, and is drawn once by `renderer`. Like
    /// `reset`, it leaves the run mode to the caller.
    pub fn randomize_with<R: CellRenderer>(&mut self, draws: &Vec<u32>, renderer: &mut R)
        requires
            old(self).wf(),
            draws.len() == BOARD_CELLS,
        ensures
            final(self).wf(),
            final(self).live() == seeded(draws@),
            final(self).generation() == 0,
            final(self).speed() == old(self).speed(),
            final(self).state() == old(self).state(),
            releases_each(old(self).cells(), old(renderer).destroyed(), final(renderer).destroyed()),
            draws_each(final(self).cells(), old(renderer).created(), final(renderer).created()),
    {
        let mut alive: Vec<Position> = Vec::new();
        for x in 0..BOARD_WIDTH
            invariant
                draws.len() == BOARD_CELLS,
                alive@.no_duplicates(),
                forall|p: Position| #[trigger] alive@.contains(p) <==> p.valid() && p.x < x
                    && draws@[draw_index(p)] > RANDOMIZE_THRESHOLD,
        {
            for y in 0..BOARD_HEIGHT
                invariant
                    x < BOARD_WIDTH,
                    draws.len() == BOARD_CELLS,
                    alive@.no_duplicates(),
                    forall|p: Position| #[trigger] alive@.contains(p) <==> p.valid() && (p.x < x || (p.x == x
                        && p.y < y)) && draws@[draw_index(p)] > RANDOMIZE_THRESHOLD,
            {
                let pos = Position { x, y };
                let ghost alive0 = alive@;
                assert(draw_index(pos) == x * BOARD_HEIGHT + y);
                if draws[x * BOARD_HEIGHT + y] > RANDOMIZE_THRESHOLD {
                    proof {
                        lemma_push_no_duplicates(alive0, pos);
                    }
                    alive.push(pos);
                    proof {
                        lemma_push_contains(alive0, pos);
                    }
                }
            }
        }
        self.reset(renderer);
        assert(self.live() =~= Set::<Position>::empty());
        self.insert_cells(&alive, renderer);
        assert(alive@.to_set() =~= self.live());
        assert(self.live() =~= seeded(draws@));
        assert(lists(alive@, self.cells().dom()));
    }

    /// Clears the board as `reset` does, then brings each cell to life with a
    /// chance of about one in five, independently, from the thread-local random
    /// generator. Returns the draws, from which the board is exactly as
    /// `randomize_with` makes it.
    pub fn randomize<R: CellRenderer>(&mut self, renderer: &mut R) -> (draws: Vec<u32>)
        requires
            old(self).wf(),
        ensures
            draws.len() == BOARD_CELLS,
            final(self).wf(),
            final(self).live() == seeded(draws@),
            final(self).generation() == 0,
            final(self).speed() == old(self).speed(),
            final(self).state() == old(self).state(),
            releases_each(old(self).cells(), old(renderer).destroyed(), final(renderer).destroyed()),
            draws_each(final(self).cells(), old(renderer).created(), final(renderer).created()),
    {
        let mut draws: Vec<u32> = Vec::new();
        for i in 0..BOARD_CELLS
            invariant
                draws.len() == i,
        {
            draws.push(random_draw());
        }
        self.randomize_with(&draws, renderer);
        draws
    }

    /// Sets the tick rate. Fails, changing nothing, on a rate of zero.
    pub fn set_speed(&mut self, hz: u32) -> (r: Result<(), SimError>)
        requires
            old(self).wf(),
        ensures
            final(self).wf(),
            final(self).cells() == old(self).cells(),
            final(self).generation() == old(self).generation(),
            final(self).state() == old(self).state(),
            hz == 0 ==> r == Err::<(), SimError>(SimError::InvalidSpeed) && final(self).speed() == old(self).speed(),
            hz > 0 ==> r is Ok && final(self).speed() == hz,
            final(self).speed() > 0,
    {
        if hz == 0 {
            Err(SimError::InvalidSpeed)
        } else {
            self.speed = hz;
            Ok(())
        }
    }

    /// Sets the run mode; the board is left alone.
    pub fn set_state(&mut self, state: SimulationState)
        requires
            old(self).wf(),
        ensures
            final(self).wf(),
            final(self).cells() == old(self).cells(),
            final(self).generation() == old(self).generation(),
            final(self).speed() == old(self).speed(),
            final(self).state() == state,
    {
        self.state = state;
    }

    /// Starts a paused simulation and pauses a running one.
    pub fn toggle_state(&mut self)
        requires
            old(self).wf(),
        ensures
            final(self).wf(),
            final(self).cells() == old(self).cells(),
            final(self).generation() == old(self).generation(),
            final(self).speed() == old(self).speed(),
            old(self).state() == SimulationState::Running ==> final(self).state() == SimulationState::Paused,
            old(self).state() == SimulationState::Paused ==> final(self).state() == SimulationState::Running,
    {
        self.state = match self.state {
            SimulationState::Running => SimulationState::Paused,
            SimulationState::Paused => SimulationState::Running,
        };
    }

    /// Advances one generation: every cell is decided against the current
    /// generation first, then the births and deaths are applied together, and
    /// the generation counter goes up by one. Each dying cell's handle is
    /// handed to `renderer` once, each newborn cell is drawn once and keeps the
    /// handle it was drawn with, and surviving cells get no call.
    pub fn tick<R: CellRenderer>(&mut self, renderer: &mut R)
        requires
            old(self).wf(),
            old(self).generation() < u64::MAX,
        ensures
            final(self).wf(),
            ticked(*old(self), *final(self)),
            releases_each(
                old(self).cells().restrict(old(self).live().difference(final(self).live())),
                old(renderer).destroyed(),
                final(renderer).destroyed(),
            ),
            draws_each(
                final(self).cells().restrict(final(self).live().difference(old(self).live())),
                old(renderer).created(),
                final(renderer).created(),
            ),
    {
        proof {
            self.lemma_population_matches();
        }
        let (births, deaths) = self.plan_tick();
        let ghost before = self.cells();
        self.insert_cells(&births, renderer);
        let ghost middle = self.cells();
        assert forall|p: Position| #[trigger] deaths@.contains(p) implies self.live().contains(p) by {
            assert(before.contains_key(p));
        }
        self.remove_cells(&deaths, renderer);
        self.generation = self.generation + 1;
        let ghost after = self.cells();
        let ghost dying = old(self).live().difference(self.live());
        let ghost born = self.live().difference(old(self).live());
        assert forall|p: Position| #[trigger] self.live().contains(p) <==> next_generation(old(self).live()).contains(p) by {
            if before.contains_key(p) {
                assert(!births@.to_set().contains(p));
            } else {
                assert(!deaths@.to_set().contains(p));
            }
        }
        assert(self.live() =~= next_generation(old(self).live()));
        assert(births@.to_set() =~= born) by {
            assert forall|p: Position| #[trigger] born.contains(p) implies births@.to_set().contains(p) by {
                assert(middle.contains_key(p));
            }
            assert forall|p: Position| #[trigger] births@.to_set().contains(p) implies born.contains(p) by {
                assert(births@.contains(p));
            }
        }
        assert(deaths@.to_set() =~= dying) by {
            assert forall|p: Position| #[trigger] deaths@.to_set().contains(p) implies dying.contains(p) by {
                assert(deaths@.contains(p));
            }
        }
        assert(handles_of(deaths@, middle) =~= handles_of(deaths@, before.restrict(dying))) by {
            assert forall|t: int| 0 <= t < deaths@.len() implies middle[deaths@[t]] == before.restrict(dying)[deaths@[t]]
                by {
                assert(deaths@.contains(deaths@[t]));
            }
        }
        assert(before.restrict(dying).dom() =~= dying);
        assert(lists(deaths@, before.restrict(dying).dom()));
        assert(drawn_as(births@, middle) =~= drawn_as(births@, after.restrict(born))) by {
            assert forall|t: int| 0 <= t < births@.len() implies middle[births@[t]] == after.restrict(born)[births@[t]]
                by {
                assert(births@.contains(births@[t]));
                assert(!deaths@.to_set().contains(births@[t]));
            }
        }
        assert(after.restrict(born).dom() =~= born);
        assert(lists(births@, after.restrict(born).dom()));
        assert forall|p: Position| #[trigger] old(self).live().contains(p) && self.live().contains(p) implies self.cells()[p]
            == old(self).cells()[p] by {
            assert(!deaths@.to_set().contains(p));
        }
    }

    /// The births found so far: `births` holds, once each, exactly those dead
    /// cells among the positions whose keys are in `seen` that have three live
    /// neighbours.
    spec fn births_found(self, seen: Set<u64>, births: Seq<Position>) -> bool {
        &&& births.no_duplicates()
        &&& forall|p: Position| #[trigger] births.contains(p) ==> seen.contains(key_of(p)) && p.valid()
            && !self.live().contains(p) && alive_neighbours(self.live(), p) == 3
        &&& forall|q: Position| q.valid() && !self.live().contains(q) && #[trigger] seen.contains(key_of(q))
            && alive_neighbours(self.live(), q) == 3 ==> births.contains(q)
    }

    /// Looks at each dead neighbour of `pos` not looked at before, marks it in
    /// `seen` and records it in `births` if it has three live neighbours.
    fn scan_neighbours(&self, pos: Position, seen: &mut HashSet<u64>, births: &mut Vec<Position>)
        requires
            self.wf(),
            pos.valid(),
            self.births_found(old(seen)@, old(births)@),
        ensures
            self.births_found(final(seen)@, final(births)@),
            forall|k: u64| #[trigger] old(seen)@.contains(k) ==> final(seen)@.contains(k),
            forall|j: int| #![trigger pos.neighbour(j)] 0 <= j < 8 && !self.live().contains(pos.neighbour(j))
                ==> final(seen)@.contains(key_of(pos.neighbour(j))),
    {
        let nbs = pos.neighbours();
        for j in 0..8
            invariant
                self.wf(),
                pos.valid(),
                nbs@ == pos.neighbour_seq(),
                self.births_found(seen@, births@),
                forall|k: u64| #[trigger] old(seen)@.contains(k) ==> seen@.contains(k),
                forall|jj: int| #![trigger pos.neighbour(jj)] 0 <= jj < j && !self.live().contains(pos.neighbour(jj))
                    ==> seen@.contains(key_of(pos.neighbour(jj))),
        {
            let q = nbs[j];
            assert(q == pos.neighbour(j as int));
            proof {
                crate::board::lemma_wrap_valid(
                    pos.x + crate::board::offset(j as int).0,
                    pos.y + crate::board::offset(j as int).1,
                );
            }
            if !self.state_at_position(&q) {
                let kq = key(&q);
                if !seen.contains(&kq) {
                    let ghost seen0 = seen@;
                    let ghost births0 = births@;
                    seen.insert(kq);
                    let m = self.alive_neighbours_at_position(q);
                    if next_cell_state(false, m) {
                        assert(!births0.contains(q));
                        proof {
                            lemma_push_no_duplicates(births0, q);
                        }
                        births.push(q);
                    }
                    assert forall|p: Position| #[trigger] births@.contains(p) implies seen@.contains(key_of(p))
                        && p.valid() && !self.live().contains(p) && alive_neighbours(self.live(), p) == 3 by {
                        if p != q {
                            let t = choose|t: int| 0 <= t < births@.len() && births@[t] == p;
                            assert(births0[t] == p);
                            assert(births0.contains(p));
                            assert(seen0.contains(key_of(p)));
                        } else {
                            assert(seen@.contains(kq));
                        }
                    }
                    assert forall|q2: Position| q2.valid() && !self.live().contains(q2)
                        && #[trigger] seen@.contains(key_of(q2)) && alive_neighbours(self.live(), q2) == 3
                        implies births@.contains(q2) by {
                        if key_of(q2) == kq {
                            lemma_key_roundtrip(q2);
                            lemma_key_roundtrip(q);
                            assert(births@.last() == q);
                        } else {
                            assert(births0.contains(q2));
                            let t = choose|t: int| 0 <= t < births0.len() && births0[t] == q2;
                            assert(births@[t] == q2);
                        }
                    }
                }
            }
        }
    }

    /// Decides the next generation against the current one without changing
    /// anything: the dead cells to be born and the live cells to die, each
    /// once. Only live cells and their neighbours are looked at; every other
    /// cell is dead with no live neighbour and stays dead.
    #[verifier::rlimit(50)]
    fn plan_tick(&self) -> (r: (Vec<Position>, Vec<Position>))
        requires
            self.wf(),
        ensures
            forall|p: Position| #[trigger] r.0@.contains(p) <==> p.valid() && !self.live().contains(p)
                && alive_neighbours(self.live(), p) == 3,
            forall|p: Position| #[trigger] r.1@.contains(p) <==> self.live().contains(p)
                && !next_state(true, alive_neighbours(self.live(), p)),
            r.0@.no_duplicates(),
            r.1@.no_duplicates(),
    {
        let keys = self.live_keys();
        let mut seen: HashSet<u64> = HashSet::new();
        let mut births: Vec<Position> = Vec::new();
        let mut deaths: Vec<Position> = Vec::new();
        let ghost mut done = Set::<Position>::empty();
        for i in 0..keys.len()
            invariant
                self.wf(),
                keys@.to_set() == self.index@.dom(),
                keys@.no_duplicates(),
                forall|j: int| #![trigger keys@[j]] 0 <= j < i ==> done.contains(position_of(keys@[j])),
                forall|p: Position| #[trigger] done.contains(p) ==> self.live().contains(p) && exists|j: int|
                    #![trigger keys@[j]] 0 <= j < i && keys@[j] == key_of(p),
                forall|p: Position| #[trigger] deaths@.contains(p) <==> done.contains(p)
                    && !next_state(true, alive_neighbours(self.live(), p)),
                deaths@.no_duplicates(),
                self.births_found(seen@, births@),
                forall|p: Position, j: int| #![trigger done.contains(p), p.neighbour(j)] done.contains(p) && 0 <= j < 8
                    && !self.live().contains(p.neighbour(j)) ==> seen@.contains(key_of(p.neighbour(j))),
        {
            let k = keys[i];
            assert(keys@.to_set().contains(k));
            let pos = position(k);
            proof {
                lemma_position_roundtrip(k);
            }
            let n = self.alive_neighbours_at_position(pos);
            let ghost deaths0 = deaths@;
            assert(!done.contains(pos)) by {
                if done.contains(pos) {
                    let j = choose|j: int| #![trigger keys@[j]] 0 <= j < i && keys@[j] == key_of(pos);
                    assert(keys@[j] == keys@[i as int]);
                }
            }
            if !next_cell_state(true, n) {
                proof {
                    lemma_push_no_duplicates(deaths0, pos);
                }
                deaths.push(pos);
            }
            assert forall|p: Position| #[trigger] deaths@.contains(p) <==> done.insert(pos).contains(p)
                && !next_state(true, alive_neighbours(self.live(), p)) by {
                if deaths0.contains(p) {
                    let t = choose|t: int| 0 <= t < deaths0.len() && deaths0[t] == p;
                    assert(deaths@[t] == p);
                }
                if deaths@.contains(p) && p != pos {
                    let t = choose|t: int| 0 <= t < deaths@.len() && deaths@[t] == p;
                    assert(deaths0[t] == p);
                }
                if p == pos && !next_state(true, alive_neighbours(self.live(), p)) {
                    assert(deaths@.last() == p);
                }
            }
            let ghost seen0 = seen@;
            self.scan_neighbours(pos, &mut seen, &mut births);
            proof {
                done = done.insert(pos);
                assert(keys@[i as int] == key_of(pos));
            }
        }
        assert forall|p: Position| #[trigger] self.live().contains(p) implies done.contains(p) by {
            lemma_key_roundtrip(p);
            assert(keys@.to_set().contains(key_of(p)));
            let j = choose|j: int| 0 <= j < keys@.len() && keys@[j] == key_of(p);
            assert(done.contains(position_of(keys@[j])));
        }
        assert forall|q: Position| q.valid() && !self.live().contains(q) && alive_neighbours(self.live(), q) == 3
            implies #[trigger] births@.contains(q) by {
            lemma_count_witness(self.live(), q.neighbour_seq());
            let i = choose|i: int| 0 <= i < 8 && self.live().contains(#[trigger] q.neighbour_seq()[i]);
            let p = q.neighbour(i);
            lemma_neighbour_symmetric(q, i);
            let j = choose|j: int| 0 <= j < 8 && p.neighbour(j) == q;
            assert(done.contains(p));
            assert(seen@.contains(key_of(p.neighbour(j))));
        }
        (births, deaths)
    }

    /// The keys of the index, each once.
    fn live_keys(&self) -> (r: Vec<u64>)
        ensures
            r@.to_set() == self.index@.dom(),
            r@.no_duplicates(),
    {
        let mut r: Vec<u64> = Vec::new();
        for k in it: self.index.keys()
            invariant
                r@ == it.seq().unref().take(it.index()),
                it.seq().unref().to_set() == self.index@.dom(),
                it.seq().unref().no_duplicates(),
                r@.no_duplicates(),
                it.index() == it.seq().len() ==> r@.to_set() == self.index@.dom(),
        {
            r.push(*k);
            assert(r@ =~= it.seq().unref().take(it.index() + 1));
            assert(r@.no_duplicates()) by {
                assert forall|a: int, b: int| 0 <= a < b < r@.len() implies r@[a] != r@[b] by {
                    assert(r@[a] == it.seq().unref()[a] && r@[b] == it.seq().unref()[b]);
                }
            }
            assert(it.index() + 1 == it.seq().len() ==> r@ =~= it.seq().unref());
        }
        r
    }
}

impl Default for Simulation {
    fn default() -> (r: Simulation)
        ensures
            r.wf(),
            r.cells() == Map::<Position, u64>::empty(),
            r.population() == 0,
            r.generation() == 0,
            r.speed() == DEFAULT_SIMULATION_SPEED_HZ,
            r.state() == SimulationState::Paused,
    {
        Simulation::new()
    }
}

/// Two states agree on everything but the cells.
pub open spec fn same_settings(a: Simulation, b: Simulation) -> bool {
    &&& a.generation() == b.generation()
    &&& a.speed() == b.speed()
    &&& a.state() == b.state()
}

/// `b` is `a` with the cell at `pos` flipped: removed with its handle if it
/// was alive, added with a fresh handle if it was dead.
pub open spec fn toggled(a: Simulation, b: Simulation, pos: Position) -> bool {
    &&& same_settings(a, b)
    &&& if a.live().contains(pos) {
        b.cells() == a.cells().remove(pos)
    } else {
        b.cells() == a.cells().insert(pos, b.cells()[pos])
    }
}

/// `b` is the generation after `a`: its live set follows from `a`'s by the
/// Life rule, its generation counter is one higher, the settings are kept, and
/// every cell alive in both keeps its handle.
pub open spec fn ticked(a: Simulation, b: Simulation) -> bool {
    &&& b.live() == next_generation(a.live())
    &&& b.generation() == a.generation() + 1
    &&& b.speed() == a.speed()
    &&& b.state() == a.state()
    &&& forall|p: Position| #[trigger] a.live().contains(p) && b.live().contains(p) ==> b.cells()[p] == a.cells()[p]
}

/// A tick depends on the live set alone: two states with the same live cells
/// tick to the same live cells, each one generation further on.
pub proof fn lemma_tick_deterministic(a: Simulation, a2: Simulation, b: Simulation, b2: Simulation)
    requires
        a2.wf(),
        b2.wf(),
        ticked(a, a2),
        ticked(b, b2),
        a.live() == b.live(),
    ensures
        a2.live() == b2.live(),
        a2.population() == b2.population(),
        a2.generation() == a.generation() + 1,
        b2.generation() == b.generation() + 1,
{
    a2.lemma_population_matches();
    b2.lemma_population_matches();
}

/// After a tick, a cell that was alive is alive only if it had two or three
/// live neighbours: with none or one it dies of isolation, with four or more of
/// crowding.
pub proof fn lemma_tick_survival(a: Simulation, b: Simulation, p: Position)
    requires
        a.wf(),
        ticked(a, b),
        a.live().contains(p),
    ensures
        alive_neighbours(a.live(), p) < 2 ==> !b.live().contains(p),
        alive_neighbours(a.live(), p) > 3 ==> !b.live().contains(p),
        alive_neighbours(a.live(), p) == 2 || alive_neighbours(a.live(), p) == 3 ==> b.live().contains(p),
{
    a.lemma_population_matches();
}

/// After a tick, a cell that was dead is alive exactly when it had three live
/// neighbours.
pub proof fn lemma_tick_birth(a: Simulation, b: Simulation, p: Position)
    requires
        ticked(a, b),
        p.valid(),
        !a.live().contains(p),
    ensures
        b.live().contains(p) <==> alive_neighbours(a.live(), p) == 3,
{
}

/// Flipping a dead cell twice restores the cells, their handles and the
/// population.
pub proof fn lemma_toggle_twice(a: Simulation, b: Simulation, c: Simulation, pos: Position)
    requires
        a.wf(),
        b.wf(),
        c.wf(),
        !a.live().contains(pos),
        toggled(a, b, pos),
        toggled(b, c, pos),
    ensures
        c.cells() == a.cells(),
        c.live() == a.live(),
        c.population() == a.population(),
        same_settings(a, c),
{
    assert(b.live().contains(pos));
    assert(c.cells() =~= a.cells());
    a.lemma_population_matches();
    c.lemma_population_matches();
}

} // verus!
