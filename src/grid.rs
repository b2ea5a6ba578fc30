use std::collections::HashMap;
use std::collections::HashSet;

use vstd::prelude::*;
use vstd::std_specs::hash::obeys_key_model;

use crate::coord::{adjacent, key_of, lemma_keys_distinct, Coordinate};
use crate::rules::{
    lemma_live_neighbor_witness, live_neighbors, next_alive, next_gen, occupied, offset_rank, rank_dx, rank_dy,
};

verus! {

broadcast use vstd::std_specs::hash::group_hash_axioms;

/// A live cell: its position and the caller's handle for it, if one was given.
struct Cell<H> {
    coord: Coordinate,
    handle: Option<H>,
}

/// `insert` found the coordinate already alive; the rejected handle is given back.
pub struct AlreadyAlive<H> {
    pub handle: H,
}

/// What one generation changed: the cells that died, each with the handle it
/// held, and the coordinates that were born. Born cells hold no handle until
/// the caller binds one with `set_handle`.
pub struct StepResult<H> {
    pub died: Vec<(Coordinate, Option<H>)>,
    pub born: Vec<Coordinate>,
}

/// The sparse set of live cells of a Game of Life on the unbounded grid.
///
/// Cells are stored densely in `cells`; `index` maps the packed key of each
/// live coordinate to its slot in `cells`.
pub struct AutomatonGrid<H> {
    cells: Vec<Cell<H>>,
    index: HashMap<i128, usize>,
    generation: u64,
}

proof fn lemma_push_contains<T>(s: Seq<T>, x: T)
    ensures
        forall|d: T| #[trigger] s.push(x).contains(d) == (s.contains(d) || d == x),
{
    assert forall|d: T| #[trigger] s.push(x).contains(d) == (s.contains(d) || d == x) by {
        if s.contains(d) {
            let j = choose|j: int| 0 <= j < s.len() && s[j] == d;
            assert(s.push(x)[j] == d);
        }
        if d == x {
            assert(s.push(x)[s.len() as int] == d);
        }
    }
}

impl<H> StepResult<H> {
    /// The coordinates of the cells that died, in the order of `died`.
    pub open spec fn died_coords(&self) -> Seq<Coordinate> {
        self.died@.map_values(|p: (Coordinate, Option<H>)| p.0)
    }

    /// Whether the step changed nothing.
    pub fn is_empty(&self) -> (r: bool)
        ensures
            r == (self.died@.len() == 0 && self.born@.len() == 0),
    {
        self.died.len() == 0 && self.born.len() == 0
    }
}

impl<H> View for AutomatonGrid<H> {
    type V = Map<Coordinate, Option<H>>;

    /// Each live coordinate with its handle.
    closed spec fn view(&self) -> Map<Coordinate, Option<H>> {
        Map::new(
            |c: Coordinate| self.index@.contains_key(key_of(c)),
            |c: Coordinate| self.cells@[self.index@[key_of(c)] as int].handle,
        )
    }
}

impl<H> AutomatonGrid<H> {
    /// `index` and `cells` describe each other: every slot is indexed under
    /// its own coordinate's key, and every key leads to a slot that holds it.
    pub closed spec fn wf(&self) -> bool {
        &&& forall|i: int|
            0 <= i < self.cells@.len() ==> #[trigger] self.index@.contains_key(
                key_of(self.cells@[i].coord),
            ) && self.index@[key_of(self.cells@[i].coord)] == i
        &&& forall|k: i128|
            #[trigger] self.index@.contains_key(k) ==> {
                &&& (self.index@[k] as int) < self.cells@.len()
                &&& key_of(self.cells@[self.index@[k] as int].coord) == k
            }
    }

    /// The live coordinates.
    pub open spec fn live(&self) -> Set<Coordinate> {
        self@.dom()
    }

    pub closed spec fn spec_generation(&self) -> u64 {
        self.generation
    }

    proof fn lemma_view_slot(&self, c: Coordinate)
        requires
            self.wf(),
            self@.contains_key(c),
        ensures
            0 <= self.index@[key_of(c)] < self.cells@.len(),
            self.cells@[self.index@[key_of(c)] as int].coord == c,
            self@[c] == self.cells@[self.index@[key_of(c)] as int].handle,
    {
        lemma_keys_distinct();
        let k = key_of(c);
        assert(self.index@.contains_key(k));
    }

    /// An empty grid at generation 0.
    pub fn new() -> (r: Self)
        ensures
            r.wf(),
            r@ == Map::<Coordinate, Option<H>>::empty(),
            r.spec_generation() == 0,
    {
        let r = AutomatonGrid { cells: Vec::new(), index: HashMap::new(), generation: 0 };
        assert(r@ =~= Map::<Coordinate, Option<H>>::empty());
        r
    }

    /// The number of completed steps.
    pub fn generation(&self) -> (r: u64)
        ensures
            r == self.spec_generation(),
    {
        self.generation
    }

    /// The number of live cells.
    pub fn len(&self) -> (r: usize)
        requires
            self.wf(),
        ensures
            r == self.live().len(),
    {
        proof { self.lemma_live_len(); }
        self.cells.len()
    }

    proof fn lemma_live_len(&self)
        requires
            self.wf(),
        ensures
            self.live().finite(),
            self.live().len() == self.cells@.len(),
    {
        lemma_keys_distinct();
        let coords = self.cells@.map_values(|c: Cell<H>| c.coord);
        assert forall|i: int, j: int| 0 <= i < coords.len() && 0 <= j < coords.len() && i != j
            implies coords[i] != coords[j] by {
            assert(self.index@.contains_key(key_of(self.cells@[i].coord)));
            assert(self.index@.contains_key(key_of(self.cells@[j].coord)));
            assert(coords[i] == self.cells@[i].coord && coords[j] == self.cells@[j].coord);
        }
        assert(coords.no_duplicates());
        assert forall|c: Coordinate| #[trigger] self.live().contains(c) == coords.contains(c) by {
            if self.live().contains(c) {
                self.lemma_view_slot(c);
                assert(coords[self.index@[key_of(c)] as int] == c);
            }
            if coords.contains(c) {
                let i = choose|i: int| 0 <= i < coords.len() && coords[i] == c;
                assert(self.index@.contains_key(key_of(self.cells@[i].coord)));
            }
        }
        assert(self.live() =~= coords.to_set());
        coords.unique_seq_to_set();
    }

    /// Adds a cell at a dead coordinate.
    fn add_cell(&mut self, c: Coordinate, handle: Option<H>)
        requires
            old(self).wf(),
            !old(self)@.contains_key(c),
        ensures
            final(self).wf(),
            final(self)@ == old(self)@.insert(c, handle),
            final(self).generation == old(self).generation,
    {
        proof { lemma_keys_distinct(); assert(obeys_key_model::<i128>()); }
        let slot = self.cells.len();
        self.index.insert(c.key(), slot);
        self.cells.push(Cell { coord: c, handle });
        let ghost pre = *old(self);
        assert forall|i: int| 0 <= i < self.cells@.len() implies #[trigger] self.index@.contains_key(
            key_of(self.cells@[i].coord)) && self.index@[key_of(self.cells@[i].coord)] == i by {
            if i < slot {
                assert(pre.index@.contains_key(key_of(pre.cells@[i].coord)));
            }
        }
        assert forall|k: i128| #[trigger] self.index@.contains_key(k) implies
            (self.index@[k] as int) < self.cells@.len()
            && key_of(self.cells@[self.index@[k] as int].coord) == k by {
            if k != key_of(c) {
                assert(pre.index@.contains_key(k));
            }
        }
        assert forall|d: Coordinate| #[trigger] self@.contains_key(d) == pre@.insert(c, handle).contains_key(d)
            by {}
        assert forall|d: Coordinate| self@.contains_key(d) implies #[trigger] self@[d] == pre@.insert(c, handle)[d]
            by {
            if d != c {
                assert(pre.index@.contains_key(key_of(d)));
            }
        }
        assert(self@ =~= pre@.insert(c, handle));
    }

    /// Takes the cell at slot `slot` out of the grid.
    fn take_slot(&mut self, slot: usize) -> (r: Cell<H>)
        requires
            old(self).wf(),
            slot < old(self).cells@.len(),
        ensures
            final(self).wf(),
            old(self)@.contains_key(r.coord),
            r.coord == old(self).cells@[slot as int].coord,
            r.handle == old(self)@[r.coord],
            final(self)@ == old(self)@.remove(r.coord),
            final(self).generation == old(self).generation,
    {
        proof { lemma_keys_distinct(); assert(obeys_key_model::<i128>()); }
        let ghost pre = *old(self);
        let ghost gone = self.cells@[slot as int].coord;
        proof {
            assert(pre.index@.contains_key(key_of(pre.cells@[slot as int].coord)));
        }
        let last = self.cells.len() - 1;
        let cell = self.cells.swap_remove(slot);
        self.index.remove(&cell.coord.key());
        if slot < last {
            let moved = self.cells[slot].coord.key();
            proof {
                assert(pre.index@.contains_key(key_of(pre.cells@[last as int].coord)));
            }
            self.index.insert(moved, slot);
        }
        assert forall|i: int| 0 <= i < self.cells@.len() implies #[trigger] self.index@.contains_key(
            key_of(self.cells@[i].coord)) && self.index@[key_of(self.cells@[i].coord)] == i by {
            if i != slot {
                assert(pre.index@.contains_key(key_of(pre.cells@[i].coord)));
            } else {
                assert(pre.index@.contains_key(key_of(pre.cells@[last as int].coord)));
            }
        }
        assert forall|k: i128| #[trigger] self.index@.contains_key(k) implies
            (self.index@[k] as int) < self.cells@.len()
            && key_of(self.cells@[self.index@[k] as int].coord) == k by {
            assert(pre.index@.contains_key(k));
        }
        assert forall|d: Coordinate| #[trigger] self@.contains_key(d) == pre@.remove(gone).contains_key(d)
            by {
            if pre@.contains_key(d) && d != gone {
                pre.lemma_view_slot(d);
            }
        }
        assert forall|d: Coordinate| self@.contains_key(d) implies #[trigger] self@[d] == pre@.remove(gone)[d]
            by {
            pre.lemma_view_slot(d);
        }
        assert(self@ =~= pre@.remove(gone));
        proof { pre.lemma_view_slot(gone); }
        cell
    }

    /// Makes `c` alive with `handle`; fails, handing the handle back, where
    /// `c` is already alive. No other cell is touched.
    pub fn insert(&mut self, c: Coordinate, handle: H) -> (r: Result<(), AlreadyAlive<H>>)
        requires
            old(self).wf(),
        ensures
            final(self).wf(),
            final(self)@.contains_key(c),
            final(self).spec_generation() == old(self).spec_generation(),
            match r {
                Ok(()) => !old(self)@.contains_key(c) && final(self)@ == old(self)@.insert(c, Some(handle)),
                Err(e) => old(self)@.contains_key(c) && final(self)@ == old(self)@ && e.handle == handle,
            },
    {
        if self.is_alive(c) {
            return Err(AlreadyAlive { handle });
        }
        self.add_cell(c, Some(handle));
        Ok(())
    }

    /// Kills the cell at `c`, returning the handle it held (itself `None`
    /// for a born cell never given one); `None` where `c` was already dead.
    pub fn remove(&mut self, c: Coordinate) -> (r: Option<Option<H>>)
        requires
            old(self).wf(),
        ensures
            final(self).wf(),
            !final(self)@.contains_key(c),
            final(self).spec_generation() == old(self).spec_generation(),
            match r {
                Some(h) => old(self)@.contains_key(c) && h == old(self)@[c] && final(self)@ == old(self)@.remove(c),
                None => !old(self)@.contains_key(c) && final(self)@ == old(self)@,
            },
    {
        proof { assert(obeys_key_model::<i128>()); }
        let slot = match self.index.get(&c.key()) {
            Some(s) => *s,
            None => return None,
        };
        proof { self.lemma_view_slot(c); }
        let cell = self.take_slot(slot);
        Some(cell.handle)
    }

    /// Binds `handle` to the live cell at `c`, returning the handle it held
    /// before; where `c` is dead, nothing changes and `handle` comes back.
    pub fn set_handle(&mut self, c: Coordinate, handle: H) -> (r: Result<Option<H>, H>)
        requires
            old(self).wf(),
        ensures
            final(self).wf(),
            final(self).spec_generation() == old(self).spec_generation(),
            match r {
                Ok(h) => old(self)@.contains_key(c) && h == old(self)@[c] && final(self)@ == old(self)@.insert(c, Some(handle)),
                Err(h) => !old(self)@.contains_key(c) && final(self)@ == old(self)@ && h == handle,
            },
    {
        proof { assert(obeys_key_model::<i128>()); lemma_keys_distinct(); }
        let slot = match self.index.get(&c.key()) {
            Some(s) => *s,
            None => return Err(handle),
        };
        let ghost pre = *old(self);
        proof { pre.lemma_view_slot(c); }
        let mut h = Some(handle);
        std::mem::swap(&mut self.cells[slot].handle, &mut h);
        assert forall|i: int| 0 <= i < self.cells@.len() implies #[trigger] self.index@.contains_key(
            key_of(self.cells@[i].coord)) && self.index@[key_of(self.cells@[i].coord)] == i by {
            assert(pre.index@.contains_key(key_of(pre.cells@[i].coord)));
        }
        assert forall|d: Coordinate| self@.contains_key(d) implies #[trigger] self@[d] == pre@.insert(c, Some(handle))[d]
            by {
            pre.lemma_view_slot(d);
        }
        assert(self@ =~= pre@.insert(c, Some(handle)));
        Ok(h)
    }

    /// 1 where the cell at offset `(dx, dy)` from `c` is alive, else 0.
    fn occupied_at(&self, c: Coordinate, dx: i64, dy: i64) -> (r: u8)
        requires
            self.wf(),
            -1 <= dx <= 1,
            -1 <= dy <= 1,
        ensures
            r == occupied(self@.dom(), c.x + dx, c.y + dy),
    {
        match c.offset(dx, dy) {
            Some(d) => if self.is_alive(d) {
                1
            } else {
                0
            },
            None => 0,
        }
    }

    /// The number of live cells among the eight around `c`.
    pub fn count_cell_neighbors(&self, c: Coordinate) -> (r: u8)
        requires
            self.wf(),
        ensures
            r == live_neighbors(self@.dom(), c),
    {
        self.occupied_at(c, -1, -1) + self.occupied_at(c, 0, -1) + self.occupied_at(c, 1, -1)
            + self.occupied_at(c, -1, 0) + self.occupied_at(c, 1, 0)
            + self.occupied_at(c, -1, 1) + self.occupied_at(c, 0, 1) + self.occupied_at(c, 1, 1)
    }

    /// The dead cells among the eight around `c`, each once.
    pub fn get_dead_cells(&self, c: Coordinate) -> (r: Vec<Coordinate>)
        requires
            self.wf(),
        ensures
            r@.no_duplicates(),
            forall|d: Coordinate| #[trigger] r@.contains(d) <==> (adjacent(c, d) && !self@.contains_key(d)),
    {
        let mut out: Vec<Coordinate> = Vec::new();
        let mut k: i64 = 0;
        while k < 8
            invariant
                self.wf(),
                0 <= k <= 8,
                out@.no_duplicates(),
                forall|d: Coordinate| #[trigger] out@.contains(d) <==> (adjacent(c, d) && !self@.contains_key(d)
                    && offset_rank(d.x - c.x, d.y - c.y) < k),
            decreases 8 - k,
        {
            let t: i64 = if k >= 4 { k + 1 } else { k };
            let dx: i64 = t % 3 - 1;
            let dy: i64 = t / 3 - 1;
            assert(dx == rank_dx(k as int) && dy == rank_dy(k as int));
            assert(offset_rank(dx as int, dy as int) == k);
            let ghost before = out@;
            let ghost added: Option<Coordinate> = None;
            match c.offset(dx, dy) {
                Some(d) => {
                    if !self.is_alive(d) {
                        assert(!before.contains(d));
                        out.push(d);
                        proof { added = Some(d); }
                    }
                },
                None => {},
            }
            assert(added is None ==> out@ == before);
            assert(added matches Some(a) ==> out@ == before.push(a) && a.x == c.x + dx && a.y == c.y + dy);
            assert forall|d: Coordinate| #[trigger] out@.contains(d) <==> (adjacent(c, d) && !self@.contains_key(d)
                && offset_rank(d.x - c.x, d.y - c.y) < k + 1) by {
                if before.contains(d) {
                    let j = choose|j: int| 0 <= j < before.len() && before[j] == d;
                    assert(out@[j] == d);
                }
                if added == Some(d) {
                    assert(out@[out@.len() - 1] == d);
                }
                if out@.contains(d) && !before.contains(d) {
                    let j = choose|j: int| 0 <= j < out@.len() && out@[j] == d;
                    assert(j == before.len());
                }
                if adjacent(c, d) && offset_rank(d.x - c.x, d.y - c.y) == k {
                    assert(d.x - c.x == dx && d.y - c.y == dy);
                }
            }
            k = k + 1;
        }
        out
    }

    /// The live cells that the next generation loses: those with other than
    /// 2 or 3 live neighbors. Reads the grid only.
    fn dying_cells(&self) -> (r: Vec<Coordinate>)
        requires
            self.wf(),
        ensures
            r@.no_duplicates(),
            forall|d: Coordinate| #[trigger] r@.contains(d) <==> (self@.contains_key(d) && !next_alive(self@.dom(), d)),
    {
        let mut out: Vec<Coordinate> = Vec::new();
        let n = self.cells.len();
        let mut i: usize = 0;
        while i < n
            invariant
                self.wf(),
                n == self.cells@.len(),
                0 <= i <= n,
                out@.no_duplicates(),
                forall|q: int| 0 <= q < out@.len() ==> self@.contains_key(#[trigger] out@[q])
                    && !next_alive(self@.dom(), out@[q]) && self.index@[key_of(out@[q])] < i,
                forall|j: int| 0 <= j < i && !next_alive(self@.dom(), #[trigger] self.cells@[j].coord)
                    ==> out@.contains(self.cells@[j].coord),
            decreases n - i,
        {
            let c = self.cells[i].coord;
            proof {
                assert(self.index@.contains_key(key_of(self.cells@[i as int].coord)));
                assert(self@.contains_key(c));
            }
            let count = self.count_cell_neighbors(c);
            let ghost before = out@;
            if count < 2 || count > 3 {
                proof {
                    assert forall|q: int| 0 <= q < before.len() implies before[q] != c by {
                        assert(self.index@[key_of(before[q])] < i);
                    }
                }
                out.push(c);
                proof {
                    assert forall|j: int| 0 <= j < i && before.contains(self.cells@[j].coord)
                        implies out@.contains(self.cells@[j].coord) by {
                        let q = choose|q: int| 0 <= q < before.len() && before[q] == self.cells@[j].coord;
                        assert(out@[q] == before[q]);
                    }
                    assert(out@[out@.len() - 1] == c);
                }
            }
            i = i + 1;
        }
        proof {
            assert forall|d: Coordinate| #[trigger] out@.contains(d) <==> (self@.contains_key(d)
                && !next_alive(self@.dom(), d)) by {
                if self@.contains_key(d) {
                    self.lemma_view_slot(d);
                    let j = self.index@[key_of(d)] as int;
                    assert(self.cells@[j].coord == d);
                }
                if out@.contains(d) {
                    let q = choose|q: int| 0 <= q < out@.len() && out@[q] == d;
                }
            }
        }
        out
    }

    /// The dead cells that the next generation gains: those with exactly 3
    /// live neighbors, each listed once though several live cells reach it.
    /// Reads the grid only.
    fn born_cells(&self) -> (r: Vec<Coordinate>)
        requires
            self.wf(),
        ensures
            r@.no_duplicates(),
            forall|d: Coordinate| #[trigger] r@.contains(d) <==> (!self@.contains_key(d)
                && live_neighbors(self@.dom(), d) == 3),
    {
        proof { assert(obeys_key_model::<i128>()); lemma_keys_distinct(); }
        let mut out: Vec<Coordinate> = Vec::new();
        let mut seen: HashSet<i128> = HashSet::new();
        let n = self.cells.len();
        let mut i: usize = 0;
        while i < n
            invariant
                self.wf(),
                n == self.cells@.len(),
                0 <= i <= n,
                out@.no_duplicates(),
                forall|q: int| 0 <= q < out@.len() ==> !self@.contains_key(#[trigger] out@[q])
                    && live_neighbors(self@.dom(), out@[q]) == 3 && seen@.contains(key_of(out@[q])),
                forall|d: Coordinate| seen@.contains(#[trigger] key_of(d)) && !self@.contains_key(d)
                    && live_neighbors(self@.dom(), d) == 3 ==> out@.contains(d),
                forall|j: int, d: Coordinate| 0 <= j < i && #[trigger] adjacent(self.cells@[j].coord, d)
                    && !self@.contains_key(d) ==> seen@.contains(key_of(d)),
            decreases n - i,
        {
            let c = self.cells[i].coord;
            let dead = self.get_dead_cells(c);
            let mut t: usize = 0;
            while t < dead.len()
                invariant
                    self.wf(),
                    n == self.cells@.len(),
                    0 <= i < n,
                    c == self.cells@[i as int].coord,
                    0 <= t <= dead@.len(),
                    out@.no_duplicates(),
                    forall|q: int| 0 <= q < out@.len() ==> !self@.contains_key(#[trigger] out@[q])
                        && live_neighbors(self@.dom(), out@[q]) == 3 && seen@.contains(key_of(out@[q])),
                    forall|d: Coordinate| seen@.contains(#[trigger] key_of(d)) && !self@.contains_key(d)
                        && live_neighbors(self@.dom(), d) == 3 ==> out@.contains(d),
                    forall|j: int, d: Coordinate| 0 <= j < i && #[trigger] adjacent(self.cells@[j].coord, d)
                        && !self@.contains_key(d) ==> seen@.contains(key_of(d)),
                    forall|u: int| 0 <= u < t ==> seen@.contains(key_of(#[trigger] dead@[u])),
                    forall|d: Coordinate| #[trigger] dead@.contains(d) <==> (adjacent(c, d) && !self@.contains_key(d)),
                decreases dead@.len() - t,
            {
                let d = dead[t];
                proof { assert(dead@.contains(d)); }
                let k = d.key();
                if !seen.contains(&k) {
                    let ghost before = out@;
                    seen.insert(k);
                    if self.count_cell_neighbors(d) == 3 {
                        proof {
                            assert forall|q: int| 0 <= q < before.len() implies before[q] != d by {
                                assert(seen@.contains(key_of(before[q])));
                            }
                        }
                        out.push(d);
                        proof {
                            assert forall|e: Coordinate| before.contains(e) implies #[trigger] out@.contains(e) by {
                                let q = choose|q: int| 0 <= q < before.len() && before[q] == e;
                                assert(out@[q] == before[q]);
                            }
                            assert(out@[out@.len() - 1] == d);
                        }
                    }
                }
                t = t + 1;
            }
            proof {
                assert forall|j: int, d: Coordinate| 0 <= j < i + 1 && #[trigger] adjacent(self.cells@[j].coord, d)
                    && !self@.contains_key(d) implies seen@.contains(key_of(d)) by {
                    if j == i {
                        assert(dead@.contains(d));
                        let u = choose|u: int| 0 <= u < dead@.len() && dead@[u] == d;
                        assert(seen@.contains(key_of(dead@[u])));
                    }
                }
            }
            i = i + 1;
        }
        proof {
            assert forall|d: Coordinate| #[trigger] out@.contains(d) <==> (!self@.contains_key(d)
                && live_neighbors(self@.dom(), d) == 3) by {
                if !self@.contains_key(d) && live_neighbors(self@.dom(), d) == 3 {
                    lemma_live_neighbor_witness(self@.dom(), d);
                    let l = choose|l: Coordinate| self@.dom().contains(l) && #[trigger] adjacent(l, d);
                    self.lemma_view_slot(l);
                    let j = self.index@[key_of(l)] as int;
                    assert(adjacent(self.cells@[j].coord, d));
                }
                if out@.contains(d) {
                    let q = choose|q: int| 0 <= q < out@.len() && out@[q] == d;
                }
            }
        }
        out
    }

    /// Advances the grid by one generation of Conway's Game of Life. The next
    /// generation is computed from the current one alone before anything
    /// changes; surviving cells keep their handles, born cells hold none.
    /// Returns the cells that died, with their handles, and those born. The
    /// generation counter goes up by one, and stays at `u64::MAX` once there.
    pub fn step(&mut self) -> (r: StepResult<H>)
        requires
            old(self).wf(),
        ensures
            final(self).wf(),
            final(self).live() == next_gen(old(self).live()),
            forall|c: Coordinate| #[trigger] final(self)@.contains_key(c) ==> final(self)@[c] == (
                if old(self)@.contains_key(c) {
                    old(self)@[c]
                } else {
                    None
                }),
            r.born@.no_duplicates(),
            forall|c: Coordinate| #[trigger] r.born@.contains(c) <==> (!old(self)@.contains_key(c)
                && next_alive(old(self).live(), c)),
            r.died_coords().no_duplicates(),
            forall|c: Coordinate| #[trigger] r.died_coords().contains(c) <==> (old(self)@.contains_key(c)
                && !next_alive(old(self).live(), c)),
            forall|i: int| 0 <= i < r.died@.len() ==> old(self)@.contains_key(r.died@[i].0)
                && #[trigger] r.died@[i].1 == old(self)@[r.died@[i].0],
            final(self).spec_generation() == if old(self).spec_generation() < u64::MAX {
                (old(self).spec_generation() + 1) as u64
            } else {
                old(self).spec_generation()
            },
    {
        let dying = self.dying_cells();
        let born = self.born_cells();
        let ghost pre = self@;
        let ghost gen = self.generation;
        let mut died: Vec<(Coordinate, Option<H>)> = Vec::new();
        let mut q: usize = 0;
        while q < dying.len()
            invariant
                self.wf(),
                self.generation == gen,
                0 <= q <= dying@.len(),
                dying@.no_duplicates(),
                forall|d: Coordinate| #[trigger] dying@.contains(d) <==> (pre.contains_key(d)
                    && !next_alive(pre.dom(), d)),
                died@.len() == q,
                forall|i: int| 0 <= i < q ==> (#[trigger] died@[i]).0 == dying@[i] && pre.contains_key(dying@[i])
                    && died@[i].1 == pre[dying@[i]],
                forall|d: Coordinate| #[trigger] self@.contains_key(d) == (pre.contains_key(d)
                    && !dying@.subrange(0, q as int).contains(d)),
                forall|d: Coordinate| self@.contains_key(d) ==> #[trigger] self@[d] == pre[d],
            decreases dying@.len() - q,
        {
            let c = dying[q];
            proof {
                assert(dying@.contains(c));
                if dying@.subrange(0, q as int).contains(c) {
                    let i = choose|i: int| 0 <= i < q && dying@.subrange(0, q as int)[i] == c;
                    assert(dying@[i] == dying@[q as int]);
                }
                assert(dying@.subrange(0, q + 1) =~= dying@.subrange(0, q as int).push(c));
                lemma_push_contains(dying@.subrange(0, q as int), c);
            }
            match self.remove(c) {
                Some(h) => {
                    died.push((c, h));
                },
                None => {
                    assert(false);
                },
            }
            q = q + 1;
        }
        proof {
            assert(dying@.subrange(0, dying@.len() as int) =~= dying@);
        }
        let mut q: usize = 0;
        while q < born.len()
            invariant
                self.wf(),
                self.generation == gen,
                0 <= q <= born@.len(),
                born@.no_duplicates(),
                forall|d: Coordinate| #[trigger] born@.contains(d) <==> (!pre.contains_key(d)
                    && live_neighbors(pre.dom(), d) == 3),
                forall|d: Coordinate| #[trigger] dying@.contains(d) <==> (pre.contains_key(d)
                    && !next_alive(pre.dom(), d)),
                forall|d: Coordinate| #[trigger] self@.contains_key(d) == ((pre.contains_key(d)
                    && !dying@.contains(d)) || born@.subrange(0, q as int).contains(d)),
                forall|d: Coordinate| self@.contains_key(d) ==> #[trigger] self@[d] == (if pre.contains_key(d) {
                    pre[d]
                } else {
                    None
                }),
            decreases born@.len() - q,
        {
            let c = born[q];
            proof {
                assert(born@.contains(c));
                if born@.subrange(0, q as int).contains(c) {
                    let i = choose|i: int| 0 <= i < q && born@.subrange(0, q as int)[i] == c;
                    assert(born@[i] == born@[q as int]);
                }
                assert(born@.subrange(0, q + 1) =~= born@.subrange(0, q as int).push(c));
                lemma_push_contains(born@.subrange(0, q as int), c);
            }
            self.add_cell(c, None);
            q = q + 1;
        }
        proof {
            assert(born@.subrange(0, born@.len() as int) =~= born@);
            assert(self.live() =~= next_gen(pre.dom()));
            let coords = died@.map_values(|p: (Coordinate, Option<H>)| p.0);
            assert(coords =~= dying@);
        }
        if self.generation < u64::MAX {
            self.generation = self.generation + 1;
        }
        StepResult { died, born }
    }

    /// The live coordinates, each once, in no particular order.
    pub fn live_cells(&self) -> (r: Vec<Coordinate>)
        requires
            self.wf(),
        ensures
            r@.no_duplicates(),
            forall|c: Coordinate| #[trigger] r@.contains(c) <==> self@.contains_key(c),
    {
        proof { lemma_keys_distinct(); }
        let mut out: Vec<Coordinate> = Vec::new();
        let n = self.cells.len();
        let mut i: usize = 0;
        while i < n
            invariant
                self.wf(),
                n == self.cells@.len(),
                0 <= i <= n,
                out@.len() == i,
                forall|j: int| 0 <= j < i ==> #[trigger] out@[j] == self.cells@[j].coord,
            decreases n - i,
        {
            out.push(self.cells[i].coord);
            i = i + 1;
        }
        proof {
            assert forall|a: int, b: int| 0 <= a < b < out@.len() implies out@[a] != out@[b] by {
                assert(self.index@.contains_key(key_of(self.cells@[a].coord)));
                assert(self.index@.contains_key(key_of(self.cells@[b].coord)));
            }
            assert forall|c: Coordinate| #[trigger] out@.contains(c) <==> self@.contains_key(c) by {
                if self@.contains_key(c) {
                    self.lemma_view_slot(c);
                    assert(out@[self.index@[key_of(c)] as int] == c);
                }
                if out@.contains(c) {
                    let j = choose|j: int| 0 <= j < out@.len() && out@[j] == c;
                    assert(self.index@.contains_key(key_of(self.cells@[j].coord)));
                }
            }
        }
        out
    }

    /// Whether `c` holds a live cell.
    pub fn is_alive(&self, c: Coordinate) -> (r: bool)
        requires
            self.wf(),
        ensures
            r == self@.contains_key(c),
    {
        proof { assert(obeys_key_model::<i128>()); }
        self.index.contains_key(&c.key())
    }
}

} // verus!
