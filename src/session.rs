use vstd::prelude::*;

use crate::coord::Coordinate;
use crate::grid::{AutomatonGrid, StepResult};
use crate::rules::{next_alive, next_gen};

verus! {

/// The phase of a simulation: cells are placed while editing; once running,
/// the grid only steps. The change from editing to running is one-way.
#[derive(Clone, Copy, Debug, PartialEq, Eq, Structural)]
pub enum Mode {
    Editing,
    Running,
}

/// A grid together with the phase that decides which operations apply.
pub struct Simulation<H> {
    grid: AutomatonGrid<H>,
    mode: Mode,
}

impl<H> Simulation<H> {
    pub closed spec fn spec_grid(&self) -> AutomatonGrid<H> {
        self.grid
    }

    pub closed spec fn spec_mode(&self) -> Mode {
        self.mode
    }

    pub open spec fn wf(&self) -> bool {
        self.spec_grid().wf()
    }

    /// An empty grid, in the editing phase.
    pub fn new() -> (r: Self)
        ensures
            r.wf(),
            r.spec_mode() == Mode::Editing,
            r.spec_grid()@ == Map::<Coordinate, Option<H>>::empty(),
    {
        Simulation { grid: AutomatonGrid::new(), mode: Mode::Editing }
    }

    pub fn mode(&self) -> (r: Mode)
        ensures
            r == self.spec_mode(),
    {
        self.mode
    }

    pub fn grid(&self) -> (r: &AutomatonGrid<H>)
        ensures
            *r == self.spec_grid(),
    {
        &self.grid
    }

    /// Places a live cell at `c` while editing. While running, or where `c`
    /// is already alive, nothing changes and the handle comes back.
    pub fn place(&mut self, c: Coordinate, handle: H) -> (r: Result<(), H>)
        requires
            old(self).wf(),
        ensures
            final(self).wf(),
            final(self).spec_mode() == old(self).spec_mode(),
            match r {
                Ok(()) => old(self).spec_mode() == Mode::Editing && !old(self).spec_grid()@.contains_key(c)
                    && final(self).spec_grid()@ == old(self).spec_grid()@.insert(c, Some(handle)),
                Err(h) => h == handle && final(self).spec_grid()@ == old(self).spec_grid()@
                    && (old(self).spec_mode() == Mode::Running || old(self).spec_grid()@.contains_key(c)),
            },
    {
        if self.mode == Mode::Running {
            return Err(handle);
        }
        match self.grid.insert(c, handle) {
            Ok(()) => Ok(()),
            Err(e) => Err(e.handle),
        }
    }

    /// Leaves the editing phase for good.
    pub fn start(&mut self)
        requires
            old(self).wf(),
        ensures
            final(self).wf(),
            final(self).spec_mode() == Mode::Running,
            final(self).spec_grid() == old(self).spec_grid(),
    {
        self.mode = Mode::Running;
    }

    /// One tick of the caller's timer: while running the grid steps once and
    /// the changes come back; while editing nothing happens.
    pub fn tick(&mut self) -> (r: Option<StepResult<H>>)
        requires
            old(self).wf(),
        ensures
            final(self).wf(),
            final(self).spec_mode() == old(self).spec_mode(),
            r is Some <==> old(self).spec_mode() == Mode::Running,
            r is Some ==> final(self).spec_grid().live() == next_gen(old(self).spec_grid().live()),
            r matches Some(s) ==> s.born@.no_duplicates() && forall|c: Coordinate| #[trigger] s.born@.contains(c)
                <==> (!old(self).spec_grid()@.contains_key(c) && next_alive(old(self).spec_grid().live(), c)),
            r matches Some(s) ==> s.died_coords().no_duplicates() && forall|c: Coordinate|
                #[trigger] s.died_coords().contains(c) <==> (old(self).spec_grid()@.contains_key(c)
                && !next_alive(old(self).spec_grid().live(), c)),
            r is None ==> final(self).spec_grid() == old(self).spec_grid(),
    {
        if self.mode == Mode::Editing {
            return None;
        }
        Some(self.grid.step())
    }

    /// Binds `handle` to the live cell at `c`, as after a birth; see
    /// `AutomatonGrid::set_handle`.
    pub fn set_handle(&mut self, c: Coordinate, handle: H) -> (r: Result<Option<H>, H>)
        requires
            old(self).wf(),
        ensures
            final(self).wf(),
            final(self).spec_mode() == old(self).spec_mode(),
            match r {
                Ok(h) => old(self).spec_grid()@.contains_key(c) && h == old(self).spec_grid()@[c]
                    && final(self).spec_grid()@ == old(self).spec_grid()@.insert(c, Some(handle)),
                Err(h) => !old(self).spec_grid()@.contains_key(c) && h == handle
                    && final(self).spec_grid()@ == old(self).spec_grid()@,
            },
    {
        self.grid.set_handle(c, handle)
    }
}

} // verus!
