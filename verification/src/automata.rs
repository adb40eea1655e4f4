//! The polymorphic stepping contract shared by the two automata.
//!
//! The render/control loop drives a world only through this trait: advance
//! a tick, query a cell, enumerate the tracked cells, count the live ones.
//! The two automaton kinds share no data, only this behavior shape.

use vstd::prelude::*;

use crate::ant::{ant_step_state, AntWorld};
use crate::grid::{alive_set, cell_alive, grid_keys_in_frame, lemma_set_then_get};
use crate::life::{step_grid, World};
use crate::loc::{loc_in_frame, Loc};

verus! {

/// What every automaton offers its control loop.
pub trait IWorld {
    /// The tracked cells.
    spec fn world_view(&self) -> Map<Loc, bool>;

    /// The automaton's internal well-formedness.
    spec fn inv(&self) -> bool;

    /// When a tick may run (machine limits on the coordinates).
    spec fn steppable(&self) -> bool;

    /// The tracked cells after one generation or tick from the current
    /// state.
    spec fn next_view(&self) -> Map<Loc, bool>;

    /// A blank world in the automaton's default state.
    fn new() -> (w: Self)
        where Self: Sized
        ensures
            w.inv(),
            w.world_view() == Map::<Loc, bool>::empty(),
    ;

    /// Aliveness of `loc`; absent locations are dead.
    fn get(&self, loc: &Loc) -> (b: bool)
        requires
            self.inv(),
        ensures
            b == cell_alive(self.world_view(), *loc),
    ;

    /// Sets the aliveness of `loc`; every other location's aliveness is
    /// untouched.
    fn set(&mut self, loc: &Loc, alive: bool)
        requires
            old(self).inv(),
            alive ==> loc_in_frame(*loc),
        ensures
            final(self).inv(),
            cell_alive(final(self).world_view(), *loc) == alive,
            forall|m: Loc|
                m != *loc ==> #[trigger] cell_alive(final(self).world_view(), m) == cell_alive(
                    old(self).world_view(),
                    m,
                ),
    ;

    /// All tracked cells, for enumeration by a renderer.
    fn current_buffer(&self) -> (r: &Vec<(Loc, bool)>)
        requires
            self.inv(),
        ensures
            forall|i: int| 0 <= i < r@.len() ==> self.world_view().contains_key(
                (#[trigger] r@[i]).0,
            ) && self.world_view()[r@[i].0] == r@[i].1,
            forall|l: Loc| #[trigger]
                self.world_view().contains_key(l) ==> exists|i: int|
                    0 <= i < r@.len() && (#[trigger] r@[i]).0 == l,
            forall|i: int, j: int| 0 <= i < j < r@.len() ==> (#[trigger] r@[i]).0 != (
            #[trigger] r@[j]).0,
    ;

    /// One generation or tick: the tracked cells become `next_view`.
    fn step(&mut self)
        requires
            old(self).inv(),
            old(self).steppable(),
        ensures
            final(self).inv(),
            final(self).world_view() == old(self).next_view(),
    ;

    /// How many tracked cells are alive; dead frontier entries do not
    /// count.
    fn pop_count(&self) -> (n: usize)
        requires
            self.inv(),
        ensures
            n == alive_set(self.world_view()).len(),
    ;
}

impl IWorld for World {
    open spec fn world_view(&self) -> Map<Loc, bool> {
        self@
    }

    open spec fn inv(&self) -> bool {
        self.wf()
    }

    open spec fn steppable(&self) -> bool {
        grid_keys_in_frame(self@)
    }

    open spec fn next_view(&self) -> Map<Loc, bool> {
        step_grid(self@, self.ruleset())
    }

    fn new() -> World {
        World::new()
    }

    fn get(&self, loc: &Loc) -> bool {
        World::get(self, loc)
    }

    fn set(&mut self, loc: &Loc, alive: bool) {
        let ghost g0 = self@;
        World::set(self, loc, alive);
        proof {
            lemma_set_then_get(g0, *loc, alive);
        }
    }

    fn current_buffer(&self) -> &Vec<(Loc, bool)> {
        World::current_buffer(self)
    }

    fn step(&mut self) {
        World::step(self)
    }

    fn pop_count(&self) -> usize {
        World::pop_count(self)
    }
}

impl IWorld for AntWorld {
    open spec fn world_view(&self) -> Map<Loc, bool> {
        self@
    }

    open spec fn inv(&self) -> bool {
        self.wf()
    }

    open spec fn steppable(&self) -> bool {
        loc_in_frame(self.position())
    }

    open spec fn next_view(&self) -> Map<Loc, bool> {
        ant_step_state(self@, self.position(), self.heading()).0
    }

    fn new() -> AntWorld {
        AntWorld::new()
    }

    fn get(&self, loc: &Loc) -> bool {
        AntWorld::get(self, loc)
    }

    fn set(&mut self, loc: &Loc, alive: bool) {
        AntWorld::set(self, loc, alive);
    }

    fn current_buffer(&self) -> &Vec<(Loc, bool)> {
        AntWorld::current_buffer(self)
    }

    fn step(&mut self) {
        AntWorld::step(self)
    }

    fn pop_count(&self) -> usize {
        AntWorld::pop_count(self)
    }
}

} // verus!
