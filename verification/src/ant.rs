//! Langton's Ant: a single walker on a sparse grid.
//!
//! The ant sits at `position` facing `heading` degrees (0, 90, 180 or 270).
//! Each tick it reads the cell under it: on a live cell it turns −90°,
//! kills the cell and moves; on a dead cell it turns +90°, revives the cell
//! and moves. Movement is one cell along the new heading. The ant never
//! inspects neighbors, so its grid needs no frontier seeding.

use vstd::prelude::*;

use crate::config::ConfigParseError;
use crate::grid::{alive_set, cell_alive, is_alive, SparseGrid};
use crate::loc::{loc_in_frame, Loc};

verus! {

/// The unit movement vector for a heading, as (row offset, col offset).
/// Any heading outside {0, 90, 180, 270} is unreachable under correct
/// operation and defensively yields no movement.
pub open spec fn spec_moves(angle: int) -> (int, int) {
    if angle == 0 {
        (0, 1)
    } else if angle == 90 {
        (1, 0)
    } else if angle == 180 {
        (0, -1)
    } else if angle == 270 {
        (-1, 0)
    } else {
        (0, 0)
    }
}

/// The heading after one tick on a cell with aliveness `alive`: −90° on a
/// live cell, +90° on a dead one, normalized into [0, 360).
pub open spec fn spec_turn(angle: int, alive: bool) -> int {
    if alive {
        (angle + 270) % 360
    } else {
        (angle + 90) % 360
    }
}

/// The complete tick: the grid, position and heading after one step from
/// the given state. The cell under the ant is flipped, the heading turns
/// by the old cell's state, and the position moves along the new heading.
pub open spec fn ant_step_state(g: Map<Loc, bool>, p: Loc, a: int) -> (Map<Loc, bool>, Loc, int) {
    let alive = cell_alive(g, p);
    let a2 = spec_turn(a, alive);
    let mv = spec_moves(a2);
    (
        g.insert(p, !alive),
        Loc { row: (p.row + mv.0) as i64, col: (p.col + mv.1) as i64 },
        a2,
    )
}

/// Langton's ant moves: the unit vector for a heading in degrees.
fn moves(angle: i32) -> (r: (i64, i64))
    ensures
        r.0 == spec_moves(angle as int).0,
        r.1 == spec_moves(angle as int).1,
{
    match angle {
        0 => (0, 1),
        90 => (1, 0),
        180 => (0, -1),
        270 => (-1, 0),
        _ => (0, 0),
    }
}

/// Langton's Ant automaton: one grid, the walker's position and heading.
#[derive(Debug)]
pub struct AntWorld {
    grid: SparseGrid,
    machine: Loc,
    angle: i32,
}

impl View for AntWorld {
    type V = Map<Loc, bool>;

    /// The tracked cells.
    closed spec fn view(&self) -> Map<Loc, bool> {
        self.grid@
    }
}

impl AntWorld {
    /// The grid is well formed and the heading is one of the four cardinal
    /// values.
    pub closed spec fn wf(self) -> bool {
        &&& self.grid.wf()
        &&& (self.angle == 0 || self.angle == 90 || self.angle == 180 || self.angle == 270)
    }

    /// Where the walker stands.
    pub closed spec fn position(self) -> Loc {
        self.machine
    }

    /// The walker's heading in degrees.
    pub closed spec fn heading(self) -> int {
        self.angle as int
    }

    /// A blank world with the walker at the origin heading 90°.
    pub fn new() -> (w: AntWorld)
        ensures
            w.wf(),
            w@ == Map::<Loc, bool>::empty(),
            w.position() == (Loc { row: 0, col: 0 }),
            w.heading() == 90,
    {
        AntWorld { grid: SparseGrid::new(), machine: Loc::new(0, 0), angle: 90 }
    }

    /// A blank world in the initial state; never fails.
    pub fn from_blank_state() -> (r: Result<AntWorld, ConfigParseError>)
        ensures
            r is Ok,
            r matches Ok(w) ==> w.wf() && w@ == Map::<Loc, bool>::empty() && w.position() == (Loc {
                row: 0,
                col: 0,
            }) && w.heading() == 90,
    {
        Ok(AntWorld::new())
    }

    /// Where the walker currently stands.
    pub fn machine(&self) -> (p: Loc)
        ensures
            p == self.position(),
    {
        self.machine
    }

    /// The walker's current heading in degrees.
    pub fn angle(&self) -> (a: i32)
        ensures
            a as int == self.heading(),
    {
        self.angle
    }

    /// Aliveness of `loc`; absent locations are dead.
    pub fn get(&self, loc: &Loc) -> (b: bool)
        requires
            self.wf(),
        ensures
            b == cell_alive(self@, *loc),
    {
        is_alive(&self.grid, loc)
    }

    /// Sets the aliveness of `loc`. The ant grid tracks no frontier, so no
    /// neighbors are seeded.
    pub fn set(&mut self, loc: &Loc, alive: bool)
        requires
            old(self).wf(),
        ensures
            final(self).wf(),
            final(self)@ == old(self)@.insert(*loc, alive),
            final(self).position() == old(self).position(),
            final(self).heading() == old(self).heading(),
    {
        self.grid.put(loc, alive);
    }

    /// All tracked cells, for enumeration by a renderer.
    pub fn current_buffer(&self) -> (r: &Vec<(Loc, bool)>)
        requires
            self.wf(),
        ensures
            forall|i: int| 0 <= i < r@.len() ==> self@.contains_key((#[trigger] r@[i]).0)
                && self@[r@[i].0] == r@[i].1,
            forall|l: Loc| #[trigger]
                self@.contains_key(l) ==> exists|i: int|
                    0 <= i < r@.len() && (#[trigger] r@[i]).0 == l,
            forall|i: int, j: int| 0 <= i < j < r@.len() ==> (#[trigger] r@[i]).0 != (
            #[trigger] r@[j]).0,
    {
        proof {
            self.grid.lemma_entry_seq();
        }
        self.grid.entries()
    }

    /// How many cells are alive.
    pub fn pop_count(&self) -> (n: usize)
        requires
            self.wf(),
        ensures
            n == alive_set(self@).len(),
    {
        self.grid.pop_count()
    }

    /// One tick of the walker, as `ant_step_state` describes it.
    pub fn step(&mut self)
        requires
            old(self).wf(),
            loc_in_frame(old(self).position()),
        ensures
            final(self).wf(),
            final(self)@ == ant_step_state(
                old(self)@,
                old(self).position(),
                old(self).heading(),
            ).0,
            final(self).position() == ant_step_state(
                old(self)@,
                old(self).position(),
                old(self).heading(),
            ).1,
            final(self).heading() == ant_step_state(
                old(self)@,
                old(self).position(),
                old(self).heading(),
            ).2,
    {
        let alive: bool = self.get(&self.machine.clone());
        let loc = self.machine;
        if alive {
            self.angle = (self.angle - 90) % 360;
            if self.angle < 0 {
                self.angle = self.angle + 360;
            }
            self.set(&loc, false);
        } else {
            self.angle = (self.angle + 90) % 360;
            self.set(&loc, true);
        }
        let offset = moves(self.angle);
        self.machine = Loc::new(loc.row + offset.0, loc.col + offset.1);
    }
}

/// LAW: the ant's tick is deterministic — the next grid, position and
/// heading are pure functions of the current state, so a fixed number of
/// ticks from a fixed start is reproducible across runs.
pub proof fn lemma_ant_step_deterministic(
    g1: Map<Loc, bool>,
    p1: Loc,
    a1: int,
    g2: Map<Loc, bool>,
    p2: Loc,
    a2: int,
)
    requires
        g1 == g2,
        p1 == p2,
        a1 == a2,
    ensures
        ant_step_state(g1, p1, a1) == ant_step_state(g2, p2, a2),
{
}

} // verus!
