//! The Life-like automaton: a sparse double-buffered world advanced by a
//! configurable birth/survive rule.
//!
//! One generation (`step`) visits every tracked location of the current
//! buffer, counts its live Moore neighbors in the current buffer only, and
//! writes the location's next state into the companion buffer: a live cell
//! survives when `survive[count]` holds, a dead cell is born when
//! `birth[count]` holds, and a location with no live neighbors at all is
//! dropped from tracking. Writing a live cell seeds its neighborhood, so
//! the tracked frontier always covers every cell that could change next.
//! The buffers then swap roles and the stale one is cleared.

use vstd::prelude::*;

use crate::config::{
    plain_from, plain_parse, rle_from, rle_parse, run_cells, ConfigParseError, MAX_EXTENT, MAX_RUN,
};
use crate::grid::{
    alive_set, cell_alive, grid_keys_in_frame, grid_set, is_alive, lemma_grid_set_contains,
    lemma_set_then_get, SparseGrid,
};
use crate::loc::{lemma_neighbor_char, loc_in_frame, neighbor_of, spec_neighbors, Loc};
use crate::rules::{default_birth, default_survive, RuleSet};

verus! {

/// How many of the locations in `locs` are alive under `g`.
pub open spec fn live_in(g: Map<Loc, bool>, locs: Seq<Loc>) -> int
    decreases locs.len(),
{
    if locs.len() == 0 {
        0
    } else {
        live_in(g, locs.drop_last()) + if cell_alive(g, locs.last()) {
            1int
        } else {
            0int
        }
    }
}

/// The number of live Moore neighbors of `l` under `g`.
pub open spec fn live_count(g: Map<Loc, bool>, l: Loc) -> int {
    live_in(g, spec_neighbors(l))
}

/// The rule tables' verdict for a cell that is `alive` and has `n` live
/// neighbors.
pub open spec fn next_status_spec(rs: RuleSet, alive: bool, n: int) -> bool {
    if alive {
        rs.survive@[n]
    } else {
        rs.birth@[n]
    }
}

/// The next state of location `l` under grid `g` and rule `rs`.
pub open spec fn cell_next(g: Map<Loc, bool>, rs: RuleSet, l: Loc) -> bool {
    next_status_spec(rs, cell_alive(g, l), live_count(g, l))
}

/// Whether a generation writes an entry for `l`: it is tracked and has at
/// least one live neighbor.
pub open spec fn step_written(g: Map<Loc, bool>, l: Loc) -> bool {
    g.contains_key(l) && live_count(g, l) > 0
}

/// Whether a generation seeds `l` as a dead frontier entry: some written
/// location next to `l` comes out alive.
pub open spec fn step_seeded(g: Map<Loc, bool>, rs: RuleSet, l: Loc) -> bool {
    exists|k: Loc| #[trigger] neighbor_of(k, l) && step_written(g, k) && cell_next(g, rs, k)
}

/// The grid contents after one generation of `g` under rule `rs`: every
/// written location carries its next state, and the frontier around the
/// live results is tracked as dead entries.
pub open spec fn step_grid(g: Map<Loc, bool>, rs: RuleSet) -> Map<Loc, bool> {
    Map::new(
        |l: Loc| step_written(g, l) || step_seeded(g, rs, l),
        |l: Loc| step_written(g, l) && cell_next(g, rs, l),
    )
}

/// The grid contents after `n` generations.
pub open spec fn step_grid_n(g: Map<Loc, bool>, rs: RuleSet, n: nat) -> Map<Loc, bool>
    decreases n,
{
    if n == 0 {
        g
    } else {
        step_grid(step_grid_n(g, rs, (n - 1) as nat), rs)
    }
}

/// Whether some entry of `entries` is keyed by `l`.
spec fn has_key(entries: Seq<(Loc, bool)>, l: Loc) -> bool {
    exists|j: int| 0 <= j < entries.len() && (#[trigger] entries[j]).0 == l
}

spec fn entry_written(g: Map<Loc, bool>, entries: Seq<(Loc, bool)>, l: Loc) -> bool {
    has_key(entries, l) && live_count(g, l) > 0
}

spec fn entry_seeded(g: Map<Loc, bool>, rs: RuleSet, entries: Seq<(Loc, bool)>, l: Loc) -> bool {
    exists|k: Loc| #[trigger] neighbor_of(k, l) && entry_written(g, entries, k) && cell_next(
        g,
        rs,
        k,
    )
}

/// The buffer that results from visiting the listed entries in order,
/// writing each entry with a live neighbor into a blank companion buffer.
spec fn step_writes(g: Map<Loc, bool>, rs: RuleSet, entries: Seq<(Loc, bool)>) -> Map<Loc, bool>
    decreases entries.len(),
{
    if entries.len() == 0 {
        Map::empty()
    } else {
        let m = step_writes(g, rs, entries.drop_last());
        let k = entries.last().0;
        if live_count(g, k) > 0 {
            grid_set(m, k, cell_next(g, rs, k))
        } else {
            m
        }
    }
}

proof fn lemma_step_writes_char(g: Map<Loc, bool>, rs: RuleSet, entries: Seq<(Loc, bool)>)
    ensures
        forall|l: Loc| #[trigger]
            step_writes(g, rs, entries).contains_key(l) <==> entry_written(g, entries, l)
                || entry_seeded(g, rs, entries, l),
        forall|l: Loc| #[trigger]
            step_writes(g, rs, entries).contains_key(l) ==> step_writes(g, rs, entries)[l] == (
            entry_written(g, entries, l) && cell_next(g, rs, l)),
    decreases entries.len(),
{
    if entries.len() == 0 {
        assert forall|l: Loc| !entry_written(g, entries, l) && !entry_seeded(
            g,
            rs,
            entries,
            l,
        ) by {
            if entry_seeded(g, rs, entries, l) {
                let k = choose|k: Loc| #[trigger]
                    neighbor_of(k, l) && entry_written(g, entries, k) && cell_next(g, rs, k);
                assert(has_key(entries, k));
            }
        }
    } else {
        let prefix = entries.drop_last();
        lemma_step_writes_char(g, rs, prefix);
        let e = entries.last();
        let k0 = e.0;
        let m = step_writes(g, rs, prefix);
        let m2 = step_writes(g, rs, entries);
        let written0 = live_count(g, k0) > 0;
        let next0 = cell_next(g, rs, k0);
        if written0 {
            assert(m2 == grid_set(m, k0, next0));
            lemma_grid_set_contains(m, k0, next0);
            lemma_set_then_get(m, k0, next0);
        } else {
            assert(m2 == m);
        }
        assert(has_key(entries, k0)) by {
            assert(entries[entries.len() - 1].0 == k0);
        }
        assert forall|l: Loc| #[trigger] has_key(entries, l) implies has_key(prefix, l) || l
            == k0 by {
            let j = choose|j: int| 0 <= j < entries.len() && (#[trigger] entries[j]).0 == l;
            if j < entries.len() - 1 {
                assert(prefix[j].0 == l);
            }
        }
        assert forall|l: Loc| has_key(prefix, l) implies #[trigger] has_key(entries, l) by {
            let j = choose|j: int| 0 <= j < prefix.len() && (#[trigger] prefix[j]).0 == l;
            assert(entries[j].0 == l);
        }
        assert forall|l: Loc| #[trigger] m2.contains_key(l) implies entry_written(g, entries, l)
            || entry_seeded(g, rs, entries, l) by {
            if m.contains_key(l) {
                if entry_written(g, prefix, l) {
                    assert(entry_written(g, entries, l));
                } else {
                    assert(entry_seeded(g, rs, prefix, l));
                    let k = choose|k: Loc| #[trigger]
                        neighbor_of(k, l) && entry_written(g, prefix, k) && cell_next(g, rs, k);
                    assert(has_key(entries, k));
                    assert(entry_seeded(g, rs, entries, l));
                }
            } else {
                assert(written0);
                if l == k0 {
                    assert(entry_written(g, entries, l));
                } else {
                    assert(next0 && neighbor_of(k0, l));
                    assert(entry_written(g, entries, k0));
                    assert(entry_seeded(g, rs, entries, l));
                }
            }
        }
        assert forall|l: Loc| entry_written(g, entries, l) || entry_seeded(
            g,
            rs,
            entries,
            l,
        ) implies #[trigger] m2.contains_key(l) by {
            if entry_written(g, entries, l) {
                if l == k0 {
                    assert(written0);
                    assert(m2.contains_key(k0));
                } else {
                    assert(has_key(prefix, l));
                    assert(entry_written(g, prefix, l));
                    assert(m.contains_key(l));
                }
            } else {
                let k = choose|k: Loc| #[trigger]
                    neighbor_of(k, l) && entry_written(g, entries, k) && cell_next(g, rs, k);
                if k == k0 {
                    assert(written0 && next0);
                    assert(m2.contains_key(l));
                } else {
                    assert(has_key(prefix, k));
                    assert(entry_written(g, prefix, k));
                    assert(entry_seeded(g, rs, prefix, l));
                    assert(m.contains_key(l));
                }
            }
        }
        assert forall|l: Loc| #[trigger] m2.contains_key(l) implies m2[l] == (entry_written(
            g,
            entries,
            l,
        ) && cell_next(g, rs, l)) by {
            if written0 && l == k0 {
                assert(cell_alive(m2, k0) == next0);
                assert(m2[l] == next0);
                assert(entry_written(g, entries, k0));
            } else {
                if written0 {
                    assert(cell_alive(m2, l) == cell_alive(m, l));
                }
                if m.contains_key(l) {
                    assert(m2[l] == m[l]);
                    assert(entry_written(g, entries, l) == entry_written(g, prefix, l));
                } else {
                    assert(m2[l] == false);
                    if entry_written(g, entries, l) {
                        assert(has_key(prefix, l));
                        assert(entry_written(g, prefix, l));
                        assert(m.contains_key(l));
                        assert(false);
                    }
                }
            }
        }
    }
}

proof fn lemma_step_writes_full(g: Map<Loc, bool>, rs: RuleSet, entries: Seq<(Loc, bool)>)
    requires
        forall|l: Loc| #[trigger] g.contains_key(l) <==> has_key(entries, l),
    ensures
        step_writes(g, rs, entries) == step_grid(g, rs),
{
    lemma_step_writes_char(g, rs, entries);
    let m = step_writes(g, rs, entries);
    let sg = step_grid(g, rs);
    assert forall|l: Loc| entry_written(g, entries, l) == step_written(g, l) by {}
    assert forall|l: Loc| entry_seeded(g, rs, entries, l) == step_seeded(g, rs, l) by {
        if entry_seeded(g, rs, entries, l) {
            let k = choose|k: Loc| #[trigger]
                neighbor_of(k, l) && entry_written(g, entries, k) && cell_next(g, rs, k);
            assert(step_written(g, k));
        }
        if step_seeded(g, rs, l) {
            let k = choose|k: Loc| #[trigger]
                neighbor_of(k, l) && step_written(g, k) && cell_next(g, rs, k);
            assert(entry_written(g, entries, k));
        }
    }
    assert(m =~= sg);
}

/// Counts the live Moore neighbors of `loc`, reading `grid` only.
fn count_live_neighbors(grid: &SparseGrid, loc: &Loc) -> (n: usize)
    requires
        grid.wf(),
        loc_in_frame(*loc),
    ensures
        n == live_count(grid@, *loc),
        n <= 8,
{
    let neighbors = loc.neighbors();
    proof {
        assert(neighbors@.take(0) =~= Seq::<Loc>::empty());
    }
    let mut n: usize = 0;
    let mut k: usize = 0;
    while k < 8
        invariant
            neighbors@ == spec_neighbors(*loc),
            0 <= k <= 8,
            n <= k,
            grid.wf(),
            n == live_in(grid@, neighbors@.take(k as int)),
        decreases 8 - k,
    {
        proof {
            assert(neighbors@.take(k as int + 1).drop_last() =~= neighbors@.take(k as int));
            assert(neighbors@.take(k as int + 1).last() == neighbors@[k as int]);
        }
        if is_alive(grid, &neighbors[k]) {
            n += 1;
        }
        k += 1;
    }
    proof {
        assert(neighbors@.take(8) =~= spec_neighbors(*loc));
    }
    n
}

/// A Life-like world: the current buffer, a companion buffer for the next
/// generation, and the rule tables.
#[derive(Debug)]
pub struct World {
    current: SparseGrid,
    scratch: SparseGrid,
    rules: RuleSet,
}

impl View for World {
    type V = Map<Loc, bool>;

    /// The contents of the current buffer.
    closed spec fn view(&self) -> Map<Loc, bool> {
        self.current@
    }
}

impl World {
    /// Both buffers are well formed and the companion buffer is empty
    /// between generations.
    pub closed spec fn wf(self) -> bool {
        &&& self.current.wf()
        &&& self.scratch.wf()
        &&& self.scratch@ == Map::<Loc, bool>::empty()
    }

    /// The rule tables this world steps by.
    pub closed spec fn ruleset(self) -> RuleSet {
        self.rules
    }

    /// A blank world under the standard rule B3/S23.
    pub fn new() -> (w: World)
        ensures
            w.wf(),
            w@ == Map::<Loc, bool>::empty(),
            w.ruleset().birth@ == crate::rules::default_birth(),
            w.ruleset().survive@ == crate::rules::default_survive(),
    {
        World {
            current: SparseGrid::new(),
            scratch: SparseGrid::new(),
            rules: RuleSet::standard(),
        }
    }

    /// A blank world under the given rule.
    pub fn with_rules(rules: RuleSet) -> (w: World)
        ensures
            w.wf(),
            w@ == Map::<Loc, bool>::empty(),
            w.ruleset() == rules,
    {
        World { current: SparseGrid::new(), scratch: SparseGrid::new(), rules }
    }

    /// A blank world under the standard rule; never fails.
    pub fn from_blank_state() -> (r: Result<World, crate::config::ConfigParseError>)
        ensures
            r is Ok,
            r matches Ok(w) ==> w.wf() && w@ == Map::<Loc, bool>::empty()
                && w.ruleset().birth@ == crate::rules::default_birth()
                && w.ruleset().survive@ == crate::rules::default_survive(),
    {
        Ok(World::new())
    }

    /// Aliveness of `loc` in the current buffer; absent locations are dead.
    pub fn get(&self, loc: &Loc) -> (b: bool)
        requires
            self.wf(),
        ensures
            b == cell_alive(self@, *loc),
    {
        is_alive(&self.current, loc)
    }

    /// Sets the aliveness of `loc` in the current buffer. Setting a cell
    /// alive also tracks its eight neighbors as dead entries where absent.
    pub fn set(&mut self, loc: &Loc, alive: bool)
        requires
            old(self).wf(),
            alive ==> loc_in_frame(*loc),
        ensures
            final(self).wf(),
            final(self)@ == grid_set(old(self)@, *loc, alive),
            final(self).ruleset() == old(self).ruleset(),
    {
        self.current.set(loc, alive);
    }

    /// All tracked cells of the current buffer, for enumeration by a
    /// renderer. Every listed entry reflects the world, every tracked
    /// location is listed, and no location is listed twice.
    pub fn current_buffer(&self) -> (r: &Vec<(Loc, bool)>)
        requires
            self.wf(),
        ensures
            forall|i: int| 0 <= i < r@.len() ==> self@.contains_key((#[trigger] r@[i]).0)
                && self@[r@[i].0] == r@[i].1,
            forall|l: Loc| #[trigger]
                self@.contains_key(l) ==> exists|i: int|
                    0 <= i < r@.len() && (#[trigger] r@[i]).0 == l,
            forall|i: int, j: int| 0 <= i < j < r@.len() ==> (#[trigger] r@[i]).0 != (
            #[trigger] r@[j]).0,
    {
        proof {
            self.current.lemma_entry_seq();
        }
        self.current.entries()
    }

    /// How many cells of the current buffer are alive; dead frontier
    /// entries do not count.
    pub fn pop_count(&self) -> (n: usize)
        requires
            self.wf(),
        ensures
            n == alive_set(self@).len(),
    {
        self.current.pop_count()
    }

    /// The rule tables' verdict for a cell that is `alive` and has
    /// `alive_neighbors` live neighbors.
    pub fn new_status(&self, alive: bool, alive_neighbors: usize) -> (r: bool)
        requires
            alive_neighbors <= 8,
        ensures
            r == next_status_spec(self.ruleset(), alive, alive_neighbors as int),
    {
        if alive && self.rules.survive[alive_neighbors] {
            true
        } else if !alive && self.rules.birth[alive_neighbors] {
            true
        } else {
            false
        }
    }

    /// Loads a world from a plain character grid: `dead_char` and
    /// `alive_char` write the cell at the cursor, `\n` starts the next row,
    /// `\r` is ignored, and any other character fails with the offending
    /// character and its (row, col). The world steps by `rules`.
    pub fn from_configuration(
        data: &str,
        dead_char: char,
        alive_char: char,
        rules: RuleSet,
    ) -> (r: Result<World, ConfigParseError>)
        requires
            data@.len() < i64::MAX,
        ensures
            r is Ok <==> plain_parse(data@, dead_char, alive_char) is Ok,
            r matches Ok(w) ==> w.wf() && plain_parse(data@, dead_char, alive_char) == Ok::<
                Map<Loc, bool>,
                ConfigParseError,
            >(w@) && w.ruleset() == rules,
            r matches Err(e) ==> plain_parse(data@, dead_char, alive_char) == Err::<
                Map<Loc, bool>,
                ConfigParseError,
            >(e),
    {
        let mut world = World::with_rules(rules);
        let len = data.unicode_len();
        let mut row: i64 = 0;
        let mut col: i64 = 0;
        let mut i: usize = 0;
        proof {
            assert(data@.skip(0) =~= data@);
        }
        while i < len
            invariant
                len == data@.len(),
                len < i64::MAX,
                0 <= i <= len,
                0 <= row <= i,
                0 <= col <= i,
                world.wf(),
                world.ruleset() == rules,
                plain_from(
                    data@.skip(i as int),
                    dead_char,
                    alive_char,
                    world@,
                    row as int,
                    col as int,
                ) == plain_parse(data@, dead_char, alive_char),
            decreases len - i,
        {
            let c = data.get_char(i);
            proof {
                assert(data@.skip(i as int)[0] == data@[i as int]);
                assert(data@.skip(i as int).drop_first() =~= data@.skip(i as int + 1));
            }
            if c == dead_char {
                world.set(&Loc::new(row, col), false);
                col = col + 1;
            } else if c == alive_char {
                world.set(&Loc::new(row, col), true);
                col = col + 1;
            } else if c == '\n' {
                row = row + 1;
                col = 0;
            } else if c == '\r' {
            } else {
                return Err(ConfigParseError::InvalidChar { c, row, col });
            }
            i += 1;
        }
        proof {
            assert(data@.skip(len as int) =~= Seq::<char>::empty());
        }
        Ok(world)
    }

    /// Loads a world from a run-length-encoded pattern: `#` comment lines
    /// and the `x` size header are skipped, then `<count><tag>` tokens with
    /// tags `b` (dead run), `o` (live run) and `$` (row break) lay out the
    /// cells until `!` terminates the pattern. A missing count is 1. The
    /// world steps by the standard rule B3/S23.
    pub fn from_rle(text: &str) -> (r: Result<World, ConfigParseError>)
        ensures
            r is Ok <==> rle_parse(text@) is Ok,
            r matches Ok(w) ==> w.wf() && rle_parse(text@) == Ok::<
                Map<Loc, bool>,
                ConfigParseError,
            >(w@) && w.ruleset().birth@ == crate::rules::default_birth()
                && w.ruleset().survive@ == crate::rules::default_survive(),
            r matches Err(e) ==> rle_parse(text@) == Err::<Map<Loc, bool>, ConfigParseError>(e),
    {
        let mut world = World::new();
        let ghost rules = world.ruleset();
        let len = text.unicode_len();
        let mut mode: u8 = 0;
        let mut row: i64 = 0;
        let mut col: i64 = 0;
        let mut count: i64 = 0;
        let mut has_count: bool = false;
        let mut i: usize = 0;
        proof {
            assert(text@.skip(0) =~= text@);
        }
        while i < len
            invariant
                len == text@.len(),
                0 <= i <= len,
                mode == 0 || mode == 1 || mode == 2,
                0 <= row <= MAX_EXTENT,
                0 <= col <= MAX_EXTENT,
                0 <= count <= MAX_RUN,
                world.wf(),
                world.ruleset() == rules,
                rules.birth@ == crate::rules::default_birth(),
                rules.survive@ == crate::rules::default_survive(),
                rle_from(
                    text@.skip(i as int),
                    i as int,
                    mode as int,
                    world@,
                    row as int,
                    col as int,
                    count as int,
                    has_count,
                ) == rle_parse(text@),
            decreases len - i,
        {
            let c = text.get_char(i);
            proof {
                assert(text@.skip(i as int)[0] == text@[i as int]);
                assert(text@.skip(i as int).drop_first() =~= text@.skip(i as int + 1));
            }
            if mode == 1 {
                if c == '\n' {
                    mode = 0;
                }
            } else if mode == 0 && (c == '#' || c == 'x') {
                mode = 1;
            } else if mode == 0 && (c == '\n' || c == '\r') {
            } else if c >= '0' && c <= '9' {
                if count > (MAX_RUN - 9) / 10 {
                    return Err(ConfigParseError::RunTooLong { at: i });
                }
                count = count * 10 + ((c as u32 - 48) as i64);
                has_count = true;
                mode = 2;
            } else if c == 'b' || c == 'o' {
                let n: i64 = if has_count {
                    count
                } else {
                    1
                };
                if col > MAX_EXTENT - n {
                    return Err(ConfigParseError::PatternTooLarge { at: i });
                }
                let alive = c == 'o';
                let ghost g0 = world@;
                let mut j: i64 = 0;
                while j < n
                    invariant
                        0 <= j <= n,
                        0 <= n <= MAX_RUN,
                        0 <= col,
                        col + n <= MAX_EXTENT,
                        0 <= row <= MAX_EXTENT,
                        world.wf(),
                        world.ruleset() == rules,
                        run_cells(world@, row as int, col + j, n - j, alive) == run_cells(
                            g0,
                            row as int,
                            col as int,
                            n as int,
                            alive,
                        ),
                    decreases n - j,
                {
                    world.set(&Loc::new(row, col + j), alive);
                    j += 1;
                }
                col = col + n;
                count = 0;
                has_count = false;
                mode = 2;
            } else if c == '$' {
                let n: i64 = if has_count {
                    count
                } else {
                    1
                };
                if row > MAX_EXTENT - n {
                    return Err(ConfigParseError::PatternTooLarge { at: i });
                }
                row = row + n;
                col = 0;
                count = 0;
                has_count = false;
                mode = 2;
            } else if c == '!' {
                return Ok(world);
            } else if c == ' ' || c == '\t' || c == '\n' || c == '\r' {
                mode = 2;
            } else {
                return Err(ConfigParseError::InvalidToken { c, at: i });
            }
            i += 1;
        }
        proof {
            assert(text@.skip(len as int) =~= Seq::<char>::empty());
        }
        Err(ConfigParseError::Unterminated)
    }

    /// One generation: computes every tracked location's next state from
    /// the current buffer and the rule, swaps the buffers, and clears the
    /// stale one. The result is a pure function of the current buffer
    /// contents and the rule tables.
    pub fn step(&mut self)
        requires
            old(self).wf(),
            grid_keys_in_frame(old(self)@),
        ensures
            final(self).wf(),
            final(self)@ == step_grid(old(self)@, old(self).ruleset()),
            final(self).ruleset() == old(self).ruleset(),
    {
        let ghost g0 = self.current@;
        let ghost rs = self.rules;
        proof {
            self.current.lemma_entry_seq();
            assert(self.current.entry_seq().take(0) =~= Seq::<(Loc, bool)>::empty());
        }
        let n = self.current.num_entries();
        let mut i: usize = 0;
        while i < n
            invariant
                self.current == old(self).current,
                self.rules == old(self).rules,
                self.current.wf(),
                self.scratch.wf(),
                g0 == self.current@,
                rs == self.rules,
                grid_keys_in_frame(g0),
                n == self.current.entry_seq().len(),
                0 <= i <= n,
                self.scratch@ == step_writes(g0, rs, self.current.entry_seq().take(i as int)),
            decreases n - i,
        {
            let ghost es = self.current.entry_seq();
            proof {
                self.current.lemma_entry_seq();
                assert(es.take(i as int + 1).drop_last() =~= es.take(i as int));
                assert(es.take(i as int + 1).last() == es[i as int]);
                assert(g0.contains_key(es[i as int].0));
            }
            let (loc, alive) = self.current.entry_at(i);
            let count = count_live_neighbors(&self.current, &loc);
            if count > 0 {
                let status = self.new_status(alive, count);
                proof {
                    assert(alive == cell_alive(g0, loc));
                    assert(status == cell_next(g0, rs, loc));
                }
                self.scratch.set(&loc, status);
            }
            i += 1;
        }
        proof {
            assert(self.current.entry_seq().take(n as int) =~= self.current.entry_seq());
            self.current.lemma_entry_seq();
            assert forall|l: Loc| #[trigger]
                g0.contains_key(l) <==> has_key(self.current.entry_seq(), l) by {
                if g0.contains_key(l) {
                    let j = choose|j: int|
                        0 <= j < self.current.entry_seq().len() && (
                        #[trigger] self.current.entry_seq()[j]).0 == l;
                    assert(has_key(self.current.entry_seq(), l));
                }
                if has_key(self.current.entry_seq(), l) {
                    let j = choose|j: int|
                        0 <= j < self.current.entry_seq().len() && (
                        #[trigger] self.current.entry_seq()[j]).0 == l;
                    assert(g0.contains_key(l));
                }
            }
            lemma_step_writes_full(g0, rs, self.current.entry_seq());
        }
        core::mem::swap(&mut self.current, &mut self.scratch);
        self.scratch.clear();
    }
}

/// The world that results from setting the four block cells (0,0), (0,1),
/// (1,0), (1,1) alive in a blank grid, frontier included.
pub open spec fn block_world() -> Map<Loc, bool> {
    grid_set(
        grid_set(
            grid_set(
                grid_set(Map::empty(), Loc { row: 0, col: 0 }, true),
                Loc { row: 0, col: 1 },
                true,
            ),
            Loc { row: 1, col: 0 },
            true,
        ),
        Loc { row: 1, col: 1 },
        true,
    )
}

/// The block's tracked region: rows −1..=2 by columns −1..=2.
pub open spec fn in_block_region(l: Loc) -> bool {
    -1 <= l.row <= 2 && -1 <= l.col <= 2
}

/// The block's live cells: rows 0..=1 by columns 0..=1.
pub open spec fn block_alive(l: Loc) -> bool {
    0 <= l.row <= 1 && 0 <= l.col <= 1
}

/// The block world written directly as a map.
pub open spec fn block_map() -> Map<Loc, bool> {
    Map::new(|l: Loc| in_block_region(l), |l: Loc| block_alive(l))
}

proof fn lemma_block_world_is_map()
    ensures
        block_world() == block_map(),
{
    let c00 = Loc { row: 0, col: 0 };
    let c01 = Loc { row: 0, col: 1 };
    let c10 = Loc { row: 1, col: 0 };
    let c11 = Loc { row: 1, col: 1 };
    let g1 = grid_set(Map::empty(), c00, true);
    let g2 = grid_set(g1, c01, true);
    let g3 = grid_set(g2, c10, true);
    let g4 = grid_set(g3, c11, true);
    lemma_grid_set_contains(Map::empty(), c00, true);
    lemma_grid_set_contains(g1, c01, true);
    lemma_grid_set_contains(g2, c10, true);
    lemma_grid_set_contains(g3, c11, true);
    lemma_set_then_get(Map::empty(), c00, true);
    lemma_set_then_get(g1, c01, true);
    lemma_set_then_get(g2, c10, true);
    lemma_set_then_get(g3, c11, true);
    assert forall|m: Loc| #[trigger] g4.contains_key(m) <==> in_block_region(m) by {
        lemma_neighbor_char(c00, m);
        lemma_neighbor_char(c01, m);
        lemma_neighbor_char(c10, m);
        lemma_neighbor_char(c11, m);
    }
    assert forall|m: Loc| #[trigger] g4.contains_key(m) implies g4[m] == block_alive(m) by {
        if m == c11 {
            assert(cell_alive(g4, m));
        } else {
            assert(cell_alive(g4, m) == cell_alive(g3, m));
            if m == c10 {
                assert(cell_alive(g3, m));
            } else {
                assert(cell_alive(g3, m) == cell_alive(g2, m));
                if m == c01 {
                    assert(cell_alive(g2, m));
                } else {
                    assert(cell_alive(g2, m) == cell_alive(g1, m));
                    if m == c00 {
                        assert(cell_alive(g1, m));
                    } else {
                        assert(cell_alive(g1, m) == cell_alive(Map::empty(), m));
                        assert(!cell_alive(g1, m));
                    }
                }
            }
        }
        assert(g4[m] == cell_alive(g4, m));
        assert(block_alive(m) == (m == c00 || m == c01 || m == c10 || m == c11));
    }
    assert(g4 =~= block_map());
}

proof fn lemma_block_count_at(l: Loc)
    requires
        in_block_region(l),
    ensures
        block_alive(l) ==> live_count(block_map(), l) == 3,
        !block_alive(l) ==> 1 <= live_count(block_map(), l) <= 2,
{
    reveal_with_fuel(live_in, 9);
}

/// LAW: the block is a still life — one generation of the block world
/// under the standard rule returns exactly the block world.
pub proof fn lemma_block_still_life(rs: RuleSet)
    requires
        rs.birth@ == default_birth(),
        rs.survive@ == default_survive(),
    ensures
        step_grid(block_world(), rs) == block_world(),
{
    lemma_block_world_is_map();
    let b = block_map();
    let sg = step_grid(b, rs);
    assert forall|l: Loc| in_block_region(l) implies step_written(b, l) && cell_next(b, rs, l)
        == block_alive(l) by {
        lemma_block_count_at(l);
        if !block_alive(l) {
            let c = live_count(b, l);
            assert(c == 1 || c == 2);
            assert(!rs.birth@[c]);
        }
    }
    assert forall|l: Loc| !in_block_region(l) implies !step_written(b, l) && !step_seeded(
        b,
        rs,
        l,
    ) by {
        if step_seeded(b, rs, l) {
            let k = choose|k: Loc| #[trigger]
                neighbor_of(k, l) && step_written(b, k) && cell_next(b, rs, k);
            lemma_block_count_at(k);
            assert(block_alive(k));
            lemma_neighbor_char(k, l);
            assert(in_block_region(l));
        }
    }
    assert(sg =~= b);
}

/// LAW: still life — the world built by setting the four block cells alive
/// stays exactly the same after any number of generations under the
/// standard rule B3/S23.
pub proof fn lemma_block_still_life_forever(rs: RuleSet, n: nat)
    requires
        rs.birth@ == default_birth(),
        rs.survive@ == default_survive(),
    ensures
        step_grid_n(block_world(), rs, n) == block_world(),
    decreases n,
{
    if n > 0 {
        lemma_block_still_life_forever(rs, (n - 1) as nat);
        lemma_block_still_life(rs);
    }
}

/// LAW: stepping is deterministic — the next generation is a pure function
/// of the buffer contents and the rule tables, so equal worlds under equal
/// rules step to equal worlds, across repeated calls and across runs.
pub proof fn lemma_step_deterministic(
    g1: Map<Loc, bool>,
    g2: Map<Loc, bool>,
    rs1: RuleSet,
    rs2: RuleSet,
)
    requires
        g1 == g2,
        rs1 == rs2,
    ensures
        step_grid(g1, rs1) == step_grid(g2, rs2),
{
}

} // verus!
