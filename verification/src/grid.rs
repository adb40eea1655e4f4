//! The sparse grid: a finite association of locations with an alive/dead
//! flag. A location absent from the grid is dead. Setting a location alive
//! also seeds its eight Moore neighbors as dead entries, so that a later
//! generation can evaluate their neighbor counts without scanning the
//! infinite plane.

use vstd::prelude::*;

use crate::loc::{loc_in_frame, neighbor_of, spec_neighbors, Loc};

verus! {

/// Whether `l` is alive under grid contents `g`: present and marked alive.
/// An absent location is dead.
pub open spec fn cell_alive(g: Map<Loc, bool>, l: Loc) -> bool {
    g.contains_key(l) && g[l]
}

/// The set of locations that `g` stores as alive.
pub open spec fn alive_set(g: Map<Loc, bool>) -> Set<Loc> {
    g.dom().filter(|l: Loc| g[l])
}

/// `g` with each location of `locs` present: locations already tracked keep
/// their state, the rest are added as dead entries.
pub open spec fn seed_locs(g: Map<Loc, bool>, locs: Seq<Loc>) -> Map<Loc, bool>
    decreases locs.len(),
{
    if locs.len() == 0 {
        g
    } else {
        let g1 = if g.contains_key(locs[0]) {
            g
        } else {
            g.insert(locs[0], false)
        };
        seed_locs(g1, locs.drop_first())
    }
}

/// The grid contents after `set(l, alive)`: the entry for `l` is written,
/// and when `alive` is true the eight neighbors of `l` are seeded as dead
/// entries where absent.
pub open spec fn grid_set(g: Map<Loc, bool>, l: Loc, alive: bool) -> Map<Loc, bool> {
    if alive {
        seed_locs(g.insert(l, true), spec_neighbors(l))
    } else {
        g.insert(l, false)
    }
}

/// Every tracked location can have its neighborhood computed in `i64`.
pub open spec fn grid_keys_in_frame(g: Map<Loc, bool>) -> bool {
    forall|l: Loc| g.contains_key(l) ==> loc_in_frame(l)
}

/// No two entries of the backing vector share a location.
spec fn unique_keys(s: Seq<(Loc, bool)>) -> bool {
    forall|i: int, j: int| 0 <= i < j < s.len() ==> (#[trigger] s[i]).0 != (#[trigger] s[j]).0
}

/// The map that a sequence of entries denotes; later entries win.
spec fn entries_map(s: Seq<(Loc, bool)>) -> Map<Loc, bool>
    decreases s.len(),
{
    if s.len() == 0 {
        Map::empty()
    } else {
        entries_map(s.drop_last()).insert(s.last().0, s.last().1)
    }
}

/// A finite alive/dead table over locations, stored sparsely.
#[derive(Debug)]
pub struct SparseGrid {
    cells: Vec<(Loc, bool)>,
}

impl View for SparseGrid {
    type V = Map<Loc, bool>;

    closed spec fn view(&self) -> Map<Loc, bool> {
        entries_map(self.cells@)
    }
}

proof fn lemma_entries_map_basic(s: Seq<(Loc, bool)>)
    ensures
        entries_map(s).dom().finite(),
        forall|l: Loc| #[trigger]
            entries_map(s).contains_key(l) <==> exists|i: int| 0 <= i < s.len() && (#[trigger] s[i]).0 == l,
    decreases s.len(),
{
    if s.len() == 0 {
    } else {
        lemma_entries_map_basic(s.drop_last());
        assert forall|l: Loc| #[trigger] entries_map(s).contains_key(l) implies exists|i: int|
            0 <= i < s.len() && (#[trigger] s[i]).0 == l by {
            if l == s.last().0 {
                assert(s[s.len() - 1].0 == l);
            } else {
                let i = choose|i: int| 0 <= i < s.drop_last().len() && (#[trigger] s.drop_last()[i]).0 == l;
                assert(s[i].0 == l);
            }
        }
        assert forall|l: Loc|
            exists|i: int| 0 <= i < s.len() && (#[trigger] s[i]).0 == l implies #[trigger] entries_map(s).contains_key(l) by {
            let i = choose|i: int| 0 <= i < s.len() && (#[trigger] s[i]).0 == l;
            if i < s.len() - 1 {
                assert(s.drop_last()[i].0 == l);
            }
        }
    }
}

proof fn lemma_entries_map_index(s: Seq<(Loc, bool)>, i: int)
    requires
        unique_keys(s),
        0 <= i < s.len(),
    ensures
        entries_map(s).contains_key(s[i].0),
        entries_map(s)[s[i].0] == s[i].1,
    decreases s.len(),
{
    if i == s.len() - 1 {
    } else {
        assert(unique_keys(s.drop_last())) by {
            assert forall|p: int, q: int| 0 <= p < q < s.drop_last().len() implies (#[trigger] s.drop_last()[p]).0
                != (#[trigger] s.drop_last()[q]).0 by {
                assert(s[p] == s.drop_last()[p]);
                assert(s[q] == s.drop_last()[q]);
            }
        }
        lemma_entries_map_index(s.drop_last(), i);
        assert(s[i].0 != s.last().0);
    }
}

impl SparseGrid {
    /// The backing vector holds each location at most once.
    pub closed spec fn wf(self) -> bool {
        unique_keys(self.cells@)
    }

    /// The entries in storage order; stable while the grid is unchanged.
    pub closed spec fn entry_seq(self) -> Seq<(Loc, bool)> {
        self.cells@
    }

    /// How the entry sequence corresponds to the grid contents.
    pub proof fn lemma_entry_seq(self)
        requires
            self.wf(),
        ensures
            forall|i: int| 0 <= i < self.entry_seq().len() ==> self@.contains_key(
                (#[trigger] self.entry_seq()[i]).0,
            ) && self@[self.entry_seq()[i].0] == self.entry_seq()[i].1,
            forall|l: Loc| #[trigger]
                self@.contains_key(l) ==> exists|i: int|
                    0 <= i < self.entry_seq().len() && (#[trigger] self.entry_seq()[i]).0 == l,
            forall|i: int, j: int| 0 <= i < j < self.entry_seq().len() ==> (
            #[trigger] self.entry_seq()[i]).0 != (#[trigger] self.entry_seq()[j]).0,
    {
        lemma_entries_map_basic(self.cells@);
        assert forall|i: int| 0 <= i < self.entry_seq().len() implies self@.contains_key(
            (#[trigger] self.entry_seq()[i]).0,
        ) && self@[self.entry_seq()[i].0] == self.entry_seq()[i].1 by {
            lemma_entries_map_index(self.cells@, i);
        }
        assert forall|l: Loc| #[trigger] self@.contains_key(l) implies exists|i: int|
            0 <= i < self.entry_seq().len() && (#[trigger] self.entry_seq()[i]).0 == l by {
            let i = choose|i: int| 0 <= i < self.cells@.len() && (#[trigger] self.cells@[i]).0 == l;
            assert(self.entry_seq()[i].0 == l);
        }
        assert forall|i: int, j: int| 0 <= i < j < self.entry_seq().len() implies (
        #[trigger] self.entry_seq()[i]).0 != (#[trigger] self.entry_seq()[j]).0 by {
            assert(self.cells@[i] == self.entry_seq()[i]);
            assert(self.cells@[j] == self.entry_seq()[j]);
        }
    }

    /// The tracked locations form a finite set.
    pub proof fn lemma_dom_finite(self)
        ensures
            self@.dom().finite(),
            alive_set(self@).finite(),
            alive_set(self@).len() <= self@.dom().len(),
    {
        lemma_entries_map_basic(self.cells@);
        self@.dom().lemma_len_filter(|l: Loc| self@[l]);
    }

    /// A blank grid: every location is dead.
    pub fn new() -> (g: Self)
        ensures
            g.wf(),
            g@ == Map::<Loc, bool>::empty(),
    {
        SparseGrid { cells: Vec::new() }
    }

    /// The number of tracked entries.
    pub fn num_entries(&self) -> (n: usize)
        ensures
            n == self.entry_seq().len(),
    {
        self.cells.len()
    }

    /// The entry at storage index `i`.
    pub fn entry_at(&self, i: usize) -> (e: (Loc, bool))
        requires
            i < self.entry_seq().len(),
        ensures
            e == self.entry_seq()[i as int],
    {
        (self.cells[i].0, self.cells[i].1)
    }

    /// All tracked entries, for enumeration by a renderer.
    pub fn entries(&self) -> (r: &Vec<(Loc, bool)>)
        ensures
            r@ == self.entry_seq(),
    {
        &self.cells
    }

    /// Whether `loc` is tracked at all (alive or dead).
    pub fn contains(&self, loc: &Loc) -> (b: bool)
        requires
            self.wf(),
        ensures
            b == self@.contains_key(*loc),
    {
        proof {
            lemma_entries_map_basic(self.cells@);
        }
        let n = self.cells.len();
        let mut i: usize = 0;
        while i < n
            invariant
                n == self.cells@.len(),
                0 <= i <= n,
                forall|j: int| 0 <= j < i ==> (#[trigger] self.cells@[j]).0 != *loc,
                self.wf(),
                forall|l: Loc| #[trigger]
                    self@.contains_key(l) <==> exists|k: int|
                        0 <= k < self.cells@.len() && (#[trigger] self.cells@[k]).0 == l,
            decreases n - i,
        {
            if self.cells[i].0 == *loc {
                return true;
            }
            i += 1;
        }
        false
    }

    /// Aliveness of `loc`; absent locations are dead.
    pub fn get(&self, loc: &Loc) -> (b: bool)
        requires
            self.wf(),
        ensures
            b == cell_alive(self@, *loc),
    {
        proof {
            lemma_entries_map_basic(self.cells@);
        }
        let n = self.cells.len();
        let mut i: usize = 0;
        while i < n
            invariant
                n == self.cells@.len(),
                0 <= i <= n,
                forall|j: int| 0 <= j < i ==> (#[trigger] self.cells@[j]).0 != *loc,
                self.wf(),
                forall|l: Loc| #[trigger]
                    self@.contains_key(l) <==> exists|k: int|
                        0 <= k < self.cells@.len() && (#[trigger] self.cells@[k]).0 == l,
            decreases n - i,
        {
            if self.cells[i].0 == *loc {
                proof {
                    lemma_entries_map_index(self.cells@, i as int);
                }
                return self.cells[i].1;
            }
            i += 1;
        }
        false
    }

    /// Writes the entry for `loc` without seeding, preserving all others.
    pub(crate) fn put(&mut self, loc: &Loc, alive: bool)
        requires
            old(self).wf(),
        ensures
            final(self).wf(),
            final(self)@ == old(self)@.insert(*loc, alive),
    {
        proof {
            lemma_entries_map_basic(self.cells@);
        }
        let n = self.cells.len();
        let mut i: usize = 0;
        while i < n
            invariant
                n == self.cells@.len(),
                0 <= i <= n,
                forall|j: int| 0 <= j < i ==> (#[trigger] self.cells@[j]).0 != *loc,
                self.wf(),
                self == old(self),
            decreases n - i,
        {
            if self.cells[i].0 == *loc {
                let ghost s0 = self.cells@;
                self.cells[i] = (*loc, alive);
                proof {
                    lemma_put_update(s0, i as int, (*loc, alive));
                }
                return;
            }
            i += 1;
        }
        let ghost s0 = self.cells@;
        self.cells.push((*loc, alive));
        proof {
            assert(s0.push((*loc, alive)).drop_last() =~= s0);
            assert(unique_keys(s0.push((*loc, alive)))) by {
                assert forall|p: int, q: int|
                    0 <= p < q < s0.push((*loc, alive)).len() implies (#[trigger] s0.push(
                    (*loc, alive),
                )[p]).0 != (#[trigger] s0.push((*loc, alive))[q]).0 by {
                    if q == s0.len() {
                        assert(s0.push((*loc, alive))[p] == s0[p]);
                    } else {
                        assert(s0.push((*loc, alive))[p] == s0[p]);
                        assert(s0.push((*loc, alive))[q] == s0[q]);
                    }
                }
            }
        }
    }

    /// Sets the aliveness of `loc`. When `alive` is true, additionally makes
    /// sure all eight neighbors of `loc` are tracked, inserting them as dead
    /// entries where absent.
    pub fn set(&mut self, loc: &Loc, alive: bool)
        requires
            old(self).wf(),
            alive ==> loc_in_frame(*loc),
        ensures
            final(self).wf(),
            final(self)@ == grid_set(old(self)@, *loc, alive),
    {
        self.put(loc, alive);
        if alive {
            let ghost base = self@;
            let neighbors = loc.neighbors();
            proof {
                assert(neighbors@.skip(0) =~= neighbors@);
            }
            let mut k: usize = 0;
            while k < 8
                invariant
                    0 <= k <= 8,
                    neighbors@ == spec_neighbors(*loc),
                    self.wf(),
                    seed_locs(self@, neighbors@.skip(k as int)) == seed_locs(
                        base,
                        neighbors@,
                    ),
                decreases 8 - k,
            {
                let ghost pre = self@;
                let n = neighbors[k];
                if !self.contains(&n) {
                    self.put(&n, false);
                }
                proof {
                    assert(neighbors@.skip(k as int).drop_first() =~= neighbors@.skip(
                        k as int + 1,
                    ));
                    assert(neighbors@.skip(k as int)[0] == neighbors@[k as int]);
                    assert(seed_locs(pre, neighbors@.skip(k as int)) == seed_locs(
                        self@,
                        neighbors@.skip(k as int + 1),
                    ));
                }
                k += 1;
            }
            proof {
                assert(neighbors@.skip(8) =~= Seq::<Loc>::empty());
            }
        }
    }

    /// Forgets every entry.
    pub fn clear(&mut self)
        ensures
            final(self).wf(),
            final(self)@ == Map::<Loc, bool>::empty(),
    {
        self.cells.clear();
    }

    /// How many tracked locations are stored as alive. Dead frontier
    /// entries do not count.
    pub fn pop_count(&self) -> (n: usize)
        requires
            self.wf(),
        ensures
            n == alive_set(self@).len(),
    {
        proof {
            self.lemma_dom_finite();
            assert(self.cells@.take(0) =~= Seq::<(Loc, bool)>::empty());
            assert(alive_set(entries_map(Seq::<(Loc, bool)>::empty())) =~= Set::<Loc>::empty());
        }
        let len = self.cells.len();
        let mut n: usize = 0;
        let mut i: usize = 0;
        while i < len
            invariant
                len == self.cells@.len(),
                0 <= i <= len,
                self.wf(),
                n == alive_set(entries_map(self.cells@.take(i as int))).len(),
                n <= i,
                alive_set(entries_map(self.cells@.take(i as int))).finite(),
            decreases len - i,
        {
            let ghost prefix = self.cells@.take(i as int);
            let ghost next = self.cells@.take(i as int + 1);
            proof {
                assert(next.drop_last() =~= prefix);
                assert(next.last() == self.cells@[i as int]);
                lemma_entries_map_basic(prefix);
                let e = self.cells@[i as int];
                assert(!entries_map(prefix).contains_key(e.0)) by {
                    if entries_map(prefix).contains_key(e.0) {
                        let j = choose|j: int|
                            0 <= j < prefix.len() && (#[trigger] prefix[j]).0 == e.0;
                        assert(self.cells@[j].0 == e.0);
                    }
                }
                if e.1 {
                    assert(alive_set(entries_map(next)) =~= alive_set(entries_map(prefix)).insert(
                        e.0,
                    ));
                } else {
                    assert(alive_set(entries_map(next)) =~= alive_set(entries_map(prefix)));
                }
            }
            if self.cells[i].1 {
                n += 1;
            }
            i += 1;
        }
        proof {
            assert(self.cells@.take(len as int) =~= self.cells@);
        }
        n
    }
}

/// Aliveness of `loc` in `buffer`, defaulting to dead when untracked.
pub fn is_alive(buffer: &SparseGrid, loc: &Loc) -> (b: bool)
    requires
        buffer.wf(),
    ensures
        b == cell_alive(buffer@, *loc),
{
    buffer.get(loc)
}

proof fn lemma_put_update(s: Seq<(Loc, bool)>, i: int, v: (Loc, bool))
    requires
        unique_keys(s),
        0 <= i < s.len(),
        s[i].0 == v.0,
    ensures
        unique_keys(s.update(i, v)),
        entries_map(s.update(i, v)) == entries_map(s).insert(v.0, v.1),
    decreases s.len(),
{
    assert forall|p: int, q: int| 0 <= p < q < s.update(i, v).len() implies (#[trigger] s.update(
        i,
        v,
    )[p]).0 != (#[trigger] s.update(i, v)[q]).0 by {
        assert(s.update(i, v)[p].0 == s[p].0);
        assert(s.update(i, v)[q].0 == s[q].0);
    }
    if i == s.len() - 1 {
        assert(s.update(i, v).drop_last() =~= s.drop_last());
        assert(entries_map(s.update(i, v)) =~= entries_map(s).insert(v.0, v.1));
    } else {
        assert(unique_keys(s.drop_last())) by {
            assert forall|p: int, q: int| 0 <= p < q < s.drop_last().len() implies (
            #[trigger] s.drop_last()[p]).0 != (#[trigger] s.drop_last()[q]).0 by {
                assert(s.drop_last()[p] == s[p]);
                assert(s.drop_last()[q] == s[q]);
            }
        }
        lemma_put_update(s.drop_last(), i, v);
        assert(s.update(i, v).drop_last() =~= s.drop_last().update(i, v));
        assert(s.update(i, v).last() == s.last());
        assert(s.last().0 != v.0);
        assert(entries_map(s.update(i, v)) =~= entries_map(s).insert(v.0, v.1));
    }
}

/// Seeding tracks exactly the old locations and the seeded ones; it never
/// changes the state of a location that was already tracked, and the newly
/// added locations are dead.
proof fn lemma_seed_locs_char(g: Map<Loc, bool>, locs: Seq<Loc>)
    ensures
        forall|m: Loc| #[trigger]
            seed_locs(g, locs).contains_key(m) <==> g.contains_key(m) || locs.contains(m),
        forall|m: Loc|
            g.contains_key(m) ==> #[trigger] seed_locs(g, locs)[m] == g[m],
        forall|m: Loc|
            !g.contains_key(m) && locs.contains(m) ==> !(#[trigger] seed_locs(g, locs)[m]),
    decreases locs.len(),
{
    if locs.len() == 0 {
    } else {
        let g1 = if g.contains_key(locs[0]) {
            g
        } else {
            g.insert(locs[0], false)
        };
        lemma_seed_locs_char(g1, locs.drop_first());
        assert(seed_locs(g, locs) == seed_locs(g1, locs.drop_first()));
        assert forall|m: Loc| #[trigger]
            seed_locs(g, locs).contains_key(m) <==> g.contains_key(m) || locs.contains(m) by {
            if locs.contains(m) {
                let i = choose|i: int| 0 <= i < locs.len() && locs[i] == m;
                if i > 0 {
                    assert(locs.drop_first()[i - 1] == m);
                    assert(locs.drop_first().contains(m));
                } else {
                    assert(g1.contains_key(m));
                }
                assert(seed_locs(g1, locs.drop_first()).contains_key(m));
            }
            if g.contains_key(m) {
                assert(g1.contains_key(m));
                assert(seed_locs(g1, locs.drop_first()).contains_key(m));
            }
            if seed_locs(g, locs).contains_key(m) && !g.contains_key(m) {
                if m == locs[0] {
                    assert(locs.contains(m));
                } else {
                    assert(!g1.contains_key(m));
                    assert(locs.drop_first().contains(m));
                    let i = choose|i: int|
                        0 <= i < locs.drop_first().len() && locs.drop_first()[i] == m;
                    assert(locs[i + 1] == m);
                    assert(locs.contains(m));
                }
            }
        }
        assert forall|m: Loc| g.contains_key(m) implies #[trigger] seed_locs(g, locs)[m] == g[m] by {
            assert(g1.contains_key(m) && g1[m] == g[m]);
            assert(seed_locs(g1, locs.drop_first())[m] == g1[m]);
        }
        assert forall|m: Loc| !g.contains_key(m) && locs.contains(m) implies !(
        #[trigger] seed_locs(g, locs)[m]) by {
            if m == locs[0] {
                assert(g1.contains_key(m) && g1[m] == false);
                assert(seed_locs(g1, locs.drop_first())[m] == g1[m]);
            } else {
                let i = choose|i: int| 0 <= i < locs.len() && locs[i] == m;
                assert(i > 0);
                assert(locs.drop_first()[i - 1] == m);
                assert(locs.drop_first().contains(m));
                assert(!g1.contains_key(m));
                assert(!(seed_locs(g1, locs.drop_first())[m]));
            }
        }
    }
}

/// LAW: a location that was never set is reported dead — a blank grid has
/// no live cells, and an untracked location is dead in any grid.
pub proof fn lemma_never_set_is_dead(g: Map<Loc, bool>, l: Loc)
    requires
        !g.contains_key(l),
    ensures
        !cell_alive(g, l),
        !cell_alive(Map::<Loc, bool>::empty(), l),
{
}

/// LAW: after `set(l, alive)`, `get(l)` reports exactly `alive`, and the
/// aliveness of every other location is unchanged.
pub proof fn lemma_set_then_get(g: Map<Loc, bool>, l: Loc, alive: bool)
    ensures
        cell_alive(grid_set(g, l, alive), l) == alive,
        forall|m: Loc| m != l ==> cell_alive(#[trigger] grid_set(g, l, alive), m) == cell_alive(
            g,
            m,
        ),
{
    if alive {
        lemma_seed_locs_char(g.insert(l, true), spec_neighbors(l));
    }
}

/// LAW: after `set(l, true)`, all eight Moore neighbors of `l` are present
/// in the grid (possibly as dead entries) — the frontier invariant.
pub proof fn lemma_set_seeds_neighbors(g: Map<Loc, bool>, l: Loc)
    ensures
        forall|n: Loc| neighbor_of(l, n) ==> #[trigger] grid_set(g, l, true).contains_key(n),
        grid_set(g, l, true).contains_key(l),
{
    lemma_seed_locs_char(g.insert(l, true), spec_neighbors(l));
}

/// How `grid_set` changes the tracked set: the written location, plus (for a
/// live write) the neighborhood, plus everything already tracked.
pub proof fn lemma_grid_set_contains(g: Map<Loc, bool>, l: Loc, alive: bool)
    ensures
        forall|m: Loc| #[trigger]
            grid_set(g, l, alive).contains_key(m) <==> g.contains_key(m) || m == l || (alive
                && neighbor_of(l, m)),
{
    if alive {
        lemma_seed_locs_char(g.insert(l, true), spec_neighbors(l));
    }
}

} // verus!
