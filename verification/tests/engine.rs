use std::collections::HashSet;

use entropy_life::life::World;
use entropy_life::loc::Loc;
use entropy_life::rules::RuleSet;

fn alive_cells(world: &World) -> HashSet<(i64, i64)> {
    world
        .current_buffer()
        .iter()
        .filter(|(_, alive)| *alive)
        .map(|(loc, _)| (loc.row, loc.col))
        .collect()
}

fn listed_cells(world: &World) -> HashSet<(i64, i64)> {
    world.current_buffer().iter().map(|(loc, _)| (loc.row, loc.col)).collect()
}

#[test]
fn get_defaults_to_false() {
    let world = World::new();
    assert!(!world.get(&Loc::new(0, 0)));
    assert!(!world.get(&Loc::new(-17, 299)));
}

#[test]
fn set_then_get() {
    let mut world = World::new();
    world.set(&Loc::new(2, -3), true);
    assert!(world.get(&Loc::new(2, -3)));
    world.set(&Loc::new(2, -3), false);
    assert!(!world.get(&Loc::new(2, -3)));
    assert!(!world.get(&Loc::new(2, -2)));
}

#[test]
fn set_alive_seeds_all_eight_neighbors() {
    let mut world = World::new();
    world.set(&Loc::new(0, 0), true);
    let listed = listed_cells(&world);
    for dr in -1..=1i64 {
        for dc in -1..=1i64 {
            assert!(listed.contains(&(dr, dc)), "missing ({dr}, {dc})");
        }
    }
    assert_eq!(listed.len(), 9);
    assert_eq!(alive_cells(&world), HashSet::from([(0, 0)]));
}

#[test]
fn set_dead_does_not_seed() {
    let mut world = World::new();
    world.set(&Loc::new(4, 4), false);
    assert_eq!(listed_cells(&world).len(), 1);
    assert_eq!(world.pop_count(), 0);
}

#[test]
fn pop_count_counts_only_alive() {
    let mut world = World::new();
    world.set(&Loc::new(0, 0), true);
    world.set(&Loc::new(10, 10), true);
    assert_eq!(world.pop_count(), 2);
    world.set(&Loc::new(10, 10), false);
    assert_eq!(world.pop_count(), 1);
}

#[test]
fn step_on_empty_world_stays_empty() {
    let mut world = World::new();
    world.step();
    assert_eq!(world.pop_count(), 0);
    assert_eq!(world.current_buffer().len(), 0);
}

#[test]
fn lone_cell_dies_and_is_dropped() {
    let mut world = World::new();
    world.set(&Loc::new(0, 0), true);
    world.step();
    // The lone cell had no live neighbors and is dropped; its eight
    // frontier cells each saw one live neighbor and stay for one more
    // generation, as dead entries.
    assert_eq!(world.pop_count(), 0);
    assert_eq!(world.current_buffer().len(), 8);
    world.step();
    // Now nothing has a live neighbor, so nothing is tracked at all.
    assert_eq!(world.current_buffer().len(), 0);
}

#[test]
fn blinker_oscillates_with_period_two() {
    let mut world = World::new();
    world.set(&Loc::new(0, 0), true);
    world.set(&Loc::new(0, 1), true);
    world.set(&Loc::new(0, 2), true);
    world.step();
    assert_eq!(alive_cells(&world), HashSet::from([(-1, 1), (0, 1), (1, 1)]));
    world.step();
    assert_eq!(alive_cells(&world), HashSet::from([(0, 0), (0, 1), (0, 2)]));
    assert_eq!(world.pop_count(), 3);
}

#[test]
fn block_is_a_still_life() {
    let mut world = World::new();
    let block = HashSet::from([(0, 0), (0, 1), (1, 0), (1, 1)]);
    world.set(&Loc::new(0, 0), true);
    world.set(&Loc::new(0, 1), true);
    world.set(&Loc::new(1, 0), true);
    world.set(&Loc::new(1, 1), true);
    for _ in 0..12 {
        world.step();
        assert_eq!(alive_cells(&world), block);
        assert_eq!(world.pop_count(), 4);
    }
}

#[test]
fn step_is_deterministic() {
    let seed = [(0i64, 0i64), (0, 1), (0, 2), (1, 2), (2, 1), (5, 5), (5, 6)];
    let mut a = World::new();
    let mut b = World::new();
    for (r, c) in seed {
        a.set(&Loc::new(r, c), true);
        b.set(&Loc::new(r, c), true);
    }
    for _ in 0..8 {
        a.step();
        b.step();
        assert_eq!(alive_cells(&a), alive_cells(&b));
        assert_eq!(listed_cells(&a), listed_cells(&b));
    }
}

#[test]
fn glider_moves_one_diagonal_every_four_steps() {
    let mut world = World::new();
    // Glider: (0,1), (1,2), (2,0), (2,1), (2,2).
    for (r, c) in [(0i64, 1i64), (1, 2), (2, 0), (2, 1), (2, 2)] {
        world.set(&Loc::new(r, c), true);
    }
    let start = alive_cells(&world);
    for _ in 0..4 {
        world.step();
    }
    let moved: HashSet<(i64, i64)> = start.iter().map(|(r, c)| (r + 1, c + 1)).collect();
    assert_eq!(alive_cells(&world), moved);
}

#[test]
fn highlife_rule_changes_the_outcome() {
    // Under B36/S23 a dead cell with six live neighbors is born.
    let rules = entropy_life::rules::dfa_rules("B36S23").unwrap();
    let mut world = World::with_rules(rules);
    let mut plain = World::new();
    // Six live neighbors around (0,0), which itself stays dead at first.
    let ring = [(-1i64, -1i64), (-1, 0), (-1, 1), (0, -1), (0, 1), (1, -1)];
    for (r, c) in ring {
        world.set(&Loc::new(r, c), true);
        plain.set(&Loc::new(r, c), true);
    }
    world.step();
    plain.step();
    assert!(world.get(&Loc::new(0, 0)));
    assert!(!plain.get(&Loc::new(0, 0)));
}

#[test]
fn new_status_follows_the_tables() {
    let world = World::new();
    assert!(world.new_status(false, 3));
    assert!(!world.new_status(false, 2));
    assert!(world.new_status(true, 2));
    assert!(world.new_status(true, 3));
    assert!(!world.new_status(true, 4));
    assert!(!world.new_status(true, 0));
    assert!(!world.new_status(false, 0));
}

#[test]
fn from_blank_state_gives_an_empty_world() {
    let world = World::from_blank_state().unwrap();
    assert_eq!(world.pop_count(), 0);
    assert!(!world.get(&Loc::new(0, 0)));
}

#[test]
fn loc_neighbors_are_the_moore_neighborhood() {
    let l = Loc::new(3, -2);
    let got: HashSet<(i64, i64)> = l.neighbors().iter().map(|n| (n.row, n.col)).collect();
    let mut want = HashSet::new();
    for dr in -1..=1i64 {
        for dc in -1..=1i64 {
            if dr != 0 || dc != 0 {
                want.insert((3 + dr, -2 + dc));
            }
        }
    }
    assert_eq!(got, want);
}

#[test]
fn ruleset_standard_is_b3_s23() {
    let rs = RuleSet::standard();
    for n in 0..9 {
        assert_eq!(rs.birth[n], n == 3);
        assert_eq!(rs.survive[n], n == 2 || n == 3);
    }
}
