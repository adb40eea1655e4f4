use std::collections::HashSet;

use entropy_life::ant::AntWorld;
use entropy_life::automata::IWorld;
use entropy_life::loc::Loc;

fn alive_cells(world: &AntWorld) -> HashSet<(i64, i64)> {
    world
        .current_buffer()
        .iter()
        .filter(|(_, alive)| *alive)
        .map(|(loc, _)| (loc.row, loc.col))
        .collect()
}

#[test]
fn ant_starts_at_the_origin_heading_90() {
    let world = AntWorld::new();
    let p = world.machine();
    assert_eq!((p.row, p.col), (0, 0));
    assert_eq!(world.angle(), 90);
    assert_eq!(world.pop_count(), 0);
    assert!(!world.get(&Loc::new(0, 0)));
}

#[test]
fn ant_first_step_revives_the_origin_and_turns_to_180() {
    let mut world = AntWorld::new();
    world.step();
    // The origin was dead: the ant turns +90 degrees to 180, revives the
    // cell, and moves one cell along the new heading, to (0, -1).
    assert!(world.get(&Loc::new(0, 0)));
    assert_eq!(world.angle(), 180);
    let p = world.machine();
    assert_eq!((p.row, p.col), (0, -1));
    assert_eq!(world.pop_count(), 1);
}

#[test]
fn ant_second_step_continues_turning_left_on_dead_cells() {
    let mut world = AntWorld::new();
    world.step();
    world.step();
    // (0, -1) was dead: heading becomes 270, the cell is revived, and the
    // ant moves to (-1, -1).
    assert_eq!(world.angle(), 270);
    let p = world.machine();
    assert_eq!((p.row, p.col), (-1, -1));
    assert_eq!(alive_cells(&world), HashSet::from([(0, 0), (0, -1)]));
}

#[test]
fn ant_turns_right_and_kills_on_a_live_cell() {
    let mut world = AntWorld::new();
    world.set(&Loc::new(0, 0), true);
    world.step();
    // The origin was alive: the ant turns -90 degrees to 0, kills the
    // cell, and moves to (0, 1).
    assert_eq!(world.angle(), 0);
    let p = world.machine();
    assert_eq!((p.row, p.col), (0, 1));
    assert!(!world.get(&Loc::new(0, 0)));
    assert_eq!(world.pop_count(), 0);
}

#[test]
fn ant_returns_to_the_start_after_four_dead_steps() {
    let mut world = AntWorld::new();
    for _ in 0..4 {
        world.step();
    }
    // Four left turns over dead cells trace a unit square.
    let p = world.machine();
    assert_eq!((p.row, p.col), (0, 0));
    assert_eq!(world.angle(), 90);
    assert_eq!(world.pop_count(), 4);
}

#[test]
fn ant_is_reproducible_over_many_steps() {
    let mut a = AntWorld::new();
    let mut b = AntWorld::new();
    for _ in 0..500 {
        a.step();
        b.step();
    }
    let pa = a.machine();
    let pb = b.machine();
    assert_eq!((pa.row, pa.col), (pb.row, pb.col));
    assert_eq!(a.angle(), b.angle());
    assert_eq!(alive_cells(&a), alive_cells(&b));
    assert_eq!(a.pop_count(), b.pop_count());
}

#[test]
fn ant_set_does_not_seed_neighbors() {
    let mut world = AntWorld::new();
    world.set(&Loc::new(0, 0), true);
    assert_eq!(world.current_buffer().len(), 1);
}

#[test]
fn ant_from_blank_state_matches_new() {
    let world = AntWorld::from_blank_state().unwrap();
    let p = world.machine();
    assert_eq!((p.row, p.col), (0, 0));
    assert_eq!(world.angle(), 90);
}

fn run_ticks<W: IWorld>(world: &mut W, n: usize) {
    for _ in 0..n {
        world.step();
    }
}

#[test]
fn both_automata_drive_through_the_shared_contract() {
    let mut life: entropy_life::life::World = IWorld::new();
    IWorld::set(&mut life, &Loc::new(0, 0), true);
    IWorld::set(&mut life, &Loc::new(0, 1), true);
    IWorld::set(&mut life, &Loc::new(0, 2), true);
    run_ticks(&mut life, 2);
    assert!(IWorld::get(&life, &Loc::new(0, 1)));
    assert_eq!(IWorld::pop_count(&life), 3);

    let mut ant: AntWorld = IWorld::new();
    run_ticks(&mut ant, 1);
    assert!(IWorld::get(&ant, &Loc::new(0, 0)));
    assert_eq!(IWorld::pop_count(&ant), 1);
}
