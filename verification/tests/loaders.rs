use std::collections::HashSet;

use entropy_life::config::ConfigParseError;
use entropy_life::life::World;
use entropy_life::loc::Loc;
use entropy_life::rules::RuleSet;

fn alive_cells(world: &World) -> HashSet<(i64, i64)> {
    world
        .current_buffer()
        .iter()
        .filter(|(_, alive)| *alive)
        .map(|(loc, _)| (loc.row, loc.col))
        .collect()
}

#[test]
fn plain_grid_places_cells_at_their_row_and_column() {
    let world = World::from_configuration("*.\n.*\n", '.', '*', RuleSet::standard()).unwrap();
    assert_eq!(alive_cells(&world), HashSet::from([(0, 0), (1, 1)]));
    assert!(world.get(&Loc::new(0, 0)));
    assert!(world.get(&Loc::new(1, 1)));
    assert!(!world.get(&Loc::new(0, 1)));
    assert!(!world.get(&Loc::new(1, 0)));
    assert_eq!(world.pop_count(), 2);
}

#[test]
fn plain_grid_ignores_carriage_returns() {
    let world = World::from_configuration("*.\r\n.*\r\n", '.', '*', RuleSet::standard()).unwrap();
    assert_eq!(alive_cells(&world), HashSet::from([(0, 0), (1, 1)]));
}

#[test]
fn plain_grid_accepts_caller_chosen_characters() {
    let world = World::from_configuration("#-\n-#", '-', '#', RuleSet::standard()).unwrap();
    assert_eq!(alive_cells(&world), HashSet::from([(0, 0), (1, 1)]));
}

#[test]
fn plain_grid_reports_the_bad_character_and_its_position() {
    let err = World::from_configuration("*.\n.x*", '.', '*', RuleSet::standard()).unwrap_err();
    assert_eq!(err, ConfigParseError::InvalidChar { c: 'x', row: 1, col: 1 });
}

#[test]
fn plain_grid_empty_text_gives_a_blank_world() {
    let world = World::from_configuration("", '.', '*', RuleSet::standard()).unwrap();
    assert_eq!(world.pop_count(), 0);
}

#[test]
fn rle_glider_loads_with_comments_and_header() {
    let text = "#C a glider\nx = 3, y = 3, rule = B3/S23\nbob$2bo$3o!";
    let world = World::from_rle(text).unwrap();
    assert_eq!(
        alive_cells(&world),
        HashSet::from([(0, 1), (1, 2), (2, 0), (2, 1), (2, 2)])
    );
    assert_eq!(world.pop_count(), 5);
}

#[test]
fn rle_missing_count_defaults_to_one() {
    let world = World::from_rle("ob2o!").unwrap();
    assert_eq!(alive_cells(&world), HashSet::from([(0, 0), (0, 2), (0, 3)]));
}

#[test]
fn rle_count_on_row_break_skips_rows() {
    let world = World::from_rle("o3$o!").unwrap();
    assert_eq!(alive_cells(&world), HashSet::from([(0, 0), (3, 0)]));
}

#[test]
fn rle_ignores_whitespace_between_tokens() {
    let world = World::from_rle("2o $ 2o!").unwrap();
    assert_eq!(
        alive_cells(&world),
        HashSet::from([(0, 0), (0, 1), (1, 0), (1, 1)])
    );
}

#[test]
fn rle_text_after_terminator_is_ignored() {
    let world = World::from_rle("o!whatever comes here")
        .unwrap();
    assert_eq!(alive_cells(&world), HashSet::from([(0, 0)]));
}

#[test]
fn rle_rejects_a_foreign_body_character() {
    let err = World::from_rle("q!").unwrap_err();
    assert_eq!(err, ConfigParseError::InvalidToken { c: 'q', at: 0 });
}

#[test]
fn rle_rejects_an_oversized_run_count() {
    let err = World::from_rle("9999999999o!").unwrap_err();
    assert_eq!(err, ConfigParseError::RunTooLong { at: 9 });
}

#[test]
fn rle_rejects_a_pattern_that_grows_too_wide() {
    let err = World::from_rle("1000000009b!").unwrap_err();
    assert_eq!(err, ConfigParseError::PatternTooLarge { at: 10 });
}

#[test]
fn rle_rejects_a_pattern_that_grows_too_tall() {
    let err = World::from_rle("999999999$999999999$!").unwrap_err();
    assert_eq!(err, ConfigParseError::PatternTooLarge { at: 19 });
}

#[test]
fn rle_without_terminator_is_rejected() {
    let err = World::from_rle("3o").unwrap_err();
    assert_eq!(err, ConfigParseError::Unterminated);
}

#[test]
fn rle_blinker_steps_like_a_hand_built_one() {
    let mut from_rle = World::from_rle("3o!").unwrap();
    let mut by_hand = World::new();
    by_hand.set(&Loc::new(0, 0), true);
    by_hand.set(&Loc::new(0, 1), true);
    by_hand.set(&Loc::new(0, 2), true);
    for _ in 0..3 {
        from_rle.step();
        by_hand.step();
        assert_eq!(alive_cells(&from_rle), alive_cells(&by_hand));
    }
}

#[test]
fn loaded_world_steps_with_its_rule() {
    // Dead cell with six neighbors: born under B36/S23, not under B3/S23.
    let text = "***\n*.*\n.*.\n";
    let highlife = World::from_configuration(text, '.', '*', entropy_life::rules::dfa_rules("B36S23").unwrap()).unwrap();
    let life = World::from_configuration(text, '.', '*', RuleSet::standard()).unwrap();
    let mut highlife = highlife;
    let mut life = life;
    highlife.step();
    life.step();
    assert!(highlife.get(&Loc::new(1, 1)));
    assert!(!life.get(&Loc::new(1, 1)));
}
