use biomass::grid::{CellType, Edge, EdgeState};
use biomass::state::{GamePhase, GameState, SoundTrigger};

#[test]
fn new_game_starts_at_saved_level_clamped() {
    let s = GameState::new(0);
    assert_eq!(s.current_level_idx, 0);
    assert_eq!(s.turn_number, 1);
    assert_eq!(s.walls_left, 2);
    assert_eq!(s.phase, GamePhase::PlayerTurn);
    assert_eq!(s.star_rating, 3);
    assert_eq!(s.grid.get_cell(2, 2), CellType::Biomass);
    let s = GameState::new(4);
    assert_eq!(s.current_level_idx, 4);
    let s = GameState::new(99);
    assert_eq!(s.current_level_idx, 9);
}

#[test]
fn load_level_only_existing_levels() {
    let mut s = GameState::new(0);
    assert!(s.load_level(3));
    assert_eq!(s.current_level_idx, 3);
    assert_eq!(s.level.title, "Level 4: Divided Sectors");
    assert!(!s.load_level(10));
    assert_eq!(s.current_level_idx, 3);
}

#[test]
fn placing_walls_spends_the_budget_and_ends_the_turn() {
    let mut s = GameState::new(0);
    assert!(s.try_place_wall(Edge::Horizontal { r: 1, c: 0 }));
    assert_eq!(s.walls_left, 1);
    assert_eq!(s.phase, GamePhase::PlayerTurn);
    assert_eq!(s.grid.get_edge(Edge::Horizontal { r: 1, c: 0 }), EdgeState::Wall);
    // The same edge cannot take a second wall.
    assert!(!s.try_place_wall(Edge::Horizontal { r: 1, c: 0 }));
    // A boundary edge cannot take one at all.
    assert!(!s.try_place_wall(Edge::Horizontal { r: 0, c: 0 }));
    assert!(s.try_place_wall(Edge::Horizontal { r: 1, c: 1 }));
    assert_eq!(s.walls_left, 0);
    assert_ne!(s.phase, GamePhase::PlayerTurn);
    assert_eq!(s.placed_walls_this_turn.len(), 2);
    // Outside the player's turn no wall goes down.
    assert!(!s.try_place_wall(Edge::Horizontal { r: 1, c: 2 }));
}

#[test]
fn a_wall_placed_this_turn_can_be_taken_back() {
    let mut s = GameState::new(0);
    let before_edges = (s.grid.h_walls.clone(), s.grid.v_walls.clone());
    let edge = Edge::Vertical { r: 2, c: 2 };
    assert!(s.try_place_wall(edge));
    assert_eq!(s.walls_left, 1);
    assert!(s.remove_placed_wall(edge));
    assert_eq!(s.walls_left, 2);
    assert!(s.placed_walls_this_turn.is_empty());
    assert_eq!((s.grid.h_walls.clone(), s.grid.v_walls.clone()), before_edges);
    // Only walls of this turn can be taken back.
    assert!(!s.remove_placed_wall(edge));
    assert!(!s.remove_placed_wall(Edge::Horizontal { r: 0, c: 0 }));
}

#[test]
fn sealed_biomass_dies_and_the_level_is_won() {
    // Level 1: 5x5, biomass at (2,2), two walls per turn.
    let mut s = GameState::new(0);
    s.grid.set_edge(Edge::Horizontal { r: 2, c: 2 }, EdgeState::Wall);
    s.grid.set_edge(Edge::Horizontal { r: 3, c: 2 }, EdgeState::Wall);
    assert!(s.try_place_wall(Edge::Vertical { r: 2, c: 2 }));
    assert!(s.try_place_wall(Edge::Vertical { r: 2, c: 3 }));
    // Sealed: no step to play, the isolation phase starts at once.
    assert_eq!(s.phase, GamePhase::IsolationCheck);
    assert!(s.expansion_steps.is_empty());
    assert_eq!(s.dying_biomass, vec![(2, 2)]);
    assert_eq!(s.newly_starved_this_step, vec![(2, 2)]);
    let sound = s.update(false);
    assert_eq!(sound, Some(SoundTrigger::WinFanfare));
    assert_eq!(s.phase, GamePhase::Victory);
    assert_eq!(s.star_rating, 3);
    assert_eq!(s.grid.get_cell(2, 2), CellType::Empty);
    assert_eq!(s.grid.count_biomass(), 0);
}

#[test]
fn winning_the_last_level_plays_the_grand_fanfare() {
    let mut s = GameState::new(9);
    // Clear the grid by hand, then enter the isolation phase via a turn end.
    for &(r, c) in s.level.initial_biomass {
        s.grid.set_cell(r, c, CellType::Empty);
    }
    s.end_turn();
    assert_eq!(s.phase, GamePhase::IsolationCheck);
    assert_eq!(s.update(false), Some(SoundTrigger::GrandFanfare));
    assert_eq!(s.phase, GamePhase::Victory);
}

#[test]
fn spread_plays_back_one_step_per_due_tick() {
    let mut s = GameState::new(0);
    s.end_turn();
    assert_eq!(s.phase, GamePhase::BiomassExpansion);
    assert_eq!(s.expansion_steps.len(), 1);
    // Not due: nothing happens.
    assert_eq!(s.update(false), None);
    assert_eq!(s.grid.count_biomass(), 1);
    assert_eq!(s.phase, GamePhase::BiomassExpansion);
    // Due: the step plays and the isolation phase follows.
    assert_eq!(s.update(true), Some(SoundTrigger::BiomassTick));
    assert_eq!(s.grid.count_biomass(), 2);
    assert_eq!(s.newly_cloned_this_step.len(), 1);
    assert_eq!(s.phase, GamePhase::IsolationCheck);
    assert!(s.dying_biomass.is_empty());
    // Nothing starves: next player turn.
    assert_eq!(s.update(false), None);
    assert_eq!(s.phase, GamePhase::PlayerTurn);
    assert_eq!(s.turn_number, 2);
    assert_eq!(s.walls_left, 2);
    assert!(s.placed_walls_this_turn.is_empty());
}

#[test]
fn reaching_the_threshold_loses_the_level() {
    let mut s = GameState::new(0);
    // Fill cells up to the level's threshold of 12.
    let mut n = 0;
    for r in 0..5 {
        for c in 0..5 {
            if n < 12 {
                s.grid.set_cell(r, c, CellType::Biomass);
                n += 1;
            }
        }
    }
    s.phase = GamePhase::IsolationCheck;
    s.dying_biomass.clear();
    assert_eq!(s.update(false), Some(SoundTrigger::LossAlert));
    assert_eq!(s.phase, GamePhase::Defeat);
}

#[test]
fn stars_follow_the_turn_thresholds() {
    for (turn, stars) in [(3usize, 3usize), (4, 2), (5, 2), (6, 1)] {
        let mut s = GameState::new(0);
        for &(r, c) in s.level.initial_biomass {
            s.grid.set_cell(r, c, CellType::Empty);
        }
        s.turn_number = turn;
        s.phase = GamePhase::IsolationCheck;
        s.update(false);
        assert_eq!(s.phase, GamePhase::Victory);
        assert_eq!(s.star_rating, stars);
    }
}

#[test]
fn reset_restores_the_level_start() {
    let mut s = GameState::new(1);
    assert!(s.try_place_wall(Edge::Horizontal { r: 1, c: 1 }));
    s.reset_level();
    assert_eq!(s.current_level_idx, 1);
    assert_eq!(s.walls_left, 2);
    assert!(s.placed_walls_this_turn.is_empty());
    assert_eq!(s.grid.get_edge(Edge::Horizontal { r: 1, c: 1 }), EdgeState::Passable);
    assert_eq!(s.turn_number, 1);
}

#[test]
fn edge_clicks_place_take_back_or_refuse() {
    let mut s = GameState::new(0);
    let edge = Edge::Horizontal { r: 2, c: 2 };
    assert!(s.is_edge_selectable(edge));
    assert!(!s.is_edge_selectable(Edge::Horizontal { r: 0, c: 2 }));
    assert_eq!(s.handle_edge_click(edge), Some(SoundTrigger::WallPlace));
    assert_eq!(s.walls_left, 1);
    assert!(s.is_edge_selectable(edge));
    assert_eq!(s.handle_edge_click(edge), Some(SoundTrigger::WallPlace));
    assert_eq!(s.walls_left, 2);
    assert_eq!(s.handle_edge_click(Edge::Horizontal { r: 0, c: 2 }), Some(SoundTrigger::InvalidMove));
    assert_eq!(s.walls_left, 2);
}

#[test]
fn other_phases_ignore_updates() {
    let mut s = GameState::new(0);
    assert_eq!(s.update(true), None);
    assert_eq!(s.phase, GamePhase::PlayerTurn);
    s.phase = GamePhase::Defeat;
    assert_eq!(s.update(true), None);
    assert_eq!(s.phase, GamePhase::Defeat);
}

#[test]
fn forward_choice_after_a_win_goes_to_the_next_level() {
    let mut s = GameState::new(2);
    s.phase = GamePhase::Victory;
    assert!(!s.is_campaign_complete());
    assert!(s.advance_from_outcome());
    assert_eq!(s.current_level_idx, 3);
    assert_eq!(s.phase, GamePhase::PlayerTurn);
    assert_eq!(s.turn_number, 1);
}

#[test]
fn forward_choice_after_the_last_win_starts_over() {
    let mut s = GameState::new(9);
    s.phase = GamePhase::Victory;
    assert!(s.is_campaign_complete());
    assert!(s.advance_from_outcome());
    assert_eq!(s.current_level_idx, 0);
    assert_eq!(s.phase, GamePhase::PlayerTurn);
}

#[test]
fn forward_choice_after_a_defeat_skips_or_retries() {
    let mut s = GameState::new(4);
    s.phase = GamePhase::Defeat;
    assert!(!s.is_campaign_complete());
    assert!(s.advance_from_outcome());
    assert_eq!(s.current_level_idx, 5);

    let mut s = GameState::new(9);
    s.phase = GamePhase::Defeat;
    s.turn_number = 4;
    assert!(!s.is_campaign_complete());
    assert!(!s.advance_from_outcome());
    assert_eq!(s.current_level_idx, 9);
    assert_eq!(s.turn_number, 1);
    assert_eq!(s.phase, GamePhase::PlayerTurn);
}
