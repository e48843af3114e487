use hqm_core::codec::HQMMessageWriter;
use hqm_core::game::{
    HQMConnectedPlayer, HQMGame, HQMGameObject, HQMGameState, HQMPlayerInput, HQMSkaterHand,
    HQMTeam,
};
use hqm_core::russian::{
    HQMCommandReply, HQMRussianAction, HQMRussianBehaviour, HQMRussianStatus, HQMSimulationEvent,
};

fn game_with_both_teams() -> (HQMRussianBehaviour, HQMGame) {
    let mut behaviour = HQMRussianBehaviour::new(5, 4);
    let mut game = behaviour.create_game(1, false);
    game.world.create_player_object(HQMTeam::Red, HQMSkaterHand::Right, 0);
    game.world.create_player_object(HQMTeam::Blue, HQMSkaterHand::Right, 1);
    (behaviour, game)
}

#[test]
fn scoring_within_reach_keeps_the_game_running() {
    // Red scores once in round 0, Blue answers in round 1: with five
    // attempts each, nobody is out of reach yet.
    let mut behaviour = HQMRussianBehaviour::new(5, 4);
    let mut game = behaviour.create_game(1, false);
    behaviour.status = HQMRussianStatus::Game {
        in_zone: HQMTeam::Red,
        round: 0,
        goal_scored: false,
    };
    game.red_score = 1;
    behaviour.check_ending(&mut game);
    assert!(!game.game_over);
    assert!(matches!(behaviour.status, HQMRussianStatus::Game { .. }));

    behaviour.status = HQMRussianStatus::Game {
        in_zone: HQMTeam::Blue,
        round: 1,
        goal_scored: false,
    };
    game.blue_score = 1;
    behaviour.check_ending(&mut game);
    assert!(!game.game_over);
    assert!(matches!(behaviour.status, HQMRussianStatus::Game { .. }));
}

#[test]
fn a_lead_out_of_reach_ends_the_game() {
    // Red leads 5-0 with its fifth attempt done: Blue's one remaining
    // attempt cannot close the gap.
    let mut behaviour = HQMRussianBehaviour::new(5, 4);
    let mut game = behaviour.create_game(1, false);
    behaviour.status = HQMRussianStatus::Game {
        in_zone: HQMTeam::Blue,
        round: 4,
        goal_scored: false,
    };
    game.red_score = 5;
    game.blue_score = 0;
    behaviour.check_ending(&mut game);
    assert!(game.game_over);
    assert_eq!(behaviour.status, HQMRussianStatus::GameOver);
    assert_eq!(game.time_break, 500);
}

#[test]
fn pause_counts_down_only_with_both_benches_manned() {
    let mut behaviour = HQMRussianBehaviour::new(5, 4);
    let mut game = behaviour.create_game(1, false);
    assert_eq!(game.time, 1000);
    // Nobody on the ice: the countdown stays pinned at ten seconds.
    behaviour.after_tick(&mut game, &vec![]);
    assert_eq!(game.time, 1000);

    game.world.create_player_object(HQMTeam::Red, HQMSkaterHand::Right, 0);
    behaviour.after_tick(&mut game, &vec![]);
    assert_eq!(game.time, 1000);

    game.world.create_player_object(HQMTeam::Blue, HQMSkaterHand::Right, 1);
    behaviour.after_tick(&mut game, &vec![]);
    assert_eq!(game.time, 999);
}

#[test]
fn countdown_expiry_opens_the_first_round_for_red() {
    let (mut behaviour, mut game) = game_with_both_teams();
    game.time = 1;
    let actions = behaviour.after_tick(&mut game, &vec![]);
    assert_eq!(game.period, 1);
    assert_eq!(game.time, 2000);
    assert_eq!(
        behaviour.status,
        HQMRussianStatus::Game { in_zone: HQMTeam::Red, round: 0, goal_scored: false }
    );
    assert!(actions.contains(&HQMRussianAction::AnnounceTotalAttempts { attempts: 5 }));
    assert!(actions.iter().any(|a| matches!(a, HQMRussianAction::PlacePuck { team: HQMTeam::Red, .. })));
    // The fresh puck went into the lowest empty slot.
    assert!(game.world.objects.iter().any(|o| matches!(o, HQMGameObject::Puck(_))));
}

#[test]
fn a_goal_scores_starts_the_break_and_announces() {
    let (mut behaviour, mut game) = game_with_both_teams();
    behaviour.status = HQMRussianStatus::Game {
        in_zone: HQMTeam::Red,
        round: 0,
        goal_scored: false,
    };
    game.time = 1500;
    let events = vec![HQMSimulationEvent::PuckEnteredNet { team: HQMTeam::Red, puck: 2 }];
    let actions = behaviour.after_tick(&mut game, &events);
    assert_eq!(game.red_score, 1);
    assert_eq!(game.blue_score, 0);
    assert!(game.is_intermission_goal);
    assert_eq!(game.time_break, 300);
    assert_eq!(
        behaviour.status,
        HQMRussianStatus::Game { in_zone: HQMTeam::Red, round: 0, goal_scored: true }
    );
    assert!(actions.contains(&HQMRussianAction::GoalScored { team: HQMTeam::Red }));
}

#[test]
fn zone_entry_hands_the_attempt_to_the_defenders() {
    let (mut behaviour, mut game) = game_with_both_teams();
    behaviour.status = HQMRussianStatus::Game {
        in_zone: HQMTeam::Red,
        round: 0,
        goal_scored: false,
    };
    game.time = 700;
    // The puck enters Blue's offensive zone: the attempt now belongs to Red's
    // opponent... the other team of Blue is Red, so nothing changes; the
    // interesting case is Red's own zone entry handing possession to Blue.
    let events = vec![HQMSimulationEvent::PuckEnteredOffensiveZone {
        team: HQMTeam::Red,
        puck: 2,
    }];
    behaviour.after_tick(&mut game, &events);
    assert_eq!(
        behaviour.status,
        HQMRussianStatus::Game { in_zone: HQMTeam::Blue, round: 0, goal_scored: false }
    );
    assert_eq!(game.time, 1999); // reset to 2000, then the tick ran

    // Handing the attempt back to Red opens the next round.
    let events = vec![HQMSimulationEvent::PuckEnteredOffensiveZone {
        team: HQMTeam::Blue,
        puck: 2,
    }];
    behaviour.after_tick(&mut game, &events);
    assert_eq!(
        behaviour.status,
        HQMRussianStatus::Game { in_zone: HQMTeam::Red, round: 1, goal_scored: false }
    );
}

#[test]
fn a_touch_records_the_toucher_and_possession() {
    let (mut behaviour, mut game) = game_with_both_teams();
    behaviour.status = HQMRussianStatus::Game {
        in_zone: HQMTeam::Red,
        round: 0,
        goal_scored: false,
    };
    game.time = 500;
    let puck_slot = game.world.create_puck_object().unwrap();
    // The Blue skater sits in slot 1 of the world table.
    let events = vec![HQMSimulationEvent::PuckTouch { puck: puck_slot, player: 1 }];
    behaviour.after_tick(&mut game, &events);
    assert_eq!(
        behaviour.status,
        HQMRussianStatus::Game { in_zone: HQMTeam::Blue, round: 0, goal_scored: false }
    );
    match &game.world.objects[puck_slot] {
        HQMGameObject::Puck(p) => {
            assert_eq!(p.touches.len(), 1);
            assert_eq!(p.touches[0].player_index, 1);
            assert_eq!(p.touches[0].team, HQMTeam::Blue);
        },
        _ => panic!("the puck slot should still hold the puck"),
    }
}

#[test]
fn game_over_break_then_new_game() {
    let (mut behaviour, mut game) = game_with_both_teams();
    behaviour.status = HQMRussianStatus::GameOver;
    game.time_break = 2;
    let actions = behaviour.after_tick(&mut game, &vec![]);
    assert!(actions.is_empty());
    let actions = behaviour.after_tick(&mut game, &vec![]);
    assert!(actions.contains(&HQMRussianAction::NewGame));
    // The server applies the action by asking the behaviour for a new game.
    let next = behaviour.create_game(2, false);
    assert_eq!(behaviour.status, HQMRussianStatus::Pause);
    assert_eq!(next.time, 1000);
}

#[test]
fn spectate_and_join_requests() {
    let mut behaviour = HQMRussianBehaviour::new(5, 1);
    let mut game = behaviour.create_game(1, false);
    let mut players: Vec<Option<HQMConnectedPlayer>> = vec![
        Some(HQMConnectedPlayer {
            input: HQMPlayerInput { keys: 0x4 }, // join red
            team_switch_timer: 0,
            is_admin: false,
            hand: HQMSkaterHand::Right,
            skater: None,
        }),
        Some(HQMConnectedPlayer {
            input: HQMPlayerInput { keys: 0x4 }, // join red, but the cap is 1
            team_switch_timer: 0,
            is_admin: false,
            hand: HQMSkaterHand::Right,
            skater: None,
        }),
        Some(HQMConnectedPlayer {
            input: HQMPlayerInput { keys: 0x8 }, // join blue
            team_switch_timer: 3,
            is_admin: false,
            hand: HQMSkaterHand::Left,
            skater: None,
        }),
        None,
    ];
    let actions = behaviour.update_players(&mut players, &mut game);
    // Player 0 took the one Red seat; player 1 was capped out; player 2 is
    // still cooling down.
    assert!(matches!(
        actions[..],
        [HQMRussianAction::Join { player_index: 0, team: HQMTeam::Red, .. }]
    ));
    assert!(players[0].unwrap().skater.is_some());
    assert!(players[1].unwrap().skater.is_none());
    assert_eq!(players[2].unwrap().team_switch_timer, 2);
    assert_eq!(game.world.team_player_counts(), (1, 0));

    // The skater asks to spectate: it leaves at once and cools down, and
    // the freed Red seat goes to the waiting player in the same tick.
    players[0].as_mut().unwrap().input = HQMPlayerInput { keys: 0x20 };
    let actions = behaviour.update_players(&mut players, &mut game);
    assert!(actions.contains(&HQMRussianAction::Spectate { player_index: 0 }));
    assert!(players[0].unwrap().skater.is_none());
    assert_eq!(players[0].unwrap().team_switch_timer, 500);
    assert!(players[1].unwrap().skater.is_some());
    assert_eq!(game.world.team_player_counts(), (1, 0));
}

#[test]
fn only_admins_reset_the_game() {
    let behaviour = HQMRussianBehaviour::new(5, 4);
    let players: Vec<Option<HQMConnectedPlayer>> = vec![
        Some(HQMConnectedPlayer {
            input: HQMPlayerInput::default(),
            team_switch_timer: 0,
            is_admin: true,
            hand: HQMSkaterHand::Right,
            skater: None,
        }),
        Some(HQMConnectedPlayer {
            input: HQMPlayerInput::default(),
            team_switch_timer: 0,
            is_admin: false,
            hand: HQMSkaterHand::Right,
            skater: None,
        }),
        None,
    ];
    assert_eq!(behaviour.reset_game_command(&players, 0), HQMCommandReply::ResetGame);
    assert_eq!(behaviour.reset_game_command(&players, 1), HQMCommandReply::AdminDenied);
    assert_eq!(behaviour.reset_game_command(&players, 2), HQMCommandReply::NoReply);
    assert_eq!(behaviour.reset_game_command(&players, 99), HQMCommandReply::NoReply);
}

/// Runs one fixed input script against a fresh server state and returns the
/// bytes of a snapshot-like encoding of everything the rules decided.
fn scripted_run() -> Vec<u8> {
    let (mut behaviour, mut game) = game_with_both_teams();
    behaviour.status = HQMRussianStatus::Game {
        in_zone: HQMTeam::Red,
        round: 0,
        goal_scored: false,
    };
    game.time = 1200;
    let puck_slot = game.world.create_puck_object().unwrap();
    let first = vec![
        HQMSimulationEvent::PuckTouch { puck: puck_slot, player: 0 },
        HQMSimulationEvent::PuckEnteredOffensiveZone { team: HQMTeam::Red, puck: puck_slot },
    ];
    let second = vec![HQMSimulationEvent::PuckEnteredNet { team: HQMTeam::Blue, puck: puck_slot }];
    behaviour.after_tick(&mut game, &first);
    game.game_step = game.game_step.wrapping_add(1);
    behaviour.after_tick(&mut game, &second);
    game.game_step = game.game_step.wrapping_add(1);

    let mut w = HQMMessageWriter::new();
    w.write_u32_aligned(game.game_id);
    w.write_u32_aligned(game.game_step);
    w.write_bits(8, game.red_score);
    w.write_bits(8, game.blue_score);
    w.write_bits(16, game.time);
    w.write_bits(16, game.time_break);
    w.write_bits(1, if game.is_intermission_goal { 1 } else { 0 });
    w.write_bits(1, if game.game_over { 1 } else { 0 });
    w.write_u32_aligned(game.rules_state.update_num());
    w.get_slice().to_vec()
}

#[test]
fn identical_input_scripts_give_identical_snapshots() {
    assert_eq!(scripted_run(), scripted_run());
}

#[test]
fn goal_break_expiry_replaces_the_puck() {
    let (mut behaviour, mut game) = game_with_both_teams();
    behaviour.status = HQMRussianStatus::Game {
        in_zone: HQMTeam::Red,
        round: 2,
        goal_scored: true,
    };
    game.time_break = 1;
    game.is_intermission_goal = true;
    let actions = behaviour.after_tick(&mut game, &vec![]);
    assert_eq!(game.time, 2000);
    assert!(!game.is_intermission_goal);
    assert_eq!(
        behaviour.status,
        HQMRussianStatus::Game { in_zone: HQMTeam::Red, round: 2, goal_scored: false }
    );
    assert!(actions.iter().any(|a| matches!(a, HQMRussianAction::PlacePuck { team: HQMTeam::Red, .. })));
    assert!(game.world.objects.iter().any(|o| matches!(o, HQMGameObject::Puck(_))));
}

#[test]
fn time_expiry_places_the_puck_for_the_other_team() {
    let (mut behaviour, mut game) = game_with_both_teams();
    behaviour.status = HQMRussianStatus::Game {
        in_zone: HQMTeam::Red,
        round: 0,
        goal_scored: false,
    };
    game.time = 1;
    let actions = behaviour.after_tick(&mut game, &vec![]);
    assert_eq!(
        behaviour.status,
        HQMRussianStatus::Game { in_zone: HQMTeam::Blue, round: 0, goal_scored: false }
    );
    assert_eq!(game.time, 2000);
    assert!(actions.iter().any(|a| matches!(a, HQMRussianAction::PlacePuck { team: HQMTeam::Blue, .. })));
    assert!(game.world.objects.iter().any(|o| matches!(o, HQMGameObject::Puck(_))));
}

#[test]
fn fresh_game_is_a_clean_warmup() {
    let (mut behaviour, _game) = game_with_both_teams();
    behaviour.status = HQMRussianStatus::GameOver;
    let next = behaviour.create_game(7, true);
    assert_eq!(next.state, HQMGameState::Warmup);
    assert!(next.world.objects.iter().all(|o| matches!(o, HQMGameObject::Empty)));
    assert!(next.global_messages.is_empty());
    assert_eq!(next.period, 0);
    assert_eq!(next.game_id, 7);
    assert_eq!(behaviour.status, HQMRussianStatus::Pause);
}
