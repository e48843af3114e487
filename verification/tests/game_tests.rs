use hqm_core::game::{
    advance_message_cursor, get_position, HQMConnectedPlayer, HQMGame, HQMGameObject,
    HQMGameWorld, HQMMessage, HQMPlayerInput, HQMRulesState, HQMSkaterHand, HQMTeam,
};

#[test]
fn team_numbers_match_the_wire() {
    assert_eq!(HQMTeam::Red.get_num(), 0);
    assert_eq!(HQMTeam::Blue.get_num(), 1);
    assert_eq!(HQMTeam::Spec.get_num(), u32::MAX);
}

#[test]
fn other_team_swaps_sides() {
    assert_eq!(HQMTeam::Red.get_other_team(), HQMTeam::Blue);
    assert_eq!(HQMTeam::Blue.get_other_team(), HQMTeam::Red);
    assert_eq!(HQMTeam::Spec.get_other_team(), HQMTeam::Spec);
}

#[test]
fn rules_state_numeric_projection() {
    assert_eq!(HQMRulesState::Clear.update_num(), 0);
    assert_eq!(HQMRulesState::OffsideWarning.update_num(), 1);
    assert_eq!(HQMRulesState::IcingWarning.update_num(), 2);
    assert_eq!(HQMRulesState::DualWarning.update_num(), 3);
    assert_eq!(HQMRulesState::Offside.update_num(), 4);
    assert_eq!(HQMRulesState::Icing.update_num(), 8);
}

#[test]
fn input_key_bits() {
    let input = HQMPlayerInput { keys: 0x1 | 0x8 | 0x10 };
    assert!(input.jump());
    assert!(!input.crouch());
    assert!(!input.join_red());
    assert!(input.join_blue());
    assert!(input.shift());
    assert!(!input.spectate());
    let idle = HQMPlayerInput::default();
    assert_eq!(idle.keys, 0);
    assert!(!idle.jump());
}

#[test]
fn position_quantizer_clamps() {
    assert_eq!(get_position(17, -5), 0);
    assert_eq!(get_position(17, 0), 0);
    assert_eq!(get_position(17, 77777), 77777);
    assert_eq!(get_position(17, 131071), 131071);
    assert_eq!(get_position(17, 131072), 131071);
    assert_eq!(get_position(16, 70000), 65535);
    assert_eq!(get_position(13, 4242), 4242);
}

#[test]
fn objects_take_the_lowest_empty_slot() {
    let mut world = HQMGameWorld::new(false);
    assert_eq!(world.find_empty_object_slot(), Some(0));
    let a = world.create_player_object(HQMTeam::Red, HQMSkaterHand::Right, 7);
    assert_eq!(a, Some(0));
    let b = world.create_puck_object();
    assert_eq!(b, Some(1));
    match &world.objects[0] {
        HQMGameObject::Player(s) => {
            assert_eq!(s.index, 0);
            assert_eq!(s.connected_player_index, 7);
            assert_eq!(s.team, HQMTeam::Red);
        },
        _ => panic!("slot 0 should hold the skater"),
    }
    // Freeing slot 0 makes it the lowest empty slot again.
    world.objects[0] = HQMGameObject::Empty;
    assert_eq!(world.find_empty_object_slot(), Some(0));
}

#[test]
fn a_full_world_rejects_new_objects() {
    let mut world = HQMGameWorld::new(false);
    for _ in 0..32 {
        assert!(world.create_puck_object().is_some());
    }
    assert_eq!(world.create_puck_object(), None);
    assert_eq!(world.create_player_object(HQMTeam::Blue, HQMSkaterHand::Left, 0), None);
    world.clear_pucks();
    assert_eq!(world.find_empty_object_slot(), Some(0));
}

#[test]
fn touch_ring_deduplicates_and_caps() {
    let mut world = HQMGameWorld::new(false);
    let slot = world.create_puck_object().unwrap();
    for (player, tick) in [(1usize, 10u32), (2, 11), (1, 12), (3, 13), (4, 14), (5, 15)] {
        world.touch_puck(slot, player, HQMTeam::Red, tick);
    }
    match &world.objects[slot] {
        HQMGameObject::Puck(p) => {
            let players: Vec<usize> = p.touches.iter().map(|t| t.player_index).collect();
            // Most recent first, player 1's earlier touch replaced, capped at four.
            assert_eq!(players, vec![5, 4, 3, 1]);
            assert_eq!(p.touches[3].tick, 12);
        },
        _ => panic!("slot should hold the puck"),
    }
}

#[test]
fn team_counts_follow_the_slots() {
    let mut world = HQMGameWorld::new(false);
    world.create_player_object(HQMTeam::Red, HQMSkaterHand::Right, 0);
    world.create_player_object(HQMTeam::Blue, HQMSkaterHand::Right, 1);
    world.create_player_object(HQMTeam::Red, HQMSkaterHand::Left, 2);
    world.create_puck_object();
    assert_eq!(world.team_player_counts(), (2, 1));
    assert_eq!(world.skater_team(1), Some((1, HQMTeam::Blue)));
    assert_eq!(world.skater_team(3), None);
    assert_eq!(world.skater_team(999), None);
}

#[test]
fn new_game_defaults() {
    let game = HQMGame::new(42, true);
    assert_eq!(game.red_score, 0);
    assert_eq!(game.blue_score, 0);
    assert_eq!(game.period, 0);
    assert_eq!(game.time, 30000);
    assert_eq!(game.game_id, 42);
    assert!(!game.game_over);
    assert!(!game.paused);
    assert!(game.world.limit_jump_speed);
    assert_eq!(game.world.objects.len(), 32);
    assert!(game.world.objects.iter().all(|o| matches!(o, HQMGameObject::Empty)));
}

#[test]
fn connected_player_defaults_compose() {
    let p = HQMConnectedPlayer {
        input: HQMPlayerInput::default(),
        team_switch_timer: 0,
        is_admin: false,
        hand: HQMSkaterHand::Right,
        skater: None,
    };
    assert!(p.skater.is_none());
}

#[test]
fn message_log_window_and_cursor() {
    let mut game = HQMGame::new(1, false);
    for i in 0..20u32 {
        game.add_message(HQMMessage::Chat { player_index: None, message: vec![i as u8] });
    }
    assert_eq!(game.global_messages.len(), 20);
    // A snapshot carries at most sixteen unacknowledged messages.
    assert_eq!(game.message_window(0), 16);
    assert_eq!(game.message_window(10), 10);
    assert_eq!(game.message_window(20), 0);
    assert_eq!(game.message_window(25), 0);
    // Acks advance the cursor, clamped to the log's end.
    assert_eq!(advance_message_cursor(0, 16, 20), 16);
    assert_eq!(advance_message_cursor(16, 4, 20), 20);
    assert_eq!(advance_message_cursor(16, 200, 20), 20);
}
