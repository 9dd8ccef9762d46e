use agma::{
    GRID_SIZE, grid_index, step_towards, tick_abilities, mark_dead_entities, push_to_input_window,
    INPUT_WINDOW, AbilityInstanceLibrary, AbilityInstance, AbilityTarget, AbilityState,
    AbilityComponent, EntityComponent, HealthComponent, ChampionComponent, NULL_ABILITY_VALUE,
    GridSlot, DesiredAction, place_living_characters, desired_action_after_click,
    pursue_desired_action, take_desired_inputs, PositionComponent, TeamComponent,
};
use std::collections::HashMap;

#[test]
fn grid_cells_are_laid_out_row_by_row() {
    assert_eq!(grid_index(0, 0), 500 + 500 * GRID_SIZE);
    assert_eq!(grid_index(20, 40), 520 + 540 * 1000);
    assert_eq!(grid_index(499, 499), 999 * 1000 + 999);
    assert_eq!(grid_index(-500, -500), 0);
    assert_eq!(grid_index(-1, 0), 499 + 500 * 1000);
}

#[test]
fn stepping_towards_a_target() {
    assert_eq!(step_towards(0, 0, 5, -3), (1, -1));
    assert_eq!(step_towards(4, 4, 4, 9), (4, 5));
    assert_eq!(step_towards(4, 4, 4, 4), (4, 4));
}

#[test]
fn ticking_fires_abilities_at_the_end_of_their_channel() {
    let mut lib = AbilityInstanceLibrary::new();
    let movement = lib.add_new_ability_instance(AbilityInstance::new(0, 12, 1, 1, 10000));
    let attack = lib.add_new_ability_instance(AbilityInstance::new(2, 10, 2, 1, 1));
    let ac = AbilityComponent::new([movement, attack, NULL_ABILITY_VALUE, NULL_ABILITY_VALUE]);
    let mut requests = vec![];
    tick_abilities(&mut lib, 7, &ac, &mut requests);
    assert!(requests.is_empty());
    lib.checkout_ability_instance(attack).unwrap().start_with_target(AbilityTarget::Character(3));
    lib.checkout_ability_instance(movement).unwrap().start_with_target(AbilityTarget::Position(1, 1));
    tick_abilities(&mut lib, 7, &ac, &mut requests);
    assert_eq!(requests, vec![(7, movement)]);
    tick_abilities(&mut lib, 7, &ac, &mut requests);
    assert_eq!(requests, vec![(7, movement), (7, attack)]);
    assert!(lib.checkout_ability_instance(attack).unwrap().ability_state == AbilityState::Recovering);
}

#[test]
fn dead_entities_are_marked_out_of_use() {
    let mut entities = vec![Some(EntityComponent::new(0)), Some(EntityComponent::new(1)), None, Some(EntityComponent::new(3))];
    let health = vec![Some(HealthComponent::new(0)), Some(HealthComponent::new(5)), Some(HealthComponent::new(0))];
    mark_dead_entities(&mut entities, &health);
    assert_eq!(entities[0], Some(EntityComponent { id: 0, in_use: false }));
    assert_eq!(entities[1], Some(EntityComponent::new(1)));
    assert_eq!(entities[2], None);
    assert_eq!(entities[3], Some(EntityComponent::new(3)));
}

#[test]
fn input_window_keeps_the_latest_sixteen() {
    let mut window: Vec<u8> = vec![];
    for i in 0..40u8 {
        push_to_input_window(&mut window, i);
        assert!(window.len() <= INPUT_WINDOW);
    }
    assert_eq!(window, (24..40u8).collect::<Vec<u8>>());
}

#[test]
fn champion_hands_out_inputs_oldest_first() {
    let mut c = ChampionComponent::new(2, 0u32);
    assert_eq!(c.champion_index, 2);
    for i in 0..16 {
        c.desired_inputs[i] = i as u32 * 3;
    }
    for i in 0..16 {
        assert_eq!(c.get_current_input(), Some(i as u32 * 3));
    }
    assert_eq!(c.get_current_input(), None);
    assert_eq!(c.current_input_to_use, 16);
}

#[test]
fn living_characters_are_placed_on_a_cleared_grid() {
    let mut grid = vec![GridSlot::Character(99); GRID_SIZE * GRID_SIZE + 1];
    let entities = vec![Some(EntityComponent::new(0)), Some(EntityComponent::new(1)), Some(EntityComponent::new(2)), None];
    let positions = vec![Some(PositionComponent::new(20, 40)), Some(PositionComponent::new(-3, 7)), Some(PositionComponent::new(1, 1)), Some(PositionComponent::new(5, 5))];
    let health = vec![Some(HealthComponent::new(100)), Some(HealthComponent::new(1)), Some(HealthComponent::new(0)), Some(HealthComponent::new(9))];
    let placed = place_living_characters(&mut grid, &entities, &positions, &health);
    assert_eq!(grid[grid_index(20, 40)], GridSlot::Character(0));
    assert_eq!(grid[grid_index(-3, 7)], GridSlot::Character(1));
    assert_eq!(grid[grid_index(1, 1)], GridSlot::Empty);
    assert_eq!(grid[grid_index(5, 5)], GridSlot::Empty);
    assert_eq!(grid[GRID_SIZE * GRID_SIZE], GridSlot::Character(99));
    assert_eq!(grid.iter().filter(|s| **s != GridSlot::Empty).count(), 3);
    assert_eq!(placed.len(), 2);
    assert_eq!(placed[&0], (20, 40));
    assert_eq!(placed[&1], (-3, 7));
}

#[test]
fn clicks_choose_what_a_champion_wants() {
    let mut grid = vec![GridSlot::Empty; GRID_SIZE * GRID_SIZE];
    grid[grid_index(10, 10)] = GridSlot::Character(1);
    grid[grid_index(12, 10)] = GridSlot::Character(2);
    grid[grid_index(0, 3)] = GridSlot::Character(2);
    let teams = vec![Some(TeamComponent::new(0)), Some(TeamComponent::new(1)), Some(TeamComponent::new(0))];
    let now = DesiredAction::MoveToPosition(4, 4);
    assert_eq!(desired_action_after_click(now, &grid, &teams, 0, 10, 10), DesiredAction::Attack(1));
    assert_eq!(desired_action_after_click(now, &grid, &teams, 0, 12, 10), now);
    assert_eq!(desired_action_after_click(now, &grid, &teams, 0, 30, 31), DesiredAction::MoveToPosition(30, 31));
    // a click left of the origin lands in the column of x = 0
    assert_eq!(desired_action_after_click(DesiredAction::Nothing, &grid, &teams, 1, -8, 3), DesiredAction::Attack(2));
}

#[test]
fn pursuing_a_move_steps_towards_the_destination() {
    let mut lib = AbilityInstanceLibrary::new();
    let movement = lib.add_new_ability_instance(AbilityInstance::new(0, 12, 1, 1, 10000));
    let attack = lib.add_new_ability_instance(AbilityInstance::new(30, 10, 2, 1, 1));
    let ac = AbilityComponent::new([movement, attack, NULL_ABILITY_VALUE, NULL_ABILITY_VALUE]);
    let targets: HashMap<usize, (i64, i64)> = HashMap::new();
    let here = PositionComponent::new(5, 5);
    let go = DesiredAction::MoveToPosition(9, 2);
    let next = pursue_desired_action(go, &mut lib, &ac, here, &targets, |_i, _t| false);
    assert_eq!(next, go);
    let m = lib.checkout_ability_instance(movement).unwrap();
    assert!(m.ability_state == AbilityState::Channeling);
    assert_eq!(m.target, AbilityTarget::Position(6, 4));
    // busy: nothing more starts
    let next = pursue_desired_action(DesiredAction::MoveToPosition(0, 0), &mut lib, &ac, here, &targets, |_i, _t| false);
    assert_eq!(next, DesiredAction::MoveToPosition(0, 0));
    assert_eq!(lib.checkout_ability_instance(movement).unwrap().target, AbilityTarget::Position(6, 4));
    // arrived
    let next = pursue_desired_action(DesiredAction::MoveToPosition(5, 5), &mut lib, &ac, here, &targets, |_i, _t| false);
    assert_eq!(next, DesiredAction::Nothing);
    assert_eq!(pursue_desired_action(DesiredAction::Nothing, &mut lib, &ac, here, &targets, |_i, _t| true), DesiredAction::Nothing);
}

#[test]
fn pursuing_an_attack() {
    let mut lib = AbilityInstanceLibrary::new();
    let movement = lib.add_new_ability_instance(AbilityInstance::new(0, 12, 1, 1, 10000));
    let attack = lib.add_new_ability_instance(AbilityInstance::new(30, 10, 2, 7, 1));
    let ac = AbilityComponent::new([movement, attack, NULL_ABILITY_VALUE, NULL_ABILITY_VALUE]);
    let mut targets: HashMap<usize, (i64, i64)> = HashMap::new();
    targets.insert(4, (0, 10));
    let here = PositionComponent::new(3, 3);
    // refused by the target check: step towards the target instead
    let next = pursue_desired_action(DesiredAction::Attack(4), &mut lib, &ac, here, &targets, |i, _t| i != 7);
    assert_eq!(next, DesiredAction::Attack(4));
    assert!(lib.checkout_ability_instance(attack).unwrap().ability_state == AbilityState::Ready);
    assert_eq!(lib.checkout_ability_instance(movement).unwrap().target, AbilityTarget::Position(2, 4));
    // accepted: the attack starts at the character
    let mut lib2 = AbilityInstanceLibrary::new();
    let movement2 = lib2.add_new_ability_instance(AbilityInstance::new(0, 12, 1, 1, 10000));
    let attack2 = lib2.add_new_ability_instance(AbilityInstance::new(30, 10, 2, 7, 1));
    let ac2 = AbilityComponent::new([movement2, attack2, NULL_ABILITY_VALUE, NULL_ABILITY_VALUE]);
    let next = pursue_desired_action(DesiredAction::Attack(4), &mut lib2, &ac2, here, &targets, |i, t| i == 7 && t == AbilityTarget::Character(4));
    assert_eq!(next, DesiredAction::Attack(4));
    let a = lib2.checkout_ability_instance(attack2).unwrap();
    assert!(a.ability_state == AbilityState::Channeling);
    assert_eq!(a.target, AbilityTarget::Character(4));
    assert!(lib2.checkout_ability_instance(movement2).unwrap().ability_state == AbilityState::Ready);
}

#[test]
fn champions_take_a_full_window_of_inputs() {
    let mut c = ChampionComponent::new(3, 0u32);
    c.current_input_to_use = 9;
    take_desired_inputs(&mut c, &vec![1u32; 15]);
    assert_eq!(c.current_input_to_use, 9);
    assert_eq!(c.desired_inputs, [0u32; 16]);
    let inputs: Vec<u32> = (100..120).collect();
    take_desired_inputs(&mut c, &inputs);
    assert_eq!(c.current_input_to_use, 0);
    assert_eq!(c.champion_index, 3);
    assert_eq!(c.desired_inputs.to_vec(), (100..116).collect::<Vec<u32>>());
}

#[test]
fn an_accepted_attack_needs_no_target_position() {
    let mut lib = AbilityInstanceLibrary::new();
    let movement = lib.add_new_ability_instance(AbilityInstance::new(0, 12, 1, 1, 10000));
    let attack = lib.add_new_ability_instance(AbilityInstance::new(30, 10, 2, 7, 1));
    let ac = AbilityComponent::new([movement, attack, NULL_ABILITY_VALUE, NULL_ABILITY_VALUE]);
    let targets: HashMap<usize, (i64, i64)> = HashMap::new();
    let next = pursue_desired_action(DesiredAction::Attack(9), &mut lib, &ac, PositionComponent::new(0, 0), &targets, |_i, _t| true);
    assert_eq!(next, DesiredAction::Attack(9));
    assert_eq!(lib.checkout_ability_instance(attack).unwrap().target, AbilityTarget::Character(9));
}

#[test]
fn joining_players_get_their_id_and_port() {
    assert_eq!(agma::join_settings(0), (0, 4560));
    assert_eq!(agma::join_settings(3), (3, 4563));
    assert_eq!(agma::join_settings(300), (44, 4860));
    assert_eq!(agma::FIRST_PLAYER_PORT, 4560);
}
