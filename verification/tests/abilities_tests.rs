use agma::{
    AbilityTarget, AbilityState, AbilityInstance, AbilityInstanceLibrary, NULL_ABILITY_VALUE,
    BASIC_MOVEMENT_ABILITY_FUNCTION_ID, AUTOATTACK_ABILITY_FUNCTION_ID, target_is_position,
    autoattack, basic_movement, RuneSystem, PositionComponent, HealthComponent, AUTOATTACK_DAMAGE,
};

#[test]
fn new_ability_is_ready() {
    let a = AbilityInstance::new(30, 10, AUTOATTACK_ABILITY_FUNCTION_ID, 1, 1);
    assert!(a.ability_state == AbilityState::Ready);
    assert_eq!((a.channel_time, a.recovery_time, a.action, a.range), (30, 10, 2, 1));
    assert_eq!((a.current_channel_time, a.current_recovery_time), (0, 0));
    assert!(a.target == AbilityTarget::NoTarget);
    assert_eq!(BASIC_MOVEMENT_ABILITY_FUNCTION_ID, 1);
    assert_eq!(NULL_ABILITY_VALUE, 0);
}

#[test]
fn ability_fires_when_the_channel_ends_then_recovers() {
    let mut a = AbilityInstance::new(3, 12, 1, 1, 10);
    assert!(!a.advance());
    assert!(a.ability_state == AbilityState::Ready);
    a.start_with_target(AbilityTarget::Character(4));
    assert!(a.ability_state == AbilityState::Channeling);
    assert!(!a.advance());
    assert!(!a.advance());
    assert!(a.advance());
    assert!(a.ability_state == AbilityState::Recovering);
    assert_eq!(a.current_channel_time, 0);
    assert!(!a.advance());
    assert!(!a.advance());
    assert!(!a.advance());
    assert!(a.ability_state == AbilityState::Ready);
}

#[test]
fn zero_channel_time_fires_on_the_first_frame() {
    let mut a = AbilityInstance::new(0, 12, 1, 1, 10000);
    a.start_with_target(AbilityTarget::Position(1, 1));
    assert!(a.advance());
    assert!(!a.advance());
    assert!(a.ability_state == AbilityState::Ready);
}

#[test]
fn reset_makes_the_ability_ready() {
    let mut a = AbilityInstance::new(5, 5, 1, 1, 1);
    a.start_with_target(AbilityTarget::Position(0, 0));
    a.advance();
    a.reset();
    assert!(a.ability_state == AbilityState::Ready);
    assert_eq!(a.current_channel_time, 0);
    assert!(a.target == AbilityTarget::Position(0, 0));
}

#[test]
fn library_hands_out_ids_from_one() {
    let mut lib = AbilityInstanceLibrary::new();
    let a = lib.add_new_ability_instance(AbilityInstance::new(0, 12, 1, 1, 10000));
    let b = lib.add_new_ability_instance(AbilityInstance::new(30, 10, 2, 1, 1));
    assert_eq!((a, b), (1, 2));
    assert_eq!(lib.ability_count, 2);
    assert!(lib.checkout_ability_instance(0).is_none());
    assert!(lib.checkout_ability_instance(3).is_none());
    let inst = lib.checkout_ability_instance(b).unwrap();
    assert_eq!(inst.channel_time, 30);
    inst.start_with_target(AbilityTarget::Character(1));
    assert!(lib.checkout_ability_instance(b).unwrap().ability_state == AbilityState::Channeling);
}

#[test]
fn target_validator_accepts_positions() {
    assert!(target_is_position(&AbilityTarget::Position(3, 4)));
    assert!(!target_is_position(&AbilityTarget::Character(3)));
    assert!(!target_is_position(&AbilityTarget::NoTarget));
}

#[test]
fn autoattack_damages_its_character_target() {
    let mut runes = RuneSystem::new();
    autoattack(0, &AbilityTarget::Character(1), &mut runes);
    autoattack(0, &AbilityTarget::Position(1, 1), &mut runes);
    basic_movement(0, &vec![Some(PositionComponent::new(0, 0))], &AbilityTarget::Position(0, 0), &mut runes);
    let mut positions = vec![Some(PositionComponent::new(0, 0)), None];
    let mut health = vec![None, Some(HealthComponent::new(100))];
    runes.resolve_world_state(&mut positions, &mut health);
    assert_eq!(health[1], Some(HealthComponent::new(100 - AUTOATTACK_DAMAGE)));
    assert_eq!(positions[0], Some(PositionComponent::new(0, 0)));
}

#[test]
fn basic_movement_steps_towards_the_target() {
    let mut runes = RuneSystem::new();
    let positions = vec![Some(PositionComponent::new(20, 40)), Some(PositionComponent::new(0, 0))];
    basic_movement(0, &positions, &AbilityTarget::Position(0, 100), &mut runes);
    basic_movement(1, &positions, &AbilityTarget::Character(0), &mut runes);
    basic_movement(1, &positions, &AbilityTarget::Position(5, -5), &mut runes);
    runes.add_rune(agma::DamageRune::new(0, 0, 0).into());
    let mut moved = positions.clone();
    let mut health = vec![Some(HealthComponent::new(1))];
    runes.resolve_world_state(&mut moved, &mut health);
    assert_eq!(moved[0], Some(PositionComponent::new(19, 41)));
    assert_eq!(moved[1], Some(PositionComponent::new(1, -1)));
}

#[test]
fn a_channeling_ability_advances_whatever_its_recovery_timer() {
    let mut a = AbilityInstance::new(2, 12, 1, 1, 10);
    a.start_with_target(AbilityTarget::Position(0, 0));
    a.current_recovery_time = usize::MAX;
    assert!(!a.advance());
    assert!(a.ability_state == AbilityState::Channeling);
    assert_eq!(a.current_channel_time, 1);
    assert!(a.advance());
    assert!(a.ability_state == AbilityState::Recovering);
}

#[test]
fn library_ids_find_the_instances_added_in_order() {
    let mut lib = AbilityInstanceLibrary::new();
    for range in 1..=5usize {
        assert_eq!(lib.add_new_ability_instance(AbilityInstance::new(0, 0, 1, 1, range)), range);
    }
    for id in 1..=5usize {
        assert_eq!(lib.checkout_ability_instance(id).unwrap().range, id);
    }
    assert!(lib.checkout_ability_instance(NULL_ABILITY_VALUE).is_none());
    assert!(lib.checkout_ability_instance(6).is_none());
}
