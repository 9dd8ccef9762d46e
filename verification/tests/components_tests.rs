use agma::{
    ComponentType, AbilityComponent, MOVEMENT_ABILITY_INDEX, AttackStateComponent, EntityComponent,
    HealthComponent, MovementType, MovementStateComponent, PositionComponent, RadiusComponent,
    TeamComponent, ZomebieState, ZomebieControllerComponent, ZOMBIE_WALK_TIMER_MAX,
};

#[test]
fn ability_component_starts_on_slot_one() {
    let a = AbilityComponent::new([3, 4, 0, 0]);
    assert_eq!(a.ability_ids, [3, 4, 0, 0]);
    assert_eq!(a.active_ability, 1);
    assert_eq!(MOVEMENT_ABILITY_INDEX, 0);
}

#[test]
fn attack_state_component() {
    let mut a = AttackStateComponent::new(30, 2, 10);
    assert!(!a.is_attacking);
    assert_eq!((a.cooldown_timer, a.range, a.channel_timer), (30, 2, 10));
    assert_eq!((a.current_cooldown, a.current_channel, a.current_target), (0, 0, 0));
    a.start_attacking(7, -3, 4);
    assert!(a.is_attacking);
    assert_eq!((a.current_target, a.location_x, a.location_y), (7, -3, 4));
    assert_eq!(a.cooldown_timer, 30);
}

#[test]
fn entity_component_is_in_use() {
    let e = EntityComponent::new(12);
    assert_eq!(e.id, 12);
    assert!(e.in_use);
}

#[test]
fn damage_lowers_health_and_stops_at_zero() {
    let mut h = HealthComponent::new(100);
    h.do_damage(30);
    assert_eq!(h.current_amount, 70);
    h.do_damage(70);
    assert_eq!(h.current_amount, 0);
    let mut h = HealthComponent::new(5);
    h.do_damage(6);
    assert_eq!(h.current_amount, 0);
}

#[test]
fn movement_state_component() {
    let mut m = MovementStateComponent::new(3);
    assert!(!m.is_moving);
    assert!(m.can_move);
    assert_eq!((m.move_speed, m.current_move_speed), (3, 3));
    assert_eq!(m.movement_type, MovementType::Location);
    m.start_attack_moving(4, 2);
    assert!(m.is_moving);
    assert_eq!(m.movement_type, MovementType::AttackMove(4, 2));
    let before = m;
    m.stop_moving();
    assert_eq!(m, before);
    m.start_moving(-5, 8);
    assert_eq!((m.destination_x, m.destination_y), (-5, 8));
    assert_eq!(m.movement_type, MovementType::Location);
}

#[test]
fn position_moves_by_offsets() {
    let mut p = PositionComponent::new(20, 40);
    p.update_position(-1, 1);
    assert_eq!((p.x, p.y), (19, 41));
}

#[test]
fn radius_and_team() {
    assert_eq!(RadiusComponent::new(1).radius, 1);
    assert_eq!(TeamComponent::new(2).team, 2);
    assert_ne!(ComponentType::TransformComponent, ComponentType::ChampionComponent);
}

#[test]
fn new_zombie_is_idle_with_a_short_timer() {
    assert_eq!(ZOMBIE_WALK_TIMER_MAX, 240);
    for _ in 0..200 {
        match ZomebieControllerComponent::new().state {
            ZomebieState::Idle { walk_timer } => assert!(walk_timer < 10),
            _ => panic!("a new zombie is idle"),
        }
    }
}
