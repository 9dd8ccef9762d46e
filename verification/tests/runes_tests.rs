use agma::{DamageRune, MoveRune, Rune, RuneSystem, PositionComponent, HealthComponent};

#[test]
fn rune_values_order_moves_before_damage() {
    let m: Rune = MoveRune::new(1, 1, 0).into();
    let d: Rune = DamageRune::new(0, 1, 10).into();
    assert_eq!(m.value(), 0);
    assert_eq!(d.value(), 1);
}

#[test]
fn rune_constructors() {
    let d = DamageRune::new(2, 3, 10);
    assert_eq!((d.source, d.target, d.amount), (2, 3, 10));
    let m = MoveRune::new(5, -1, 1);
    assert_eq!((m.entity, m.offset_x, m.offset_y), (5, -1, 1));
}

#[test]
fn resolving_applies_moves_then_damage() {
    let mut runes = RuneSystem::new();
    runes.add_rune(MoveRune::new(0, 1, -1).into());
    runes.add_rune(DamageRune::new(1, 0, 30).into());
    runes.add_rune(MoveRune::new(0, 1, 0).into());
    runes.add_rune(DamageRune::new(0, 1, 500).into());
    runes.add_rune(MoveRune::new(1, 5, 5).into());
    let mut positions = vec![Some(PositionComponent::new(0, 0)), None];
    let mut health = vec![Some(HealthComponent::new(100)), Some(HealthComponent::new(20))];
    runes.resolve_world_state(&mut positions, &mut health);
    assert_eq!(positions, vec![Some(PositionComponent::new(2, -1)), None]);
    assert_eq!(health, vec![Some(HealthComponent::new(70)), Some(HealthComponent::new(0))]);
}

#[test]
fn handling_runes_directly() {
    let mut runes = RuneSystem::new();
    let mut positions = vec![Some(PositionComponent::new(3, 3))];
    runes.handle_move_runes(vec![MoveRune::new(0, -1, -1).into(), MoveRune::new(0, -1, 0).into()], &mut positions);
    assert_eq!(positions[0], Some(PositionComponent::new(1, 2)));
    let mut health = vec![None, Some(HealthComponent::new(15))];
    runes.handle_damage_runes(vec![DamageRune::new(0, 1, 10).into(), DamageRune::new(0, 0, 10).into()], &mut health);
    assert_eq!(health, vec![None, Some(HealthComponent::new(5))]);
}

#[test]
fn resolving_needs_both_kinds_and_fitting_runes() {
    let mut runes = RuneSystem::new();
    let positions = vec![Some(PositionComponent::new(0, 0))];
    let health = vec![Some(HealthComponent::new(10))];
    assert!(!runes.can_resolve_world_state(&positions, &health));
    runes.add_rune(MoveRune::new(0, 1, 1).into());
    assert!(!runes.can_resolve_world_state(&positions, &health));
    runes.add_rune(DamageRune::new(0, 0, 1).into());
    assert!(runes.can_resolve_world_state(&positions, &health));
    runes.add_rune(DamageRune::new(0, 1, 1).into());
    assert!(!runes.can_resolve_world_state(&positions, &health));

    let mut runes = RuneSystem::new();
    runes.add_rune(DamageRune::new(0, 0, 1).into());
    runes.add_rune(MoveRune::new(0, 1, 0).into());
    let at_edge = vec![Some(PositionComponent::new(i64::MAX - 1, 0))];
    assert!(runes.can_resolve_world_state(&at_edge, &health));
    runes.add_rune(MoveRune::new(0, 1, 0).into());
    assert!(!runes.can_resolve_world_state(&at_edge, &health));
    runes.add_rune(MoveRune::new(3, 1, 0).into());
    assert!(!runes.can_resolve_world_state(&positions, &health));
}
