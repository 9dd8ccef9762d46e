use agma::{
    encode_component_frames, decode_component_frames, encode_world_frames, decode_world_frames,
    add_component_to_column, entity_at_point, are_friends, PositionComponent, EntityComponent,
    TeamComponent,
};

#[test]
fn component_column_layout() {
    let bytes = encode_component_frames(&vec![Some(vec![7, 8]), None]);
    assert_eq!(bytes, vec![2, 0, 0, 0, 0, 0, 0, 0, 7, 8, 0, 0, 0, 0, 0, 0, 0, 0]);
}

#[test]
fn component_column_round_trip() {
    let slots = vec![None, Some(vec![1, 2, 3]), Some(vec![255; 300]), None];
    let bytes = encode_component_frames(&slots);
    assert_eq!(decode_component_frames(&bytes), Some(slots));
}

#[test]
fn empty_payload_reads_back_as_an_empty_slot() {
    let bytes = encode_component_frames(&vec![Some(vec![])]);
    assert_eq!(decode_component_frames(&bytes), Some(vec![None]));
}

#[test]
fn malformed_component_columns_are_refused() {
    assert_eq!(decode_component_frames(&vec![]), None);
    assert_eq!(decode_component_frames(&vec![0, 0, 0]), None);
    assert_eq!(decode_component_frames(&vec![5, 0, 0, 0, 0, 0, 0, 0, 1, 2]), None);
}

#[test]
fn world_layout() {
    let bytes = encode_world_frames(&vec![Some(vec![9]), None]);
    assert_eq!(bytes, vec![0, 1, 0, 0, 0, 0, 0, 0, 0, 9, 1, 0, 0, 0, 0, 0, 0, 0, 0]);
}

#[test]
fn world_round_trip_keeps_replicated_columns_with_bytes() {
    let columns = vec![Some(vec![1, 2]), None, Some(vec![]), Some(vec![3])];
    let bytes = encode_world_frames(&columns);
    assert_eq!(decode_world_frames(&bytes), Some(vec![(0, vec![1, 2]), (3, vec![3])]));
}

#[test]
fn malformed_worlds_are_refused() {
    assert_eq!(decode_world_frames(&vec![]), None);
    assert_eq!(decode_world_frames(&vec![0, 1, 0]), None);
    assert_eq!(decode_world_frames(&vec![0, 3, 0, 0, 0, 0, 0, 0, 0, 1]), None);
}

#[test]
fn adding_a_component_pads_the_column() {
    let mut column: Vec<Option<u8>> = vec![Some(1)];
    add_component_to_column(&mut column, 4, 2, 9);
    assert_eq!(column, vec![Some(1), None, Some(9), None]);
    add_component_to_column(&mut column, 2, 0, 5);
    assert_eq!(column, vec![Some(5), None, Some(9), None]);
}

#[test]
fn nearest_entity_within_radius_is_picked() {
    let positions = vec![
        Some(PositionComponent::new(0, 0)),
        Some(PositionComponent::new(9, 0)),
        Some(PositionComponent::new(3, 4)),
        Some(PositionComponent::new(-3, -4)),
    ];
    let entities = vec![
        Some(EntityComponent::new(10)),
        Some(EntityComponent::new(11)),
        Some(EntityComponent::new(12)),
        Some(EntityComponent::new(13)),
    ];
    assert_eq!(entity_at_point(&positions, &entities, 8, 0), Some(11));
    assert_eq!(entity_at_point(&positions, &entities, 3, 3), Some(12));
    assert_eq!(entity_at_point(&positions, &entities, 0, 0), Some(10));
    assert_eq!(entity_at_point(&positions, &entities, 50, 50), None);
}

#[test]
fn equally_near_entities_give_the_first() {
    let positions = vec![Some(PositionComponent::new(1, 0)), Some(PositionComponent::new(-1, 0))];
    let entities = vec![Some(EntityComponent::new(4)), Some(EntityComponent::new(5))];
    assert_eq!(entity_at_point(&positions, &entities, 0, 0), Some(4));
}

#[test]
fn entities_without_both_components_are_skipped() {
    let positions = vec![Some(PositionComponent::new(0, 0)), None, Some(PositionComponent::new(10, 0))];
    let entities = vec![None, Some(EntityComponent::new(1))];
    assert_eq!(entity_at_point(&positions, &entities, 0, 0), None);
}

#[test]
fn friends_share_a_team() {
    let teams = vec![Some(TeamComponent::new(1)), Some(TeamComponent::new(0)), Some(TeamComponent::new(1))];
    assert!(are_friends(&teams, 0, 2));
    assert!(!are_friends(&teams, 0, 1));
}

#[test]
fn replicated_components_read_back_through_the_world() {
    let positions = vec![Some(vec![1, 2]), None, Some(vec![3])];
    let health: Vec<Option<Vec<u8>>> = vec![];
    let teams = vec![None, Some(vec![7, 7, 7]), None];
    let columns = vec![
        Some(encode_component_frames(&positions)),
        None,
        Some(encode_component_frames(&health)),
        Some(encode_component_frames(&teams)),
    ];
    let world = encode_world_frames(&columns);
    let frames = decode_world_frames(&world).unwrap();
    assert_eq!(frames.len(), 2);
    assert_eq!(frames[0].0, 0);
    assert_eq!(decode_component_frames(&frames[0].1), Some(positions));
    assert_eq!(frames[1].0, 3);
    assert_eq!(decode_component_frames(&frames[1].1), Some(teams));
}
