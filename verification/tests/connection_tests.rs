use agma::{
    produce_state_difference, apply_state_difference, find_frame, PlayerConnectionComponent,
    PlayerConnection, receive_world_update, ServerConnectionInfo, PlayerConnectionInfo,
    RingBuffer, ToPlayerMessageType, UpdateWorldMessage, AwkFrameMessage, KeyboardActionMessage,
};

#[test]
fn difference_of_equal_length_states_is_xor() {
    let d = produce_state_difference(&vec![1, 2, 3], &vec![1, 0, 7]);
    assert_eq!(d, vec![0, 2, 4]);
}

#[test]
fn difference_keeps_new_bytes_past_the_old_state() {
    let d = produce_state_difference(&vec![5], &vec![4, 9, 9]);
    assert_eq!(d, vec![1, 9, 9]);
}

#[test]
fn difference_is_as_long_as_the_new_state() {
    let d = produce_state_difference(&vec![5, 6, 7, 8], &vec![5]);
    assert_eq!(d, vec![0]);
    let d = produce_state_difference(&vec![], &vec![3, 4]);
    assert_eq!(d, vec![3, 4]);
}

#[test]
fn applying_a_difference_rebuilds_the_new_state() {
    let old_state = vec![10, 20, 30, 40];
    for new_state in [vec![10, 21, 30], vec![0, 0, 0, 0, 0, 1], vec![], vec![40, 30, 20, 10]] {
        let d = produce_state_difference(&old_state, &new_state);
        assert_eq!(apply_state_difference(&old_state, d), new_state);
    }
}

#[test]
fn find_frame_gives_the_first_match() {
    let storage = vec![(3, vec![1]), (5, vec![2]), (5, vec![3])];
    assert_eq!(find_frame(&storage, 5), Some(1));
    assert_eq!(find_frame(&storage, 3), Some(0));
    assert_eq!(find_frame(&storage, 4), None);
}

#[test]
fn player_connection_component_and_infos() {
    assert_eq!(PlayerConnectionComponent::new(4).player_index, 4);
    let s = ServerConnectionInfo::new(2, 4562);
    assert_eq!((s.client_id, s.port), (2, 4562));
    let p = PlayerConnectionInfo::new(9, 1, 4561);
    assert_eq!((p.stream_id, p.client_id, p.port), (9, 1, 4561));
}

#[test]
fn first_update_is_the_whole_state() {
    let mut pc: PlayerConnection<u32> = PlayerConnection::new(String::from("127.0.0.1"));
    let m = pc.update_player_with_new_game_state(vec![1, 2, 3], 1);
    assert_eq!(m.message_type, ToPlayerMessageType::StateWorld);
    assert_eq!(m.data, vec![1, 2, 3]);
    assert_eq!(m.current_frame_number, 1);
    assert_eq!(m.delta_frame_number, 0);
    assert_eq!(pc.previous_game_state.storage.len(), 1);
    assert_eq!(pc.previous_game_state.storage[0], (1, vec![1, 2, 3]));
}

#[test]
fn acknowledged_frame_gives_a_difference() {
    let mut pc: PlayerConnection<u32> = PlayerConnection::new(String::new());
    pc.update_player_with_new_game_state(vec![1, 2, 3], 1);
    pc.record_awk_frame(&AwkFrameMessage::new(1));
    let m = pc.update_player_with_new_game_state(vec![1, 2, 7, 8], 2);
    assert_eq!(m.message_type, ToPlayerMessageType::UpdateWorld);
    assert_eq!(m.delta_frame_number, 1);
    assert_eq!(m.data, vec![0, 0, 4, 8]);
}

#[test]
fn unknown_acknowledged_frame_gives_the_whole_state() {
    let mut pc: PlayerConnection<u32> = PlayerConnection::new(String::new());
    pc.update_player_with_new_game_state(vec![1], 1);
    pc.record_awk_frame(&AwkFrameMessage::new(50));
    let m = pc.update_player_with_new_game_state(vec![2], 2);
    assert_eq!(m.message_type, ToPlayerMessageType::StateWorld);
    assert_eq!(m.data, vec![2]);
    assert_eq!(m.delta_frame_number, 50);
}

#[test]
fn acknowledgements_only_move_forward() {
    let mut pc: PlayerConnection<u32> = PlayerConnection::new(String::new());
    pc.record_awk_frame(&AwkFrameMessage::new(10));
    pc.record_awk_frame(&AwkFrameMessage::new(4));
    assert_eq!(pc.last_awked_game_state, 10);
    pc.record_awk_frame(&AwkFrameMessage::new(11));
    assert_eq!(pc.last_awked_game_state, 11);
}

#[test]
fn input_windows_of_more_than_16_are_ignored() {
    let mut pc: PlayerConnection<u32> = PlayerConnection::new(String::new());
    pc.record_keyboard_action(KeyboardActionMessage::new(vec![1; 16]));
    assert_eq!(pc.inputs, vec![1; 16]);
    pc.record_keyboard_action(KeyboardActionMessage::new(vec![2; 17]));
    assert_eq!(pc.inputs, vec![1; 16]);
    pc.record_mouse_action(vec![7u32; 3]);
    assert_eq!(pc.desired_inputs, vec![7; 3]);
    pc.record_mouse_action(vec![8u32; 20]);
    assert_eq!(pc.desired_inputs, vec![7; 3]);
}

#[test]
fn client_rebuilds_what_the_server_sent() {
    let mut server: PlayerConnection<u32> = PlayerConnection::new(String::new());
    let mut client: RingBuffer<(usize, Vec<u8>)> = RingBuffer::new();
    let states = [vec![1, 2, 3, 4], vec![1, 2, 9], vec![0, 0, 0, 0, 0, 5], vec![6]];
    let mut world_frame = 0;
    for (i, state) in states.iter().enumerate() {
        let frame = i + 1;
        let m = server.update_player_with_new_game_state(state.clone(), frame);
        if i > 0 {
            assert_eq!(m.message_type, ToPlayerMessageType::UpdateWorld);
        }
        let (rebuilt, replace) = receive_world_update(&mut client, m, world_frame).unwrap();
        assert_eq!(&rebuilt, state);
        assert!(replace);
        world_frame = frame;
        server.record_awk_frame(&AwkFrameMessage::new(frame));
    }
    assert_eq!(client.storage.len(), states.len());
}

#[test]
fn difference_against_unknown_frame_is_ignored() {
    let mut client: RingBuffer<(usize, Vec<u8>)> = RingBuffer::new();
    let mut m = UpdateWorldMessage::new(3, 2, vec![1, 1]);
    m.message_type = ToPlayerMessageType::UpdateWorld;
    assert!(receive_world_update(&mut client, m, 0).is_none());
    assert!(client.storage.is_empty());
    assert_eq!(client.next_open_slot, 0);
}

#[test]
fn stale_difference_does_not_replace_the_world() {
    let mut client: RingBuffer<(usize, Vec<u8>)> = RingBuffer::new();
    client.add_new_data((1, vec![5, 5]));
    let mut m = UpdateWorldMessage::new(2, 1, vec![1, 0, 7]);
    m.message_type = ToPlayerMessageType::UpdateWorld;
    let (state, replace) = receive_world_update(&mut client, m, 9).unwrap();
    assert_eq!(state, vec![4, 5, 7]);
    assert!(!replace);
    assert_eq!(client.storage[1], (2, vec![4, 5, 7]));
}

#[test]
fn late_acknowledgements_never_move_the_frame_back() {
    let mut c: PlayerConnection<u8> = PlayerConnection::new(String::from("127.0.0.1:4560"));
    for f in [3usize, 9, 4, 9, 12, 1] {
        c.record_awk_frame(&AwkFrameMessage::new(f));
    }
    assert_eq!(c.last_awked_game_state, 12);
}
