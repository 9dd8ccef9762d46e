//! Shared game logic: the ring buffer of past states, grid path stepping,
//! the state-difference protocol between server and client, components,
//! abilities, runes and the byte framing of replicated world state.
pub mod util;

pub use util::{RingBuffer, RING_BUFFER_INTERNAL_STORAGE_SLOTS, path_find};
pub mod messages;

pub use messages::{
    ToPlayerMessageType, UpdateWorldMessage, PlayerToServerMessage, KeyboardActionMessage,
    AwkFrameMessage, HandshakeMessageType, ServerHandshakeAction, ClientHandshakeAction,
    server_handshake_step, client_handshake_step, compress_packet, encode_player_packet,
    rle_headers_well_formed, decompress_packet, split_player_packet,
};
pub mod connection;

pub use connection::{
    produce_state_difference, apply_state_difference, find_frame, PlayerConnectionComponent,
    PlayerConnection, MAX_INPUT_WINDOW, receive_world_update, ServerConnectionInfo,
    PlayerConnectionInfo,
};
pub mod components;

pub use components::{
    ComponentType, AbilityInstanceId, MOVEMENT_ABILITY_INDEX, AbilityComponent,
    AttackStateComponent, EntityComponent, HealthComponent, MovementType, MovementStateComponent,
    PositionComponent, RadiusComponent, TeamComponent, ZomebieState, ZOMBIE_WALK_TIMER_MAX,
    ZomebieControllerComponent, ChampionComponent, CHAMPION_INPUT_SLOTS,
};
pub mod runes;

pub use runes::{DamageRune, MoveRune, Rune, RuneSystem};
pub mod abilities;

pub use abilities::{
    AbilityActionFunctionIndex, AbilityTargetValidatorFunctionIndex, AbilityTarget, AbilityState,
    AbilityInstance, AbilityInstanceLibrary, NULL_ABILITY_VALUE,
    BASIC_MOVEMENT_ABILITY_FUNCTION_ID, AUTOATTACK_ABILITY_FUNCTION_ID,
};
pub use abilities::{target_is_position, autoattack, basic_movement, AUTOATTACK_DAMAGE};
pub mod world;

pub use world::{
    encode_component_frames, decode_component_frames, encode_world_frames, decode_world_frames,
    add_component_to_column, entity_at_point, are_friends, TEST_RADIUS,
};
pub mod systems;

pub use systems::{
    GRID_SIZE, grid_index, step_towards, tick_abilities, mark_dead_entities, INPUT_WINDOW,
    push_to_input_window, GridSlot, DesiredAction, place_living_characters,
    desired_action_after_click, pursue_desired_action, take_desired_inputs, join_settings,
    FIRST_PLAYER_PORT,
};
