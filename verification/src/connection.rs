use vstd::prelude::*;
use crate::util::{RingBuffer, ring_add};
use crate::messages::{ToPlayerMessageType, UpdateWorldMessage, AwkFrameMessage, KeyboardActionMessage};

verus! {

/// The difference the server sends: byte-wise xor where both states have a
/// byte, and the new state's own bytes past the end of the old one. It is as
/// long as the new state.
pub open spec fn state_difference(old_state: Seq<u8>, new_state: Seq<u8>) -> Seq<u8> {
    Seq::new(
        new_state.len(),
        |i: int|
            if i < old_state.len() {
                old_state[i] ^ new_state[i]
            } else {
                new_state[i]
            },
    )
}

/// What the client rebuilds from a difference and the state it was built
/// against: the difference xor-ed with the base where the base has bytes.
pub open spec fn applied_difference(base: Seq<u8>, difference: Seq<u8>) -> Seq<u8> {
    Seq::new(
        difference.len(),
        |i: int|
            if i < base.len() {
                difference[i] ^ base[i]
            } else {
                difference[i]
            },
    )
}

/// Produces a difference between two encoded states, from which the new
/// state can later be rebuilt given the old one.
pub fn produce_state_difference(old_state: &Vec<u8>, new_state: &Vec<u8>) -> (r: Vec<u8>)
    ensures
        r@ == state_difference(old_state@, new_state@),
{
    let common = if old_state.len() < new_state.len() {
        old_state.len()
    } else {
        new_state.len()
    };
    let mut result: Vec<u8> = Vec::with_capacity(new_state.len());
    let mut i: usize = 0;
    while i < common
        invariant
            common <= old_state.len(),
            common <= new_state.len(),
            common == old_state.len() || common == new_state.len(),
            i <= common,
            result@.len() == i,
            forall|j: int| 0 <= j < i ==> result@[j] == old_state@[j] ^ new_state@[j],
        decreases common - i,
    {
        result.push(old_state[i] ^ new_state[i]);
        i += 1;
    }
    if result.len() < new_state.len() {
        let dif = new_state.len() - result.len();
        let result_first_len = result.len();
        let mut k: usize = 0;
        while k < dif
            invariant
                result_first_len == common,
                common == old_state.len(),
                dif == new_state.len() - common,
                k <= dif,
                result@.len() == common + k,
                forall|j: int| 0 <= j < common ==> result@[j] == old_state@[j] ^ new_state@[j],
                forall|j: int| common <= j < common + k ==> result@[j] == new_state@[j],
            decreases dif - k,
        {
            let index = result_first_len + k;
            result.push(new_state[index]);
            k += 1;
        }
    }
    proof {
        assert(result@ =~= state_difference(old_state@, new_state@));
    }
    result
}

/// Rebuilds a state from a difference and the state the difference was built
/// against.
pub fn apply_state_difference(base: &Vec<u8>, difference: Vec<u8>) -> (r: Vec<u8>)
    ensures
        r@ == applied_difference(base@, difference@),
{
    let mut data = difference;
    let loop_counter = if base.len() < data.len() {
        base.len()
    } else {
        data.len()
    };
    let mut i: usize = 0;
    while i < loop_counter
        invariant
            loop_counter <= base.len(),
            loop_counter <= data.len(),
            data@.len() == difference@.len(),
            i <= loop_counter,
            forall|j: int| 0 <= j < i ==> data@[j] == difference@[j] ^ base@[j],
            forall|j: int| i <= j < data@.len() ==> data@[j] == difference@[j],
        decreases loop_counter - i,
    {
        let value = data[i] ^ base[i];
        data.set(i, value);
        i += 1;
    }
    proof {
        assert(data@ =~= applied_difference(base@, difference@));
    }
    data
}

/// Law: rebuilding from the difference and the old state gives the new state.
pub proof fn lemma_difference_round_trip(old_state: Seq<u8>, new_state: Seq<u8>)
    ensures
        applied_difference(old_state, state_difference(old_state, new_state)) == new_state,
{
    let d = state_difference(old_state, new_state);
    let r = applied_difference(old_state, d);
    assert forall|i: int| 0 <= i < new_state.len() implies r[i] == new_state[i] by {
        if i < old_state.len() {
            let a = old_state[i];
            let b = new_state[i];
            assert((a ^ b) ^ a == b) by (bit_vector);
        }
    }
    assert(r =~= new_state);
}

/// The frames and encoded states held in a history of past states.
pub open spec fn history(storage: Seq<(usize, Vec<u8>)>) -> Seq<(usize, Seq<u8>)> {
    storage.map_values(|e: (usize, Vec<u8>)| (e.0, e.1@))
}

/// `index` is the first position in the history that holds `frame`.
pub open spec fn is_first_frame(h: Seq<(usize, Seq<u8>)>, frame: usize, index: int) -> bool {
    &&& 0 <= index < h.len()
    &&& h[index].0 == frame
    &&& forall|j: int| 0 <= j < index ==> h[j].0 != frame
}

/// The first position in the history that holds `frame`, if any does.
pub open spec fn first_frame(h: Seq<(usize, Seq<u8>)>, frame: usize) -> Option<int> {
    if exists|i: int| is_first_frame(h, frame, i) {
        Some(choose|i: int| is_first_frame(h, frame, i))
    } else {
        None
    }
}

proof fn lemma_first_frame_unique(h: Seq<(usize, Seq<u8>)>, frame: usize, i: int)
    requires
        is_first_frame(h, frame, i),
    ensures
        first_frame(h, frame) == Some(i),
{
    let c = choose|k: int| is_first_frame(h, frame, k);
    assert(is_first_frame(h, frame, c));
    if c < i {
        assert(h[c].0 != frame);
    }
    if i < c {
        assert(h[i].0 != frame);
    }
}

proof fn lemma_first_frame_absent(h: Seq<(usize, Seq<u8>)>, frame: usize)
    requires
        forall|j: int| 0 <= j < h.len() ==> h[j].0 != frame,
    ensures
        first_frame(h, frame) is None,
{
}

/// Looks up the first stored state for `frame`.
pub fn find_frame(storage: &Vec<(usize, Vec<u8>)>, frame: usize) -> (r: Option<usize>)
    ensures
        match r {
            Some(i) => first_frame(history(storage@), frame) == Some(i as int),
            None => first_frame(history(storage@), frame) is None,
        },
{
    let ghost h = history(storage@);
    let mut i: usize = 0;
    while i < storage.len()
        invariant
            h == history(storage@),
            i <= storage@.len(),
            forall|j: int| 0 <= j < i ==> h[j].0 != frame,
        decreases storage@.len() - i,
    {
        if storage[i].0 == frame {
            proof {
                lemma_first_frame_unique(h, frame, i as int);
            }
            return Some(i);
        }
        i += 1;
    }
    proof {
        lemma_first_frame_absent(h, frame);
    }
    None
}

/// The acknowledged frame after acknowledgements of `frames` arrive in
/// order, one `record_awk_frame` each: every acknowledgement moves it to the
/// larger of the two.
pub open spec fn awked_after(awked: usize, frames: Seq<usize>) -> usize
    decreases frames.len(),
{
    if frames.len() == 0 {
        awked
    } else {
        let before = awked_after(awked, frames.drop_last());
        if frames.last() > before {
            frames.last()
        } else {
            before
        }
    }
}

/// Law: a late or reordered acknowledgement never moves the acknowledged
/// frame back. After any acknowledgements, it is the largest of the frame it
/// started at and every acknowledged frame.
pub proof fn lemma_awk_keeps_the_latest(awked: usize, frames: Seq<usize>)
    ensures
        awked_after(awked, frames) >= awked,
        forall|i: int| 0 <= i < frames.len() ==> awked_after(awked, frames) >= #[trigger] frames[i],
        awked_after(awked, frames) == awked || exists|i: int|
            0 <= i < frames.len() && awked_after(awked, frames) == #[trigger] frames[i],
    decreases frames.len(),
{
    if frames.len() > 0 {
        let prev = frames.drop_last();
        lemma_awk_keeps_the_latest(awked, prev);
        let r = awked_after(awked, frames);
        assert forall|i: int| 0 <= i < frames.len() implies r >= #[trigger] frames[i] by {
            if i < frames.len() - 1 {
                assert(prev[i] == frames[i]);
            }
        }
        if r != awked {
            if r == frames.last() {
                assert(r == frames[frames.len() - 1]);
            } else {
                let i = choose|i: int| 0 <= i < prev.len() && awked_after(awked, prev) == #[trigger] prev[i];
                assert(frames[i] == prev[i]);
            }
        }
    }
}

/// The message kind, frame, base frame and data of a world update.
pub open spec fn update_view(m: UpdateWorldMessage) -> (ToPlayerMessageType, usize, usize, Seq<u8>) {
    (m.message_type, m.current_frame_number, m.delta_frame_number, m.data@)
}

/// The update the server sends for a new encoded state: a difference
/// against the acknowledged frame when that frame is still in the history
/// (and anything was ever stored and acknowledged), the whole state otherwise.
pub open spec fn server_update(
    h: Seq<(usize, Seq<u8>)>,
    next_open_slot: usize,
    last_awked_game_state: usize,
    buffer: Seq<u8>,
    frame_number: usize,
) -> (ToPlayerMessageType, usize, usize, Seq<u8>) {
    if next_open_slot != 0 && last_awked_game_state != 0 && first_frame(h, last_awked_game_state)
        is Some {
        let i = first_frame(h, last_awked_game_state).unwrap();
        (
            ToPlayerMessageType::UpdateWorld,
            frame_number,
            last_awked_game_state,
            state_difference(h[i].1, buffer),
        )
    } else {
        (ToPlayerMessageType::StateWorld, frame_number, last_awked_game_state, buffer)
    }
}

/// What the client rebuilds from an update, and whether the rebuilt state
/// replaces its world: a difference needs its base frame in the client's
/// history and replaces the world only if it is not older than the world's
/// frame; a whole state always replaces it.
pub open spec fn client_rebuild(
    h: Seq<(usize, Seq<u8>)>,
    update: (ToPlayerMessageType, usize, usize, Seq<u8>),
    world_frame_number: usize,
) -> Option<(Seq<u8>, bool)> {
    match update.0 {
        ToPlayerMessageType::UpdateWorld => match first_frame(h, update.2) {
            Some(i) => Some((applied_difference(h[i].1, update.3), world_frame_number <= update.1)),
            None => None,
        },
        ToPlayerMessageType::StateWorld => Some((update.3, true)),
    }
}

/// A component that ties a character to a player's connection.
#[derive(Clone, Copy, PartialEq, Eq, Structural, Debug)]
pub struct PlayerConnectionComponent {
    /// The player index, one to one with the player connections.
    pub player_index: usize,
}

impl PlayerConnectionComponent {
    pub fn new(player_index: usize) -> (r: PlayerConnectionComponent)
        ensures
            r.player_index == player_index,
    {
        PlayerConnectionComponent { player_index }
    }
}

/// The server's record of one player: the states it sent recently, the last
/// frame the player acknowledged, and the inputs heard from the player that
/// the game has yet to use. `M` is the snapshot of the player's mouse.
pub struct PlayerConnection<M> {
    /// Recently sent states, by frame, used to build differences.
    pub previous_game_state: RingBuffer<(usize, Vec<u8>)>,
    /// The last frame this player told us it received.
    pub last_awked_game_state: usize,
    /// Keyboard inputs heard from the player.
    pub inputs: Vec<u8>,
    /// Mouse inputs heard from the player.
    pub desired_inputs: Vec<M>,
}

/// The most inputs a player message may carry to be taken.
pub const MAX_INPUT_WINDOW: usize = 16;

impl<M> PlayerConnection<M> {
    pub fn new(_ip: String) -> (r: PlayerConnection<M>)
        ensures
            r.previous_game_state.storage@.len() == 0,
            r.previous_game_state.next_open_slot == 0,
            r.last_awked_game_state == 0,
            r.inputs@.len() == 0,
            r.desired_inputs@.len() == 0,
    {
        PlayerConnection {
            previous_game_state: RingBuffer::new(),
            last_awked_game_state: 0,
            inputs: Vec::new(),
            desired_inputs: Vec::new(),
        }
    }

    /// Builds the update for a new encoded state of the world (a difference
    /// against the acknowledged frame when the server still has it, the
    /// whole state otherwise) and records the state in the history.
    pub fn update_player_with_new_game_state(&mut self, buffer: Vec<u8>, frame_number: usize) -> (r:
        UpdateWorldMessage)
        requires
            old(self).previous_game_state.next_open_slot < usize::MAX,
        ensures
            update_view(r) == server_update(
                history(old(self).previous_game_state.storage@),
                old(self).previous_game_state.next_open_slot,
                old(self).last_awked_game_state,
                buffer@,
                frame_number,
            ),
            (final(self).previous_game_state.storage@, final(self).previous_game_state.next_open_slot as nat) == ring_add(
                old(self).previous_game_state.storage@,
                old(self).previous_game_state.next_open_slot as nat,
                (frame_number, buffer),
            ),
            final(self).last_awked_game_state == old(self).last_awked_game_state,
            final(self).inputs == old(self).inputs,
            final(self).desired_inputs == old(self).desired_inputs,
    {
        let ghost h = history(self.previous_game_state.storage@);
        let message;
        if self.previous_game_state.next_open_slot != 0 && self.last_awked_game_state != 0 {
            let found = find_frame(&self.previous_game_state.storage, self.last_awked_game_state);
            match found {
                Some(index) => {
                    let difference = produce_state_difference(
                        &self.previous_game_state.storage[index].1,
                        &buffer,
                    );
                    message =
                    UpdateWorldMessage {
                        message_type: ToPlayerMessageType::UpdateWorld,
                        current_frame_number: frame_number,
                        delta_frame_number: self.last_awked_game_state,
                        data: difference,
                    };
                },
                None => {
                    message =
                    UpdateWorldMessage::new(frame_number, self.last_awked_game_state, buffer.clone());
                },
            }
        } else {
            message = UpdateWorldMessage::new(frame_number, self.last_awked_game_state, buffer.clone());
        }
        self.previous_game_state.add_new_data((frame_number, buffer));
        message
    }

    /// Takes an acknowledgement: the acknowledged frame only moves forward.
    pub fn record_awk_frame(&mut self, message: &AwkFrameMessage)
        ensures
            final(self).last_awked_game_state == if (message.frame_number > old(self).last_awked_game_state) {
                message.frame_number
            } else {
                old(self).last_awked_game_state
            },
            final(self).previous_game_state == old(self).previous_game_state,
            final(self).inputs == old(self).inputs,
            final(self).desired_inputs == old(self).desired_inputs,
    {
        if message.frame_number > self.last_awked_game_state {
            self.last_awked_game_state = message.frame_number;
        }
    }

    /// Takes the keyboard inputs of a message that carries at most 16 of them.
    pub fn record_keyboard_action(&mut self, message: KeyboardActionMessage)
        ensures
            final(self).inputs@ == if (message.input_messages@.len() <= MAX_INPUT_WINDOW) {
                message.input_messages@
            } else {
                old(self).inputs@
            },
            final(self).previous_game_state == old(self).previous_game_state,
            final(self).last_awked_game_state == old(self).last_awked_game_state,
            final(self).desired_inputs == old(self).desired_inputs,
    {
        if message.input_messages.len() <= MAX_INPUT_WINDOW {
            self.inputs = message.input_messages;
        }
    }

    /// Takes the mouse snapshots of a message that carries at most 16 of them.
    pub fn record_mouse_action(&mut self, destinations: Vec<M>)
        ensures
            final(self).desired_inputs@ == if (destinations@.len() <= MAX_INPUT_WINDOW) {
                destinations@
            } else {
                old(self).desired_inputs@
            },
            final(self).previous_game_state == old(self).previous_game_state,
            final(self).last_awked_game_state == old(self).last_awked_game_state,
            final(self).inputs == old(self).inputs,
    {
        if destinations.len() <= MAX_INPUT_WINDOW {
            self.desired_inputs = destinations;
        }
    }
}

/// The client's handling of a world update: rebuilds the full state (from
/// the stored base frame for a difference, or the message itself for a whole
/// state) and records it in the client's history. Returns the rebuilt state
/// and whether it replaces the client's world (frame `world_frame_number`);
/// `None`, with the history unchanged, when the base frame is unknown.
pub fn receive_world_update(
    encoded_world_states: &mut RingBuffer<(usize, Vec<u8>)>,
    message: UpdateWorldMessage,
    world_frame_number: usize,
) -> (r: Option<(Vec<u8>, bool)>)
    requires
        old(encoded_world_states).next_open_slot < usize::MAX,
    ensures
        match r {
            Some((state, rebuild)) => {
                &&& client_rebuild(
                    history(old(encoded_world_states).storage@),
                    update_view(message),
                    world_frame_number,
                ) == Some((state@, rebuild))
                &&& (history(final(encoded_world_states).storage@), final(encoded_world_states).next_open_slot as nat) == ring_add(
                    history(old(encoded_world_states).storage@),
                    old(encoded_world_states).next_open_slot as nat,
                    (message.current_frame_number, state@),
                )
            },
            None => {
                &&& client_rebuild(
                    history(old(encoded_world_states).storage@),
                    update_view(message),
                    world_frame_number,
                ) is None
                &&& *final(encoded_world_states) == *old(encoded_world_states)
            },
        },
{
    let ghost h = history(encoded_world_states.storage@);
    match message.message_type {
        ToPlayerMessageType::UpdateWorld => {
            match find_frame(&encoded_world_states.storage, message.delta_frame_number) {
                Some(index) => {
                    let state = apply_state_difference(
                        &encoded_world_states.storage[index].1,
                        message.data,
                    );
                    let copy = state.clone();
                    proof {
                        assert(copy@ =~= state@);
                    }
                    let ghost old_storage = encoded_world_states.storage@;
                    encoded_world_states.add_new_data((message.current_frame_number, copy));
                    proof {
                        lemma_history_ring_add(
                            old_storage,
                            old(encoded_world_states).next_open_slot as nat,
                            (message.current_frame_number, copy),
                        );
                    }
                    Some((state, world_frame_number <= message.current_frame_number))
                },
                None => None,
            }
        },
        ToPlayerMessageType::StateWorld => {
            let copy = message.data.clone();
            proof {
                assert(copy@ =~= message.data@);
            }
            let ghost old_storage = encoded_world_states.storage@;
            encoded_world_states.add_new_data((message.current_frame_number, copy));
            proof {
                lemma_history_ring_add(
                    old_storage,
                    old(encoded_world_states).next_open_slot as nat,
                    (message.current_frame_number, copy),
                );
            }
            Some((message.data, true))
        },
    }
}

proof fn lemma_history_ring_add(storage: Seq<(usize, Vec<u8>)>, next: nat, item: (usize, Vec<u8>))
    ensures
        (history(ring_add(storage, next, item).0), ring_add(storage, next, item).1) == ring_add(
            history(storage),
            next,
            (item.0, item.1@),
        ),
{
    let a = history(ring_add(storage, next, item).0);
    let b = ring_add(history(storage), next, (item.0, item.1@)).0;
    assert(a =~= b);
}

/// Law: the client rebuilds exactly the state the server encoded. Whenever
/// the server sends a difference, the client's history holds, as its first
/// entry for the acknowledged frame, the same state as the server's first
/// entry for it; a whole state needs nothing of the client.
pub proof fn lemma_client_rebuilds_server_state(
    server_history: Seq<(usize, Seq<u8>)>,
    next_open_slot: usize,
    last_awked_game_state: usize,
    client_history: Seq<(usize, Seq<u8>)>,
    new_state: Seq<u8>,
    frame_number: usize,
    world_frame_number: usize,
)
    requires
        (server_update(
            server_history,
            next_open_slot,
            last_awked_game_state,
            new_state,
            frame_number,
        ).0 == ToPlayerMessageType::UpdateWorld) ==> ({
            &&& first_frame(client_history, last_awked_game_state) is Some
            &&& client_history[first_frame(client_history, last_awked_game_state).unwrap()].1
                == server_history[first_frame(server_history, last_awked_game_state).unwrap()].1
        }),
    ensures
        client_rebuild(
            client_history,
            server_update(
                server_history,
                next_open_slot,
                last_awked_game_state,
                new_state,
                frame_number,
            ),
            world_frame_number,
        ) is Some,
        client_rebuild(
            client_history,
            server_update(
                server_history,
                next_open_slot,
                last_awked_game_state,
                new_state,
                frame_number,
            ),
            world_frame_number,
        ).unwrap().0 == new_state,
{
    let u = server_update(
        server_history,
        next_open_slot,
        last_awked_game_state,
        new_state,
        frame_number,
    );
    if u.0 == ToPlayerMessageType::UpdateWorld {
        let i = first_frame(server_history, last_awked_game_state).unwrap();
        lemma_difference_round_trip(server_history[i].1, new_state);
    }
}


/// What the server tells a client that joins: its id and the port to use.
pub struct ServerConnectionInfo {
    pub client_id: u8,
    pub port: u16,
}

impl ServerConnectionInfo {
    pub fn new(client_id: u8, port: u16) -> (r: ServerConnectionInfo)
        ensures
            r.client_id == client_id,
            r.port == port,
    {
        ServerConnectionInfo { client_id, port }
    }
}

/// What the game hands back for a join request: the handshake stream it
/// came on, the client id and the port given to the player.
#[derive(Debug)]
pub struct PlayerConnectionInfo {
    pub stream_id: usize,
    pub client_id: u8,
    pub port: u16,
}

impl PlayerConnectionInfo {
    pub fn new(stream_id: usize, client_id: u8, port: u16) -> (r: PlayerConnectionInfo)
        ensures
            r.stream_id == stream_id,
            r.client_id == client_id,
            r.port == port,
    {
        PlayerConnectionInfo { stream_id, client_id, port }
    }
}

} // verus!
