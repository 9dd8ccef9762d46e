use vstd::prelude::*;

verus! {

/// Whether an update to the client carries a difference against an older
/// frame or the whole state.
#[derive(Clone, Copy, PartialEq, Eq, Structural, Debug)]
pub enum ToPlayerMessageType {
    UpdateWorld,
    StateWorld,
}

/// Updates the client on the state of the world, either as a difference
/// against a frame the client acknowledged or as the entire state.
#[derive(Debug)]
pub struct UpdateWorldMessage {
    /// The kind of message: a difference or a whole state.
    pub message_type: ToPlayerMessageType,
    /// The server frame this message decodes into.
    pub current_frame_number: usize,
    /// The acknowledged frame a difference was built against.
    pub delta_frame_number: usize,
    /// The difference or the whole state.
    pub data: Vec<u8>,
}

impl UpdateWorldMessage {
    /// A whole-state message.
    pub fn new(current_frame_number: usize, delta_frame_number: usize, data: Vec<u8>) -> (r:
        UpdateWorldMessage)
        ensures
            r.message_type == ToPlayerMessageType::StateWorld,
            r.current_frame_number == current_frame_number,
            r.delta_frame_number == delta_frame_number,
            r.data@ == data@,
    {
        UpdateWorldMessage {
            message_type: ToPlayerMessageType::StateWorld,
            current_frame_number,
            delta_frame_number,
            data,
        }
    }
}

/// Tags a message from the player to the server with its kind.
#[derive(Clone, Copy, PartialEq, Eq, Structural, Debug)]
pub enum PlayerToServerMessage {
    KeyboardAction,
    MouseAction,
    AwkFrameMessage,
}

/// The byte that tags each kind of player message on the wire.
pub open spec fn message_code(m: PlayerToServerMessage) -> u8 {
    match m {
        PlayerToServerMessage::AwkFrameMessage => 0,
        PlayerToServerMessage::MouseAction => 1,
        PlayerToServerMessage::KeyboardAction => 2,
    }
}

/// The kind of player message a tag byte below 3 stands for.
pub open spec fn message_from_code(value: u8) -> PlayerToServerMessage {
    if value == 0 {
        PlayerToServerMessage::AwkFrameMessage
    } else if value == 1 {
        PlayerToServerMessage::MouseAction
    } else {
        PlayerToServerMessage::KeyboardAction
    }
}

impl PlayerToServerMessage {
    pub fn to_u8(&self) -> (r: u8)
        ensures
            r == message_code(*self),
    {
        match self {
            PlayerToServerMessage::AwkFrameMessage => {
                return 0;
            },
            PlayerToServerMessage::MouseAction => {
                return 1;
            },
            PlayerToServerMessage::KeyboardAction => {
                return 2;
            },
        }
    }

    /// Decodes a tag byte; only 0, 1 and 2 are tags.
    pub fn from_u8(value: u8) -> (r: PlayerToServerMessage)
        requires
            value < 3,
        ensures
            r == message_from_code(value),
    {
        match value {
            0 => {
                return PlayerToServerMessage::AwkFrameMessage;
            },
            1 => {
                return PlayerToServerMessage::MouseAction;
            },
            _ => {
                return PlayerToServerMessage::KeyboardAction;
            },
        }
    }
}

/// Law: every kind of message decodes back from its tag byte, and every tag
/// byte below 3 encodes back to itself.
pub proof fn lemma_message_code_round_trip(m: PlayerToServerMessage, value: u8)
    ensures
        message_code(m) < 3,
        message_from_code(message_code(m)) == m,
        value < 3 ==> message_code(message_from_code(value)) == value,
{
}

/// The state of the keyboard over a window of frames.
#[derive(Debug)]
pub struct KeyboardActionMessage {
    pub message_type: PlayerToServerMessage,
    pub input_messages: Vec<u8>,
}

impl KeyboardActionMessage {
    pub fn new(inputs: Vec<u8>) -> (r: KeyboardActionMessage)
        ensures
            r.message_type == PlayerToServerMessage::KeyboardAction,
            r.input_messages@ == inputs@,
    {
        KeyboardActionMessage {
            message_type: PlayerToServerMessage::KeyboardAction,
            input_messages: inputs,
        }
    }
}

/// Tells the server that a frame reached the client, so later differences
/// can be built against it.
#[derive(Debug)]
pub struct AwkFrameMessage {
    pub message_type: PlayerToServerMessage,
    pub frame_number: usize,
}

impl AwkFrameMessage {
    pub fn new(frame_number: usize) -> (r: AwkFrameMessage)
        ensures
            r.message_type == PlayerToServerMessage::AwkFrameMessage,
            r.frame_number == frame_number,
    {
        AwkFrameMessage { message_type: PlayerToServerMessage::AwkFrameMessage, frame_number }
    }
}

/// The steps of the connection handshake between a player and the server,
/// each sent as four bytes over the stream.
#[derive(Clone, Copy, PartialEq, Eq, Structural, Debug)]
pub enum HandshakeMessageType {
    /// The player greets the server.
    Hello,
    /// The server acknowledges the greeting.
    HelloAwk,
    /// The player asks to join the game.
    Join,
    /// The server grants the player a client id and a port.
    GameSettings(u8, u16),
}

/// The four bytes of a handshake message: a tag byte (0 to 3), then for the
/// game settings the client id and the port, little-endian.
pub open spec fn handshake_bytes(m: HandshakeMessageType) -> Seq<u8> {
    match m {
        HandshakeMessageType::Hello => seq![0u8, 0u8, 0u8, 0u8],
        HandshakeMessageType::HelloAwk => seq![1u8, 0u8, 0u8, 0u8],
        HandshakeMessageType::Join => seq![2u8, 0u8, 0u8, 0u8],
        HandshakeMessageType::GameSettings(client_id, port) => seq![
            3u8,
            client_id,
            port as u8,
            (port >> 8u16) as u8,
        ],
    }
}

/// The handshake message four bytes stand for, by their tag byte; `None`
/// for a tag above 3. The bytes after the tag only matter for game settings.
pub open spec fn handshake_from_bytes(b: Seq<u8>) -> Option<HandshakeMessageType> {
    if b[0] == 0 {
        Some(HandshakeMessageType::Hello)
    } else if b[0] == 1 {
        Some(HandshakeMessageType::HelloAwk)
    } else if b[0] == 2 {
        Some(HandshakeMessageType::Join)
    } else if b[0] == 3 {
        Some(HandshakeMessageType::GameSettings(b[1], ((b[2] as u16) | ((b[3] as u16) << 8u16)) as u16))
    } else {
        None
    }
}

impl HandshakeMessageType {
    /// The four bytes sent for this message.
    pub fn to_u8(&self) -> (r: [u8; 4])
        ensures
            r@ == handshake_bytes(*self),
    {
        let r: [u8; 4] = match self {
            HandshakeMessageType::Hello => [0, 0, 0, 0],
            HandshakeMessageType::HelloAwk => [1, 0, 0, 0],
            HandshakeMessageType::Join => [2, 0, 0, 0],
            HandshakeMessageType::GameSettings(client_id, port) => [
                3,
                *client_id,
                *port as u8,
                (*port >> 8u16) as u8,
            ],
        };
        proof {
            assert(r@ =~= handshake_bytes(*self));
        }
        r
    }

    /// The message four received bytes stand for; `None` for an unknown tag.
    pub fn from_u8(data: [u8; 4]) -> (r: Option<HandshakeMessageType>)
        ensures
            r == handshake_from_bytes(data@),
    {
        let tag = data[0];
        if tag == 0 {
            Some(HandshakeMessageType::Hello)
        } else if tag == 1 {
            Some(HandshakeMessageType::HelloAwk)
        } else if tag == 2 {
            Some(HandshakeMessageType::Join)
        } else if tag == 3 {
            let port: u16 = (data[2] as u16) | ((data[3] as u16) << 8u16);
            Some(HandshakeMessageType::GameSettings(data[1], port))
        } else {
            None
        }
    }
}

/// Law: every handshake message is read back from its four bytes.
pub proof fn lemma_handshake_round_trip(m: HandshakeMessageType)
    ensures
        handshake_bytes(m).len() == 4,
        handshake_from_bytes(handshake_bytes(m)) == Some(m),
{
    match m {
        HandshakeMessageType::GameSettings(client_id, port) => {
            let lo = port as u8;
            let hi = (port >> 8u16) as u8;
            assert(((lo as u16) | ((hi as u16) << 8u16)) == port) by (bit_vector)
                requires
                    lo == port as u8,
                    hi == (port >> 8u16) as u8,
            ;
        },
        _ => {},
    }
}

/// What the server does with four bytes a player sent in the handshake.
#[derive(Clone, Copy, PartialEq, Eq, Structural, Debug)]
pub enum ServerHandshakeAction {
    /// Answer the player with this message.
    Reply(HandshakeMessageType),
    /// Ask the game for a client id and a port for the player.
    RequestJoin,
    /// The server only handles greetings and join requests.
    Ignore,
}

/// The server's step of the handshake on received bytes: a greeting is
/// acknowledged, a join request goes to the game, anything else is ignored.
pub open spec fn server_handshake_action(data: Seq<u8>) -> ServerHandshakeAction {
    match handshake_from_bytes(data) {
        Some(HandshakeMessageType::Hello) => ServerHandshakeAction::Reply(
            HandshakeMessageType::HelloAwk,
        ),
        Some(HandshakeMessageType::Join) => ServerHandshakeAction::RequestJoin,
        _ => ServerHandshakeAction::Ignore,
    }
}

/// Decides the server's step of the handshake on four received bytes.
pub fn server_handshake_step(data: [u8; 4]) -> (r: ServerHandshakeAction)
    ensures
        r == server_handshake_action(data@),
{
    match HandshakeMessageType::from_u8(data) {
        Some(HandshakeMessageType::Hello) => ServerHandshakeAction::Reply(
            HandshakeMessageType::HelloAwk,
        ),
        Some(HandshakeMessageType::Join) => ServerHandshakeAction::RequestJoin,
        _ => ServerHandshakeAction::Ignore,
    }
}

/// What the player does with four bytes the server sent in the handshake.
#[derive(Clone, Copy, PartialEq, Eq, Structural, Debug)]
pub enum ClientHandshakeAction {
    /// Answer the server with this message.
    Reply(HandshakeMessageType),
    /// Join the game with this client id on this port.
    Joined(u8, u16),
    /// The player only expects an acknowledgement and the game settings.
    Ignore,
}

/// The player's step of the handshake on received bytes: an acknowledged
/// greeting is followed by a join request, and the game settings let the
/// player join; anything else is ignored.
pub open spec fn client_handshake_action(data: Seq<u8>) -> ClientHandshakeAction {
    match handshake_from_bytes(data) {
        Some(HandshakeMessageType::HelloAwk) => ClientHandshakeAction::Reply(
            HandshakeMessageType::Join,
        ),
        Some(HandshakeMessageType::GameSettings(client_id, port)) => ClientHandshakeAction::Joined(
            client_id,
            port,
        ),
        _ => ClientHandshakeAction::Ignore,
    }
}

/// Decides the player's step of the handshake on four received bytes.
pub fn client_handshake_step(data: [u8; 4]) -> (r: ClientHandshakeAction)
    ensures
        r == client_handshake_action(data@),
{
    match HandshakeMessageType::from_u8(data) {
        Some(HandshakeMessageType::HelloAwk) => ClientHandshakeAction::Reply(
            HandshakeMessageType::Join,
        ),
        Some(HandshakeMessageType::GameSettings(client_id, port)) => ClientHandshakeAction::Joined(
            client_id,
            port,
        ),
        _ => ClientHandshakeAction::Ignore,
    }
}

/// Law: the handshake joins the player. The greeting the player sends is
/// acknowledged, the acknowledgement draws a join request, the server passes
/// that request on to the game, and the settings the game grants (any client
/// id and port) let the player join with exactly those.
pub proof fn lemma_handshake_joins(client_id: u8, port: u16)
    ensures
        server_handshake_action(handshake_bytes(HandshakeMessageType::Hello))
            == ServerHandshakeAction::Reply(HandshakeMessageType::HelloAwk),
        client_handshake_action(handshake_bytes(HandshakeMessageType::HelloAwk))
            == ClientHandshakeAction::Reply(HandshakeMessageType::Join),
        server_handshake_action(handshake_bytes(HandshakeMessageType::Join))
            == ServerHandshakeAction::RequestJoin,
        client_handshake_action(handshake_bytes(HandshakeMessageType::GameSettings(client_id, port)))
            == ClientHandshakeAction::Joined(client_id, port),
{
    lemma_handshake_round_trip(HandshakeMessageType::Hello);
    lemma_handshake_round_trip(HandshakeMessageType::HelloAwk);
    lemma_handshake_round_trip(HandshakeMessageType::Join);
    lemma_handshake_round_trip(HandshakeMessageType::GameSettings(client_id, port));
}

/// What `bitfield_rle::encode` produces for a byte sequence.
pub uninterp spec fn rle_encoding(bytes: Seq<u8>) -> Seq<u8>;

/// The largest input whose run-length encoding is claimed to decode back: up
/// to it, every run header fits a varint of at most nine bytes.
pub const RLE_ROUND_TRIP_LIMIT: u64 = 0x1000_0000_0000_0000;

/// Calls `bitfield_rle::encode`, the run-length encoder for byte fields.
/// Claimed: the result is a function of the input bytes alone (named
/// `rle_encoding`); the encoder never fails; and, for an input of at most
/// `RLE_ROUND_TRIP_LIMIT` bytes, the encoding is a series of complete runs
/// with well-formed headers that decodes (in the format of the crate's
/// README) back to the input.
#[verifier::external_body]
fn rle_encode(bytes: &Vec<u8>) -> (r: Vec<u8>)
    ensures
        r@ == rle_encoding(bytes@),
        bytes@.len() <= RLE_ROUND_TRIP_LIMIT ==> decompressed(r@) == Some(bytes@),
{
    bitfield_rle::encode(bytes)
}

/// Compresses a datagram before it is sent; a datagram of at most
/// `RLE_ROUND_TRIP_LIMIT` bytes decompresses back to itself.
pub fn compress_packet(bytes: Vec<u8>) -> (r: Vec<u8>)
    ensures
        r@ == rle_encoding(bytes@),
        bytes@.len() <= RLE_ROUND_TRIP_LIMIT ==> decompressed(r@) == Some(bytes@),
{
    rle_encode(&bytes)
}

/// Builds a datagram from the player: the tag byte of the message kind,
/// then the encoded message, run-length encoded. Unless the message is
/// enormous, the server splits the datagram back into that kind and body.
pub fn encode_player_packet(message_type: PlayerToServerMessage, body: Vec<u8>) -> (r: Vec<u8>)
    ensures
        r@ == rle_encoding(seq![message_code(message_type)] + body@),
        body@.len() < RLE_ROUND_TRIP_LIMIT ==> player_packet(r@) == Some((message_type, body@)),
{
    let mut bytes = body;
    bytes.insert(0, message_type.to_u8());
    proof {
        assert(bytes@ =~= seq![message_code(message_type)] + body@);
        assert(bytes@.drop_first() =~= body@);
        lemma_message_code_round_trip(message_type, 0);
    }
    rle_encode(&bytes)
}

/// 128 to the power `k`.
pub open spec fn pow128(k: nat) -> nat
    decreases k,
{
    if k == 0 {
        1
    } else {
        128 * pow128((k - 1) as nat)
    }
}

/// The number held by the `k` bytes from `start` as a base-128 varint: the
/// low seven bits of each byte, least significant first.
pub open spec fn varint_value(b: Seq<u8>, start: int, k: nat) -> nat
    decreases k,
{
    if k == 0 {
        0
    } else {
        varint_value(b, start, (k - 1) as nat) + (b[start + k - 1] % 128) as nat * pow128(
            (k - 1) as nat,
        )
    }
}

/// The length of the varint at `start`, searching from its `k`-th byte: it
/// ends at the first byte below 128, which must lie within the bytes and
/// within nine bytes; `None` otherwise.
pub open spec fn varint_len(b: Seq<u8>, start: int, k: nat) -> Option<nat>
    decreases 9 - k,
{
    if k >= 9 || start + k >= b.len() {
        None
    } else if b[start + k] < 128 {
        Some(k + 1)
    } else {
        varint_len(b, start, k + 1)
    }
}

/// The length a run header stands for: a repeated run (low bit set) holds
/// the header shifted right by two, a literal run the header shifted by one.
pub open spec fn run_length(header: nat) -> nat {
    if header % 2 == 1 {
        header / 4
    } else {
        header / 2
    }
}

/// Where the run whose header starts at `offset` ends: after the header for
/// a repeated run, after the header and the run's literal bytes otherwise.
pub open spec fn run_end(b: Seq<u8>, offset: nat, n: nat) -> nat {
    let header = varint_value(b, offset as int, n);
    if header % 2 == 1 {
        offset + n
    } else {
        offset + n + run_length(header)
    }
}

/// The run-length encoded bytes from `offset` on can be walked run by run
/// without overflow: every header is a varint of at most nine bytes that
/// ends within the bytes, the decoded length (with `total` decoded before)
/// stays within `isize::MAX`, and every run ends within `usize::MAX`.
pub open spec fn rle_runs_fit(b: Seq<u8>, offset: nat, total: nat) -> bool
    decreases b.len() - offset,
{
    if offset >= b.len() {
        true
    } else {
        match varint_len(b, offset as int, 0) {
            None => false,
            Some(n) => {
                proof {
                    lemma_varint_len_positive(b, offset as int, 0);
                }
                let header = varint_value(b, offset as int, n);
                let end = run_end(b, offset, n);
                &&& total + run_length(header) <= isize::MAX
                &&& end <= usize::MAX
                &&& (end >= b.len() || rle_runs_fit(b, end, total + run_length(header)))
            },
        }
    }
}

/// The run headers of run-length encoded bytes are well formed.
pub open spec fn rle_headers_fit(b: Seq<u8>) -> bool {
    rle_runs_fit(b, 0, 0)
}

/// Where the walk over the runs from `offset` stops: at the end of the
/// bytes, or past it when the last literal run claims more bytes than there
/// are.
pub open spec fn rle_final_offset(b: Seq<u8>, offset: nat) -> nat
    decreases b.len() - offset,
{
    if offset >= b.len() {
        offset
    } else {
        match varint_len(b, offset as int, 0) {
            None => offset,
            Some(n) => {
                proof {
                    lemma_varint_len_positive(b, offset as int, 0);
                }
                let end = run_end(b, offset, n);
                if end >= b.len() {
                    end
                } else {
                    rle_final_offset(b, end)
                }
            },
        }
    }
}

/// A varint found from its `k`-th byte on is longer than `k` bytes.
pub proof fn lemma_varint_len_positive(b: Seq<u8>, start: int, k: nat)
    ensures
        varint_len(b, start, k) matches Some(n) ==> n >= k + 1,
    decreases 9 - k,
{
    if k < 9 && start + k < b.len() && b[start + k] >= 128 {
        lemma_varint_len_positive(b, start, k + 1);
    }
}

proof fn lemma_pow128_bound(k: nat)
    requires
        k <= 9,
    ensures
        pow128(k) <= 9223372036854775808,
        k <= 8 ==> pow128(k) <= 72057594037927936,
        pow128(k) >= 1,
    decreases k,
{
    reveal_with_fuel(pow128, 10);
    if k > 0 {
        lemma_pow128_bound((k - 1) as nat);
    }
}

proof fn lemma_varint_value_bound(b: Seq<u8>, start: int, k: nat)
    ensures
        varint_value(b, start, k) < pow128(k),
    decreases k,
{
    if k > 0 {
        lemma_varint_value_bound(b, start, (k - 1) as nat);
        let d = (b[start + k - 1] % 128) as nat;
        let p = pow128((k - 1) as nat);
        let v = varint_value(b, start, (k - 1) as nat);
        assert(v + d * p < 128 * p) by (nonlinear_arith)
            requires
                v < p,
                d <= 127,
        ;
    }
}

/// Whether the run headers of run-length encoded bytes are well formed, so
/// that decoding them cannot overflow.
pub fn rle_headers_well_formed(bytes: &Vec<u8>) -> (r: bool)
    ensures
        r == rle_headers_fit(bytes@),
{
    let ghost b = bytes@;
    let len = bytes.len();
    let mut offset: usize = 0;
    let mut total: usize = 0;
    while offset < len
        invariant
            b == bytes@,
            len == b.len(),
            total <= isize::MAX,
            rle_headers_fit(b) == rle_runs_fit(b, offset as nat, total as nat),
        decreases len - offset,
    {
        let mut k: usize = 0;
        let mut header: u64 = 0;
        let mut factor: u64 = 1;
        let mut found = false;
        while k < 9 && k < len - offset && !found
            invariant
                b == bytes@,
                len == b.len(),
                offset < len,
                k <= 9,
                !found ==> varint_len(b, offset as int, 0) == varint_len(b, offset as int, k as nat),
                found ==> k >= 1 && varint_len(b, offset as int, 0) == Some(k as nat),
                header == varint_value(b, offset as int, k as nat),
                factor == pow128(k as nat),
            decreases 9 - k,
        {
            let byte = bytes[offset + k];
            proof {
                lemma_pow128_bound(k as nat);
                lemma_varint_value_bound(b, offset as int, k as nat);
                assert((byte % 128) as nat * factor <= 127 * 72057594037927936) by (nonlinear_arith)
                    requires
                        byte % 128 <= 127,
                        factor <= 72057594037927936,
                ;
                assert(header + (byte % 128) as nat * factor < 128 * factor) by (nonlinear_arith)
                    requires
                        header < factor,
                        byte % 128 <= 127,
                ;
                lemma_pow128_bound((k + 1) as nat);
            }
            header = header + (byte % 128) as u64 * factor;
            factor = factor * 128;
            if byte < 128 {
                found = true;
            }
            k += 1;
        }
        if !found {
            return false;
        }
        let repeat = header % 2 == 1;
        let slice: u64 = if repeat { header / 4 } else { header / 2 };
        let end: u128 = if repeat {
            offset as u128 + k as u128
        } else {
            offset as u128 + k as u128 + slice as u128
        };
        if total as u128 + slice as u128 > isize::MAX as u128 || end > usize::MAX as u128 {
            return false;
        }
        let next_total = total + slice as usize;
        let next_offset = end as usize;
        if next_offset >= len {
            return true;
        }
        total = next_total;
        offset = next_offset;
    }
    true
}

/// The bytes that run-length encoded bytes decode to, from `offset` on: a
/// repeated run stands for its length in copies of 255 (when the second bit
/// of its header is set) or of 0; a literal run for the bytes that follow
/// its header.
pub open spec fn rle_decode_runs(b: Seq<u8>, offset: nat) -> Seq<u8>
    decreases b.len() - offset,
{
    if offset >= b.len() {
        Seq::empty()
    } else {
        match varint_len(b, offset as int, 0) {
            None => Seq::empty(),
            Some(n) => {
                proof {
                    lemma_varint_len_positive(b, offset as int, 0);
                }
                let header = varint_value(b, offset as int, n);
                let length = run_length(header);
                let run = if header % 2 == 1 {
                    Seq::new(length, |i: int| if (header / 2) % 2 == 1 { 255u8 } else { 0u8 })
                } else {
                    b.subrange((offset + n) as int, (offset + n + length) as int)
                };
                let end = run_end(b, offset, n);
                if end >= b.len() {
                    run
                } else {
                    run + rle_decode_runs(b, end)
                }
            },
        }
    }
}

/// The bytes that run-length encoded bytes decode to.
pub open spec fn rle_decoded(b: Seq<u8>) -> Seq<u8> {
    rle_decode_runs(b, 0)
}

/// Calls `bitfield_rle::decode`, the decoder of run-length encoded bytes.
/// Claimed: it fails (an `Err`, here `None`) exactly when the walk over the
/// runs ends past the last byte, that is when a literal run claims more
/// bytes than there are; otherwise it gives back `rle_decoded` of the input.
/// `requires` rules out the headers on which the decoder would overflow or
/// ask for more than `isize::MAX` bytes.
#[verifier::external_body]
fn rle_decode(bytes: &Vec<u8>) -> (r: Option<Vec<u8>>)
    requires
        rle_headers_fit(bytes@),
    ensures
        r is None <==> rle_final_offset(bytes@, 0) > bytes@.len(),
        r matches Some(v) ==> v@ == rle_decoded(bytes@),
{
    bitfield_rle::decode(bytes).ok()
}

/// The bytes a datagram decompresses to: `None` where its run headers are
/// not well formed or its runs overrun it.
pub open spec fn decompressed(b: Seq<u8>) -> Option<Seq<u8>> {
    if rle_headers_fit(b) && rle_final_offset(b, 0) <= b.len() {
        Some(rle_decoded(b))
    } else {
        None
    }
}

/// Decompresses a received datagram.
pub fn decompress_packet(bytes: &Vec<u8>) -> (r: Option<Vec<u8>>)
    ensures
        match r {
            Some(v) => decompressed(bytes@) == Some(v@),
            None => decompressed(bytes@) is None,
        },
{
    if !rle_headers_well_formed(bytes) {
        return None;
    }
    rle_decode(bytes)
}

/// The kind and body of a datagram from a player: it decompresses to the
/// tag byte of a kind of message followed by the encoded message. `None`
/// where it does not decompress, is empty or has no valid tag.
pub open spec fn player_packet(b: Seq<u8>) -> Option<(PlayerToServerMessage, Seq<u8>)> {
    match decompressed(b) {
        Some(d) => if d.len() > 0 && d[0] < 3 {
            Some((message_from_code(d[0]), d.drop_first()))
        } else {
            None
        },
        None => None,
    }
}

/// Splits a datagram from a player into the kind of its message and the
/// encoded message.
pub fn split_player_packet(bytes: &Vec<u8>) -> (r: Option<(PlayerToServerMessage, Vec<u8>)>)
    ensures
        match r {
            Some((kind, body)) => player_packet(bytes@) == Some((kind, body@)),
            None => player_packet(bytes@) is None,
        },
{
    match decompress_packet(bytes) {
        Some(mut decoded) => {
            if decoded.len() == 0 || decoded[0] >= 3 {
                return None;
            }
            let ghost d = decoded@;
            let tag = decoded.remove(0);
            proof {
                assert(decoded@ =~= d.drop_first());
            }
            Some((PlayerToServerMessage::from_u8(tag), decoded))
        },
        None => None,
    }
}

} // verus!
