use vstd::prelude::*;

verus! {

/// The phase a room is in. One round runs
/// `ActiveChooses -> PlayersChoose -> Voting -> Results`, and the cycle
/// repeats once every player signals ready again; `Joining` occurs only
/// before the first round starts.
#[derive(Debug, Clone, Copy, PartialEq, Eq, Structural)]
pub enum RoomStage {
    Joining,
    ActiveChooses,
    PlayersChoose,
    Voting,
    Results,
}

/// Per-player bookkeeping that survives the round cycle: whether the
/// player currently holds a live connection, the points gathered so far,
/// and the stage-specific ready flag.
#[derive(Debug, Clone, Copy, PartialEq, Eq, Structural)]
pub struct PlayerInfo {
    pub connected: bool,
    pub points: u16,
    pub ready: bool,
}

/// A message sent by a client. `JoinRoom` and `CreateRoom` are handled at
/// the connection boundary; the rest drive the room state machine.
#[derive(Debug, Clone)]
pub enum ClientMsg {
    Ready {},
    JoinRoom { room_id: String, name: String },
    CreateRoom { name: String },
    ActivePlayerChooseCard { card: String, description: String },
    PlayerChooseCard { card: String },
    Vote { card: String },
    Ping {},
}

/// A message sent to clients. `RoomState` is a full refresh of the public
/// room state; the per-stage payloads carry a player's private hand or the
/// round's shared data.
#[derive(Debug, Clone, PartialEq)]
pub enum ServerMsg {
    RoomState {
        room_id: String,
        players: Vec<(String, PlayerInfo)>,
        stage: RoomStage,
        active_player: Option<String>,
        player_order: Vec<String>,
    },
    StartRound {
        hand: Vec<String>,
    },
    PlayersChoose {
        description: String,
        hand: Vec<String>,
    },
    BeginVoting {
        center_cards: Vec<String>,
        description: String,
    },
    Results {
        player_to_vote: Vec<(String, String)>,
        player_to_current_card: Vec<(String, String)>,
        active_card: String,
        point_change: Vec<(String, u16)>,
    },
    ErrorMsg(String),
    InvalidRoomId {},
}

/// One delivery the room asks its caller to perform after a state change:
/// either a fan-out to every subscribed player or a message for exactly one
/// player's direct channel.
#[derive(Debug, Clone, PartialEq)]
pub enum Outgoing {
    Broadcast(ServerMsg),
    Direct { to: String, msg: ServerMsg },
}

} // verus!
