//! The message sets of the wire protocol.
//!
//! Three tagged unions are exchanged over a connection: what a lobby client
//! may send, what a room client may send, and what the server may send.
//! Each has a ghost view (`@`) whose payloads are mathematical sequences, so
//! that contracts can state deep equality of messages; the binary encoding
//! and its round-trip proof live in [`crate::codec`].

use vstd::prelude::*;
use crate::Player;

verus! {

/// Ghost view of a [`Player`]: the claimed world and the name bytes.
pub struct PlayerV {
    pub world: u8,
    pub name: Seq<u8>,
}

impl View for Player {
    type V = PlayerV;

    open spec fn view(&self) -> PlayerV {
        PlayerV { world: self.world, name: self.name@ }
    }
}

impl PlayerV {
    /// Wire-valid player data: a nonzero world and exactly eight name bytes.
    pub open spec fn wf(self) -> bool {
        self.world != 0 && self.name.len() == 8
    }
}

/// Ghost view of a sequence of players.
pub open spec fn players_view(ps: Seq<Player>) -> Seq<PlayerV> {
    Seq::new(ps.len(), |i: int| ps[i]@)
}

/// A message a client may send while still in the lobby.
#[derive(Debug, Clone, PartialEq, Eq)]
pub enum LobbyClientMessage {
    /// Join an existing room, authenticating with its password.
    JoinRoom { name: String, password: String },
    /// Create (and enter) a new room protected by the given password.
    CreateRoom { name: String, password: String },
    /// Ask to upgrade the connection to transport encryption.
    Encrypt,
}

/// Ghost view of [`LobbyClientMessage`].
pub enum LobbyClientMessageV {
    JoinRoom { name: Seq<char>, password: Seq<char> },
    CreateRoom { name: Seq<char>, password: Seq<char> },
    Encrypt,
}

impl View for LobbyClientMessage {
    type V = LobbyClientMessageV;

    open spec fn view(&self) -> LobbyClientMessageV {
        match self {
            LobbyClientMessage::JoinRoom { name, password } => LobbyClientMessageV::JoinRoom {
                name: name@,
                password: password@,
            },
            LobbyClientMessage::CreateRoom { name, password } => LobbyClientMessageV::CreateRoom {
                name: name@,
                password: password@,
            },
            LobbyClientMessage::Encrypt => LobbyClientMessageV::Encrypt,
        }
    }
}

/// A message a client may send once it is inside a room.
#[derive(Debug, Clone, PartialEq, Eq)]
pub enum RoomClientMessage {
    /// Claim a world.
    PlayerId(u8),
    /// Release the currently claimed world.
    ResetPlayerId,
    /// Set the display name, eight bytes in the fixed in-game charset.
    PlayerName([u8; 8]),
    /// Report an item found for `target_world`.
    SendItem { key: u32, kind: u16, target_world: u8 },
}

/// Ghost view of [`RoomClientMessage`].
pub enum RoomClientMessageV {
    PlayerId(u8),
    ResetPlayerId,
    PlayerName(Seq<u8>),
    SendItem { key: u32, kind: u16, target_world: u8 },
}

impl View for RoomClientMessage {
    type V = RoomClientMessageV;

    open spec fn view(&self) -> RoomClientMessageV {
        match self {
            RoomClientMessage::PlayerId(w) => RoomClientMessageV::PlayerId(*w),
            RoomClientMessage::ResetPlayerId => RoomClientMessageV::ResetPlayerId,
            RoomClientMessage::PlayerName(name) => RoomClientMessageV::PlayerName(name@),
            RoomClientMessage::SendItem { key, kind, target_world } => RoomClientMessageV::SendItem {
                key: *key,
                kind: *kind,
                target_world: *target_world,
            },
        }
    }
}

/// A message the server may send to a client.
#[derive(Debug, Clone, PartialEq, Eq)]
pub enum ServerMessage {
    /// An error has occurred; carries a human-readable message.
    Error(String),
    /// Room snapshot sent on successful join or create.
    EnterRoom { players: Vec<Player>, num_unassigned_clients: u8 },
    /// A previously free world has been claimed.
    PlayerId(u8),
    /// A previously claimed world has been released.
    ResetPlayerId(u8),
    /// A new, unassigned client has connected to the room.
    ClientConnected,
    /// A client holding the given world has disconnected.
    PlayerDisconnected(u8),
    /// A client without a world has disconnected.
    UnregisteredClientDisconnected,
    /// A player has changed their display name.
    PlayerName(u8, [u8; 8]),
    /// Full resync of the receiving client's item queue.
    ItemQueue(Vec<u16>),
    /// A single newly received item, to append to the queue.
    GetItem(u16),
}

/// Ghost view of [`ServerMessage`].
pub enum ServerMessageV {
    Error(Seq<char>),
    EnterRoom { players: Seq<PlayerV>, num_unassigned_clients: u8 },
    PlayerId(u8),
    ResetPlayerId(u8),
    ClientConnected,
    PlayerDisconnected(u8),
    UnregisteredClientDisconnected,
    PlayerName(u8, Seq<u8>),
    ItemQueue(Seq<u16>),
    GetItem(u16),
}

impl View for ServerMessage {
    type V = ServerMessageV;

    open spec fn view(&self) -> ServerMessageV {
        match self {
            ServerMessage::Error(text) => ServerMessageV::Error(text@),
            ServerMessage::EnterRoom { players, num_unassigned_clients } => ServerMessageV::EnterRoom {
                players: players_view(players@),
                num_unassigned_clients: *num_unassigned_clients,
            },
            ServerMessage::PlayerId(w) => ServerMessageV::PlayerId(*w),
            ServerMessage::ResetPlayerId(w) => ServerMessageV::ResetPlayerId(*w),
            ServerMessage::ClientConnected => ServerMessageV::ClientConnected,
            ServerMessage::PlayerDisconnected(w) => ServerMessageV::PlayerDisconnected(*w),
            ServerMessage::UnregisteredClientDisconnected => ServerMessageV::UnregisteredClientDisconnected,
            ServerMessage::PlayerName(w, name) => ServerMessageV::PlayerName(*w, name@),
            ServerMessage::ItemQueue(kinds) => ServerMessageV::ItemQueue(kinds@),
            ServerMessage::GetItem(kind) => ServerMessageV::GetItem(*kind),
        }
    }
}

impl ServerMessageV {
    /// Wire-valid server message: every world is nonzero, every name has
    /// exactly eight bytes, and every variable-length payload is short
    /// enough for its length prefix.
    pub open spec fn wf(self) -> bool {
        match self {
            ServerMessageV::Error(text) => vstd::utf8::encode_utf8(text).len() <= u64::MAX,
            ServerMessageV::EnterRoom { players, .. } => {
                &&& players.len() <= u64::MAX
                &&& forall|i: int| 0 <= i < players.len() ==> (#[trigger] players[i]).wf()
            },
            ServerMessageV::PlayerId(w) => w != 0,
            ServerMessageV::ResetPlayerId(w) => w != 0,
            ServerMessageV::ClientConnected => true,
            ServerMessageV::PlayerDisconnected(w) => w != 0,
            ServerMessageV::UnregisteredClientDisconnected => true,
            ServerMessageV::PlayerName(w, name) => w != 0 && name.len() == 8,
            ServerMessageV::ItemQueue(kinds) => kinds.len() <= u64::MAX,
            ServerMessageV::GetItem(_) => true,
        }
    }
}

impl LobbyClientMessageV {
    /// Wire-valid lobby message: strings short enough for the length prefix.
    pub open spec fn wf(self) -> bool {
        match self {
            LobbyClientMessageV::JoinRoom { name, password } => {
                vstd::utf8::encode_utf8(name).len() <= u64::MAX
                    && vstd::utf8::encode_utf8(password).len() <= u64::MAX
            },
            LobbyClientMessageV::CreateRoom { name, password } => {
                vstd::utf8::encode_utf8(name).len() <= u64::MAX
                    && vstd::utf8::encode_utf8(password).len() <= u64::MAX
            },
            LobbyClientMessageV::Encrypt => true,
        }
    }
}

impl RoomClientMessageV {
    /// Wire-valid room client message: nonzero worlds, eight name bytes.
    pub open spec fn wf(self) -> bool {
        match self {
            RoomClientMessageV::PlayerId(w) => w != 0,
            RoomClientMessageV::ResetPlayerId => true,
            RoomClientMessageV::PlayerName(name) => name.len() == 8,
            RoomClientMessageV::SendItem { target_world, .. } => target_world != 0,
        }
    }
}

} // verus!
