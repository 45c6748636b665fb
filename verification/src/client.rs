//! Client-side room state tracking.
//!
//! A [`RoomClient`] mirrors the room as the server announces it: the
//! sorted list of players, the number of unassigned clients, the locally
//! claimed world and name, and the item queue. [`RoomClient::apply_message`]
//! folds one server message into that state; the `set_*` methods decide
//! which messages a local request must put on the wire.

use vstd::prelude::*;
use crate::{Player, DEFAULT_NAME};
use crate::proto::{LobbyClientMessage, LobbyClientMessageV, RoomClientMessage, ServerMessage};
use crate::handshake::ClientError;

verus! {

/// Players sorted strictly by world, worlds valid.
pub open spec fn players_sorted(ps: Seq<Player>) -> bool {
    &&& forall|i: int| 0 <= i < ps.len() ==> (#[trigger] ps[i]).world != 0
    &&& forall|i: int, j: int|
        0 <= i < j < ps.len() ==> (#[trigger] ps[i]).world < (#[trigger] ps[j]).world
}

/// Some listed player holds world `w`.
pub open spec fn lists_world(ps: Seq<Player>, w: u8) -> bool {
    exists|i: int| 0 <= i < ps.len() && (#[trigger] ps[i]).world == w
}

/// The index of the player holding world `w`.
pub open spec fn world_index(ps: Seq<Player>, w: u8) -> int {
    choose|i: int| 0 <= i < ps.len() && (#[trigger] ps[i]).world == w
}

/// The position where a player of world `w` belongs in the sorted list:
/// the number of players of smaller worlds.
pub open spec fn insert_idx(ps: Seq<Player>, w: u8) -> int
    decreases ps.len(),
{
    if ps.len() == 0 {
        0
    } else if ps[0].world < w {
        1 + insert_idx(ps.drop_first(), w)
    } else {
        0
    }
}

/// A prefix of players below `w` followed by one not below `w` pins the
/// insertion position down.
proof fn lemma_insert_idx_char(ps: Seq<Player>, w: u8, i: int)
    requires
        0 <= i <= ps.len(),
        forall|j: int| 0 <= j < i ==> (#[trigger] ps[j]).world < w,
        i < ps.len() ==> ps[i].world >= w,
    ensures
        insert_idx(ps, w) == i,
    decreases ps.len(),
{
    if ps.len() > 0 {
        if i == 0 {
        } else {
            assert(ps[0].world < w);
            assert forall|j: int| 0 <= j < i - 1 implies (#[trigger] ps.drop_first()[j]).world
                < w by {
                assert(ps.drop_first()[j] == ps[j + 1]);
            }
            if i - 1 < ps.drop_first().len() {
                assert(ps.drop_first()[i - 1] == ps[i]);
            }
            lemma_insert_idx_char(ps.drop_first(), w, i - 1);
        }
    }
}

/// Relation between a client's state and its successor under one server
/// message, mirroring the server's announcements: room snapshots replace
/// the player list, claims insert into it in world order, releases and
/// disconnects remove from it, name changes update in place, and item
/// messages replace or extend the local item queue.
pub open spec fn apply_transition(pre: RoomClient, post: RoomClient, msg: ServerMessage) -> bool {
    match msg {
        ServerMessage::Error(_) => true,
        ServerMessage::EnterRoom { players, num_unassigned_clients } => {
            &&& post.players@ == players@
            &&& post.num_unassigned_clients == num_unassigned_clients
            &&& post.last_world == pre.last_world
            &&& post.last_name == pre.last_name
            &&& post.item_queue == pre.item_queue
        },
        ServerMessage::PlayerId(w) => if lists_world(pre.players@, w) {
            post == pre
        } else {
            &&& post.players@ == pre.players@.insert(insert_idx(pre.players@, w), Player::spec_new(w))
            &&& post.num_unassigned_clients == pre.num_unassigned_clients - 1
            &&& post.last_world == pre.last_world
            &&& post.last_name == pre.last_name
            &&& post.item_queue == pre.item_queue
        },
        ServerMessage::ResetPlayerId(w) => if lists_world(pre.players@, w) {
            &&& post.players@ == pre.players@.remove(world_index(pre.players@, w))
            &&& post.num_unassigned_clients == pre.num_unassigned_clients + 1
            &&& post.last_world == pre.last_world
            &&& post.last_name == pre.last_name
            &&& post.item_queue == pre.item_queue
        } else {
            post == pre
        },
        ServerMessage::ClientConnected => {
            &&& post.players == pre.players
            &&& post.num_unassigned_clients == pre.num_unassigned_clients + 1
            &&& post.last_world == pre.last_world
            &&& post.last_name == pre.last_name
            &&& post.item_queue == pre.item_queue
        },
        ServerMessage::PlayerDisconnected(w) => if lists_world(pre.players@, w) {
            &&& post.players@ == pre.players@.remove(world_index(pre.players@, w))
            &&& post.num_unassigned_clients == pre.num_unassigned_clients
            &&& post.last_world == pre.last_world
            &&& post.last_name == pre.last_name
            &&& post.item_queue == pre.item_queue
        } else {
            post == pre
        },
        ServerMessage::UnregisteredClientDisconnected => {
            &&& post.players == pre.players
            &&& post.num_unassigned_clients == pre.num_unassigned_clients - 1
            &&& post.last_world == pre.last_world
            &&& post.last_name == pre.last_name
            &&& post.item_queue == pre.item_queue
        },
        ServerMessage::PlayerName(w, name) => if lists_world(pre.players@, w) {
            &&& post.players@ == pre.players@.update(
                world_index(pre.players@, w),
                Player { world: w, name },
            )
            &&& post.num_unassigned_clients == pre.num_unassigned_clients
            &&& post.last_world == pre.last_world
            &&& post.last_name == pre.last_name
            &&& post.item_queue == pre.item_queue
        } else {
            post == pre
        },
        ServerMessage::ItemQueue(queue) => {
            &&& post.players == pre.players
            &&& post.num_unassigned_clients == pre.num_unassigned_clients
            &&& post.last_world == pre.last_world
            &&& post.last_name == pre.last_name
            &&& post.item_queue@ == queue@
        },
        ServerMessage::GetItem(kind) => {
            &&& post.players == pre.players
            &&& post.num_unassigned_clients == pre.num_unassigned_clients
            &&& post.last_world == pre.last_world
            &&& post.last_name == pre.last_name
            &&& post.item_queue@ == pre.item_queue@.push(kind)
        },
    }
}

impl Player {
    /// The player a fresh claim of `world` creates, for use in contracts.
    pub open spec fn spec_new(world: u8) -> Player {
        Player { world, name: DEFAULT_NAME }
    }
}

/// Eight-byte name equality.
fn name_eq(a: &[u8; 8], b: &[u8; 8]) -> (r: bool)
    ensures
        r == (a@ == b@),
{
    let mut i: usize = 0;
    while i < 8
        invariant
            i <= 8,
            forall|j: int| 0 <= j < i ==> a@[j] == b@[j],
        decreases 8 - i,
    {
        if a[i] != b[i] {
            proof {
                assert(a@[i as int] != b@[i as int]);
            }
            return false;
        }
        i += 1;
    }
    proof {
        assert(a@ =~= b@);
    }
    true
}

/// The room as this client currently believes it to be.
pub struct RoomClient {
    pub players: Vec<Player>,
    pub num_unassigned_clients: u8,
    pub last_world: Option<u8>,
    pub last_name: [u8; 8],
    pub item_queue: Vec<u16>,
}

impl RoomClient {
    /// Well-formedness: the player list is sorted by world and the locally
    /// claimed world, if any, is valid.
    pub open spec fn wf(self) -> bool {
        &&& players_sorted(self.players@)
        &&& self.last_world is Some ==> self.last_world->0 != 0
    }

    /// A fresh client state from the room snapshot received on entry.
    pub fn new(players: Vec<Player>, num_unassigned_clients: u8) -> (c: RoomClient)
        requires
            players_sorted(players@),
        ensures
            c.wf(),
            c.players@ == players@,
            c.num_unassigned_clients == num_unassigned_clients,
            c.last_world is None,
            c.last_name@ == DEFAULT_NAME@,
            c.item_queue@ == Seq::<u16>::empty(),
    {
        let c = RoomClient {
            players,
            num_unassigned_clients,
            last_world: None,
            last_name: DEFAULT_NAME,
            item_queue: Vec::new(),
        };
        proof {
            assert(c.item_queue@ =~= Seq::<u16>::empty());
        }
        c
    }

    /// The index of the listed player holding `w`, if any.
    fn find_world(&self, w: u8) -> (r: Option<usize>)
        requires
            self.wf(),
        ensures
            r is Some ==> r->0 < self.players@.len() && self.players@[r->0 as int].world == w
                && world_index(self.players@, w) == r->0 as int && lists_world(self.players@, w),
            r is None ==> !lists_world(self.players@, w),
    {
        let mut i: usize = 0;
        while i < self.players.len()
            invariant
                i <= self.players@.len(),
                self.wf(),
                forall|j: int| 0 <= j < i ==> (#[trigger] self.players@[j]).world != w,
            decreases self.players@.len() - i,
        {
            if self.players[i].world == w {
                proof {
                    let h = world_index(self.players@, w);
                    assert((#[trigger] self.players@[h]).world == w);
                    if h != i as int {
                        assert(false);
                    }
                }
                return Some(i);
            }
            i += 1;
        }
        None
    }

    /// Folds one server announcement into the tracked room state.
    pub fn apply_message(&mut self, msg: ServerMessage)
        requires
            old(self).wf(),
            !(msg is Error),
            msg matches ServerMessage::EnterRoom { players, .. } ==> players_sorted(players@),
            msg matches ServerMessage::PlayerId(w) ==> w != 0 && (!lists_world(
                old(self).players@,
                w,
            ) ==> old(self).num_unassigned_clients > 0),
            msg matches ServerMessage::ResetPlayerId(w) ==> (lists_world(old(self).players@, w)
                ==> old(self).num_unassigned_clients < 255),
            msg is ClientConnected ==> old(self).num_unassigned_clients < 255,
            msg is UnregisteredClientDisconnected ==> old(self).num_unassigned_clients > 0,
        ensures
            final(self).wf(),
            apply_transition(*old(self), *final(self), msg),
    {
        match msg {
            ServerMessage::Error(_) => {},
            ServerMessage::EnterRoom { players, num_unassigned_clients } => {
                self.players = players;
                self.num_unassigned_clients = num_unassigned_clients;
            },
            ServerMessage::PlayerId(world) => {
                let found = self.find_world(world);
                if found.is_none() {
                    let mut i: usize = 0;
                    while i < self.players.len() && self.players[i].world < world
                        invariant
                            i <= self.players@.len(),
                            self.wf(),
                            !lists_world(self.players@, world),
                            world != 0,
                            forall|j: int| 0 <= j < i ==> (#[trigger] self.players@[j]).world
                                < world,
                        decreases self.players@.len() - i,
                    {
                        i += 1;
                    }
                    let ghost ps0 = self.players@;
                    let ghost k = i as int;
                    proof {
                        lemma_insert_idx_char(ps0, world, k);
                        assert forall|j: int| k <= j < ps0.len() implies (
                        #[trigger] ps0[j]).world > world by {
                            assert(ps0[j].world != world);
                            if j > k {
                                assert(ps0[k].world < ps0[j].world);
                            }
                        }
                        ps0.insert_ensures(k, Player::spec_new(world));
                    }
                    self.players.insert(i, Player::new(world));
                    self.num_unassigned_clients = self.num_unassigned_clients - 1;
                    proof {
                        let ps1 = self.players@;
                        let newp = Player::spec_new(world);
                        assert forall|a: int, b: int|
                            0 <= a < b < ps1.len() implies (#[trigger] ps1[a]).world
                            < (#[trigger] ps1[b]).world by {
                            if b < k {
                                assert(ps1[a] == ps0[a] && ps1[b] == ps0[b]);
                            } else if b == k {
                                assert(ps1[a] == ps0[a] && ps1[b] == newp);
                            } else {
                                assert(ps1[b] == ps0[b - 1]);
                                if a < k {
                                    assert(ps1[a] == ps0[a]);
                                } else if a == k {
                                    assert(ps1[a] == newp);
                                } else {
                                    assert(ps1[a] == ps0[a - 1]);
                                }
                            }
                        }
                        assert forall|a: int| 0 <= a < ps1.len() implies (
                        #[trigger] ps1[a]).world != 0 by {
                            if a < k {
                                assert(ps1[a] == ps0[a]);
                            } else if a == k {
                                assert(ps1[a] == newp);
                            } else {
                                assert(ps1[a] == ps0[a - 1]);
                            }
                        }
                    }
                }
            },
            ServerMessage::ResetPlayerId(world) => {
                match self.find_world(world) {
                    Some(idx) => {
                        proof {
                            self.players@.remove_ensures(idx as int);
                        }
                        self.players.remove(idx);
                        self.num_unassigned_clients = self.num_unassigned_clients + 1;
                    },
                    None => {},
                }
            },
            ServerMessage::ClientConnected => {
                self.num_unassigned_clients = self.num_unassigned_clients + 1;
            },
            ServerMessage::PlayerDisconnected(world) => {
                match self.find_world(world) {
                    Some(idx) => {
                        proof {
                            self.players@.remove_ensures(idx as int);
                        }
                        self.players.remove(idx);
                    },
                    None => {},
                }
            },
            ServerMessage::UnregisteredClientDisconnected => {
                self.num_unassigned_clients = self.num_unassigned_clients - 1;
            },
            ServerMessage::PlayerName(world, name) => {
                match self.find_world(world) {
                    Some(idx) => {
                        self.players.set(idx, Player { world, name });
                    },
                    None => {},
                }
            },
            ServerMessage::ItemQueue(queue) => {
                self.item_queue = queue;
            },
            ServerMessage::GetItem(kind) => {
                self.item_queue.push(kind);
            },
        }
    }

    /// Decides what a local request to claim world `id` must send: the
    /// claim, followed by the cached name if one was set; nothing if the
    /// world is already claimed locally.
    pub fn set_player_id(&mut self, id: u8) -> (msgs: Vec<RoomClientMessage>)
        requires
            old(self).wf(),
            id != 0,
        ensures
            final(self).wf(),
            old(self).last_world == Some(id) ==> *final(self) == *old(self) && msgs@
                == Seq::<RoomClientMessage>::empty(),
            old(self).last_world != Some(id) ==> {
                &&& final(self).last_world == Some(id)
                &&& final(self).players == old(self).players
                &&& final(self).num_unassigned_clients == old(self).num_unassigned_clients
                &&& final(self).last_name == old(self).last_name
                &&& final(self).item_queue == old(self).item_queue
                &&& if old(self).last_name@ == DEFAULT_NAME@ {
                    msgs@ =~= seq![RoomClientMessage::PlayerId(id)]
                } else {
                    msgs@ =~= seq![
                        RoomClientMessage::PlayerId(id),
                        RoomClientMessage::PlayerName(old(self).last_name),
                    ]
                }
            },
    {
        let already = match self.last_world {
            Some(w) => w == id,
            None => false,
        };
        let mut msgs: Vec<RoomClientMessage> = Vec::new();
        if !already {
            self.last_world = Some(id);
            msgs.push(RoomClientMessage::PlayerId(id));
            if !name_eq(&self.last_name, &DEFAULT_NAME) {
                msgs.push(RoomClientMessage::PlayerName(self.last_name));
            }
        }
        msgs
    }

    /// Decides what a local release of the claimed world must send.
    pub fn reset_player_id(&mut self) -> (msgs: Vec<RoomClientMessage>)
        requires
            old(self).wf(),
        ensures
            final(self).wf(),
            old(self).last_world is None ==> *final(self) == *old(self) && msgs@
                == Seq::<RoomClientMessage>::empty(),
            old(self).last_world is Some ==> {
                &&& final(self).last_world is None
                &&& final(self).players == old(self).players
                &&& final(self).num_unassigned_clients == old(self).num_unassigned_clients
                &&& final(self).last_name == old(self).last_name
                &&& final(self).item_queue == old(self).item_queue
                &&& msgs@ =~= seq![RoomClientMessage::ResetPlayerId]
            },
    {
        let mut msgs: Vec<RoomClientMessage> = Vec::new();
        match self.last_world {
            Some(_) => {
                self.last_world = None;
                msgs.push(RoomClientMessage::ResetPlayerId);
            },
            None => {},
        }
        msgs
    }

    /// Decides what a local name change must send: the new name is cached,
    /// and sent only when a world is claimed and the name actually changed.
    pub fn set_player_name(&mut self, name: [u8; 8]) -> (msgs: Vec<RoomClientMessage>)
        requires
            old(self).wf(),
        ensures
            final(self).wf(),
            old(self).last_name@ == name@ ==> *final(self) == *old(self) && msgs@
                == Seq::<RoomClientMessage>::empty(),
            old(self).last_name@ != name@ ==> {
                &&& final(self).last_name == name
                &&& final(self).players == old(self).players
                &&& final(self).num_unassigned_clients == old(self).num_unassigned_clients
                &&& final(self).last_world == old(self).last_world
                &&& final(self).item_queue == old(self).item_queue
                &&& if old(self).last_world is Some {
                    msgs@ =~= seq![RoomClientMessage::PlayerName(name)]
                } else {
                    msgs@ == Seq::<RoomClientMessage>::empty()
                }
            },
    {
        let mut msgs: Vec<RoomClientMessage> = Vec::new();
        if !name_eq(&self.last_name, &name) {
            self.last_name = name;
            if self.last_world.is_some() {
                msgs.push(RoomClientMessage::PlayerName(name));
            }
        }
        msgs
    }

    /// The message a found item must send.
    pub fn send_item(&self, key: u32, kind: u16, target_world: u8) -> (m: RoomClientMessage)
        requires
            target_world != 0,
        ensures
            m == (RoomClientMessage::SendItem { key, kind, target_world }),
    {
        RoomClientMessage::SendItem { key, kind, target_world }
    }

    /// The current length of the item queue, as the wire reports it.
    pub fn item_queue_len(&self) -> (n: u16)
        ensures
            n == self.item_queue@.len() as u16,
    {
        #[verifier::truncate] (self.item_queue.len() as u16)
    }

    /// The item kind at the given queue position.
    pub fn item_kind_at_index(&self, index: u16) -> (k: u16)
        requires
            (index as int) < self.item_queue@.len(),
        ensures
            k == self.item_queue@[index as int],
    {
        self.item_queue[index as usize]
    }

    /// The display name of the player holding `world`, or the default name
    /// if that world is unclaimed.
    pub fn get_player_name(&self, world: u8) -> (name: [u8; 8])
        requires
            self.wf(),
            world != 0,
        ensures
            lists_world(self.players@, world) ==> name
                == self.players@[world_index(self.players@, world)].name,
            !lists_world(self.players@, world) ==> name == DEFAULT_NAME,
    {
        match self.find_world(world) {
            Some(idx) => self.players[idx].name,
            None => DEFAULT_NAME,
        }
    }
}

/// The lobby as this client currently believes it to be: the room names
/// the server announced during the handshake.
pub struct LobbyClient {
    pub rooms: Vec<String>,
}

impl LobbyClient {
    /// How many rooms are known.
    pub fn num_rooms(&self) -> (n: usize)
        ensures
            n == self.rooms@.len(),
    {
        self.rooms.len()
    }

    /// Whether a room of the given name is known.
    pub fn has_room(&self, name: &String) -> (b: bool)
        ensures
            b == exists|i: int| 0 <= i < self.rooms@.len() && (#[trigger] self.rooms@[i])@
                == name@,
    {
        let mut i: usize = 0;
        while i < self.rooms.len()
            invariant
                i <= self.rooms@.len(),
                forall|j: int| 0 <= j < i ==> (#[trigger] self.rooms@[j])@ != name@,
            decreases self.rooms@.len() - i,
        {
            if self.rooms[i].eq(name) {
                proof {
                    assert((#[trigger] self.rooms@[i as int])@ == name@);
                }
                return true;
            }
            i += 1;
        }
        false
    }

    /// Decides how to enter a room: join it when its name is already
    /// listed, create it otherwise.
    pub fn room_connect_request(&self, name: String, password: String) -> (m: LobbyClientMessage)
        ensures
            (exists|i: int| 0 <= i < self.rooms@.len() && (#[trigger] self.rooms@[i])@ == name@)
                ==> (m@ matches LobbyClientMessageV::JoinRoom { name: n, password: p } && n
                == name@ && p == password@),
            !(exists|i: int| 0 <= i < self.rooms@.len() && (#[trigger] self.rooms@[i])@ == name@)
                ==> (m@ matches LobbyClientMessageV::CreateRoom { name: n, password: p } && n
                == name@ && p == password@),
    {
        if self.has_room(&name) {
            LobbyClientMessage::JoinRoom { name, password }
        } else {
            LobbyClientMessage::CreateRoom { name, password }
        }
    }
}

/// Classifies a server message for the host process: name changes both
/// set a player name and change room state, everything else only changes
/// room state. An `Error` never reaches this classification.
pub fn message_effect_type(msg: &ServerMessage) -> (t: u8)
    requires
        !(*msg is Error),
    ensures
        t == if *msg is PlayerName {
            1int
        } else {
            0int
        },
{
    match msg {
        ServerMessage::PlayerName(_, _) => 1,
        _ => 0,
    }
}

/// The world a message is about, for the variants that carry one.
pub fn message_player_id(msg: &ServerMessage) -> (w: u8)
    requires
        *msg is PlayerId || *msg is ResetPlayerId || *msg is PlayerDisconnected || *msg
            is PlayerName,
    ensures
        *msg matches ServerMessage::PlayerId(x) ==> w == x,
        *msg matches ServerMessage::ResetPlayerId(x) ==> w == x,
        *msg matches ServerMessage::PlayerDisconnected(x) ==> w == x,
        *msg matches ServerMessage::PlayerName(x, _) ==> w == x,
{
    match msg {
        ServerMessage::PlayerId(world) => *world,
        ServerMessage::ResetPlayerId(world) => *world,
        ServerMessage::PlayerDisconnected(world) => *world,
        ServerMessage::PlayerName(world, _) => *world,
        _ => 0,
    }
}

/// The name bytes of a name-change message.
pub fn message_player_name(msg: &ServerMessage) -> (name: [u8; 8])
    requires
        *msg is PlayerName,
    ensures
        *msg matches ServerMessage::PlayerName(_, n) ==> name == n,
{
    match msg {
        ServerMessage::PlayerName(_, name) => *name,
        _ => [0; 8],
    }
}

/// Classifies the server's reply to a join or create request: the room
/// snapshot on success, the server-reported failure text otherwise, and a
/// protocol violation for any other message in that position.
pub fn room_connect_reply(msg: ServerMessage) -> (r: Result<(Vec<Player>, u8), ClientError>)
    ensures
        msg matches ServerMessage::EnterRoom { players, num_unassigned_clients } ==> r matches Ok(
            (p, n),
        ) && p@ == players@ && n == num_unassigned_clients,
        msg matches ServerMessage::Error(text) ==> r matches Err(
            ClientError::Auth(t),
        ) && t@ == text@,
        !(msg is EnterRoom) && !(msg is Error) ==> r == Err::<
            (Vec<Player>, u8),
            ClientError,
        >(ClientError::ProtocolViolation),
{
    match msg {
        ServerMessage::EnterRoom { players, num_unassigned_clients } => Ok(
            (players, num_unassigned_clients),
        ),
        ServerMessage::Error(text) => Err(ClientError::Auth(text)),
        _ => Err(ClientError::ProtocolViolation),
    }
}

} // verus!
