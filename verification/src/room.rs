//! The authoritative per-room state machine.
//!
//! A [`Room`] owns the client registry, the world assignments and the item
//! queues. Every state transition is a pure function of the room state and
//! the triggering event: instead of writing to sockets it returns the list
//! of [`Envelope`]s (recipient plus message) that the caller must deliver.
//! The delivery loop performs the writes and, when one fails, calls
//! [`Room::remove_client`] for the failing client — the explicit two-phase
//! form of the remove-then-notify pattern.

use vstd::prelude::*;
use crate::{Item, Player, TRIFORCE_PIECE};
use crate::proto::ServerMessage;

verus! {

/// One registered client: its connection handle and, once it has claimed a
/// world, its player data.
#[derive(Clone, Copy, Debug)]
pub struct ClientEntry {
    pub id: u64,
    pub player: Option<Player>,
}

/// The item backlog of one world that has been forked off the base queue.
#[derive(Debug)]
pub struct WorldQueue {
    pub world: u8,
    pub queue: Vec<Item>,
}

/// A message together with the client it is addressed to.
#[derive(Debug, Clone, PartialEq, Eq)]
pub struct Envelope {
    pub to: u64,
    pub msg: ServerMessage,
}

/// An isolated multiplayer session: the aggregate root.
pub struct Room {
    pub password: String,
    pub clients: Vec<ClientEntry>,
    pub base_queue: Vec<Item>,
    pub player_queues: Vec<WorldQueue>,
    pub num_unassigned: usize,
}

// ---------------------------------------------------------------------------
// spec helpers over the registry
// ---------------------------------------------------------------------------

/// Some entry of `q` has the given (`source`, `key`) identity.
pub open spec fn has_key(q: Seq<Item>, source: u8, key: u32) -> bool {
    exists|i: int| 0 <= i < q.len() && (#[trigger] q[i]).source == source && q[i].key == key
}

/// How many entries of `q` have the given (`source`, `key`) identity.
pub open spec fn count_key(q: Seq<Item>, source: u8, key: u32) -> int
    decreases q.len(),
{
    if q.len() == 0 {
        0
    } else {
        count_key(q.drop_last(), source, key) + if q.last().source == source && q.last().key == key {
            1int
        } else {
            0int
        }
    }
}

/// No two entries of `q` share a (`source`, `key`) identity.
pub open spec fn no_dup_keys(q: Seq<Item>) -> bool {
    forall|i: int, j: int|
        0 <= i < j < q.len() ==> !((#[trigger] q[i]).source == (#[trigger] q[j]).source && q[i].key
            == q[j].key)
}

/// The kinds of the items of `q`, in order.
pub open spec fn kinds_of(q: Seq<Item>) -> Seq<u16> {
    Seq::new(q.len(), |i: int| q[i].kind)
}

/// How many entries of `kinds` equal `kind`.
pub open spec fn count_kind(kinds: Seq<u16>, kind: u16) -> int
    decreases kinds.len(),
{
    if kinds.len() == 0 {
        0
    } else {
        count_kind(kinds.drop_last(), kind) + if kinds.last() == kind {
            1int
        } else {
            0int
        }
    }
}

/// Some registered client has the given connection handle.
pub open spec fn has_client_id(cs: Seq<ClientEntry>, id: u64) -> bool {
    exists|i: int| 0 <= i < cs.len() && (#[trigger] cs[i]).id == id
}

/// The index of the client with the given handle.
pub open spec fn client_index(cs: Seq<ClientEntry>, id: u64) -> int {
    choose|i: int| 0 <= i < cs.len() && (#[trigger] cs[i]).id == id
}

/// Connection handles are unique within the registry.
pub open spec fn ids_unique(cs: Seq<ClientEntry>) -> bool {
    forall|i: int, j: int|
        0 <= i < j < cs.len() ==> (#[trigger] cs[i]).id != (#[trigger] cs[j]).id
}

/// Every assigned player claims a valid (nonzero) world.
pub open spec fn players_wf(cs: Seq<ClientEntry>) -> bool {
    forall|i: int|
        0 <= i < cs.len() && (#[trigger] cs[i]).player is Some ==> cs[i].player->0.world != 0
}

/// No world is claimed by two clients at once.
pub open spec fn worlds_unique(cs: Seq<ClientEntry>) -> bool {
    forall|i: int, j: int|
        0 <= i < j < cs.len() && (#[trigger] cs[i]).player is Some && (#[trigger] cs[j]).player
            is Some ==> cs[i].player->0.world != cs[j].player->0.world
}

/// Some client other than the one at index `k` holds world `w`.
pub open spec fn other_holds(cs: Seq<ClientEntry>, k: int, w: u8) -> bool {
    exists|j: int|
        0 <= j < cs.len() && j != k && (#[trigger] cs[j]).player is Some && cs[j].player->0.world
            == w
}

/// Some client holds world `w`.
pub open spec fn world_claimed(cs: Seq<ClientEntry>, w: u8) -> bool {
    exists|j: int|
        0 <= j < cs.len() && (#[trigger] cs[j]).player is Some && cs[j].player->0.world == w
}

/// The index of the client holding world `w`.
pub open spec fn holder_index(cs: Seq<ClientEntry>, w: u8) -> int {
    choose|j: int|
        0 <= j < cs.len() && (#[trigger] cs[j]).player is Some && cs[j].player->0.world == w
}

/// How many registered clients have not claimed a world.
pub open spec fn count_unassigned(cs: Seq<ClientEntry>) -> int
    decreases cs.len(),
{
    if cs.len() == 0 {
        0
    } else {
        count_unassigned(cs.drop_last()) + if cs.last().player is None {
            1int
        } else {
            0int
        }
    }
}

// ---------------------------------------------------------------------------
// spec helpers over the per-world queues
// ---------------------------------------------------------------------------

/// The backlog forked for world `w`, if one exists.
pub open spec fn pq_lookup(pqs: Seq<WorldQueue>, w: u8) -> Option<Seq<Item>>
    decreases pqs.len(),
{
    if pqs.len() == 0 {
        None
    } else if pqs.last().world == w {
        Some(pqs.last().queue@)
    } else {
        pq_lookup(pqs.drop_last(), w)
    }
}

/// The base queue holds only shared-kind items, each (`source`, `key`)
/// identity at most once.
pub open spec fn base_wf(base: Seq<Item>) -> bool {
    &&& no_dup_keys(base)
    &&& forall|i: int| 0 <= i < base.len() ==> (#[trigger] base[i]).kind == TRIFORCE_PIECE
}

/// No two shared-kind entries of `q` share a (`source`, `key`) identity.
pub open spec fn no_dup_shared(q: Seq<Item>) -> bool {
    forall|i: int, j: int|
        0 <= i < j < q.len() && (#[trigger] q[i]).kind == TRIFORCE_PIECE && (#[trigger] q[j]).kind
            == TRIFORCE_PIECE ==> !(q[i].source == q[j].source && q[i].key == q[j].key)
}

/// No two world-specific entries of `q` share a (`source`, `key`) identity.
pub open spec fn no_dup_unshared(q: Seq<Item>) -> bool {
    forall|i: int, j: int|
        0 <= i < j < q.len() && (#[trigger] q[i]).kind != TRIFORCE_PIECE && (#[trigger] q[j]).kind
            != TRIFORCE_PIECE ==> !(q[i].source == q[j].source && q[i].key == q[j].key)
}

/// A forked backlog is consistent with the base queue: within each delivery
/// class its identities are unique, and every shared entry it holds is
/// recorded in the base queue.
pub open spec fn pq_entry_wf(q: Seq<Item>, base: Seq<Item>) -> bool {
    &&& no_dup_shared(q)
    &&& no_dup_unshared(q)
    &&& forall|i: int|
        0 <= i < q.len() && (#[trigger] q[i]).kind == TRIFORCE_PIECE ==> has_key(
            base,
            q[i].source,
            q[i].key,
        )
}

/// Forked worlds are valid and pairwise distinct, and their backlogs are
/// consistent with the base queue.
pub open spec fn pqs_wf(pqs: Seq<WorldQueue>, base: Seq<Item>) -> bool {
    &&& forall|i: int| 0 <= i < pqs.len() ==> (#[trigger] pqs[i]).world != 0
    &&& forall|i: int, j: int|
        0 <= i < j < pqs.len() ==> (#[trigger] pqs[i]).world != (#[trigger] pqs[j]).world
    &&& forall|i: int| 0 <= i < pqs.len() ==> pq_entry_wf((#[trigger] pqs[i]).queue@, base)
}

/// The item backlog a client claiming world `w` must be resynced with:
/// the forked backlog of `w` if one exists, the base queue otherwise.
pub open spec fn claim_queue(pqs: Seq<WorldQueue>, base: Seq<Item>, w: u8) -> Seq<Item> {
    match pq_lookup(pqs, w) {
        Some(q) => q,
        None => base,
    }
}

// ---------------------------------------------------------------------------
// spec helpers over effect lists
// ---------------------------------------------------------------------------

/// One copy of `msg` addressed to each client of `cs`, in registry order.
pub open spec fn bcast(cs: Seq<ClientEntry>, msg: ServerMessage) -> Seq<Envelope> {
    Seq::new(cs.len(), |i: int| Envelope { to: cs[i].id, msg })
}

/// The disconnect notification for a departing client that held `player`.
pub open spec fn disconnect_msg(player: Option<Player>) -> ServerMessage {
    match player {
        Some(p) => ServerMessage::PlayerDisconnected(p.world),
        None => ServerMessage::UnregisteredClientDisconnected,
    }
}

/// `tail` is the item-queue resync a client claiming a world receives: one
/// `ItemQueue` message listing the kinds of `q`, or nothing if `q` is empty.
pub open spec fn itemqueue_unicast_ok(tail: Seq<Envelope>, to: u64, q: Seq<Item>) -> bool {
    if q.len() == 0 {
        tail.len() == 0
    } else {
        &&& tail.len() == 1
        &&& tail[0].to == to
        &&& tail[0].msg is ItemQueue
        &&& tail[0].msg->ItemQueue_0@ == kinds_of(q)
    }
}

/// The live notifications of a shared item found by `source`: `GetItem` to
/// every client whose assigned world differs from `source`, registry order.
pub open spec fn shared_notifications(cs: Seq<ClientEntry>, source: u8, kind: u16) -> Seq<Envelope>
    decreases cs.len(),
{
    if cs.len() == 0 {
        Seq::empty()
    } else {
        shared_notifications(cs.drop_last(), source, kind) + if cs.last().player is Some
            && cs.last().player->0.world != source {
            seq![Envelope { to: cs.last().id, msg: ServerMessage::GetItem(kind) }]
        } else {
            Seq::empty()
        }
    }
}

/// Relation between a room and its successor when the client with handle
/// `client_id` is removed from the registry: the remaining clients keep
/// their order, the unassigned count is adjusted, and every remaining
/// client is sent exactly one disconnect notification.
pub open spec fn remove_transition(pre: Room, post: Room, client_id: u64, eff: Seq<Envelope>) -> bool {
    let k = client_index(pre.clients@, client_id);
    let pl = pre.clients@[k].player;
    &&& post.clients@ == pre.clients@.remove(k)
    &&& post.num_unassigned == pre.num_unassigned - if pl is None { 1int } else { 0int }
    &&& post.password == pre.password
    &&& post.base_queue == pre.base_queue
    &&& post.player_queues == pre.player_queues
    &&& eff == bcast(post.clients@, disconnect_msg(pl))
}

/// Relation between a room and its successor when the client with handle
/// `client_id` releases its world: a no-op if it held none, otherwise the
/// release is recorded and broadcast to every client.
pub open spec fn unload_transition(pre: Room, post: Room, client_id: u64, eff: Seq<Envelope>) -> bool {
    let k = client_index(pre.clients@, client_id);
    if pre.clients@[k].player is Some {
        &&& post.clients@ == pre.clients@.update(k, ClientEntry { id: client_id, player: None })
        &&& post.num_unassigned == pre.num_unassigned + 1
        &&& post.password == pre.password
        &&& post.base_queue == pre.base_queue
        &&& post.player_queues == pre.player_queues
        &&& eff == bcast(
            post.clients@,
            ServerMessage::ResetPlayerId(pre.clients@[k].player->0.world),
        )
    } else {
        &&& post == pre
        &&& eff == Seq::<Envelope>::empty()
    }
}

/// Relation between a room and its successor when the client with handle
/// `client_id` sets its display name: a no-op without a claimed world,
/// otherwise the name is recorded and broadcast to every client.
pub open spec fn set_name_transition(
    pre: Room,
    post: Room,
    client_id: u64,
    name: [u8; 8],
    eff: Seq<Envelope>,
) -> bool {
    let k = client_index(pre.clients@, client_id);
    let pl = pre.clients@[k].player;
    if pl is Some {
        &&& post.clients@ == pre.clients@.update(
            k,
            ClientEntry { id: client_id, player: Some(Player { world: pl->0.world, name }) },
        )
        &&& post.num_unassigned == pre.num_unassigned
        &&& post.password == pre.password
        &&& post.base_queue == pre.base_queue
        &&& post.player_queues == pre.player_queues
        &&& eff == bcast(post.clients@, ServerMessage::PlayerName(pl->0.world, name))
    } else {
        &&& post == pre
        &&& eff == Seq::<Envelope>::empty()
    }
}

/// Copies a message whose payload is plain scalar data, so that broadcast
/// fan-out can hand each recipient an equal message value.
fn dup_scalar(msg: &ServerMessage) -> (r: ServerMessage)
    requires
        !(*msg is Error),
        !(*msg is ItemQueue),
        !(*msg is EnterRoom),
    ensures
        r == *msg,
{
    match msg {
        ServerMessage::PlayerId(w) => ServerMessage::PlayerId(*w),
        ServerMessage::ResetPlayerId(w) => ServerMessage::ResetPlayerId(*w),
        ServerMessage::ClientConnected => ServerMessage::ClientConnected,
        ServerMessage::PlayerDisconnected(w) => ServerMessage::PlayerDisconnected(*w),
        ServerMessage::UnregisteredClientDisconnected => ServerMessage::UnregisteredClientDisconnected,
        ServerMessage::PlayerName(w, name) => ServerMessage::PlayerName(*w, *name),
        ServerMessage::GetItem(kind) => ServerMessage::GetItem(*kind),
        _ => ServerMessage::ClientConnected,
    }
}

/// One copy of `msg` for every client of the registry, in registry order.
fn broadcast_to_all(clients: &Vec<ClientEntry>, msg: &ServerMessage) -> (eff: Vec<Envelope>)
    requires
        !(*msg is Error),
        !(*msg is ItemQueue),
        !(*msg is EnterRoom),
    ensures
        eff@ == bcast(clients@, *msg),
{
    let mut eff: Vec<Envelope> = Vec::new();
    let mut i: usize = 0;
    while i < clients.len()
        invariant
            i <= clients@.len(),
            !(*msg is Error),
            !(*msg is ItemQueue),
            !(*msg is EnterRoom),
            eff@ == bcast(clients@, *msg).take(i as int),
        decreases clients@.len() - i,
    {
        eff.push(Envelope { to: clients[i].id, msg: dup_scalar(msg) });
        proof {
            assert(eff@ =~= bcast(clients@, *msg).take(i + 1));
        }
        i += 1;
    }
    proof {
        assert(eff@ =~= bcast(clients@, *msg));
    }
    eff
}

impl Room {
    /// Well-formedness of a room: unique handles, valid and unique world
    /// assignments, duplicate-free queues, and an accurate unassigned count.
    pub open spec fn wf(self) -> bool {
        &&& ids_unique(self.clients@)
        &&& players_wf(self.clients@)
        &&& worlds_unique(self.clients@)
        &&& base_wf(self.base_queue@)
        &&& pqs_wf(self.player_queues@, self.base_queue@)
        &&& self.num_unassigned == count_unassigned(self.clients@)
    }

    /// Whether a client with the given handle is registered.
    pub fn has_client(&self, client_id: u64) -> (b: bool)
        ensures
            b == has_client_id(self.clients@, client_id),
    {
        let mut i: usize = 0;
        while i < self.clients.len()
            invariant
                i <= self.clients@.len(),
                forall|j: int| 0 <= j < i ==> (#[trigger] self.clients@[j]).id != client_id,
            decreases self.clients@.len() - i,
        {
            if self.clients[i].id == client_id {
                return true;
            }
            i += 1;
        }
        false
    }

    /// The index of the registered client with the given handle.
    fn find_client(&self, client_id: u64) -> (r: Option<usize>)
        ensures
            r is Some ==> r->0 < self.clients@.len() && self.clients@[r->0 as int].id == client_id,
            r is None ==> !has_client_id(self.clients@, client_id),
    {
        let mut i: usize = 0;
        while i < self.clients.len()
            invariant
                i <= self.clients@.len(),
                forall|j: int| 0 <= j < i ==> (#[trigger] self.clients@[j]).id != client_id,
            decreases self.clients@.len() - i,
        {
            if self.clients[i].id == client_id {
                return Some(i);
            }
            i += 1;
        }
        None
    }

    /// Registers a freshly accepted connection. Everyone already present is
    /// notified first, so the new client is never told of its own arrival.
    pub fn add_client(&mut self, client_id: u64) -> (eff: Vec<Envelope>)
        requires
            old(self).wf(),
            !has_client_id(old(self).clients@, client_id),
            old(self).clients@.len() < usize::MAX,
        ensures
            final(self).wf(),
            final(self).clients@ == old(self).clients@.push(
                ClientEntry { id: client_id, player: None },
            ),
            final(self).password == old(self).password,
            final(self).base_queue == old(self).base_queue,
            final(self).player_queues == old(self).player_queues,
            final(self).num_unassigned == old(self).num_unassigned + 1,
            eff@ == bcast(old(self).clients@, ServerMessage::ClientConnected),
    {
        let mut eff: Vec<Envelope> = Vec::new();
        let mut i: usize = 0;
        while i < self.clients.len()
            invariant
                *self == *old(self),
                i <= self.clients@.len(),
                eff@ == bcast(self.clients@, ServerMessage::ClientConnected).take(i as int),
            decreases self.clients@.len() - i,
        {
            eff.push(Envelope { to: self.clients[i].id, msg: ServerMessage::ClientConnected });
            proof {
                assert(eff@ =~= bcast(self.clients@, ServerMessage::ClientConnected).take(
                    i + 1,
                ));
            }
            i += 1;
        }
        proof {
            assert(eff@ =~= bcast(self.clients@, ServerMessage::ClientConnected));
            lemma_count_unassigned_bound(self.clients@);
        }
        self.clients.push(ClientEntry { id: client_id, player: None });
        self.num_unassigned = self.num_unassigned + 1;
        proof {
            let cs0 = old(self).clients@;
            let cs1 = self.clients@;
            assert(cs1.drop_last() =~= cs0);
            assert(count_unassigned(cs1) == count_unassigned(cs0) + 1);
            assert forall|i: int, j: int| 0 <= i < j < cs1.len() implies (#[trigger] cs1[i]).id
                != (#[trigger] cs1[j]).id by {
                if j == cs1.len() - 1 {
                    assert(cs1[i] == cs0[i]);
                }
            }
        }
        eff
    }

    /// The index of the forked backlog for `world`, if one exists.
    fn find_queue(&self, world: u8) -> (r: Option<usize>)
        requires
            self.wf(),
        ensures
            r is Some ==> r->0 < self.player_queues@.len() && self.player_queues@[r->0 as int].world
                == world && pq_lookup(self.player_queues@, world) == Some(
                self.player_queues@[r->0 as int].queue@,
            ),
            r is None ==> pq_lookup(self.player_queues@, world) is None,
    {
        let mut i: usize = 0;
        while i < self.player_queues.len()
            invariant
                i <= self.player_queues@.len(),
                self.wf(),
                forall|j: int| 0 <= j < i ==> (#[trigger] self.player_queues@[j]).world != world,
            decreases self.player_queues@.len() - i,
        {
            if self.player_queues[i].world == world {
                proof {
                    lemma_pq_lookup_at(self.player_queues@, world, i as int);
                }
                return Some(i);
            }
            i += 1;
        }
        proof {
            lemma_pq_lookup_none(self.player_queues@, world);
        }
        None
    }

    /// Lets the given client claim `world`. A world already held by another
    /// client is silently refused; otherwise the claim is recorded, the
    /// release of a previously held world and the new claim are broadcast,
    /// and the claiming client is resynced with the world's item backlog.
    pub fn load_player(&mut self, client_id: u64, world: u8) -> (r: (bool, Vec<Envelope>))
        requires
            old(self).wf(),
            has_client_id(old(self).clients@, client_id),
            world != 0,
        ensures
            final(self).wf(),
            load_transition(*old(self), *final(self), client_id, world, r.0, r.1@),
    {
        let idx_opt = self.find_client(client_id);
        let idx = match idx_opt {
            Some(idx) => idx,
            None => {
                proof {
                    assert(false);
                }
                0
            },
        };
        proof {
            assert(client_index(self.clients@, client_id) == idx as int);
        }
        let ghost pre = *self;
        let ghost k = idx as int;
        let taken = world_taken_by_other(&self.clients, world, idx);
        if taken {
            let eff: Vec<Envelope> = Vec::new();
            proof {
                assert(eff@ =~= Seq::<Envelope>::empty());
            }
            return (false, eff);
        }
        let pl = self.clients[idx].player;
        let mut eff: Vec<Envelope>;
        match pl {
            Some(p) => {
                if p.world == world {
                    let eff: Vec<Envelope> = Vec::new();
                    proof {
                        assert(eff@ =~= Seq::<Envelope>::empty());
                    }
                    return (true, eff);
                }
                let entry = ClientEntry {
                    id: client_id,
                    player: Some(Player { world, name: p.name }),
                };
                proof {
                    lemma_count_unassigned_update(self.clients@, k, entry);
                }
                self.clients.set(idx, entry);
                eff = broadcast_to_all(&self.clients, &ServerMessage::ResetPlayerId(p.world));
                let mut eff2 = broadcast_to_all(&self.clients, &ServerMessage::PlayerId(world));
                eff.append(&mut eff2);
                proof {
                    let n = pre.clients@.len() as int;
                    assert(eff@.take(n) =~= bcast(
                        self.clients@,
                        ServerMessage::ResetPlayerId(p.world),
                    ));
                    assert(eff@.subrange(n, 2 * n) =~= bcast(
                        self.clients@,
                        ServerMessage::PlayerId(world),
                    ));
                }
            },
            None => {
                let entry = ClientEntry {
                    id: client_id,
                    player: Some(Player { world, name: crate::DEFAULT_NAME }),
                };
                proof {
                    lemma_count_unassigned_update(self.clients@, k, entry);
                    lemma_count_unassigned_remove(self.clients@, k);
                    lemma_count_unassigned_bound(self.clients@.remove(k));
                }
                self.clients.set(idx, entry);
                self.num_unassigned = self.num_unassigned - 1;
                eff = broadcast_to_all(&self.clients, &ServerMessage::PlayerId(world));
            },
        }
        let ghost n = pre.clients@.len() as int;
        let ghost eff_before = eff@;
        let j_opt = self.find_queue(world);
        let kinds = match j_opt {
            Some(j) => kinds_vec(&self.player_queues[j].queue),
            None => kinds_vec(&self.base_queue),
        };
        proof {
            assert(kinds@ == kinds_of(
                claim_queue(pre.player_queues@, pre.base_queue@, world),
            ));
        }
        if kinds.len() > 0 {
            eff.push(Envelope { to: client_id, msg: ServerMessage::ItemQueue(kinds) });
            proof {
                assert(eff@.take(eff@.len() - 1) =~= eff_before);
            }
        }
        proof {
            let q = claim_queue(pre.player_queues@, pre.base_queue@, world);
            if q.len() == 0 {
                assert(eff@.skip(eff_before.len() as int) =~= Seq::<Envelope>::empty());
            } else {
                assert(eff@.skip(eff_before.len() as int) =~= seq![eff@.last()]);
            }
            assert(eff@.take(eff_before.len() as int) =~= eff_before);
            assert(eff@.take(n) =~= eff_before.take(n));
            if eff_before.len() == 2 * n {
                assert(eff@.subrange(n, 2 * n) =~= eff_before.subrange(n, 2 * n));
            }
            let cs0 = pre.clients@;
            let cs1 = self.clients@;
            assert forall|a: int, b: int|
                0 <= a < b < cs1.len() && (#[trigger] cs1[a]).player is Some
                    && (#[trigger] cs1[b]).player is Some implies cs1[a].player->0.world
                != cs1[b].player->0.world by {
                if a != k && b != k {
                    assert(cs1[a] == cs0[a]);
                    assert(cs1[b] == cs0[b]);
                } else if a == k {
                    assert(cs1[b] == cs0[b]);
                } else {
                    assert(cs1[a] == cs0[a]);
                }
            }
        }
        (true, eff)
    }

    /// Records an item reported by `source_client` and returns the live
    /// notifications it triggers, per the delivery rules: shared-kind items
    /// go to the base queue and every forked backlog, world-specific items
    /// to the target world's backlog alone; duplicates are silent no-ops.
    pub fn queue_item(
        &mut self,
        source_client: u64,
        key: u32,
        kind: u16,
        target_world: u8,
    ) -> (r: (bool, Vec<Envelope>))
        requires
            old(self).wf(),
            has_client_id(old(self).clients@, source_client),
            target_world != 0,
        ensures
            final(self).wf(),
            queue_item_transition(
                *old(self),
                *final(self),
                source_client,
                key,
                kind,
                target_world,
                r.0,
                r.1@,
            ),
    {
        let idx_opt = self.find_client(source_client);
        let idx = match idx_opt {
            Some(idx) => idx,
            None => {
                proof {
                    assert(false);
                }
                0
            },
        };
        proof {
            assert(client_index(self.clients@, source_client) == idx as int);
        }
        let ghost pre = *self;
        let pl = self.clients[idx].player;
        let source = match pl {
            Some(p) => p.world,
            None => {
                let eff: Vec<Envelope> = Vec::new();
                proof {
                    assert(eff@ =~= Seq::<Envelope>::empty());
                }
                return (false, eff);
            },
        };
        let item = Item { source, key, kind };
        if kind == TRIFORCE_PIECE {
            if contains_key(&self.base_queue, source, key) {
                let eff: Vec<Envelope> = Vec::new();
                proof {
                    assert(eff@ =~= Seq::<Envelope>::empty());
                }
                return (true, eff);
            }
            self.base_queue.push(item);
            let mut new_pqs: Vec<WorldQueue> = Vec::new();
            let mut i: usize = 0;
            while i < self.player_queues.len()
                invariant
                    i <= self.player_queues@.len(),
                    self.player_queues == pre.player_queues,
                    new_pqs@.len() == i,
                    forall|m: int|
                        0 <= m < i ==> (#[trigger] new_pqs@[m]).world
                            == pre.player_queues@[m].world && new_pqs@[m].queue@
                            == pre.player_queues@[m].queue@.push(item),
                decreases self.player_queues@.len() - i,
            {
                let mut q = clone_items(&self.player_queues[i].queue);
                q.push(item);
                let w = self.player_queues[i].world;
                new_pqs.push(WorldQueue { world: w, queue: q });
                i += 1;
            }
            self.player_queues = new_pqs;
            let eff = shared_notify(&self.clients, source, kind);
            proof {
                let base0 = pre.base_queue@;
                let base1 = self.base_queue@;
                assert(base1.drop_last() =~= base0);
                assert forall|a: int, b: int|
                    0 <= a < b < base1.len() implies !((#[trigger] base1[a]).source
                    == (#[trigger] base1[b]).source && base1[a].key == base1[b].key) by {
                    if b < base1.len() - 1 {
                        assert(base1[a] == base0[a]);
                        assert(base1[b] == base0[b]);
                    } else {
                        assert(base1[b] == item);
                        if a < base1.len() - 1 {
                            assert(base1[a] == base0[a]);
                        }
                    }
                }
                let pqs0 = pre.player_queues@;
                let pqs1 = self.player_queues@;
                assert forall|m: int| 0 <= m < pqs1.len() implies (#[trigger] pqs1[m]).world
                    != 0 by {
                    assert(pqs1[m].world == pqs0[m].world);
                }
                assert forall|a: int, b: int|
                    0 <= a < b < pqs1.len() implies (#[trigger] pqs1[a]).world
                    != (#[trigger] pqs1[b]).world by {
                    assert(pqs1[a].world == pqs0[a].world);
                    assert(pqs1[b].world == pqs0[b].world);
                }
                assert forall|m: int| 0 <= m < self.player_queues@.len() implies pq_entry_wf(
                    (#[trigger] self.player_queues@[m]).queue@,
                    base1,
                ) by {
                    let q0 = pre.player_queues@[m].queue@;
                    let q1 = self.player_queues@[m].queue@;
                    assert(pq_entry_wf(q0, base0));
                    assert(q1 == q0.push(item));
                    assert forall|a: int|
                        0 <= a < q1.len() && (#[trigger] q1[a]).kind
                            == TRIFORCE_PIECE implies has_key(base1, q1[a].source, q1[a].key) by {
                        if a < q0.len() {
                            assert(q1[a] == q0[a]);
                            lemma_has_key_push(base0, item, q1[a].source, q1[a].key);
                        } else {
                            assert(q1[a] == item);
                            assert(base1[base1.len() - 1] == item);
                        }
                    }
                    assert forall|a: int, b: int|
                        0 <= a < b < q1.len() && (#[trigger] q1[a]).kind == TRIFORCE_PIECE && (
                        #[trigger] q1[b]).kind == TRIFORCE_PIECE implies !(q1[a].source
                        == q1[b].source && q1[a].key == q1[b].key) by {
                        if b < q0.len() {
                            assert(q1[a] == q0[a]);
                            assert(q1[b] == q0[b]);
                        } else {
                            assert(q1[b] == item);
                            if a < q0.len() {
                                assert(q1[a] == q0[a]);
                            }
                        }
                    }
                    assert forall|a: int, b: int|
                        0 <= a < b < q1.len() && (#[trigger] q1[a]).kind != TRIFORCE_PIECE && (
                        #[trigger] q1[b]).kind != TRIFORCE_PIECE implies !(q1[a].source
                        == q1[b].source && q1[a].key == q1[b].key) by {
                        if b < q0.len() {
                            assert(q1[a] == q0[a]);
                            assert(q1[b] == q0[b]);
                        }
                    }
                }
            }
            (true, eff)
        } else {
            let j_opt = self.find_queue(target_world);
            match j_opt {
                Some(j) => {
                    if contains_key(&self.player_queues[j].queue, source, key) {
                        let eff: Vec<Envelope> = Vec::new();
                        proof {
                            assert(eff@ =~= Seq::<Envelope>::empty());
                        }
                        return (true, eff);
                    }
                    let mut wq = self.player_queues.remove(j);
                    wq.queue.push(item);
                    self.player_queues.insert(j, wq);
                    proof {
                        let pqs0 = pre.player_queues@;
                        let pqs1 = self.player_queues@;
                        assert forall|m: int|
                            0 <= m < pqs0.len() implies (#[trigger] pqs1[m]).world
                            == pqs0[m].world && pqs1[m].queue@ == (if pqs0[m].world
                            == target_world {
                            pqs0[m].queue@.push(item)
                        } else {
                            pqs0[m].queue@
                        }) by {
                            pqs0.remove_ensures(j as int);
                            pqs0.remove(j as int).insert_ensures(
                                j as int,
                                pqs1[j as int],
                            );
                            if m < j as int {
                                assert(pqs1[m] == pqs0[m]);
                            } else if m > j as int {
                                assert(pqs1[m] == pqs0[m]);
                            }
                        }
                        lemma_pq_lookup_at(pqs1, target_world, j as int);
                        let q0 = pqs0[j as int].queue@;
                        let q1 = pqs1[j as int].queue@;
                        assert(pq_entry_wf(q0, pre.base_queue@));
                        assert(q1 == q0.push(item));
                        assert forall|a: int, b: int|
                            0 <= a < b < q1.len() && (#[trigger] q1[a]).kind != TRIFORCE_PIECE
                                && (#[trigger] q1[b]).kind != TRIFORCE_PIECE implies !(
                        q1[a].source == q1[b].source && q1[a].key == q1[b].key) by {
                            if b < q0.len() {
                                assert(q1[a] == q0[a]);
                                assert(q1[b] == q0[b]);
                            } else {
                                assert(q1[b] == item);
                                if a < q0.len() {
                                    assert(q1[a] == q0[a]);
                                }
                            }
                        }
                        assert forall|a: int, b: int|
                            0 <= a < b < q1.len() && (#[trigger] q1[a]).kind == TRIFORCE_PIECE
                                && (#[trigger] q1[b]).kind == TRIFORCE_PIECE implies !(
                        q1[a].source == q1[b].source && q1[a].key == q1[b].key) by {
                            if b < q0.len() {
                                assert(q1[a] == q0[a]);
                                assert(q1[b] == q0[b]);
                            }
                        }
                        assert forall|a: int|
                            0 <= a < q1.len() && (#[trigger] q1[a]).kind
                                == TRIFORCE_PIECE implies has_key(
                            pre.base_queue@,
                            q1[a].source,
                            q1[a].key,
                        ) by {
                            if a < q0.len() {
                                assert(q1[a] == q0[a]);
                            }
                        }
                    }
                    let holder = find_holder(&self.clients, target_world);
                    let mut eff: Vec<Envelope> = Vec::new();
                    match holder {
                        Some(id) => {
                            eff.push(Envelope { to: id, msg: ServerMessage::GetItem(kind) });
                            proof {
                                assert(eff@ =~= seq![
                                    Envelope {
                                        to: pre.clients@[
                                            holder_index(pre.clients@, target_world)].id,
                                        msg: ServerMessage::GetItem(kind),
                                    },
                                ]);
                            }
                        },
                        None => {
                            proof {
                                assert(eff@ =~= Seq::<Envelope>::empty());
                            }
                        },
                    }
                    (true, eff)
                },
                None => {
                    let mut q = clone_items(&self.base_queue);
                    q.push(item);
                    self.player_queues.push(WorldQueue { world: target_world, queue: q });
                    proof {
                        let pqs0 = pre.player_queues@;
                        let pqs1 = self.player_queues@;
                        assert(pqs1.drop_last() =~= pqs0);
                        assert(pqs1.last().queue@ == pre.base_queue@.push(item));
                        lemma_pq_lookup_none_converse(pqs0, target_world);
                        assert forall|a: int, b: int|
                            0 <= a < b < pqs1.len() implies (#[trigger] pqs1[a]).world
                            != (#[trigger] pqs1[b]).world by {
                            assert(pqs1[a] == pqs0[a]);
                            if b < pqs1.len() - 1 {
                                assert(pqs1[b] == pqs0[b]);
                            }
                        }
                        lemma_pq_lookup_at(pqs1, target_world, pqs1.len() - 1);
                        let q1 = pqs1.last().queue@;
                        let base = pre.base_queue@;
                        assert forall|a: int, b: int|
                            0 <= a < b < q1.len() && (#[trigger] q1[a]).kind != TRIFORCE_PIECE
                                && (#[trigger] q1[b]).kind != TRIFORCE_PIECE implies !(
                        q1[a].source == q1[b].source && q1[a].key == q1[b].key) by {
                            if b < base.len() {
                                assert(q1[a] == base[a]);
                                assert(q1[b] == base[b]);
                                assert(base[a].kind == TRIFORCE_PIECE);
                            } else {
                                if a < base.len() {
                                    assert(q1[a] == base[a]);
                                    assert(base[a].kind == TRIFORCE_PIECE);
                                }
                            }
                        }
                        assert forall|a: int, b: int|
                            0 <= a < b < q1.len() && (#[trigger] q1[a]).kind == TRIFORCE_PIECE
                                && (#[trigger] q1[b]).kind == TRIFORCE_PIECE implies !(
                        q1[a].source == q1[b].source && q1[a].key == q1[b].key) by {
                            assert(b < base.len());
                            assert(q1[a] == base[a]);
                            assert(q1[b] == base[b]);
                        }
                        assert forall|a: int|
                            0 <= a < q1.len() && (#[trigger] q1[a]).kind
                                == TRIFORCE_PIECE implies has_key(base, q1[a].source, q1[a].key) by {
                            assert(a < base.len());
                            assert(q1[a] == base[a]);
                        }
                    }
                    let holder = find_holder(&self.clients, target_world);
                    let mut eff: Vec<Envelope> = Vec::new();
                    match holder {
                        Some(id) => {
                            eff.push(Envelope { to: id, msg: ServerMessage::GetItem(kind) });
                            proof {
                                assert(eff@ =~= seq![
                                    Envelope {
                                        to: pre.clients@[
                                            holder_index(pre.clients@, target_world)].id,
                                        msg: ServerMessage::GetItem(kind),
                                    },
                                ]);
                            }
                        },
                        None => {
                            proof {
                                assert(eff@ =~= Seq::<Envelope>::empty());
                            }
                        },
                    }
                    (true, eff)
                },
            }
        }
    }

    /// Removes a client from the registry and notifies everyone remaining:
    /// `PlayerDisconnected` if the client held a world, otherwise
    /// `UnregisteredClientDisconnected`. The departing client gets nothing.
    /// Removing an unknown handle is a no-op.
    pub fn remove_client(&mut self, client_id: u64) -> (eff: Vec<Envelope>)
        requires
            old(self).wf(),
        ensures
            final(self).wf(),
            has_client_id(old(self).clients@, client_id) ==> remove_transition(
                *old(self),
                *final(self),
                client_id,
                eff@,
            ),
            !has_client_id(old(self).clients@, client_id) ==> *final(self) == *old(self) && eff@
                == Seq::<Envelope>::empty(),
            forall|i: int| 0 <= i < eff@.len() ==> (#[trigger] eff@[i]).to != client_id,
    {
        let idx_opt = self.find_client(client_id);
        match idx_opt {
            None => {
                let eff: Vec<Envelope> = Vec::new();
                proof {
                    assert(eff@ =~= Seq::<Envelope>::empty());
                }
                eff
            },
            Some(idx) => {
                proof {
                    assert(client_index(self.clients@, client_id) == idx as int);
                    lemma_count_unassigned_remove(self.clients@, idx as int);
                    lemma_count_unassigned_bound(self.clients@.remove(idx as int));
                    self.clients@.remove_ensures(idx as int);
                }
                let pl = self.clients[idx].player;
                self.clients.remove(idx);
                if pl.is_none() {
                    self.num_unassigned = self.num_unassigned - 1;
                }
                let msg = match pl {
                    Some(p) => ServerMessage::PlayerDisconnected(p.world),
                    None => ServerMessage::UnregisteredClientDisconnected,
                };
                let eff = broadcast_to_all(&self.clients, &msg);
                proof {
                    let cs0 = old(self).clients@;
                    let cs1 = self.clients@;
                    assert forall|i: int, j: int|
                        0 <= i < j < cs1.len() implies (#[trigger] cs1[i]).id
                        != (#[trigger] cs1[j]).id by {}
                    assert forall|i: int| 0 <= i < eff@.len() implies (#[trigger] eff@[i]).to
                        != client_id by {
                        assert(eff@[i].to == cs1[i].id);
                        if i < idx as int {
                            assert(cs1[i] == cs0[i]);
                        } else {
                            assert(cs1[i] == cs0[i + 1]);
                        }
                    }
                }
                eff
            },
        }
    }

    /// Releases the world held by the given client, if any, recording the
    /// release and broadcasting it to every client in the room.
    pub fn unload_player(&mut self, client_id: u64) -> (eff: Vec<Envelope>)
        requires
            old(self).wf(),
            has_client_id(old(self).clients@, client_id),
        ensures
            final(self).wf(),
            unload_transition(*old(self), *final(self), client_id, eff@),
    {
        let idx_opt = self.find_client(client_id);
        let idx = match idx_opt {
            Some(idx) => idx,
            None => {
                proof {
                    assert(false);
                }
                0
            },
        };
        proof {
            assert(client_index(self.clients@, client_id) == idx as int);
        }
        let pl = self.clients[idx].player;
        match pl {
            Some(p) => {
                proof {
                    lemma_count_unassigned_update(
                        self.clients@,
                        idx as int,
                        ClientEntry { id: client_id, player: None },
                    );
                    lemma_count_unassigned_remove(self.clients@, idx as int);
                    lemma_count_unassigned_bound(self.clients@.remove(idx as int));
                }
                let n = self.clients.len();
                self.clients.set(idx, ClientEntry { id: client_id, player: None });
                proof {
                    assert(self.num_unassigned < n);
                }
                self.num_unassigned = self.num_unassigned + 1;
                let msg = ServerMessage::ResetPlayerId(p.world);
                let eff = broadcast_to_all(&self.clients, &msg);
                eff
            },
            None => {
                let eff: Vec<Envelope> = Vec::new();
                proof {
                    assert(eff@ =~= Seq::<Envelope>::empty());
                }
                eff
            },
        }
    }

    /// Records a new display name for the given client's player and
    /// broadcasts it; reports `false` without effect if the client has not
    /// claimed a world yet.
    pub fn set_player_name(&mut self, client_id: u64, name: [u8; 8]) -> (r: (bool, Vec<Envelope>))
        requires
            old(self).wf(),
            has_client_id(old(self).clients@, client_id),
        ensures
            final(self).wf(),
            set_name_transition(*old(self), *final(self), client_id, name, r.1@),
            r.0 == (old(self).clients@[client_index(old(self).clients@, client_id)].player
                is Some),
    {
        let idx_opt = self.find_client(client_id);
        let idx = match idx_opt {
            Some(idx) => idx,
            None => {
                proof {
                    assert(false);
                }
                0
            },
        };
        proof {
            assert(client_index(self.clients@, client_id) == idx as int);
        }
        let pl = self.clients[idx].player;
        match pl {
            Some(p) => {
                let entry = ClientEntry {
                    id: client_id,
                    player: Some(Player { world: p.world, name }),
                };
                proof {
                    lemma_count_unassigned_update(self.clients@, idx as int, entry);
                }
                self.clients.set(idx, entry);
                let msg = ServerMessage::PlayerName(p.world, name);
                let eff = broadcast_to_all(&self.clients, &msg);
                (true, eff)
            },
            None => {
                let eff: Vec<Envelope> = Vec::new();
                proof {
                    assert(eff@ =~= Seq::<Envelope>::empty());
                }
                (false, eff)
            },
        }
    }
}

/// Relation between a room and its successor when the client with handle
/// `client_id` claims `world`. A claim of a world held by someone else is
/// refused without any effect; reclaiming one's own world is a silent
/// success. Otherwise the assignment is recorded, a release of the
/// previously held world (if any) and the new claim are broadcast, and the
/// claiming client alone is resynced with the world's item backlog.
pub open spec fn load_transition(
    pre: Room,
    post: Room,
    client_id: u64,
    world: u8,
    ok: bool,
    eff: Seq<Envelope>,
) -> bool {
    let k = client_index(pre.clients@, client_id);
    let pl = pre.clients@[k].player;
    let q = claim_queue(pre.player_queues@, pre.base_queue@, world);
    let n = pre.clients@.len() as int;
    if other_holds(pre.clients@, k, world) {
        &&& !ok
        &&& post == pre
        &&& eff == Seq::<Envelope>::empty()
    } else if pl is Some && pl->0.world == world {
        &&& ok
        &&& post == pre
        &&& eff == Seq::<Envelope>::empty()
    } else {
        &&& ok
        &&& post.password == pre.password
        &&& post.base_queue == pre.base_queue
        &&& post.player_queues == pre.player_queues
        &&& if pl is Some {
            &&& post.clients@ == pre.clients@.update(
                k,
                ClientEntry { id: client_id, player: Some(Player { world, name: pl->0.name }) },
            )
            &&& post.num_unassigned == pre.num_unassigned
            &&& eff.len() == 2 * n + if q.len() == 0 { 0int } else { 1int }
            &&& eff.take(n) == bcast(post.clients@, ServerMessage::ResetPlayerId(pl->0.world))
            &&& eff.subrange(n, 2 * n) == bcast(post.clients@, ServerMessage::PlayerId(world))
            &&& itemqueue_unicast_ok(eff.skip(2 * n), client_id, q)
        } else {
            &&& post.clients@ == pre.clients@.update(
                k,
                ClientEntry {
                    id: client_id,
                    player: Some(Player { world, name: crate::DEFAULT_NAME }),
                },
            )
            &&& post.num_unassigned == pre.num_unassigned - 1
            &&& eff.len() == n + if q.len() == 0 { 0int } else { 1int }
            &&& eff.take(n) == bcast(post.clients@, ServerMessage::PlayerId(world))
            &&& itemqueue_unicast_ok(eff.skip(n), client_id, q)
        }
    }
}

/// The kinds of the items of `q`, in order, as a fresh vector.
fn kinds_vec(q: &Vec<Item>) -> (r: Vec<u16>)
    ensures
        r@ == kinds_of(q@),
{
    let mut r: Vec<u16> = Vec::new();
    let mut i: usize = 0;
    while i < q.len()
        invariant
            i <= q@.len(),
            r@ == kinds_of(q@).take(i as int),
        decreases q@.len() - i,
    {
        r.push(q[i].kind);
        proof {
            assert(r@ =~= kinds_of(q@).take(i + 1));
        }
        i += 1;
    }
    proof {
        assert(r@ =~= kinds_of(q@));
    }
    r
}

/// When worlds are pairwise distinct, the entry at index `i` is the one the
/// backlog lookup finds.
proof fn lemma_pq_lookup_at(pqs: Seq<WorldQueue>, w: u8, i: int)
    requires
        0 <= i < pqs.len(),
        pqs[i].world == w,
        forall|a: int, b: int|
            0 <= a < b < pqs.len() ==> (#[trigger] pqs[a]).world != (#[trigger] pqs[b]).world,
    ensures
        pq_lookup(pqs, w) == Some(pqs[i].queue@),
    decreases pqs.len(),
{
    if i < pqs.len() - 1 {
        assert(pqs.drop_last()[i] == pqs[i]);
        lemma_pq_lookup_at(pqs.drop_last(), w, i);
    }
}

/// A world that appears in no entry has no forked backlog.
proof fn lemma_pq_lookup_none(pqs: Seq<WorldQueue>, w: u8)
    requires
        forall|i: int| 0 <= i < pqs.len() ==> (#[trigger] pqs[i]).world != w,
    ensures
        pq_lookup(pqs, w) is None,
    decreases pqs.len(),
{
    if pqs.len() > 0 {
        lemma_pq_lookup_none(pqs.drop_last(), w);
    }
}

/// A world without a forked backlog appears in no entry.
proof fn lemma_pq_lookup_none_converse(pqs: Seq<WorldQueue>, w: u8)
    requires
        pq_lookup(pqs, w) is None,
    ensures
        forall|i: int| 0 <= i < pqs.len() ==> (#[trigger] pqs[i]).world != w,
    decreases pqs.len(),
{
    if pqs.len() > 0 {
        lemma_pq_lookup_none_converse(pqs.drop_last(), w);
        assert forall|i: int| 0 <= i < pqs.len() implies (#[trigger] pqs[i]).world != w by {
            if i < pqs.len() - 1 {
                assert(pqs.drop_last()[i] == pqs[i]);
            }
        }
    }
}

/// Removing entry `k` lowers the unassigned count exactly when that entry
/// was unassigned.
proof fn lemma_count_unassigned_remove(cs: Seq<ClientEntry>, k: int)
    requires
        0 <= k < cs.len(),
    ensures
        count_unassigned(cs) == count_unassigned(cs.remove(k)) + if cs[k].player is None {
            1int
        } else {
            0int
        },
    decreases cs.len(),
{
    if k == cs.len() - 1 {
        assert(cs.remove(k) =~= cs.drop_last());
    } else {
        assert(cs.remove(k).drop_last() =~= cs.drop_last().remove(k));
        assert(cs.remove(k).last() == cs.last());
        lemma_count_unassigned_remove(cs.drop_last(), k);
    }
}

/// Replacing entry `k` adjusts the unassigned count by the difference
/// between the old and the new entry.
proof fn lemma_count_unassigned_update(cs: Seq<ClientEntry>, k: int, e: ClientEntry)
    requires
        0 <= k < cs.len(),
    ensures
        count_unassigned(cs.update(k, e)) == count_unassigned(cs) - (if cs[k].player is None {
            1int
        } else {
            0int
        }) + if e.player is None {
            1int
        } else {
            0int
        },
    decreases cs.len(),
{
    if k == cs.len() - 1 {
        assert(cs.update(k, e).drop_last() =~= cs.drop_last());
        assert(cs.update(k, e).last() == e);
    } else {
        assert(cs.update(k, e).drop_last() =~= cs.drop_last().update(k, e));
        assert(cs.update(k, e).last() == cs.last());
        lemma_count_unassigned_update(cs.drop_last(), k, e);
    }
}

/// The unassigned count never exceeds the number of registered clients.
proof fn lemma_count_unassigned_bound(cs: Seq<ClientEntry>)
    ensures
        0 <= count_unassigned(cs) <= cs.len(),
    decreases cs.len(),
{
    if cs.len() > 0 {
        lemma_count_unassigned_bound(cs.drop_last());
    }
}

/// Relation between a room and its successor when the client with handle
/// `source_client` reports a found item. A client without a world is
/// refused. A shared-kind item is recorded once in the base queue and in
/// every forked backlog, and announced live to every client assigned to a
/// world other than the finder's; a replay of the same (`source`, `key`)
/// is a silent no-op. A world-specific item is recorded once in the target
/// world's backlog — forked from the base queue on first use — and
/// announced live only to the client holding the target world, if any.
pub open spec fn queue_item_transition(
    pre: Room,
    post: Room,
    source_client: u64,
    key: u32,
    kind: u16,
    target_world: u8,
    ok: bool,
    eff: Seq<Envelope>,
) -> bool {
    let k = client_index(pre.clients@, source_client);
    let pl = pre.clients@[k].player;
    let source = pl->0.world;
    let item = Item { source, key, kind };
    if pl is None {
        &&& !ok
        &&& post == pre
        &&& eff == Seq::<Envelope>::empty()
    } else {
        &&& ok
        &&& post.password == pre.password
        &&& post.clients@ == pre.clients@
        &&& post.num_unassigned == pre.num_unassigned
        &&& if kind == TRIFORCE_PIECE {
            if has_key(pre.base_queue@, source, key) {
                &&& post.base_queue == pre.base_queue
                &&& post.player_queues == pre.player_queues
                &&& eff == Seq::<Envelope>::empty()
            } else {
                &&& post.base_queue@ == pre.base_queue@.push(item)
                &&& post.player_queues@.len() == pre.player_queues@.len()
                &&& forall|i: int|
                    0 <= i < pre.player_queues@.len() ==> (#[trigger] post.player_queues@[i]).world
                        == pre.player_queues@[i].world && post.player_queues@[i].queue@
                        == pre.player_queues@[i].queue@.push(item)
                &&& eff == shared_notifications(pre.clients@, source, kind)
            }
        } else {
            if pq_lookup(pre.player_queues@, target_world) is Some && has_key(
                pq_lookup(pre.player_queues@, target_world)->0,
                source,
                key,
            ) {
                &&& post.base_queue == pre.base_queue
                &&& post.player_queues == pre.player_queues
                &&& eff == Seq::<Envelope>::empty()
            } else {
                &&& post.base_queue == pre.base_queue
                &&& if pq_lookup(pre.player_queues@, target_world) is Some {
                    &&& post.player_queues@.len() == pre.player_queues@.len()
                    &&& forall|i: int|
                        0 <= i < pre.player_queues@.len() ==> (
                        #[trigger] post.player_queues@[i]).world == pre.player_queues@[i].world
                            && post.player_queues@[i].queue@ == if pre.player_queues@[i].world
                            == target_world {
                            pre.player_queues@[i].queue@.push(item)
                        } else {
                            pre.player_queues@[i].queue@
                        }
                } else {
                    &&& post.player_queues@.len() == pre.player_queues@.len() + 1
                    &&& forall|i: int|
                        0 <= i < pre.player_queues@.len() ==> (
                        #[trigger] post.player_queues@[i]).world == pre.player_queues@[i].world
                            && post.player_queues@[i].queue@ == pre.player_queues@[i].queue@
                    &&& post.player_queues@.last().world == target_world
                    &&& post.player_queues@.last().queue@ == pre.base_queue@.push(item)
                }
                &&& pq_lookup(post.player_queues@, target_world) is Some
                &&& if world_claimed(pre.clients@, target_world) {
                    eff == seq![
                        Envelope {
                            to: pre.clients@[holder_index(pre.clients@, target_world)].id,
                            msg: ServerMessage::GetItem(kind),
                        },
                    ]
                } else {
                    eff == Seq::<Envelope>::empty()
                }
            }
        }
    }
}

/// Whether some entry of the queue has the given (`source`, `key`) identity.
fn contains_key(q: &Vec<Item>, source: u8, key: u32) -> (b: bool)
    ensures
        b == has_key(q@, source, key),
{
    let mut i: usize = 0;
    let mut found = false;
    while i < q.len()
        invariant
            i <= q@.len(),
            found ==> exists|j: int|
                0 <= j < q@.len() && (#[trigger] q@[j]).source == source && q@[j].key == key,
            !found ==> forall|j: int|
                0 <= j < i ==> !((#[trigger] q@[j]).source == source && q@[j].key == key),
        decreases q@.len() - i,
    {
        let it = q[i];
        if it.source == source && it.key == key {
            found = true;
        }
        i += 1;
    }
    found
}

/// A fresh copy of an item queue.
fn clone_items(q: &Vec<Item>) -> (r: Vec<Item>)
    ensures
        r@ == q@,
{
    let mut r: Vec<Item> = Vec::new();
    let mut i: usize = 0;
    while i < q.len()
        invariant
            i <= q@.len(),
            r@ == q@.take(i as int),
        decreases q@.len() - i,
    {
        r.push(q[i]);
        proof {
            assert(r@ =~= q@.take(i + 1));
        }
        i += 1;
    }
    proof {
        assert(r@ =~= q@);
    }
    r
}

/// The handle of the client holding `world`, if any.
fn find_holder(v: &Vec<ClientEntry>, world: u8) -> (r: Option<u64>)
    requires
        worlds_unique(v@),
    ensures
        r is Some ==> world_claimed(v@, world) && r->0 == v@[holder_index(v@, world)].id,
        r is None ==> !world_claimed(v@, world),
{
    let mut i: usize = 0;
    while i < v.len()
        invariant
            i <= v@.len(),
            worlds_unique(v@),
            forall|j: int|
                0 <= j < i ==> !((#[trigger] v@[j]).player is Some && v@[j].player->0.world
                    == world),
        decreases v@.len() - i,
    {
        let entry = v[i];
        match entry.player {
            Some(p) => {
                if p.world == world {
                    proof {
                        let h = holder_index(v@, world);
                        assert((#[trigger] v@[h]).player is Some && v@[h].player->0.world
                            == world);
                        if h != i as int {
                            assert(false);
                        }
                    }
                    return Some(entry.id);
                }
            },
            None => {},
        }
        i += 1;
    }
    None
}

/// The live notifications of a shared item: `GetItem` to every client whose
/// assigned world is not the finder's, in registry order.
fn shared_notify(v: &Vec<ClientEntry>, source: u8, kind: u16) -> (eff: Vec<Envelope>)
    ensures
        eff@ == shared_notifications(v@, source, kind),
{
    let mut eff: Vec<Envelope> = Vec::new();
    let mut i: usize = 0;
    while i < v.len()
        invariant
            i <= v@.len(),
            eff@ == shared_notifications(v@.take(i as int), source, kind),
        decreases v@.len() - i,
    {
        let entry = v[i];
        match entry.player {
            Some(p) => {
                if p.world != source {
                    eff.push(Envelope { to: entry.id, msg: ServerMessage::GetItem(kind) });
                }
            },
            None => {},
        }
        proof {
            assert(v@.take(i + 1).drop_last() =~= v@.take(i as int));
            assert(v@.take(i + 1).last() == v@[i as int]);
            assert(eff@ =~= shared_notifications(v@.take(i + 1), source, kind));
        }
        i += 1;
    }
    proof {
        assert(v@.take(v@.len() as int) =~= v@);
    }
    eff
}

/// A (`source`, `key`) identity present in a queue stays present when the
/// queue grows.
proof fn lemma_has_key_push(q: Seq<Item>, x: Item, source: u8, key: u32)
    requires
        has_key(q, source, key),
    ensures
        has_key(q.push(x), source, key),
{
    let i = choose|i: int|
        0 <= i < q.len() && (#[trigger] q[i]).source == source && q[i].key == key;
    assert(q.push(x)[i] == q[i]);
}

/// A (`source`, `key`) identity is present in a queue exactly when its
/// count is positive.
proof fn lemma_count_key_positive(q: Seq<Item>, source: u8, key: u32)
    ensures
        count_key(q, source, key) >= 0,
        has_key(q, source, key) <==> count_key(q, source, key) > 0,
    decreases q.len(),
{
    if q.len() == 0 {
    } else {
        lemma_count_key_positive(q.drop_last(), source, key);
        if has_key(q, source, key) {
            let i = choose|i: int|
                0 <= i < q.len() && (#[trigger] q[i]).source == source && q[i].key == key;
            if i < q.len() - 1 {
                assert(q.drop_last()[i] == q[i]);
                assert(has_key(q.drop_last(), source, key));
            }
        }
        if has_key(q.drop_last(), source, key) {
            let i = choose|i: int|
                0 <= i < q.drop_last().len() && (#[trigger] q.drop_last()[i]).source == source
                    && q.drop_last()[i].key == key;
            assert(q[i] == q.drop_last()[i]);
            assert(has_key(q, source, key));
        }
    }
}

/// In a queue free of duplicate identities, no identity is counted twice.
proof fn lemma_no_dup_count_at_most_one(q: Seq<Item>, source: u8, key: u32)
    requires
        no_dup_keys(q),
    ensures
        count_key(q, source, key) <= 1,
    decreases q.len(),
{
    if q.len() > 0 {
        assert forall|i: int, j: int|
            0 <= i < j < q.drop_last().len() implies !((#[trigger] q.drop_last()[i]).source
            == (#[trigger] q.drop_last()[j]).source && q.drop_last()[i].key
            == q.drop_last()[j].key) by {
            assert(q.drop_last()[i] == q[i]);
            assert(q.drop_last()[j] == q[j]);
        }
        lemma_no_dup_count_at_most_one(q.drop_last(), source, key);
        lemma_count_key_positive(q.drop_last(), source, key);
        if q.last().source == source && q.last().key == key && count_key(
            q.drop_last(),
            source,
            key,
        ) > 0 {
            let i = choose|i: int|
                0 <= i < q.drop_last().len() && (#[trigger] q.drop_last()[i]).source == source
                    && q.drop_last()[i].key == key;
            assert(q[i] == q.drop_last()[i]);
            assert(false);
        }
    }
}

/// Law: replaying a shared-item send is idempotent. Sending a shared item
/// whose identity is absent records it once — the base queue then counts
/// that (`source`, `key`) exactly once — and any further send of the same
/// identity finds it present, which [`queue_item_transition`] maps to an
/// unchanged base queue. So the count is one however often the send is
/// replayed.
pub proof fn lemma_shared_send_idempotent(base: Seq<Item>, it: Item)
    requires
        no_dup_keys(base),
    ensures
        !has_key(base, it.source, it.key) ==> count_key(base.push(it), it.source, it.key) == 1
            && no_dup_keys(base.push(it)),
        has_key(base, it.source, it.key) ==> count_key(base, it.source, it.key) == 1,
{
    lemma_count_key_positive(base, it.source, it.key);
    lemma_no_dup_count_at_most_one(base, it.source, it.key);
    if !has_key(base, it.source, it.key) {
        let q1 = base.push(it);
        assert(q1.drop_last() =~= base);
        assert(count_key(q1, it.source, it.key) == 1);
        assert forall|i: int, j: int|
            0 <= i < j < q1.len() implies !((#[trigger] q1[i]).source == (#[trigger] q1[j]).source
            && q1[i].key == q1[j].key) by {
            assert(q1[i] == base[i]);
            if j < q1.len() - 1 {
                assert(q1[j] == base[j]);
            } else {
                assert(q1[j] == it);
            }
        }
    }
}

/// How many entries of `kinds` equal `kind` after one more is appended.
proof fn lemma_count_kind_push(kinds: Seq<u16>, x: u16, kind: u16)
    ensures
        count_kind(kinds.push(x), kind) == count_kind(kinds, kind) + if x == kind {
            1int
        } else {
            0int
        },
{
    assert(kinds.push(x).drop_last() =~= kinds);
}

/// In a queue of kinds that all differ from `kind`, `kind` counts zero.
proof fn lemma_count_kind_zero(kinds: Seq<u16>, kind: u16)
    requires
        forall|i: int| 0 <= i < kinds.len() ==> kinds[i] != kind,
    ensures
        count_kind(kinds, kind) == 0,
    decreases kinds.len(),
{
    if kinds.len() > 0 {
        lemma_count_kind_zero(kinds.drop_last(), kind);
    }
}

/// Law: a world-specific item sent to a world that was never claimed or
/// forked is delivered exactly once on claim. The send forks the world's
/// backlog from the base queue — which, being the record of shared finds,
/// holds no item of a world-specific kind — and appends the item; the
/// resync a later claimant of that world receives lists the kinds of
/// exactly that backlog, so the item's kind appears in it exactly once.
pub proof fn lemma_deferred_delivery(
    pqs0: Seq<WorldQueue>,
    pqs1: Seq<WorldQueue>,
    base: Seq<Item>,
    it: Item,
    w: u8,
)
    requires
        pq_lookup(pqs0, w) is None,
        base_wf(base),
        it.kind != TRIFORCE_PIECE,
        forall|a: int, b: int|
            0 <= a < b < pqs0.len() ==> (#[trigger] pqs0[a]).world != (#[trigger] pqs0[b]).world,
        pqs1.len() == pqs0.len() + 1,
        pqs1.last().world == w,
        pqs1.last().queue@ == base.push(it),
        forall|i: int|
            0 <= i < pqs0.len() ==> (#[trigger] pqs1[i]).world == pqs0[i].world,
    ensures
        claim_queue(pqs1, base, w) == base.push(it),
        count_kind(kinds_of(claim_queue(pqs1, base, w)), it.kind) == 1,
{
    lemma_pq_lookup_none_converse(pqs0, w);
    assert forall|a: int, b: int|
        0 <= a < b < pqs1.len() implies (#[trigger] pqs1[a]).world
        != (#[trigger] pqs1[b]).world by {
        assert(pqs1[a].world == pqs0[a].world);
        if b < pqs1.len() - 1 {
            assert(pqs1[b].world == pqs0[b].world);
        }
    }
    lemma_pq_lookup_at(pqs1, w, pqs1.len() - 1);
    assert(kinds_of(base.push(it)) =~= kinds_of(base).push(it.kind));
    lemma_count_kind_zero(kinds_of(base), it.kind);
    lemma_count_kind_push(kinds_of(base), it.kind, it.kind);
}

/// Law: forking preserves the base queue's contents and order. The backlog
/// forked for a world is the base queue at fork time followed by the item
/// that caused the fork, and after a later shared item is appended to both
/// queues, the base queue at fork time is still a prefix of the forked
/// backlog and both queues end with the shared item.
pub proof fn lemma_fork_prefix(base: Seq<Item>, it: Item, sh: Item)
    ensures
        base.push(it).take(base.len() as int) == base,
        base.push(it).push(sh).take(base.len() as int) == base,
        base.push(it).push(sh).last() == sh,
        base.push(sh).last() == sh,
{
    assert(base.push(it).take(base.len() as int) =~= base);
    assert(base.push(it).push(sh).take(base.len() as int) =~= base);
}

/// Whether any client other than the one at index `k` holds `world`.
fn world_taken_by_other(v: &Vec<ClientEntry>, world: u8, k: usize) -> (t: bool)
    requires
        k < v@.len(),
    ensures
        t == other_holds(v@, k as int, world),
{
    let mut i: usize = 0;
    let mut taken = false;
    while i < v.len()
        invariant
            i <= v@.len(),
            taken ==> exists|j: int|
                0 <= j < v@.len() && j != k as int && (#[trigger] v@[j]).player is Some
                    && v@[j].player->0.world == world,
            !taken ==> forall|j: int|
                0 <= j < i && j != k as int ==> !((#[trigger] v@[j]).player is Some
                    && v@[j].player->0.world == world),
        decreases v@.len() - i,
    {
        if i != k {
            let entry = v[i];
            match entry.player {
                Some(p) => {
                    if p.world == world {
                        taken = true;
                    }
                },
                None => {},
            }
        }
        i += 1;
    }
    taken
}

} // verus!
