use multiworld::room::{Envelope, Room};
use multiworld::proto::ServerMessage;
use multiworld::TRIFORCE_PIECE;

fn empty_room() -> Room {
    Room {
        password: String::new(),
        clients: Vec::new(),
        base_queue: Vec::new(),
        player_queues: Vec::new(),
        num_unassigned: 0,
    }
}

#[test]
fn connect_notifies_existing_clients_only() {
    let mut room = empty_room();
    let eff = room.add_client(10);
    assert!(eff.is_empty());
    let eff = room.add_client(20);
    assert_eq!(eff, vec![Envelope { to: 10, msg: ServerMessage::ClientConnected }]);
    let eff = room.add_client(30);
    assert_eq!(
        eff,
        vec![
            Envelope { to: 10, msg: ServerMessage::ClientConnected },
            Envelope { to: 20, msg: ServerMessage::ClientConnected },
        ]
    );
    assert_eq!(room.num_unassigned, 3);
}

#[test]
fn claim_broadcasts_and_resyncs() {
    let mut room = empty_room();
    room.add_client(10);
    room.add_client(20);
    let (ok, eff) = room.load_player(10, 1);
    assert!(ok);
    // Empty room: the claim is broadcast to everyone, no resync payload.
    assert_eq!(
        eff,
        vec![
            Envelope { to: 10, msg: ServerMessage::PlayerId(1) },
            Envelope { to: 20, msg: ServerMessage::PlayerId(1) },
        ]
    );
    assert_eq!(room.num_unassigned, 1);
}

#[test]
fn second_claim_of_held_world_is_refused() {
    let mut room = empty_room();
    room.add_client(10);
    room.add_client(20);
    room.load_player(10, 1);
    let (ok, eff) = room.load_player(20, 1);
    assert!(!ok);
    assert!(eff.is_empty());
    // The holder did not change: the first claimant can still release it.
    let eff = room.unload_player(10);
    assert_eq!(
        eff,
        vec![
            Envelope { to: 10, msg: ServerMessage::ResetPlayerId(1) },
            Envelope { to: 20, msg: ServerMessage::ResetPlayerId(1) },
        ]
    );
}

#[test]
fn world_change_releases_previous_world() {
    let mut room = empty_room();
    room.add_client(10);
    room.load_player(10, 1);
    let (ok, eff) = room.load_player(10, 2);
    assert!(ok);
    assert_eq!(
        eff,
        vec![
            Envelope { to: 10, msg: ServerMessage::ResetPlayerId(1) },
            Envelope { to: 10, msg: ServerMessage::PlayerId(2) },
        ]
    );
    // Reclaiming the same world is a silent success.
    let (ok, eff) = room.load_player(10, 2);
    assert!(ok);
    assert!(eff.is_empty());
}

#[test]
fn shared_item_reaches_other_worlds_once() {
    // Client A holds world 1, client B holds world 2.
    let mut room = empty_room();
    room.add_client(10);
    room.add_client(20);
    room.load_player(10, 1);
    room.load_player(20, 2);
    // A reports a shared item.
    let (ok, eff) = room.queue_item(10, 5, TRIFORCE_PIECE, 2);
    assert!(ok);
    // B gets it live; A, the finder, does not.
    assert_eq!(eff, vec![Envelope { to: 20, msg: ServerMessage::GetItem(TRIFORCE_PIECE) }]);
    assert_eq!(room.base_queue.len(), 1);
    // Replaying the identical send changes nothing and notifies nobody.
    let (ok, eff) = room.queue_item(10, 5, TRIFORCE_PIECE, 2);
    assert!(ok);
    assert!(eff.is_empty());
    assert_eq!(room.base_queue.len(), 1);
}

#[test]
fn unassigned_sender_is_rejected() {
    let mut room = empty_room();
    room.add_client(10);
    let (ok, eff) = room.queue_item(10, 5, TRIFORCE_PIECE, 1);
    assert!(!ok);
    assert!(eff.is_empty());
    assert!(room.base_queue.is_empty());
}

#[test]
fn deferred_item_waits_for_claim() {
    // A world-specific item sent to an unclaimed world is not delivered
    // live; the later claimant receives it in the resync.
    let mut room = empty_room();
    room.add_client(10);
    room.add_client(20);
    room.load_player(10, 1);
    let (ok, eff) = room.queue_item(10, 7, 99, 3);
    assert!(ok);
    assert!(eff.is_empty());
    let (ok, eff) = room.load_player(20, 3);
    assert!(ok);
    assert_eq!(
        eff,
        vec![
            Envelope { to: 10, msg: ServerMessage::PlayerId(3) },
            Envelope { to: 20, msg: ServerMessage::PlayerId(3) },
            Envelope { to: 20, msg: ServerMessage::ItemQueue(vec![99]) },
        ]
    );
}

#[test]
fn world_specific_item_delivered_live_to_holder() {
    let mut room = empty_room();
    room.add_client(10);
    room.add_client(20);
    room.load_player(10, 1);
    room.load_player(20, 2);
    let (ok, eff) = room.queue_item(10, 11, 42, 2);
    assert!(ok);
    assert_eq!(eff, vec![Envelope { to: 20, msg: ServerMessage::GetItem(42) }]);
    // A duplicate world-specific send is a silent no-op.
    let (ok, eff) = room.queue_item(10, 11, 42, 2);
    assert!(ok);
    assert!(eff.is_empty());
}

#[test]
fn fork_copies_base_queue_and_tracks_shared_items() {
    let mut room = empty_room();
    room.add_client(10);
    room.load_player(10, 1);
    // Two shared items first.
    room.queue_item(10, 1, TRIFORCE_PIECE, 1);
    room.queue_item(10, 2, TRIFORCE_PIECE, 1);
    // A world-specific item forks world 3's backlog.
    room.queue_item(10, 3, 77, 3);
    let forked = &room.player_queues[0];
    assert_eq!(forked.world, 3);
    let kinds: Vec<u16> = forked.queue.iter().map(|it| it.kind).collect();
    assert_eq!(kinds, vec![TRIFORCE_PIECE, TRIFORCE_PIECE, 77]);
    // A shared item found after the fork lands in the fork as well.
    room.queue_item(10, 4, TRIFORCE_PIECE, 1);
    let kinds: Vec<u16> = room.player_queues[0].queue.iter().map(|it| it.kind).collect();
    assert_eq!(kinds, vec![TRIFORCE_PIECE, TRIFORCE_PIECE, 77, TRIFORCE_PIECE]);
    assert_eq!(room.base_queue.len(), 3);
}

#[test]
fn assigned_disconnect_notifies_everyone_else() {
    let mut room = empty_room();
    room.add_client(10);
    room.add_client(20);
    room.add_client(30);
    room.load_player(10, 1);
    let eff = room.remove_client(10);
    assert_eq!(
        eff,
        vec![
            Envelope { to: 20, msg: ServerMessage::PlayerDisconnected(1) },
            Envelope { to: 30, msg: ServerMessage::PlayerDisconnected(1) },
        ]
    );
    assert!(!room.has_client(10));
}

#[test]
fn unassigned_disconnect_notifies_everyone_else() {
    let mut room = empty_room();
    room.add_client(10);
    room.add_client(20);
    room.add_client(30);
    let eff = room.remove_client(20);
    assert_eq!(
        eff,
        vec![
            Envelope { to: 10, msg: ServerMessage::UnregisteredClientDisconnected },
            Envelope { to: 30, msg: ServerMessage::UnregisteredClientDisconnected },
        ]
    );
    assert_eq!(room.num_unassigned, 2);
}

#[test]
fn removing_unknown_client_is_a_no_op() {
    let mut room = empty_room();
    room.add_client(10);
    let eff = room.remove_client(99);
    assert!(eff.is_empty());
    assert!(room.has_client(10));
}

#[test]
fn name_change_requires_a_world() {
    let mut room = empty_room();
    room.add_client(10);
    room.add_client(20);
    let (ok, eff) = room.set_player_name(10, *b"LINK\xdf\xdf\xdf\xdf");
    assert!(!ok);
    assert!(eff.is_empty());
    room.load_player(10, 1);
    let (ok, eff) = room.set_player_name(10, *b"LINK\xdf\xdf\xdf\xdf");
    assert!(ok);
    assert_eq!(
        eff,
        vec![
            Envelope { to: 10, msg: ServerMessage::PlayerName(1, *b"LINK\xdf\xdf\xdf\xdf") },
            Envelope { to: 20, msg: ServerMessage::PlayerName(1, *b"LINK\xdf\xdf\xdf\xdf") },
        ]
    );
}

#[test]
fn unload_without_world_is_a_no_op() {
    let mut room = empty_room();
    room.add_client(10);
    let eff = room.unload_player(10);
    assert!(eff.is_empty());
    assert_eq!(room.num_unassigned, 1);
}
