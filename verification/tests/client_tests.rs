use multiworld::client::{
    message_effect_type, message_player_id, message_player_name, room_connect_reply, LobbyClient,
    RoomClient,
};
use multiworld::handshake::ClientError;
use multiworld::proto::{LobbyClientMessage, RoomClientMessage, ServerMessage};
use multiworld::{Player, DEFAULT_NAME};

#[test]
fn claims_insert_in_world_order() {
    let mut rc = RoomClient::new(Vec::new(), 3);
    rc.apply_message(ServerMessage::PlayerId(4));
    rc.apply_message(ServerMessage::PlayerId(1));
    rc.apply_message(ServerMessage::PlayerId(3));
    let worlds: Vec<u8> = rc.players.iter().map(|p| p.world).collect();
    assert_eq!(worlds, vec![1, 3, 4]);
    assert_eq!(rc.num_unassigned_clients, 0);
    // A repeated claim announcement changes nothing.
    rc.apply_message(ServerMessage::PlayerId(3));
    assert_eq!(rc.players.len(), 3);
    assert_eq!(rc.num_unassigned_clients, 0);
}

#[test]
fn releases_and_disconnects_remove_players() {
    let players = vec![
        Player { world: 1, name: DEFAULT_NAME },
        Player { world: 2, name: DEFAULT_NAME },
        Player { world: 5, name: DEFAULT_NAME },
    ];
    let mut rc = RoomClient::new(players, 0);
    rc.apply_message(ServerMessage::ResetPlayerId(2));
    let worlds: Vec<u8> = rc.players.iter().map(|p| p.world).collect();
    assert_eq!(worlds, vec![1, 5]);
    assert_eq!(rc.num_unassigned_clients, 1);
    rc.apply_message(ServerMessage::PlayerDisconnected(5));
    let worlds: Vec<u8> = rc.players.iter().map(|p| p.world).collect();
    assert_eq!(worlds, vec![1]);
    assert_eq!(rc.num_unassigned_clients, 1);
}

#[test]
fn connected_and_unregistered_counts() {
    let mut rc = RoomClient::new(Vec::new(), 0);
    rc.apply_message(ServerMessage::ClientConnected);
    rc.apply_message(ServerMessage::ClientConnected);
    assert_eq!(rc.num_unassigned_clients, 2);
    rc.apply_message(ServerMessage::UnregisteredClientDisconnected);
    assert_eq!(rc.num_unassigned_clients, 1);
}

#[test]
fn name_broadcast_updates_the_listed_player() {
    let players = vec![Player { world: 2, name: DEFAULT_NAME }];
    let mut rc = RoomClient::new(players, 0);
    rc.apply_message(ServerMessage::PlayerName(2, *b"ZELDA\xdf\xdf\xdf"));
    assert_eq!(rc.players[0].name, *b"ZELDA\xdf\xdf\xdf");
    assert_eq!(rc.get_player_name(2), *b"ZELDA\xdf\xdf\xdf");
    // An unlisted world reads as the default name.
    assert_eq!(rc.get_player_name(9), DEFAULT_NAME);
}

#[test]
fn item_queue_resync_and_live_items() {
    let mut rc = RoomClient::new(Vec::new(), 0);
    rc.apply_message(ServerMessage::ItemQueue(vec![99]));
    rc.apply_message(ServerMessage::GetItem(0xca));
    assert_eq!(rc.item_queue, vec![99, 0xca]);
    assert_eq!(rc.item_queue_len(), 2);
    assert_eq!(rc.item_kind_at_index(0), 99);
    assert_eq!(rc.item_kind_at_index(1), 0xca);
}

#[test]
fn enter_room_replaces_the_snapshot() {
    let mut rc = RoomClient::new(Vec::new(), 0);
    rc.apply_message(ServerMessage::EnterRoom {
        players: vec![Player { world: 7, name: DEFAULT_NAME }],
        num_unassigned_clients: 4,
    });
    assert_eq!(rc.players.len(), 1);
    assert_eq!(rc.players[0].world, 7);
    assert_eq!(rc.num_unassigned_clients, 4);
}

#[test]
fn local_claim_sends_once_and_repeats_name() {
    let mut rc = RoomClient::new(Vec::new(), 0);
    let msgs = rc.set_player_id(3);
    assert_eq!(msgs, vec![RoomClientMessage::PlayerId(3)]);
    // Claiming the same world again sends nothing.
    let msgs = rc.set_player_id(3);
    assert!(msgs.is_empty());
    // With a cached non-default name, a new claim repeats the name.
    rc.set_player_name(*b"LINK\xdf\xdf\xdf\xdf");
    let msgs = rc.set_player_id(5);
    assert_eq!(
        msgs,
        vec![
            RoomClientMessage::PlayerId(5),
            RoomClientMessage::PlayerName(*b"LINK\xdf\xdf\xdf\xdf"),
        ]
    );
}

#[test]
fn local_release_sends_only_when_claimed() {
    let mut rc = RoomClient::new(Vec::new(), 0);
    assert!(rc.reset_player_id().is_empty());
    rc.set_player_id(2);
    assert_eq!(rc.reset_player_id(), vec![RoomClientMessage::ResetPlayerId]);
    assert!(rc.reset_player_id().is_empty());
}

#[test]
fn local_name_is_cached_until_a_world_is_claimed() {
    let mut rc = RoomClient::new(Vec::new(), 0);
    // No world yet: the name is cached, nothing is sent.
    let msgs = rc.set_player_name(*b"MIDO\xdf\xdf\xdf\xdf");
    assert!(msgs.is_empty());
    // Setting the identical name again sends nothing either.
    let msgs = rc.set_player_name(*b"MIDO\xdf\xdf\xdf\xdf");
    assert!(msgs.is_empty());
    rc.set_player_id(1);
    // With a world claimed, a new name goes out.
    let msgs = rc.set_player_name(*b"SARIA\xdf\xdf\xdf");
    assert_eq!(msgs, vec![RoomClientMessage::PlayerName(*b"SARIA\xdf\xdf\xdf")]);
}

#[test]
fn send_item_builds_the_wire_message() {
    let rc = RoomClient::new(Vec::new(), 0);
    assert_eq!(
        rc.send_item(7, 99, 3),
        RoomClientMessage::SendItem { key: 7, kind: 99, target_world: 3 }
    );
}

#[test]
fn join_or_create_follows_the_room_list() {
    let lc = LobbyClient { rooms: vec!["alpha".to_owned(), "beta".to_owned()] };
    assert_eq!(lc.num_rooms(), 2);
    assert!(lc.has_room(&"beta".to_owned()));
    assert!(!lc.has_room(&"gamma".to_owned()));
    match lc.room_connect_request("beta".to_owned(), "pw".to_owned()) {
        LobbyClientMessage::JoinRoom { name, password } => {
            assert_eq!(name, "beta");
            assert_eq!(password, "pw");
        },
        other => panic!("expected a join, got {other:?}"),
    }
    match lc.room_connect_request("gamma".to_owned(), "pw".to_owned()) {
        LobbyClientMessage::CreateRoom { name, .. } => assert_eq!(name, "gamma"),
        other => panic!("expected a create, got {other:?}"),
    }
}

#[test]
fn join_reply_classification() {
    let ok = room_connect_reply(ServerMessage::EnterRoom {
        players: Vec::new(),
        num_unassigned_clients: 1,
    });
    assert_eq!(ok, Ok((Vec::new(), 1)));
    let auth = room_connect_reply(ServerMessage::Error("wrong password".to_owned()));
    assert_eq!(auth, Err(ClientError::Auth("wrong password".to_owned())));
    let bad = room_connect_reply(ServerMessage::GetItem(1));
    assert_eq!(bad, Err(ClientError::ProtocolViolation));
}

#[test]
fn message_accessors() {
    assert_eq!(message_effect_type(&ServerMessage::GetItem(1)), 0);
    assert_eq!(
        message_effect_type(&ServerMessage::PlayerName(2, DEFAULT_NAME)),
        1
    );
    assert_eq!(message_player_id(&ServerMessage::PlayerId(4)), 4);
    assert_eq!(message_player_id(&ServerMessage::ResetPlayerId(5)), 5);
    assert_eq!(message_player_id(&ServerMessage::PlayerDisconnected(6)), 6);
    assert_eq!(
        message_player_name(&ServerMessage::PlayerName(2, *b"IMPA\xdf\xdf\xdf\xdf")),
        *b"IMPA\xdf\xdf\xdf\xdf"
    );
}
