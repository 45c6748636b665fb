use multiworld::codec::DecodeError;
use multiworld::handshake::{
    check_version, decode_room_list, encode_room_list, wants_encryption, ClientError, Host,
};
use multiworld::plugin;
use multiworld::VERSION;
use multiworld::handle::{DebugError, FfiBool, HandleOwned};

#[test]
fn version_mismatch_is_terminal() {
    // The server reports version 1; a peer speaking version 2 is refused
    // before any room message, and the failure names the peer's version.
    assert_eq!(VERSION, 1);
    assert_eq!(check_version(1, 2), Err(ClientError::VersionMismatch(2)));
    assert_eq!(check_version(VERSION, VERSION), Ok(()));
    assert_eq!(check_version(1, 0), Err(ClientError::VersionMismatch(0)));
}

#[test]
fn only_default_endpoints_encrypt() {
    assert!(wants_encryption(&Host::DefaultIpv4));
    assert!(wants_encryption(&Host::DefaultIpv6));
    assert!(!wants_encryption(&Host::Custom));
}

#[test]
fn room_list_round_trips() {
    let names = vec!["alpha".to_owned(), "béta".to_owned(), String::new()];
    let bytes = encode_room_list(&names);
    let (decoded, used) = decode_room_list(&bytes, 0).expect("room list");
    assert_eq!(decoded, names);
    assert_eq!(used, bytes.len());
}

#[test]
fn empty_room_list_round_trips() {
    let names: Vec<String> = Vec::new();
    let bytes = encode_room_list(&names);
    assert_eq!(bytes, vec![0; 8]);
    let (decoded, used) = decode_room_list(&bytes, 0).expect("empty room list");
    assert!(decoded.is_empty());
    assert_eq!(used, 8);
}

#[test]
fn truncated_room_list_is_rejected() {
    let names = vec!["alpha".to_owned()];
    let bytes = encode_room_list(&names);
    let prefix: Vec<u8> = bytes[..bytes.len() - 1].to_vec();
    assert_eq!(decode_room_list(&prefix, 0), Err(DecodeError::Truncated));
}

#[test]
fn plugin_messages_round_trip() {
    let outbound = vec![
        plugin::ServerMessage::ItemQueue(vec![99, 0xca]),
        plugin::ServerMessage::GetItem(7),
        plugin::ServerMessage::PlayerName(2, [0xdf; 8]),
    ];
    for msg in outbound {
        let bytes = plugin::encode_plugin_server_message(&msg);
        let (decoded, used) = plugin::decode_plugin_server_message(&bytes, 0).expect("round trip");
        assert_eq!(decoded, msg);
        assert_eq!(used, bytes.len());
    }
    let inbound = vec![
        plugin::ClientMessage::PlayerId(1),
        plugin::ClientMessage::PlayerName(*b"LINK\xdf\xdf\xdf\xdf"),
        plugin::ClientMessage::SendItem { key: 5, kind: 0xca, target_world: 2 },
    ];
    for msg in inbound {
        let bytes = plugin::encode_plugin_client_message(&msg);
        let (decoded, used) = plugin::decode_plugin_client_message(&bytes, 0).expect("round trip");
        assert_eq!(decoded, msg);
        assert_eq!(used, bytes.len());
    }
}

#[test]
fn plugin_version_gate() {
    let v = plugin::MW_PJ64_PROTO_VERSION;
    assert_eq!(check_version(v, v), Ok(()));
    assert_eq!(
        check_version(v, v.wrapping_add(1)),
        Err(ClientError::VersionMismatch(v.wrapping_add(1)))
    );
}

#[test]
fn handles_carry_values() {
    assert!(FfiBool::from_bool(true).to_bool());
    assert!(!FfiBool::from_bool(false).to_bool());
    let h = HandleOwned::new(41u32);
    assert_eq!(*h.into_inner(), 41);
    let e = DebugError::new("broken".to_owned());
    assert_eq!(e.message(), "broken");
}
