use multiworld::codec::{
    decode_lobby_client_message, decode_room_client_message, decode_server_message,
    encode_lobby_client_message, encode_room_client_message, encode_server_message, put_u16,
    put_u32, put_u64, put_u8, read_string, read_u16, read_u32, read_u64, DecodeError,
};
use multiworld::proto::{LobbyClientMessage, RoomClientMessage, ServerMessage};
use multiworld::Player;
use async_proto::Protocol;

#[test]
fn server_message_round_trips() {
    let msgs = vec![
        ServerMessage::Error("boom".to_owned()),
        ServerMessage::EnterRoom {
            players: vec![
                Player { world: 1, name: [0xdf; 8] },
                Player { world: 4, name: *b"LINK\xdf\xdf\xdf\xdf" },
            ],
            num_unassigned_clients: 2,
        },
        ServerMessage::PlayerId(3),
        ServerMessage::ResetPlayerId(7),
        ServerMessage::ClientConnected,
        ServerMessage::PlayerDisconnected(1),
        ServerMessage::UnregisteredClientDisconnected,
        ServerMessage::PlayerName(2, *b"ZELDA\xdf\xdf\xdf"),
        ServerMessage::ItemQueue(vec![0xca, 99, 7]),
        ServerMessage::GetItem(0xca),
    ];
    for msg in msgs {
        let bytes = encode_server_message(&msg);
        let (decoded, used) = decode_server_message(&bytes, 0).expect("round trip");
        assert_eq!(decoded, msg);
        assert_eq!(used, bytes.len());
    }
}

#[test]
fn room_client_message_round_trips() {
    let msgs = vec![
        RoomClientMessage::PlayerId(5),
        RoomClientMessage::ResetPlayerId,
        RoomClientMessage::PlayerName([0xdf; 8]),
        RoomClientMessage::SendItem { key: 0xdead_beef, kind: 0xca, target_world: 2 },
    ];
    for msg in msgs {
        let bytes = encode_room_client_message(&msg);
        let (decoded, used) = decode_room_client_message(&bytes, 0).expect("round trip");
        assert_eq!(decoded, msg);
        assert_eq!(used, bytes.len());
    }
}

#[test]
fn lobby_client_message_round_trips() {
    let msgs = vec![
        LobbyClientMessage::JoinRoom { name: "mido".to_owned(), password: "swordless".to_owned() },
        LobbyClientMessage::CreateRoom { name: "saría".to_owned(), password: String::new() },
        LobbyClientMessage::Encrypt,
    ];
    for msg in msgs {
        let bytes = encode_lobby_client_message(&msg);
        let (decoded, used) = decode_lobby_client_message(&bytes, 0).expect("round trip");
        assert_eq!(decoded, msg);
        assert_eq!(used, bytes.len());
    }
}

#[test]
fn decode_starts_at_offset() {
    let msg = ServerMessage::GetItem(0xca);
    let mut bytes = vec![0xff, 0xff];
    bytes.extend_from_slice(&encode_server_message(&msg));
    bytes.push(0xaa);
    let (decoded, used) = decode_server_message(&bytes, 2).expect("embedded decode");
    assert_eq!(decoded, msg);
    assert_eq!(used, 2 + 3);
}

#[test]
fn truncated_input_is_distinguished() {
    let bytes = encode_server_message(&ServerMessage::ItemQueue(vec![1, 2, 3]));
    for cut in 0..bytes.len() {
        let prefix: Vec<u8> = bytes[..cut].to_vec();
        assert_eq!(decode_server_message(&prefix, 0), Err(DecodeError::Truncated));
    }
}

#[test]
fn unknown_tag_is_malformed() {
    assert_eq!(decode_server_message(&vec![10], 0), Err(DecodeError::Malformed));
    assert_eq!(decode_room_client_message(&vec![4], 0), Err(DecodeError::Malformed));
    assert_eq!(decode_lobby_client_message(&vec![3], 0), Err(DecodeError::Malformed));
}

#[test]
fn world_zero_is_malformed() {
    // PlayerId(0) is never valid on the wire.
    assert_eq!(decode_server_message(&vec![2, 0], 0), Err(DecodeError::Malformed));
    assert_eq!(decode_room_client_message(&vec![0, 0], 0), Err(DecodeError::Malformed));
}

#[test]
fn invalid_utf8_is_malformed() {
    // Error message with a one-byte payload that is not valid UTF-8.
    let bytes = vec![0, 0, 0, 0, 0, 0, 0, 0, 1, 0xff];
    assert_eq!(decode_server_message(&bytes, 0), Err(DecodeError::Malformed));
}

#[test]
fn non_ascii_text_survives() {
    // Would fail if the string decoder handed raw bytes through unchecked.
    let msg = ServerMessage::Error("héllo wörld".to_owned());
    let bytes = encode_server_message(&msg);
    let (decoded, _) = decode_server_message(&bytes, 0).expect("utf8 round trip");
    match decoded {
        ServerMessage::Error(text) => assert_eq!(text, "héllo wörld"),
        other => panic!("unexpected message {other:?}"),
    }
}

#[test]
fn integers_travel_big_endian() {
    let mut out = Vec::new();
    put_u8(&mut out, 0x12);
    put_u16(&mut out, 0x1234);
    put_u32(&mut out, 0x1234_5678);
    put_u64(&mut out, 0x0102_0304_0506_0708);
    assert_eq!(
        out,
        vec![
            0x12, 0x12, 0x34, 0x12, 0x34, 0x56, 0x78, 0x01, 0x02, 0x03, 0x04, 0x05, 0x06, 0x07,
            0x08
        ]
    );
    assert_eq!(read_u16(&out, 1), Ok((0x1234, 3)));
    assert_eq!(read_u32(&out, 3), Ok((0x1234_5678, 7)));
    assert_eq!(read_u64(&out, 7), Ok((0x0102_0304_0506_0708, 15)));
}

#[test]
fn format_matches_reference_primitives() {
    // u16, u32, u64 travel exactly as async-proto writes them.
    let mut mine = Vec::new();
    put_u16(&mut mine, 0xbeef);
    let mut theirs = Vec::new();
    0xbeefu16.write_sync(&mut theirs).unwrap();
    assert_eq!(mine, theirs);

    let mut mine = Vec::new();
    put_u64(&mut mine, 0x1122_3344_5566_7788);
    let mut theirs = Vec::new();
    0x1122_3344_5566_7788u64.write_sync(&mut theirs).unwrap();
    assert_eq!(mine, theirs);

    // Strings carry a u64 byte-length prefix and UTF-8, like async-proto.
    let s = "hénlo".to_owned();
    let mut theirs = Vec::new();
    s.write_sync(&mut theirs).unwrap();
    let mut mine = Vec::new();
    multiworld::codec::put_str(&mut mine, &s);
    assert_eq!(mine, theirs);

    // A nonzero world byte travels as its value.
    let w = std::num::NonZeroU8::new(7).unwrap();
    let mut theirs = Vec::new();
    w.write_sync(&mut theirs).unwrap();
    assert_eq!(theirs, vec![7]);

    // A kind list is a u64 count plus big-endian entries.
    let kinds: Vec<u16> = vec![0xca, 99];
    let mut theirs = Vec::new();
    kinds.write_sync(&mut theirs).unwrap();
    let bytes = encode_server_message(&ServerMessage::ItemQueue(kinds));
    assert_eq!(&bytes[1..], &theirs[..]);
}

#[test]
fn string_reader_reports_consumed_bytes() {
    let mut buf = Vec::new();
    multiworld::codec::put_str(&mut buf, "ab");
    buf.push(0x55);
    let (s, used) = read_string(&buf, 0).expect("string decode");
    assert_eq!(s, "ab");
    assert_eq!(used, 10);
}
