use lockstep_net::commands::{
    ChatMessage, ChatTarget, Command, DecodeError, DisconnectReason, ErrorMessage, GameSyncMessage,
    NetworkCommand, NetworkMessage, PlayerJoinMessage, PlayerLeaveMessage,
};

fn cmd(bytes: &[u8]) -> Command {
    Command { data: bytes.to_vec() }
}

fn samples() -> Vec<NetworkMessage> {
    vec![
        NetworkMessage::Commands(NetworkCommand {
            tick: 42,
            player_id: 3,
            commands: vec![cmd(&[1, 2, 3]), cmd(&[]), cmd(&[255])],
        }),
        NetworkMessage::Hello(PlayerJoinMessage {
            player_id: 255,
            player_name: "Zoë 東京".to_string(),
            is_observer: true,
        }),
        NetworkMessage::Welcome { assigned_id: 7 },
        NetworkMessage::Leave(PlayerLeaveMessage { player_id: 2, reason: DisconnectReason::Timeout }),
        NetworkMessage::Start { seed: u64::MAX, start_tick: 100 },
        NetworkMessage::Sync { current_tick: 12345 },
        NetworkMessage::GameSync(GameSyncMessage {
            tick: 9,
            checksums: vec![(0, 0xdead_beef), (1, 7)],
            unit_counts: vec![(0, 12)],
        }),
        NetworkMessage::Ping(1_700_000_000_000),
        NetworkMessage::Pong(0),
        NetworkMessage::Chat(ChatMessage {
            player_id: 1,
            message: "gg".to_string(),
            target: ChatTarget::Player(4),
        }),
        NetworkMessage::Error(ErrorMessage { code: 404, message: String::new() }),
    ]
}

#[test]
fn every_variant_round_trips() {
    for m in samples() {
        let bytes = m.encode();
        let back = NetworkMessage::decode(&bytes).expect("valid encoding");
        assert_eq!(format!("{:?}", back), format!("{:?}", m));
        assert_eq!(back.encode(), bytes);
    }
}

#[test]
fn ping_has_exact_encoding() {
    let bytes = NetworkMessage::Ping(0x0102).encode();
    assert_eq!(bytes, vec![7, 0x02, 0x01, 0, 0, 0, 0, 0, 0]);
}

#[test]
fn command_batch_has_exact_encoding() {
    let m = NetworkMessage::Commands(NetworkCommand { tick: 2, player_id: 1, commands: vec![cmd(&[9])] });
    let expected: Vec<u8> = vec![
        0, // tag
        2, 0, 0, 0, 0, 0, 0, 0, // tick
        1, // player
        1, 0, 0, 0, 0, 0, 0, 0, // one command
        1, 0, 0, 0, 0, 0, 0, 0, // of one byte
        9,
    ];
    assert_eq!(m.encode(), expected);
}

#[test]
fn text_is_sent_as_utf8() {
    let m = NetworkMessage::Error(ErrorMessage { code: 1, message: "é".to_string() });
    assert_eq!(m.encode(), vec![10, 1, 0, 0, 0, 2, 0, 0, 0, 0, 0, 0, 0, 0xc3, 0xa9]);
}

#[test]
fn invalid_utf8_is_a_decode_error() {
    let bytes = vec![10, 1, 0, 0, 0, 2, 0, 0, 0, 0, 0, 0, 0, 0xc3, 0x28];
    assert_eq!(NetworkMessage::decode(&bytes).unwrap_err(), DecodeError);
}

#[test]
fn unknown_tag_is_a_decode_error() {
    assert!(NetworkMessage::decode(&[11, 0, 0]).is_err());
    assert!(NetworkMessage::decode(&[]).is_err());
}

#[test]
fn truncated_packet_is_a_decode_error() {
    for m in samples() {
        let bytes = m.encode();
        for cut in 0..bytes.len() {
            assert!(NetworkMessage::decode(&bytes[..cut]).is_err(), "prefix of {} bytes", cut);
        }
    }
}

#[test]
fn trailing_bytes_are_a_decode_error() {
    let mut bytes = NetworkMessage::Pong(5).encode();
    bytes.push(0);
    assert!(NetworkMessage::decode(&bytes).is_err());
}

#[test]
fn bad_enum_bytes_are_decode_errors() {
    // a leave with an unknown reason, a bool that is neither 0 nor 1
    assert!(NetworkMessage::decode(&[3, 1, 4]).is_err());
    let mut hello = NetworkMessage::Hello(PlayerJoinMessage {
        player_id: 1,
        player_name: "a".to_string(),
        is_observer: false,
    })
    .encode();
    let last = hello.len() - 1;
    hello[last] = 2;
    assert!(NetworkMessage::decode(&hello).is_err());
}

#[test]
fn huge_length_prefix_is_a_decode_error() {
    let bytes = vec![1, 0, 0xff, 0xff, 0xff, 0xff, 0xff, 0xff, 0xff, 0xff];
    assert!(NetworkMessage::decode(&bytes).is_err());
}
