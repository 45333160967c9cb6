use lockstep_net::commands::{
    ChatMessage, ChatTarget, Command, DisconnectReason, NetworkCommand, NetworkMessage, PlayerJoinMessage,
    PlayerLeaveMessage,
};
use lockstep_net::lockstep::{LockstepNetwork, PeerAddr, SessionState};
use lockstep_net::session::ProtocolError;

const HOST: PeerAddr = PeerAddr { ip: 1, port: 1000 };
const B: PeerAddr = PeerAddr { ip: 2, port: 2000 };
const C: PeerAddr = PeerAddr { ip: 3, port: 3000 };

fn hello(name: &str) -> NetworkMessage {
    NetworkMessage::Hello(PlayerJoinMessage { player_id: 255, player_name: name.to_string(), is_observer: false })
}

fn commands(tick: u64, player: u8, x: u8) -> NetworkMessage {
    NetworkMessage::Commands(NetworkCommand { tick, player_id: player, commands: vec![Command { data: vec![x] }] })
}

fn welcome_id(sends: &[(PeerAddr, NetworkMessage)]) -> (PeerAddr, u8) {
    assert_eq!(sends.len(), 1);
    match &sends[0] {
        (to, NetworkMessage::Welcome { assigned_id }) => (*to, *assigned_id),
        other => panic!("expected a welcome, got {:?}", other),
    }
}

fn hosting() -> LockstepNetwork {
    let mut host = LockstepNetwork::new();
    host.host_game(HOST, "host".to_string()).unwrap();
    host
}

#[test]
fn host_assigns_ids_from_one() {
    let mut host = hosting();
    assert!(host.is_host() && host.is_active());
    assert_eq!(host.get_local_player_id(), Some(0));
    assert_eq!(welcome_id(&host.handle_message(B, hello("b"), 0).unwrap()), (B, 1));
    assert_eq!(welcome_id(&host.handle_message(C, hello("c"), 0).unwrap()), (C, 2));
    // every hello gets the next unused id and a record of its own
    assert_eq!(welcome_id(&host.handle_message(B, hello("b"), 0).unwrap()), (B, 3));
    assert_eq!(host.get_player_count(), 4);
    assert_eq!(LockstepNetwork::new().get_player_count(), 0);
}

#[test]
fn host_relays_accepted_commands_to_the_others_only() {
    let mut host = hosting();
    host.handle_message(B, hello("b"), 0).unwrap();
    host.handle_message(C, hello("c"), 0).unwrap();
    let sends = host.handle_message(B, commands(3, 1, 7), 0).unwrap();
    assert_eq!(sends.len(), 1);
    assert_eq!(sends[0].0, C);
    assert!(matches!(&sends[0].1, NetworkMessage::Commands(b) if b.tick == 3 && b.player_id == 1));
    // the duplicate is accepted silently and not relayed again
    assert!(host.handle_message(B, commands(3, 1, 7), 0).unwrap().is_empty());
}

#[test]
fn host_relays_chat() {
    let mut host = hosting();
    host.handle_message(B, hello("b"), 0).unwrap();
    host.handle_message(C, hello("c"), 0).unwrap();
    let chat = NetworkMessage::Chat(ChatMessage { player_id: 2, message: "hi".to_string(), target: ChatTarget::All });
    let sends = host.handle_message(C, chat, 0).unwrap();
    assert_eq!(sends.iter().map(|s| s.0).collect::<Vec<_>>(), vec![B]);
}

#[test]
fn client_handshake() {
    let mut client = LockstepNetwork::new();
    let (to, msg) = client.join_game(HOST, "bob".to_string()).unwrap();
    assert_eq!(to, HOST);
    assert!(matches!(&msg, NetworkMessage::Hello(h) if h.player_name == "bob" && h.player_id == 255));
    assert_eq!(client.state(), SessionState::Joining);
    // commands before the welcome are refused
    assert_eq!(client.handle_message(HOST, commands(0, 0, 1), 0).unwrap_err(), ProtocolError::Unexpected);
    client.handle_message(HOST, NetworkMessage::Welcome { assigned_id: 4 }, 0).unwrap();
    assert_eq!(client.state(), SessionState::Connected);
    assert_eq!(client.get_local_player_id(), Some(4));
    // a client sends only to the host
    let out = client.outbound(&NetworkMessage::Ping(1)).unwrap();
    assert_eq!(out.iter().map(|s| s.0).collect::<Vec<_>>(), vec![HOST]);
    // and takes relayed batches from it
    assert!(client.handle_message(HOST, commands(2, 0, 1), 0).unwrap().is_empty());
}

#[test]
fn start_and_sync_move_a_client_forward_only() {
    let mut client = LockstepNetwork::new();
    client.join_game(HOST, "bob".to_string()).unwrap();
    client.handle_message(HOST, NetworkMessage::Welcome { assigned_id: 1 }, 0).unwrap();
    client.handle_message(HOST, NetworkMessage::Start { seed: 9, start_tick: 20 }, 0).unwrap();
    assert_eq!(client.current_tick(), 20);
    client.handle_message(HOST, NetworkMessage::Sync { current_tick: 10 }, 0).unwrap();
    assert_eq!(client.current_tick(), 20);
    client.handle_message(HOST, NetworkMessage::Sync { current_tick: 25 }, 0).unwrap();
    assert_eq!(client.current_tick(), 25);
}

#[test]
fn host_refuses_client_only_messages() {
    let mut host = hosting();
    assert_eq!(host.handle_message(B, NetworkMessage::Welcome { assigned_id: 1 }, 0).unwrap_err(), ProtocolError::Unexpected);
    assert_eq!(host.handle_message(B, NetworkMessage::Sync { current_tick: 9 }, 0).unwrap_err(), ProtocolError::Unexpected);
    assert_eq!(host.handle_message(B, commands(0, 5, 1), 0).unwrap_err(), ProtocolError::UnknownPeer);
}

#[test]
fn idle_and_repeated_roles_are_refused() {
    let mut net = LockstepNetwork::new();
    assert_eq!(net.handle_message(B, NetworkMessage::Ping(1), 0).unwrap_err(), ProtocolError::Unexpected);
    net.host_game(HOST, "h".to_string()).unwrap();
    assert_eq!(net.host_game(HOST, "h".to_string()).unwrap_err(), ProtocolError::Unexpected);
    assert!(net.join_game(HOST, "h".to_string()).is_err());
}

#[test]
fn session_full_after_255_players() {
    let mut host = hosting();
    for i in 1..=255u128 {
        host.handle_message(PeerAddr { ip: 100 + i, port: 1 }, hello("p"), 0).unwrap();
    }
    assert_eq!(
        host.handle_message(PeerAddr { ip: 9999, port: 1 }, hello("late"), 0).unwrap_err(),
        ProtocolError::SessionFull
    );
}

#[test]
fn ping_is_answered_and_pong_measured() {
    let mut host = hosting();
    host.handle_message(B, hello("b"), 0).unwrap();
    let sends = host.handle_message(B, NetworkMessage::Ping(77), 1000).unwrap();
    assert!(matches!(sends.as_slice(), [(to, NetworkMessage::Pong(77))] if *to == B));
    assert!(host.handle_message(B, NetworkMessage::Pong(900), 1000).unwrap().is_empty());
}

#[test]
fn start_game_tells_everyone() {
    let mut host = hosting();
    host.handle_message(B, hello("b"), 0).unwrap();
    host.handle_message(C, hello("c"), 0).unwrap();
    let sends = host.start_game(42).unwrap();
    assert_eq!(sends.iter().map(|s| s.0).collect::<Vec<_>>(), vec![B, C]);
    assert!(sends.iter().all(|s| matches!(s.1, NetworkMessage::Start { seed: 42, start_tick: 0 })));
    assert_eq!(host.state(), SessionState::Connected);
    assert!(host.start_game(42).is_err());
}

#[test]
fn close_says_goodbye_once() {
    let mut host = hosting();
    host.handle_message(B, hello("b"), 0).unwrap();
    let notices = host.close();
    assert_eq!(notices.len(), 1);
    assert_eq!(notices[0].0, B);
    assert!(matches!(&notices[0].1, NetworkMessage::Leave(PlayerLeaveMessage { player_id: 0, reason: DisconnectReason::Quit })));
    assert!(!host.is_active());
    assert!(!host.is_host());
    assert_eq!(host.get_local_player_id(), None);
    assert_eq!(host.get_player_count(), 0);
    assert_eq!(host.outbound(&NetworkMessage::Ping(1)).unwrap_err(), ProtocolError::NoHost);
    assert!(host.schedule_local(Vec::new(), 0).is_none());
    assert!(host.close().is_empty());
    assert_eq!(host.handle_message(B, NetworkMessage::Ping(1), 0).unwrap_err(), ProtocolError::Unexpected);
}

#[test]
fn corrupt_packet_does_not_block_the_others() {
    let mut host = hosting();
    let packets = vec![
        (B, hello("b").encode()),
        (B, vec![0xff, 1, 2, 3]),
        (B, commands(0, 1, 5).encode()),
        (C, NetworkMessage::Ping(3).encode()),
    ];
    let report = host.process_packets(&packets, 0);
    assert_eq!(report.decode_errors, 1);
    assert_eq!(report.protocol_errors, 0);
    assert_eq!(report.delivered.len(), 3);
    assert_eq!(report.sends.len(), 2); // the welcome and the pong
    assert!(matches!(report.sends[1], (to, NetworkMessage::Pong(3)) if to == C));
    // B's batch was buffered
    host.schedule_local(Vec::new(), 0).unwrap();
    let merged = host.advance().unwrap();
    assert_eq!(merged.iter().map(|p| p.player_id).collect::<Vec<_>>(), vec![0, 1]);
}

#[test]
fn refused_messages_are_counted() {
    let mut host = hosting();
    let packets = vec![(B, NetworkMessage::Welcome { assigned_id: 3 }.encode())];
    let report = host.process_packets(&packets, 0);
    assert_eq!((report.decode_errors, report.protocol_errors, report.delivered.len()), (0, 1, 0));
}

#[test]
fn client_sends_to_the_host_it_joins() {
    let mut client = LockstepNetwork::new();
    assert_eq!(client.outbound(&NetworkMessage::Ping(1)).unwrap_err(), ProtocolError::NoHost);
    client.join_game(HOST, "bob".to_string()).unwrap();
    let out = client.outbound(&NetworkMessage::Ping(2)).unwrap();
    assert_eq!(out.len(), 1);
    assert!(matches!(out[0], (to, NetworkMessage::Ping(2)) if to == HOST));
}

#[test]
fn host_sends_to_every_other_player() {
    let mut host = hosting();
    assert!(host.outbound(&NetworkMessage::Ping(1)).unwrap().is_empty());
    host.handle_message(B, hello("b"), 0).unwrap();
    host.handle_message(C, hello("c"), 0).unwrap();
    let out = host.outbound(&NetworkMessage::Ping(1)).unwrap();
    assert_eq!(out.iter().map(|s| s.0).collect::<Vec<_>>(), vec![B, C]);
}

#[test]
fn roster_lists_players_by_assigned_id() {
    let mut host = hosting();
    host.handle_message(B, hello("bee"), 0).unwrap();
    host.handle_message(C, hello("sea"), 0).unwrap();
    let roster = host.roster();
    let summary: Vec<(u8, String, bool)> = roster.iter().map(|p| (p.id, p.name.clone(), p.is_human)).collect();
    assert_eq!(
        summary,
        vec![(0, "host".to_string(), true), (1, "bee".to_string(), true), (2, "sea".to_string(), true)]
    );
    assert_eq!(roster[1].race, "Default");
    assert_eq!((roster[1].color.r, roster[1].color.g, roster[1].color.b), (255, 0, 0));
}

fn sync(tick: u64, player: u8, checksum: u32) -> NetworkMessage {
    NetworkMessage::GameSync(lockstep_net::commands::GameSyncMessage {
        tick,
        checksums: vec![(player, checksum)],
        unit_counts: vec![],
    })
}

#[test]
fn session_reports_a_checksum_mismatch_once() {
    let mut host = hosting();
    host.handle_message(B, hello("b"), 0).unwrap();
    host.handle_message(C, hello("c"), 0).unwrap();
    host.record_local_checksum(10, 0xaaaa);
    assert!(host.handle_message(B, sync(10, 1, 0xbbbb), 0).unwrap().is_empty());
    assert!(host.handle_message(C, sync(10, 2, 0xcccc), 0).is_ok());
    assert!(host.is_active());
    let events = host.take_desync_events();
    assert_eq!(events, vec![lockstep_net::desync::DesyncEvent { tick: 10, peer_a: 0, peer_b: 1 }]);
    assert!(host.take_desync_events().is_empty());
}

#[test]
fn agreeing_checksums_raise_nothing() {
    let mut host = hosting();
    host.handle_message(B, hello("b"), 0).unwrap();
    host.record_local_checksum(20, 7);
    host.handle_message(B, sync(20, 1, 7), 0).unwrap();
    assert!(host.take_desync_events().is_empty());
    host.forget_checksums_before(21);
    host.record_local_checksum(20, 8);
    host.handle_message(B, sync(20, 1, 9), 0).unwrap();
    assert_eq!(host.take_desync_events().len(), 1);
}
