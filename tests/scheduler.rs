use lockstep_net::commands::{Command, NetworkCommand, NetworkMessage, PlayerJoinMessage};
use lockstep_net::lockstep::{IngestOutcome, LockstepNetwork, PeerAddr, MAX_TICK_LEAD};
use lockstep_net::replay::PlayerTickCommands;

const HOST: PeerAddr = PeerAddr { ip: 1, port: 1000 };
const B: PeerAddr = PeerAddr { ip: 2, port: 2000 };
const C: PeerAddr = PeerAddr { ip: 3, port: 3000 };

fn cmd(x: u8) -> Command {
    Command { data: vec![x] }
}

fn batch(tick: u64, player: u8, xs: &[u8]) -> NetworkCommand {
    NetworkCommand { tick, player_id: player, commands: xs.iter().map(|x| cmd(*x)).collect() }
}

fn hello(name: &str) -> NetworkMessage {
    NetworkMessage::Hello(PlayerJoinMessage { player_id: 255, player_name: name.to_string(), is_observer: false })
}

/// A host (player 0) that has welcomed the given addresses as players 1, 2, ...
fn host_with(peers: &[PeerAddr]) -> LockstepNetwork {
    let mut net = LockstepNetwork::new();
    net.host_game(HOST, "host".to_string()).unwrap();
    for p in peers {
        net.handle_message(*p, hello("peer"), 0).unwrap();
    }
    net
}

fn flat(merged: &[PlayerTickCommands]) -> Vec<(u8, Vec<Vec<u8>>)> {
    merged.iter().map(|p| (p.player_id, p.commands.iter().map(|c| c.data.clone()).collect())).collect()
}

#[test]
fn slow_peer_stops_the_host_at_the_lead_limit() {
    assert_eq!(MAX_TICK_LEAD, 5);
    let mut a = host_with(&[B]);
    // B sends its batches for ticks 0..=10, then stops.
    for t in 0..=10u64 {
        assert_eq!(a.ingest_remote(batch(t, 1, &[t as u8])), IngestOutcome::Accepted);
    }
    let mut executed = Vec::new();
    for _ in 0..40 {
        a.schedule_local(vec![cmd(0)], 0);
        if let Some(_) = a.advance() {
            executed.push(a.current_tick() - 1);
        }
    }
    assert_eq!(executed, (0..=14).collect::<Vec<u64>>());
    assert_eq!(a.current_tick(), 15);
    assert!(a.waiting_for_players());
    // B resumes.
    assert_eq!(a.ingest_remote(batch(15, 1, &[15])), IngestOutcome::Accepted);
    assert!(!a.waiting_for_players());
    let merged = a.advance().unwrap();
    assert_eq!(flat(&merged), vec![(0, vec![vec![0]]), (1, vec![vec![15]])]);
    assert_eq!(a.current_tick(), 16);
}

#[test]
fn future_batch_kept_and_stale_one_dropped() {
    let mut host = host_with(&[]);
    for _ in 0..38 {
        host.schedule_local(Vec::new(), 0).unwrap();
        host.advance().unwrap();
    }
    assert_eq!(host.current_tick(), 38);
    host.handle_message(B, hello("b"), 0).unwrap();
    let future = NetworkMessage::Commands(batch(40, 1, &[4, 0]));
    let stale = NetworkMessage::Commands(batch(20, 1, &[2, 0]));
    assert!(host.handle_message(B, future, 0).is_ok());
    assert!(host.handle_message(B, stale, 0).is_ok());
    let t38 = host.advance().unwrap();
    let t39 = host.advance().unwrap();
    let t40 = host.advance().unwrap();
    assert!(t38.is_empty() && t39.is_empty());
    assert_eq!(flat(&t40), vec![(1, vec![vec![4], vec![0]])]);
    assert_eq!(host.current_tick(), 41);
}

#[test]
fn stale_batch_is_reported_as_stale() {
    let mut host = host_with(&[B]);
    host.schedule_local(Vec::new(), 0).unwrap();
    host.ingest_remote(batch(0, 1, &[]));
    host.advance().unwrap();
    assert_eq!(host.ingest_remote(batch(0, 1, &[1])), IngestOutcome::Stale);
}

#[test]
fn ingest_is_idempotent() {
    let mut once = host_with(&[B]);
    let mut twice = host_with(&[B]);
    assert_eq!(once.ingest_remote(batch(3, 1, &[7])), IngestOutcome::Accepted);
    assert_eq!(twice.ingest_remote(batch(3, 1, &[7])), IngestOutcome::Accepted);
    assert_eq!(twice.ingest_remote(batch(3, 1, &[7])), IngestOutcome::Duplicate);
    // a later, different batch for the same tick and player changes nothing either
    assert_eq!(twice.ingest_remote(batch(3, 1, &[8])), IngestOutcome::Duplicate);
    for _ in 0..5 {
        assert_eq!(once.advance().map(|m| flat(&m)), twice.advance().map(|m| flat(&m)));
    }
}

#[test]
fn delivery_order_and_duplicates_do_not_change_the_merge() {
    let batches = vec![batch(0, 1, &[10]), batch(0, 2, &[20, 21]), batch(1, 2, &[22]), batch(1, 1, &[11])];
    let mut p = host_with(&[B, C]);
    let mut q = host_with(&[B, C]);
    for b in batches.iter() {
        p.ingest_remote(b.clone());
    }
    for i in [3usize, 1, 1, 0, 2, 3, 0] {
        q.ingest_remote(batches[i].clone());
    }
    for _ in 0..2 {
        p.schedule_local(vec![cmd(1)], 0).unwrap();
        q.schedule_local(vec![cmd(1)], 0).unwrap();
        let (mp, mq) = (p.advance().unwrap(), q.advance().unwrap());
        assert_eq!(flat(&mp), flat(&mq));
    }
}

#[test]
fn merge_is_in_ascending_player_order() {
    let mut host = host_with(&[B, C]);
    host.ingest_remote(batch(0, 2, &[2]));
    host.ingest_remote(batch(0, 1, &[1]));
    host.schedule_local(vec![cmd(0)], 0).unwrap();
    let merged = host.advance().unwrap();
    assert_eq!(flat(&merged), vec![(0, vec![vec![0]]), (1, vec![vec![1]]), (2, vec![vec![2]])]);
}

#[test]
fn unknown_sender_is_rejected() {
    let mut host = host_with(&[]);
    assert_eq!(host.ingest_remote(batch(1, 9, &[1])), IngestOutcome::UnknownPeer);
}

#[test]
fn schedule_local_stamps_lookahead_once_per_tick() {
    let mut host = host_with(&[]);
    let b = host.schedule_local(vec![cmd(5)], 3).unwrap();
    assert_eq!((b.tick, b.player_id), (3, 0));
    assert_eq!(b.commands[0].data, vec![5]);
    assert!(host.schedule_local(vec![cmd(6)], 3).is_none());
    host.advance().unwrap();
    assert_eq!(host.current_tick(), 1);
    assert!(host.schedule_local(vec![cmd(6)], u64::MAX).is_none());
}

#[test]
fn schedule_local_needs_a_local_player() {
    let mut net = LockstepNetwork::new();
    assert!(net.schedule_local(vec![cmd(1)], 0).is_none());
    assert!(net.get_local_player_id().is_none());
}

#[test]
fn lone_session_without_players_advances_with_nothing() {
    let mut net = LockstepNetwork::new();
    assert_eq!(net.advance().map(|m| m.len()), Some(0));
    assert_eq!(net.current_tick(), 1);
}

#[test]
fn optimistic_ticks_skip_missing_players_within_the_lead() {
    let mut host = host_with(&[B]);
    host.schedule_local(vec![cmd(9)], 0).unwrap();
    // B is missing, but lags by 0 ticks
    let merged = host.advance().unwrap();
    assert_eq!(flat(&merged), vec![(0, vec![vec![9]])]);
}

#[test]
fn late_batch_still_raises_its_senders_acknowledged_tick() {
    let mut host = host_with(&[B]);
    for _ in 0..5 {
        host.schedule_local(Vec::new(), 0).unwrap();
        host.advance().unwrap();
    }
    assert_eq!(host.current_tick(), 5);
    host.schedule_local(Vec::new(), 0).unwrap();
    // B acknowledged nothing past tick 0: five ticks behind
    assert!(host.waiting_for_players());
    assert_eq!(host.ingest_remote(batch(3, 1, &[3])), IngestOutcome::Stale);
    // its batch is too late to run, but B is now only two ticks behind
    assert!(!host.waiting_for_players());
    let merged = host.advance().unwrap();
    assert_eq!(flat(&merged), vec![(0, vec![])]);
}

#[test]
fn closed_session_schedules_nothing() {
    let mut host = host_with(&[]);
    host.close();
    assert!(host.schedule_local(vec![cmd(1)], 0).is_none());
}
