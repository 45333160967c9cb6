use lockstep_net::commands::{Command, NetworkCommand};
use lockstep_net::desync::calculate_game_checksum;
use lockstep_net::lockstep::{LockstepNetwork, PeerAddr};
use lockstep_net::replay::{
    get_replay_metadata, player_color, GameReplay, PersistenceError, PlayerReplayInfo, PlayerTickCommands, ReplayPlayer, ReplayRecorder,
    Rgba,
};

fn players() -> Vec<PlayerReplayInfo> {
    vec![
        PlayerReplayInfo {
            id: 0,
            name: "Player 1".to_string(),
            color: Rgba { r: 0, g: 0, b: 255, a: 255 },
            race: "Default".to_string(),
            is_human: true,
        },
        PlayerReplayInfo {
            id: 1,
            name: "Player 2".to_string(),
            color: Rgba { r: 255, g: 0, b: 0, a: 255 },
            race: "Default".to_string(),
            is_human: false,
        },
    ]
}

fn recorder() -> ReplayRecorder {
    ReplayRecorder::new("0.1.0".to_string(), "Default Map".to_string(), players(), 1_000, 77)
}

fn cmds(xs: &[u8]) -> Vec<Command> {
    xs.iter().map(|x| Command { data: vec![*x, x.wrapping_mul(3)] }).collect()
}

fn summary(g: &GameReplay) -> String {
    format!("{:?}", g)
}

#[test]
fn recording_only_while_on() {
    let mut r = recorder();
    r.record_tick_commands(0, vec![PlayerTickCommands { player_id: 0, commands: cmds(&[1]) }]);
    r.start_recording();
    r.record_tick_commands(1, vec![PlayerTickCommands { player_id: 0, commands: cmds(&[2]) }]);
    r.stop_recording(1_500);
    r.record_tick_commands(2, vec![]);
    let g = ReplayRecorder::load_replay(&r.save_replay()).unwrap();
    assert_eq!(g.commands.len(), 1);
    assert_eq!(g.commands[0].tick, 1);
    assert_eq!(g.metadata.duration, 500);
}

#[test]
fn duration_is_zero_when_clock_went_back() {
    let mut r = recorder();
    r.start_recording();
    r.stop_recording(10);
    let g = ReplayRecorder::load_replay(&r.save_replay()).unwrap();
    assert_eq!(g.metadata.duration, 0);
}

#[test]
fn load_of_save_gives_the_log_back() {
    let mut r = recorder();
    r.start_recording();
    for t in 0..20u64 {
        r.record_tick_commands(
            t,
            vec![
                PlayerTickCommands { player_id: 0, commands: cmds(&[t as u8]) },
                PlayerTickCommands { player_id: 1, commands: cmds(&[]) },
            ],
        );
    }
    r.stop_recording(9_000);
    let bytes = r.save_replay();
    let g = ReplayRecorder::load_replay(&bytes).unwrap();
    assert_eq!(g.metadata.version, "0.1.0");
    assert_eq!(g.metadata.map_name, "Default Map");
    assert_eq!(g.metadata.game_seed, 77);
    assert_eq!(g.metadata.start_time, 1_000);
    assert_eq!(g.metadata.duration, 8_000);
    assert_eq!(format!("{:?}", g.metadata.players), format!("{:?}", players()));
    assert_eq!(g.commands.len(), 20);
    assert_eq!(g.commands[7].player_commands[0].commands[0].data, vec![7, 21]);
    // saving the loaded replay again gives the same bytes
    let again = ReplayRecorder::load_replay(&bytes).unwrap();
    assert_eq!(summary(&g), summary(&again));
}

#[test]
fn metadata_alone() {
    let r = recorder();
    let m = get_replay_metadata(&r.save_replay()).unwrap();
    assert_eq!(m.game_seed, 77);
    assert_eq!(m.players.len(), 2);
    assert_eq!(m.players[1].color, Rgba { r: 255, g: 0, b: 0, a: 255 });
}

#[test]
fn colours_by_player() {
    assert_eq!(player_color(0), Rgba { r: 0, g: 0, b: 255, a: 255 });
    assert_eq!(player_color(3), Rgba { r: 255, g: 255, b: 0, a: 255 });
    assert_eq!(player_color(4), Rgba { r: 255, g: 255, b: 255, a: 255 });
}

#[test]
fn corrupt_replay_is_refused() {
    let bytes = recorder().save_replay();
    assert_eq!(ReplayRecorder::load_replay(&bytes[..bytes.len() - 1]).unwrap_err(), PersistenceError::Corrupt);
    assert_eq!(get_replay_metadata(&[1, 2, 3]).unwrap_err(), PersistenceError::Corrupt);
}

/// A toy deterministic simulation: each command moves entity `data[0]` by `data[1]`.
fn apply(state: &mut Vec<(u32, u32, u32, u8)>, merged: &[PlayerTickCommands]) {
    for p in merged {
        for c in &p.commands {
            let id = (c.data[0] % 4) as usize;
            state[id].1 = state[id].1.wrapping_add(c.data[1] as u32);
            state[id].3 = p.player_id;
        }
    }
}

fn initial(seed: u64) -> Vec<(u32, u32, u32, u8)> {
    (0..4u32).map(|i| (i, (seed as u32).wrapping_mul(i + 1), i, 0)).collect()
}

#[test]
fn replay_reproduces_live_checksums() {
    let seed = 77;
    let mut net = LockstepNetwork::new();
    net.host_game(PeerAddr { ip: 1, port: 1 }, "host".to_string()).unwrap();
    net.handle_message(
        PeerAddr { ip: 2, port: 2 },
        lockstep_net::commands::NetworkMessage::Hello(lockstep_net::commands::PlayerJoinMessage {
            player_id: 255,
            player_name: "b".to_string(),
            is_observer: false,
        }),
        0,
    )
    .unwrap();
    let mut r = recorder();
    r.start_recording();
    let mut state = initial(seed);
    let mut live = Vec::new();
    for t in 0..30u64 {
        net.schedule_local(cmds(&[t as u8, 1]), 0);
        if t % 3 != 0 {
            net.ingest_remote(NetworkCommand { tick: t, player_id: 1, commands: cmds(&[(t * 7) as u8]) });
        }
        let tick = net.current_tick();
        if let Some(merged) = net.advance() {
            apply(&mut state, &merged);
            live.push(calculate_game_checksum(&state, &vec![]));
            r.record_tick_commands(tick, merged);
        }
    }
    r.stop_recording(2_000);
    let loaded = ReplayRecorder::load_replay(&r.save_replay()).unwrap();
    let mut player = ReplayPlayer::new(loaded);
    let mut state = initial(player.seed());
    let mut replayed = Vec::new();
    while let Some((_, merged)) = player.next_tick() {
        apply(&mut state, &merged);
        replayed.push(calculate_game_checksum(&state, &vec![]));
    }
    assert_eq!(live.len(), 30);
    assert_eq!(live, replayed);
}

#[test]
fn player_hands_out_ticks_in_order() {
    let mut r = recorder();
    r.start_recording();
    r.record_tick_commands(4, vec![PlayerTickCommands { player_id: 1, commands: cmds(&[1]) }]);
    r.record_tick_commands(5, vec![]);
    let mut player = ReplayPlayer::new(ReplayRecorder::load_replay(&r.save_replay()).unwrap());
    assert_eq!(player.seed(), 77);
    let (t, merged) = player.next_tick().unwrap();
    assert_eq!((t, merged.len(), merged[0].player_id), (4, 1, 1));
    assert_eq!(player.next_tick().map(|(t, m)| (t, m.len())), Some((5, 0)));
    assert!(player.next_tick().is_none());
    assert!(player.next_tick().is_none());
}
