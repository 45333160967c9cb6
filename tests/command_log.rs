use lockstep_net::commands::{Command, CommandLogger};

fn cmds(xs: &[u8]) -> Vec<Command> {
    xs.iter().map(|x| Command { data: vec![*x] }).collect()
}

#[test]
fn logs_while_enabled() {
    let mut log = CommandLogger::new();
    assert!(log.is_enabled());
    log.log_commands(1, 0, &cmds(&[1, 2]));
    log.set_enabled(false);
    log.log_commands(2, 0, &cmds(&[3]));
    log.set_enabled(true);
    log.log_commands(3, 1, &cmds(&[]));
    let entries: Vec<(u64, u8, usize)> =
        log.get_commands().iter().map(|b| (b.tick, b.player_id, b.commands.len())).collect();
    assert_eq!(entries, vec![(1, 0, 2), (3, 1, 0)]);
    log.clear();
    assert!(log.get_commands().is_empty());
}

#[test]
fn log_round_trips_through_bytes() {
    let mut log = CommandLogger::new();
    log.log_commands(5, 2, &cmds(&[9, 8]));
    log.log_commands(6, 3, &cmds(&[7]));
    let bytes = log.to_bytes();
    let mut other = CommandLogger::new();
    other.load_from_bytes(&bytes).unwrap();
    assert_eq!(format!("{:?}", other.get_commands()), format!("{:?}", log.get_commands()));
    assert_eq!(other.to_bytes(), bytes);
}

#[test]
fn corrupt_log_leaves_the_old_one() {
    let mut log = CommandLogger::new();
    log.log_commands(5, 2, &cmds(&[9]));
    let bytes = log.to_bytes();
    assert!(log.load_from_bytes(&bytes[..bytes.len() - 1]).is_err());
    assert_eq!(log.get_commands().len(), 1);
    // an empty log is eight zero bytes
    assert_eq!(CommandLogger::new().to_bytes(), vec![0; 8]);
}
