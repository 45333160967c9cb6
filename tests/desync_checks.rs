use lockstep_net::commands::GameSyncMessage;
use lockstep_net::desync::{calculate_game_checksum, DesyncDetector, DesyncEvent};

#[test]
fn one_event_per_mismatch() {
    let mut d = DesyncDetector::new();
    assert_eq!(d.record_checksum(30, 0, 111), None);
    assert_eq!(d.record_checksum(30, 1, 222), Some(DesyncEvent { tick: 30, peer_a: 0, peer_b: 1 }));
    // repeats and further disagreement for the same tick raise nothing more
    assert_eq!(d.record_checksum(30, 1, 222), None);
    assert_eq!(d.record_checksum(30, 2, 333), None);
    // another tick is judged on its own
    assert_eq!(d.record_checksum(31, 0, 5), None);
    assert_eq!(d.record_checksum(31, 1, 5), None);
}

#[test]
fn sync_message_checksums_are_compared() {
    let mut d = DesyncDetector::new();
    let msg = GameSyncMessage { tick: 4, checksums: vec![(0, 9), (1, 9), (2, 8)], unit_counts: vec![] };
    assert_eq!(d.record_sync(&msg), vec![DesyncEvent { tick: 4, peer_a: 0, peer_b: 2 }]);
}

#[test]
fn checksum_has_exact_value() {
    let entities = vec![(1u32, 1.0f32.to_bits(), 2.0f32.to_bits(), 0u8), (2, 0, 0, 1)];
    let resources = vec![(0u8, 1u8, 100.0f32.to_bits())];
    assert_eq!(calculate_game_checksum(&entities, &resources), 0xc3f9_2c6b);
    assert_eq!(calculate_game_checksum(&vec![(7, 8, 9, 1)], &vec![]), 0xc258_9bc8);
    assert_eq!(calculate_game_checksum(&vec![], &vec![]), 0);
}

#[test]
fn checksum_ignores_order() {
    let a = vec![(1u32, 10u32, 20u32, 0u8), (2, 30, 40, 1), (3, 50, 60, 1)];
    let mut b = a.clone();
    b.reverse();
    let r = vec![(0u8, 0u8, 5u32), (1, 2, 7)];
    let mut r2 = r.clone();
    r2.reverse();
    assert_eq!(calculate_game_checksum(&a, &r), calculate_game_checksum(&b, &r2));
    // but it does see a moved entity
    let mut c = a.clone();
    c[0].1 += 1;
    assert_ne!(calculate_game_checksum(&a, &r), calculate_game_checksum(&c, &r));
}

#[test]
fn forgotten_ticks_are_judged_afresh() {
    let mut d = DesyncDetector::new();
    d.record_checksum(5, 0, 1);
    assert!(d.record_checksum(5, 1, 2).is_some());
    d.record_checksum(6, 0, 1);
    d.forget_before(6);
    // tick 5 is gone: the same reports count as new ones
    assert_eq!(d.record_checksum(5, 0, 1), None);
    assert_eq!(d.record_checksum(5, 1, 2), Some(DesyncEvent { tick: 5, peer_a: 0, peer_b: 1 }));
    // tick 6 is kept: player 0's second report is still ignored
    assert_eq!(d.record_checksum(6, 0, 9), None);
    assert_eq!(d.record_checksum(6, 1, 9), Some(DesyncEvent { tick: 6, peer_a: 0, peer_b: 1 }));
}
