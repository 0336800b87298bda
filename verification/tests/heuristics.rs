//! The move-ordering tables: history gravity, killers, counter moves, capture
//! history and the evaluation correction.

use beluga_core::position::Position;
use beluga_core::search::{captured_type, Heuristics};

#[test]
fn history_rewards_settle_under_the_limit() {
    let mut h = Heuristics::new();
    assert_eq!(h.quiet_history(0, 12, 28, 0, None, None), 0);
    h.update_history(0, 12, 28, 0, None, None, 1600);
    assert_eq!(h.quiet_history(0, 12, 28, 0, None, None), 1600);
    h.update_history(0, 12, 28, 0, None, None, 1600);
    // 1600 + 1600 - 1600 * 1600 / 16384
    assert_eq!(h.quiet_history(0, 12, 28, 0, None, None), 3044);
    for _ in 0..500 {
        h.update_history(0, 12, 28, 0, None, None, 1600);
    }
    let v = h.quiet_history(0, 12, 28, 0, None, None);
    assert!(v <= 16384 && v > 16000, "{v}");
    h.update_history(0, 12, 28, 0, None, None, -1600);
    assert!(h.quiet_history(0, 12, 28, 0, None, None) < v);
    // Another side, square pair or continuation is untouched.
    assert_eq!(h.quiet_history(1, 12, 28, 0, None, None), 0);
    assert_eq!(h.quiet_history(0, 12, 20, 0, None, None), 0);
}

#[test]
fn continuation_history_adds_to_the_score() {
    let mut h = Heuristics::new();
    h.update_history(1, 52, 36, 6, Some((0, 28)), Some((6, 44)), 900);
    assert_eq!(h.quiet_history(1, 52, 36, 6, None, None), 900);
    assert_eq!(h.quiet_history(1, 52, 36, 6, Some((0, 28)), None), 1800);
    assert_eq!(h.quiet_history(1, 52, 36, 6, Some((0, 28)), Some((6, 44))), 2700);
    assert_eq!(h.quiet_history(1, 52, 36, 6, Some((1, 28)), None), 900);
}

#[test]
fn quiet_cutoff_updates_killers_counters_and_history() {
    let pos = Position::startpos();
    let e2e4 = pos.parse_uci_move("e2e4").unwrap();
    let d2d4 = pos.parse_uci_move("d2d4").unwrap();
    let g1f3 = pos.parse_uci_move("g1f3").unwrap();
    let mut h = Heuristics::new();
    h.update_quiet_stats(&pos, e2e4, 3, 2, Some((6, 36)), None, &[d2d4, e2e4, g1f3]);
    assert_eq!(h.killer(2, 0), e2e4);
    assert!(h.killer(2, 1).is_null());
    assert_eq!(h.counter_move(Some((6, 36))), e2e4);
    assert!(h.counter_move(None).is_null());
    assert_eq!(h.quiet_history(0, 12, 28, 0, None, None), 9);
    assert_eq!(h.quiet_history(0, 11, 27, 0, None, None), -9);
    assert_eq!(h.quiet_history(0, 6, 21, 1, None, None), -9);
    // A second cutoff by another move pushes the first killer down.
    h.update_quiet_stats(&pos, d2d4, 50, 2, None, None, &[d2d4]);
    assert_eq!(h.killer(2, 0), d2d4);
    assert_eq!(h.killer(2, 1), e2e4);
    assert_eq!(h.quiet_history(0, 11, 27, 0, None, None), -9 + 1600);
}

#[test]
fn capture_history_by_victim() {
    let pos = Position::from_fen("4k3/8/8/3p4/4P3/8/8/4K3 w - - 0 1").unwrap();
    let exd5 = pos.parse_uci_move("e4d5").unwrap();
    let e4e5 = pos.parse_uci_move("e4e5").unwrap();
    assert_eq!(captured_type(&pos, exd5), 0);
    let mut h = Heuristics::new();
    h.update_capture_stats(&pos, exd5, 4, &[exd5]);
    assert_eq!(h.capture_history(0, 35, 0), 16);
    h.update_capture_stats(&pos, e4e5, 4, &[exd5, e4e5]);
    assert_eq!(h.capture_history(0, 35, 0), 0);
}

#[test]
fn correction_blends_toward_the_search_result() {
    let mut h = Heuristics::new();
    assert_eq!(h.correction(0, 12345), 0);
    h.update_correction(0, 12345, 3, 100);
    // Weight 4 of 256: the entry becomes 400 table units, 1 centipawn.
    assert_eq!(h.correction(0, 12345), 1);
    for _ in 0..200 {
        h.update_correction(0, 12345, 20, 100);
    }
    assert_eq!(h.correction(0, 12345), 32);
    assert_eq!(h.correction(1, 12345), 0);
    assert_eq!(h.correction(0, 12345 + 16384), 32);
}
