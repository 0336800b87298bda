//! Time budgets derived from the `go` limits.

use beluga_core::timeman::{Limits, TimeManager};
use beluga_core::types::Color;

fn limits() -> Limits {
    Limits {
        wtime: Some(60_000),
        winc: Some(1_000),
        ..Default::default()
    }
}

#[test]
fn budget_is_a_sane_fraction_of_the_clock() {
    let tm = TimeManager::new(&limits(), Color::White, 1);
    let soft = tm.soft_ms().unwrap();
    let hard = tm.hard_ms().unwrap();
    assert!(soft >= 1 && soft <= 60_000 * 8 / 10, "soft = {soft}");
    assert!(hard >= soft && hard <= 60_000 * 8 / 10, "hard = {hard}");
}

#[test]
fn movestogo_divides_the_clock() {
    let mut l = limits();
    l.movestogo = Some(10);
    l.winc = Some(0);
    let tm = TimeManager::new(&l, Color::White, 1);
    let soft = tm.soft_ms().unwrap();
    // 60s - 30ms overhead over 10 moves ≈ 6s per move.
    assert!((5_000..=6_500).contains(&soft), "soft = {soft}");
}

#[test]
fn opening_moves_get_less_time_than_middlegame() {
    let mut l = limits();
    l.winc = Some(0);
    let opening = TimeManager::new(&l, Color::White, 1);
    let middlegame = TimeManager::new(&l, Color::White, 25);
    let s_open = opening.soft_ms().unwrap();
    let s_mid = middlegame.soft_ms().unwrap();
    assert!(s_open < s_mid, "open = {s_open}, mid = {s_mid}");
    // Horizon is clamped: very late moves are no greedier than move 25.
    let late = TimeManager::new(&l, Color::White, 60);
    let s_late = late.soft_ms().unwrap();
    assert_eq!(s_mid, s_late);
}

#[test]
fn depth_only_search_has_no_clock() {
    let l = Limits {
        depth: Some(10),
        ..Default::default()
    };
    let tm = TimeManager::new(&l, Color::White, 1);
    assert!(tm.soft_ms().is_none() && tm.hard_ms().is_none());
    assert!(!tm.soft_expired() && !tm.hard_expired());
    assert!(!tm.has_clock());
}

#[test]
fn movetime_has_a_clock() {
    let l = Limits {
        movetime: Some(1_000),
        ..Default::default()
    };
    let tm = TimeManager::new(&l, Color::White, 1);
    assert!(tm.has_clock());
}

#[test]
fn movetime_budget_keeps_the_overhead() {
    let l = Limits {
        movetime: Some(1_000),
        ..Default::default()
    };
    let tm = TimeManager::new(&l, Color::White, 1);
    assert_eq!(tm.soft_ms(), Some(970));
    assert_eq!(tm.hard_ms(), Some(970));
    let tiny = Limits {
        movetime: Some(10),
        ..Default::default()
    };
    let tm = TimeManager::new(&tiny, Color::White, 1);
    assert_eq!(tm.soft_ms(), Some(1));
}

#[test]
fn sudden_death_budget_exact() {
    // total = 59_970, horizon at move 1 = 50, inc share = 750.
    let tm = TimeManager::new(&limits(), Color::White, 1);
    assert_eq!(tm.soft_ms(), Some(59_970 / 50 + 750));
    assert_eq!(tm.hard_ms(), Some((59_970 / 50 + 750) * 5));
    // Black's clock is used for Black.
    let l = Limits {
        btime: Some(10_030),
        ..Default::default()
    };
    let tm = TimeManager::new(&l, Color::Black, 30);
    assert_eq!(tm.soft_ms(), Some(10_000 / 24));
}

#[test]
fn infinite_search_has_no_clock() {
    let l = Limits {
        wtime: Some(1_000),
        infinite: true,
        ..Default::default()
    };
    let tm = TimeManager::new(&l, Color::White, 1);
    assert!(!tm.has_clock());
    assert!(!tm.soft_expired_scaled(50));
}

#[test]
fn overflowing_clock_is_flagged() {
    let l = Limits {
        wtime: Some(u64::MAX),
        ..Default::default()
    };
    assert!(!TimeManager::budget_fits(&l, Color::White));
    assert!(TimeManager::budget_fits(&limits(), Color::White));
}
