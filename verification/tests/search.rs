//! The tree search on small positions.

use beluga_core::chess_move::{Move, MoveList};
use beluga_core::movegen;
use beluga_core::position::Position;
use beluga_core::search::{Search, INFINITY, MATE};
use beluga_core::timeman::Limits;
use beluga_core::tt::Tt;
use std::sync::atomic::AtomicBool;
use std::sync::Arc;

fn lmr_table() -> Vec<i32> {
    let mut t = vec![0i32; 64 * 64];
    for d in 1..64 {
        for m in 1..64 {
            t[d * 64 + m] = (0.75 + (d as f64).ln() * (m as f64).ln() / 2.25) as i32;
        }
    }
    t
}

fn searcher(fen: &str, depth: u32) -> Search {
    let pos = Position::from_fen(fen).expect("valid fen");
    let limits = Limits { depth: Some(depth), ..Default::default() };
    Search::new(pos, Tt::new(1), Arc::new(AtomicBool::new(false)), limits, lmr_table())
}

#[test]
fn think_finds_back_rank_mate() {
    let mut s = searcher("6k1/5ppp/8/8/8/8/5PPP/3R2K1 w - - 0 1", 4);
    let m = s.think();
    assert_eq!(m.to_uci(), "d1d8");
    assert_eq!(s.root_score(), MATE - 1);
}

#[test]
fn think_returns_a_legal_move() {
    let fen = "r1bqk2r/pppp1ppp/2n2n2/2b1p3/2B1P3/3P1N2/PPP2PPP/RNBQK2R w KQkq - 0 1";
    let mut s = searcher(fen, 5);
    let m = s.think();
    let pos = Position::from_fen(fen).unwrap();
    let mut list = MoveList::new();
    movegen::generate_legal(&pos, &mut list);
    assert!(list.contains(m));
    let (after, _, _) = s.into_parts();
    assert_eq!(after.to_fen(), pos.to_fen());
}

#[test]
fn think_without_legal_moves_gives_the_null_move() {
    // Black is stalemated.
    let mut s = searcher("7k/5Q2/6K1/8/8/8/8/8 b - - 0 1", 3);
    assert_eq!(s.think().0, 0);
    // Black is mated.
    let mut s = searcher("7k/6Q1/6K1/8/8/8/8/8 b - - 0 1", 3);
    assert_eq!(s.think().0, 0);
}

#[test]
fn negamax_scores_mate_and_stalemate() {
    let mut s = searcher("7k/6Q1/6K1/8/8/8/8/8 b - - 0 1", 3);
    assert_eq!(s.negamax(2, -INFINITY, INFINITY, 0, true), -MATE);
    let mut s = searcher("7k/5Q2/6K1/8/8/8/8/8 b - - 0 1", 3);
    let v = s.negamax(2, -INFINITY, INFINITY, 0, true);
    assert!((-1..=2).contains(&v), "stalemate is a draw, got {v}");
}

#[test]
fn qsearch_wins_the_hanging_queen() {
    // White to move can take the undefended queen on d5: a queen down on the
    // board, a pawn up once the capture is played out.
    let mut s = searcher("4k3/8/8/3q4/4P3/8/8/4K3 w - - 0 1", 1);
    let v = s.qsearch(-INFINITY, INFINITY, 0);
    assert!(v > 50, "capture of the queen should be seen, got {v}");
}

#[test]
fn a_depth_limited_search_reports_each_iteration() {
    let mut s = searcher("rnbqkbnr/pppppppp/8/8/8/8/PPPPPPPP/RNBQKBNR w KQkq - 0 1", 4);
    s.think();
    let infos = s.take_infos();
    assert_eq!(infos.len(), 4);
    for (i, info) in infos.iter().enumerate() {
        assert_eq!(info.depth, i as u32 + 1);
        assert!(!info.pv.is_empty());
    }
}

#[test]
fn move_list_keeps_its_256_score_slots() {
    let mut l = MoveList::new();
    assert!(l.is_empty());
    for i in 0..256 {
        assert_eq!(l.score(i), 0);
    }
    l.set_score(200, 7);
    l.push(Move(0x0208));
    assert_eq!(l.len(), 1);
    assert_eq!(l.score(200), 7);
    l.set_score(0, -3);
    l.push(Move(0x0310));
    assert_eq!(l.score(0), -3);
    assert_eq!(l.score(1), 0);
    assert_eq!(l.as_slice(), &[Move(0x0208), Move(0x0310)]);
}

#[test]
fn recompute_key_matches_the_kept_key() {
    let w = Position::from_fen("4k3/8/8/8/8/8/4P3/4K3 w - - 0 1").unwrap();
    let b = Position::from_fen("4k3/8/8/8/8/8/4P3/4K3 b - - 0 1").unwrap();
    let w2 = Position::from_fen("4k3/8/8/8/8/8/4P3/4K3 w - - 37 90").unwrap();
    assert_eq!(w.key(), w.recompute_key());
    assert_eq!(w.recompute_key(), w2.recompute_key());
    assert_ne!(w.recompute_key(), b.recompute_key());
    let s = Position::startpos();
    assert_eq!(s.key(), s.recompute_key());
}

#[test]
fn negamax_scores_a_mate_in_one_at_the_root() {
    let mut s = searcher("6k1/5ppp/8/8/8/8/5PPP/3R2K1 w - - 0 1", 1);
    assert_eq!(s.negamax(1, -INFINITY, INFINITY, 0, true), MATE - 1);
    let (after, _, _) = s.into_parts();
    assert_eq!(after.to_fen(), "6k1/5ppp/8/8/8/8/5PPP/3R2K1 w - - 0 1");
}

#[test]
fn mate_comes_before_the_fifty_move_draw() {
    // Mated with the halfmove clock at 100: a loss, not a draw.
    let mut s = searcher("7k/6Q1/6K1/8/8/8/8/8 b - - 100 80", 1);
    assert_eq!(s.qsearch(-INFINITY, INFINITY, 0), -MATE);
    // Not mated at 100: a draw.
    let mut s = searcher("7k/8/6K1/8/8/8/8/6Q1 b - - 100 80", 1);
    let v = s.qsearch(-INFINITY, INFINITY, 0);
    assert!((-1..=2).contains(&v), "fifty-move draw expected, got {v}");
}
