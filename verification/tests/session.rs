//! The game session of front ends, game-level queries, the board diagram and
//! the tuning records.

use beluga_core::eval::{can_evaluate, white_eval};
use beluga_core::game::{
    fallback_move, game_result, legal_moves_text, play_uci_move, GameResult,
};
use beluga_core::position::Position;
use beluga_core::session::BelugaEngine;
use beluga_core::texel::{fen_of_record, result_of_record};

const MATED: &str = "rnb1kbnr/pppp1ppp/8/4p3/6Pq/5P2/PPPPP2P/RNBQKBNR w KQkq - 1 3";
const STALEMATE: &str = "k7/8/1Q6/2K5/8/8/8/8 b - - 0 1";

#[test]
fn session_hash_size_is_clamped() {
    assert_eq!(BelugaEngine::new(0).hash_mb(), 1);
    assert_eq!(BelugaEngine::new(16).hash_mb(), 16);
    assert_eq!(BelugaEngine::new(1000).hash_mb(), 64);
}

#[test]
fn session_plays_and_reports() {
    let mut e = BelugaEngine::new(16);
    assert_eq!(e.fen(), "rnbqkbnr/pppppppp/8/8/8/8/PPPPPPPP/RNBQKBNR w KQkq - 0 1");
    assert_eq!(e.side_to_move(), "w");
    assert_eq!(e.legal_moves().split(' ').count(), 20);
    assert!(e.make_move("e2e4"));
    assert_eq!(e.side_to_move(), "b");
    assert!(!e.make_move("e2e4"));
    assert!(!e.make_move("e7e4"));
    assert_eq!(e.fen(), "rnbqkbnr/pppppppp/8/8/4P3/8/PPPP1PPP/RNBQKBNR b KQkq - 0 1");
    assert!(!e.is_check());
    assert!(!e.is_game_over());
    assert_eq!(e.result(), "");
    e.new_game();
    assert_eq!(e.side_to_move(), "w");
    assert_eq!(e.hash_mb(), 16);
}

#[test]
fn session_results() {
    let mut e = BelugaEngine::new(16);
    e.set_fen(MATED).unwrap();
    assert!(e.is_check());
    assert!(e.is_game_over());
    assert_eq!(e.result(), "checkmate");
    assert_eq!(e.legal_moves(), "");
    e.set_fen(STALEMATE).unwrap();
    assert!(!e.is_check());
    assert_eq!(e.result(), "stalemate");
    e.set_fen("8/8/4k3/8/8/4K3/8/4N3 w - - 0 1").unwrap();
    assert_eq!(e.result(), "draw");
}

#[test]
fn session_keeps_position_on_bad_fen() {
    let mut e = BelugaEngine::new(16);
    assert!(e.make_move("d2d4"));
    let before = e.fen();
    assert!(e.set_fen("not a fen").is_err());
    assert!(e.set_fen("8/8/8/8/8/8/8/8 w - - 0 1").is_err());
    assert_eq!(e.fen(), before);
}

#[test]
fn game_queries() {
    let start = Position::startpos();
    assert_eq!(game_result(&start), GameResult::Ongoing);
    assert_eq!(game_result(&Position::from_fen(MATED).unwrap()), GameResult::Checkmate);
    assert_eq!(game_result(&Position::from_fen(STALEMATE).unwrap()), GameResult::Stalemate);
    let text = legal_moves_text(&start);
    let words: Vec<&str> = text.split(' ').collect();
    assert_eq!(words.len(), 20);
    assert!(words.contains(&"g1f3"));
    assert!(words.contains(&"e2e4"));
    let fb = fallback_move(&start).to_uci();
    assert_eq!(fb, words[0]);
    assert!(fallback_move(&Position::from_fen(STALEMATE).unwrap()).is_null());
    let mut pos = Position::startpos();
    assert!(!play_uci_move(&mut pos, "e2e5"));
    assert_eq!(pos.to_fen(), start.to_fen());
    assert!(play_uci_move(&mut pos, "g1f3"));
    assert_eq!(pos.to_fen(), "rnbqkbnr/pppppppp/8/8/8/5N2/PPPPPPPP/RNBQKB1R b KQkq - 1 1");
}

#[test]
fn diagram_of_the_start_position() {
    let pos = Position::startpos();
    let text = String::from_utf8(pos.diagram()).unwrap();
    let lines: Vec<&str> = text.split('\n').collect();
    assert_eq!(lines[0], "8 r n b q k b n r ");
    assert_eq!(lines[1], "7 p p p p p p p p ");
    assert_eq!(lines[2], "6 . . . . . . . . ");
    assert_eq!(lines[7], "1 R N B Q K B N R ");
    assert_eq!(lines[8], "  a b c d e f g h");
    assert_eq!(lines[9], "fen: rnbqkbnr/pppppppp/8/8/8/8/PPPPPPPP/RNBQKBNR w KQkq - 0 1");
    assert_eq!(lines[10], format!("key: {:016x}", pos.key()));
    assert_eq!(lines.len(), 11);
}

#[test]
fn white_relative_evaluation() {
    let w = Position::startpos();
    assert_eq!(white_eval(&w), 14);
    let b = Position::from_fen("rnbqkbnr/pppppppp/8/8/8/8/PPPPPPPP/RNBQKBNR b KQkq - 0 1").unwrap();
    assert_eq!(white_eval(&b), -14);
    assert!(can_evaluate(&w));
    let pawn_on_last_rank = Position::from_fen("P3k3/8/8/8/8/8/8/4K3 w - - 0 1").unwrap();
    assert!(!can_evaluate(&pawn_on_last_rank));
}

#[test]
fn tuning_records() {
    let line = br#"{"fen": "4k3/8/8/8/8/8/4P3/4K3 w - - 0 1", "result": 1.0, "ply": 12}"#;
    assert_eq!(fen_of_record(line), Some(b"4k3/8/8/8/8/8/4P3/4K3 w - - 0 1".to_vec()));
    assert_eq!(result_of_record(line), Some(b"1.0".to_vec()));
    let last = br#"{"result":0.5,"fen":"8/8/8/8/8/8/8/8 w - - 0 1"}"#;
    assert_eq!(result_of_record(last), Some(b"0.5".to_vec()));
    assert_eq!(fen_of_record(last), Some(b"8/8/8/8/8/8/8/8 w - - 0 1".to_vec()));
    assert_eq!(fen_of_record(b"{}"), None);
    assert_eq!(result_of_record(b"{\"fen\": \"x\"}"), None);
}
