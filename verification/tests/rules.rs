//! Draw rules, stalemate/checkmate detection, and edge-case legality.

use beluga_core::chess_move::MoveList;
use beluga_core::movegen;
use beluga_core::position::Position;

fn legal_count(fen: &str) -> usize {
    let pos = Position::from_fen(fen).unwrap();
    let mut list = MoveList::new();
    movegen::generate_legal(&pos, &mut list);
    list.len()
}

#[test]
fn stalemate_has_no_moves_and_not_in_check() {
    // Classic stalemate: black to move, king a8 boxed in, not in check.
    let fen = "k7/8/1Q6/2K5/8/8/8/8 b - - 0 1";
    let pos = Position::from_fen(fen).unwrap();
    assert!(!pos.in_check());
    assert_eq!(legal_count(fen), 0, "should be stalemate");
}

#[test]
fn checkmate_has_no_moves_and_in_check() {
    // Fool's mate position after 1.f3 e5 2.g4 Qh4#.
    let fen = "rnb1kbnr/pppp1ppp/8/4p3/6Pq/5P2/PPPPP2P/RNBQKBNR w KQkq - 1 3";
    let pos = Position::from_fen(fen).unwrap();
    assert!(pos.in_check());
    assert_eq!(legal_count(fen), 0, "should be checkmate");
}

#[test]
fn insufficient_material_set() {
    assert!(Position::from_fen("8/8/4k3/8/8/4K3/8/8 w - - 0 1")
        .unwrap()
        .is_insufficient_material()); // KvK
    assert!(Position::from_fen("8/8/4k3/8/8/4K3/8/4N3 w - - 0 1")
        .unwrap()
        .is_insufficient_material()); // KNvK
    assert!(Position::from_fen("8/8/4k3/8/8/4K3/8/4B3 w - - 0 1")
        .unwrap()
        .is_insufficient_material()); // KBvK
    assert!(!Position::from_fen("8/8/4k3/8/8/4K3/8/3PN3 w - - 0 1")
        .unwrap()
        .is_insufficient_material()); // pawn present
    assert!(!Position::from_fen("8/8/4k3/8/8/4K3/8/3RN3 w - - 0 1")
        .unwrap()
        .is_insufficient_material()); // rook present
}

#[test]
fn fifty_move_detected_from_fen() {
    let pos = Position::from_fen("8/8/4k3/8/8/4K3/8/3RN3 w - - 100 80").unwrap();
    assert!(pos.is_fifty_move());
    let pos2 = Position::from_fen("8/8/4k3/8/8/4K3/8/3RN3 w - - 99 80").unwrap();
    assert!(!pos2.is_fifty_move());
}

#[test]
fn repetition_detected() {
    let mut pos = Position::startpos();
    let seq = [
        "g1f3", "g8f6", "f3g1", "f6g8", "g1f3", "g8f6", "f3g1", "f6g8",
    ];
    for (i, mv) in seq.iter().enumerate() {
        let m = pos.parse_uci_move(mv).unwrap();
        pos.make_move(m);
        if i == seq.len() - 1 {
            // After the second full cycle the start position has recurred.
            assert!(pos.is_repetition(), "threefold/repetition not detected");
        }
    }
}

#[test]
fn castling_through_check_is_illegal() {
    // White can castle king-side normally...
    let fen_ok = "r3k2r/8/8/8/8/8/8/R3K2R w KQkq - 0 1";
    let pos = Position::from_fen(fen_ok).unwrap();
    let mut list = MoveList::new();
    movegen::generate_legal(&pos, &mut list);
    assert!(list.as_slice().iter().any(|m| m.to_uci() == "e1g1"));

    // ...but not when f1 is attacked by a rook on f8 (king passes through check).
    let fen_bad = "r4rk1/8/8/8/8/8/8/R3K2R w KQ - 0 1";
    let pos = Position::from_fen(fen_bad).unwrap();
    let mut list = MoveList::new();
    movegen::generate_legal(&pos, &mut list);
    assert!(
        !list.as_slice().iter().any(|m| m.to_uci() == "e1g1"),
        "king-side castling through f1 attack must be illegal"
    );
}

#[test]
fn pinned_knight_has_no_moves() {
    // The knight on e2 is pinned by the rook on e4: only king moves remain.
    let pos = Position::from_fen("4k3/8/8/8/4r3/8/4N3/4K3 w - - 0 1").unwrap();
    let mut list = MoveList::new();
    movegen::generate_legal(&pos, &mut list);
    for &m in list.as_slice() {
        assert_eq!(m.from().0, 4, "only the king may move, not {}", m.to_uci());
    }
    assert_eq!(list.len(), 4);
}

#[test]
fn pinned_rook_moves_along_the_pin() {
    // The rook on e2 is pinned on the e-file and may only slide along it.
    let pos = Position::from_fen("4k3/8/8/8/4r3/8/4R3/4K3 w - - 0 1").unwrap();
    let mut list = MoveList::new();
    movegen::generate_legal(&pos, &mut list);
    let rook: Vec<String> = list
        .as_slice()
        .iter()
        .filter(|m| m.from().0 == 12)
        .map(|m| m.to_uci())
        .collect();
    assert_eq!(rook, vec!["e2e3".to_string(), "e2e4".to_string()]);
}

#[test]
fn check_must_be_answered() {
    // Black's rook on e8 checks the king on e1: capture, block or step aside.
    let pos = Position::from_fen("4r2k/8/8/8/8/8/3B4/R3K3 w Q - 0 1").unwrap();
    let mut list = MoveList::new();
    movegen::generate_legal(&pos, &mut list);
    let mut moves: Vec<String> = list.as_slice().iter().map(|m| m.to_uci()).collect();
    moves.sort();
    assert_eq!(
        moves,
        vec!["d2e3", "e1d1", "e1f1", "e1f2"]
            .into_iter()
            .map(String::from)
            .collect::<Vec<_>>()
    );
}

#[test]
fn en_passant_that_exposes_the_king_is_illegal() {
    // Capturing d6 en passant would open the fifth rank to the rook on h5.
    let pos = Position::from_fen("8/8/8/K2pP2r/8/8/8/7k w - d6 0 1").unwrap();
    let mut list = MoveList::new();
    movegen::generate_legal(&pos, &mut list);
    assert!(list.as_slice().iter().all(|m| m.to_uci() != "e5d6"));
}

#[test]
fn capture_generation_includes_quiet_promotions() {
    // White pawn on a7 with nothing to capture: the noisy generator still
    // yields the four promotions on a8.
    let pos = Position::from_fen("4k3/P7/8/8/8/8/8/4K3 w - - 0 1").unwrap();
    let mut list = MoveList::new();
    movegen::generate_captures(&pos, &mut list);
    let mut moves: Vec<String> = (0..list.len()).map(|i| list.get(i).to_uci()).collect();
    moves.sort();
    assert_eq!(moves, vec!["a7a8b", "a7a8n", "a7a8q", "a7a8r"]);
}

#[test]
fn capture_generation_lists_every_capture() {
    // Kiwipete: eight captures, no promotions, and White is not in check.
    let pos =
        Position::from_fen("r3k2r/p1ppqpb1/bn2pnp1/3PN3/1p2P3/2N2Q1p/PPPBBPPP/R3K2R w KQkq - 0 1")
            .unwrap();
    let mut list = MoveList::new();
    movegen::generate_captures(&pos, &mut list);
    assert_eq!(list.len(), 8);
}

#[test]
fn generated_moves_are_listed_once() {
    let pos =
        Position::from_fen("r3k2r/p1ppqpb1/bn2pnp1/3PN3/1p2P3/2N2Q1p/PPPBBPPP/R3K2R w KQkq - 0 1")
            .unwrap();
    let mut list = MoveList::new();
    movegen::generate_legal(&pos, &mut list);
    let mut moves: Vec<String> = (0..list.len()).map(|i| list.get(i).to_uci()).collect();
    moves.sort();
    moves.dedup();
    assert_eq!(moves.len(), 48);
    assert_eq!(movegen::legal_move_count(&pos), 48);
}

#[test]
fn double_check_leaves_only_king_moves() {
    // Black king e8 in double check from the rook on e1 and the knight on d6.
    let fen = "4k3/8/3N4/8/8/8/8/K3R3 b - - 0 1";
    let pos = Position::from_fen(fen).unwrap();
    let mut list = MoveList::new();
    movegen::generate_legal(&pos, &mut list);
    for i in 0..list.len() {
        assert_eq!(list.get(i).to_uci().get(0..2), Some("e8"));
    }
    assert_eq!(list.len(), legal_count(fen));
}
