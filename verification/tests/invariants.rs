//! Structural invariants: make/unmake round-trips, Zobrist consistency, FEN
//! round-trips, and randomized legal-move fuzzing.

use beluga_core::chess_move::MoveList;
use beluga_core::movegen;
use beluga_core::position::Position;

const FENS: &[&str] = &[
    "rnbqkbnr/pppppppp/8/8/8/8/PPPPPPPP/RNBQKBNR w KQkq - 0 1",
    "r3k2r/p1ppqpb1/bn2pnp1/3PN3/1p2P3/2N2Q1p/PPPBBPPP/R3K2R w KQkq - 0 1",
    "8/2p5/3p4/KP5r/1R3p1k/8/4P1P1/8 w - - 0 1",
    "r3k2r/Pppp1ppp/1b3nbN/nP6/BBP1P3/q4N2/Pp1P2PP/R2Q1RK1 w kq - 0 1",
    "rnbq1k1r/pp1Pbppp/2p5/8/2B5/8/PPP1NnPP/RNBQK2R w KQ - 1 8",
    "4k3/8/8/8/8/8/4P3/4K3 w - - 0 1",
];

/// Make/unmake restores the exact board, key, and FEN; the incremental key
/// matches a from-scratch recompute at every node.
fn walk(pos: &mut Position, depth: u32) {
    assert_eq!(
        pos.key(),
        pos.recompute_key(),
        "key desync at {}",
        pos.to_fen()
    );
    if depth == 0 {
        return;
    }
    let snapshot = pos.to_fen();
    let key = pos.key();

    let mut list = MoveList::new();
    movegen::generate_legal(pos, &mut list);
    for &m in list.as_slice() {
        pos.make_move(m);
        // Key must equal recompute after the move too.
        assert_eq!(
            pos.key(),
            pos.recompute_key(),
            "key desync after {} from {snapshot}",
            m.to_uci()
        );
        walk(pos, depth - 1);
        pos.unmake_move(m);
        assert_eq!(pos.to_fen(), snapshot, "board not restored after {}", m.to_uci());
        assert_eq!(pos.key(), key, "key not restored after {}", m.to_uci());
    }
}

#[test]
fn make_unmake_and_hash_consistency() {
    for fen in FENS {
        let mut pos = Position::from_fen(fen).expect("valid fen");
        walk(&mut pos, 4);
    }
}

#[test]
fn fen_round_trip() {
    for fen in FENS {
        let pos = Position::from_fen(fen).expect("valid fen");
        assert_eq!(&pos.to_fen(), fen, "FEN round trip failed");
    }
}

#[test]
fn malformed_fen_rejected() {
    let bad = [
        "",
        "8/8/8/8/8/8/8/8 w - - 0 1", // no kings
        "rnbqkbnr/pppppppp/8/8/8/8/PPPPPPPP/RNBQKBNR x KQkq - 0 1", // bad stm
        "rnbqkbnr/pppppppp/8/8/8/8/PPPPPPPP/RNBQKBN w KQkq - 0 1", // short rank
        "4k3/8/8/8/8/8/8/4K2Q b - - 0 1", // side-not-to-move logic ok? this is fine actually
    ];
    assert!(Position::from_fen(bad[0]).is_err());
    assert!(Position::from_fen(bad[1]).is_err());
    assert!(Position::from_fen(bad[2]).is_err());
    assert!(Position::from_fen(bad[3]).is_err());
}

#[test]
fn random_legal_move_fuzz() {
    // Deterministic LCG; play many random legal games, asserting we never panic,
    // always restore state, and key stays consistent.
    let mut seed: u64 = 0x1234_5678_9abc_def0;
    let mut next = || {
        seed = seed
            .wrapping_mul(6364136223846793005)
            .wrapping_add(1442695040888963407);
        seed >> 33
    };

    for _ in 0..400 {
        let mut pos = Position::startpos();
        for _ply in 0..80 {
            let mut list = MoveList::new();
            movegen::generate_legal(&pos, &mut list);
            if list.is_empty() {
                break;
            }
            if pos.is_fifty_move() || pos.is_insufficient_material() {
                break;
            }
            let idx = (next() as usize) % list.len();
            let m = list.get(idx);
            let before = pos.to_fen();
            pos.make_move(m);
            assert_eq!(
                pos.key(),
                pos.recompute_key(),
                "key desync after {} from {before}",
                m.to_uci()
            );
        }
    }
}

#[test]
fn fen_errors_name_the_first_failed_check() {
    let cases = [
        ("", "FEN: missing board"),
        ("rnbqkbnr/ppppppp/8/8/8/8/PPPPPPPP/RNBQKBNR w KQkq - 0 1", "FEN: rank 6 wrong length"),
        ("8/8/8/8/8/8/8/8/p w - - 0 1", "FEN: piece out of board"),
        ("rnbqkbnr/pppppppp/8/8/8/8/PPPPPPPP/RNBQKBN w KQkq - 0 1", "FEN: board not 8x8"),
        ("8/8/8/8/8/8/8/8/8 w - - 0 1", "FEN: board not 8x8"),
        ("45/8/8/8/8/8/8/8 w - - 0 1", "FEN: file overflow"),
        ("44p/8/8/8/8/8/8/8 w - - 0 1", "FEN: piece out of board"),
        ("rnbqkbnr/pppppppp/8/8/8/8/PPPPPPPP/RNBQKBNX w KQkq - 0 1", "FEN: bad piece 'X'"),
        ("rnbqkbnr/pppppppp/8/8/8/8/PPPPPPPP/RNBQKBNR x KQkq - 0 1", "FEN: bad side to move"),
        ("rnbqkbnr/pppppppp/8/8/8/8/PPPPPPPP/RNBQKBNR w KQX - 0 1", "FEN: bad castling 'X'"),
        ("rnbqkbnr/pppppppp/8/8/8/8/PPPPPPPP/RNBQKBNR w KQkq z9 0 1", "FEN: bad ep square"),
        ("8/8/8/8/8/8/8/8 w - - 0 1", "FEN: must have exactly one king per side"),
        ("4k3/8/8/8/8/8/8/4QK2 w - - 0 1", "FEN: side not to move is in check"),
    ];
    for (fen, msg) in cases {
        match Position::from_fen(fen) {
            Ok(_) => panic!("{fen:?} should be refused"),
            Err(e) => assert_eq!(e, msg, "{fen:?}"),
        }
    }
}

#[test]
fn fen_keeps_an_en_passant_square_that_can_be_taken() {
    let fen = "4k3/8/8/3Pp3/8/8/8/4K3 w - e6 0 1";
    let pos = Position::from_fen(fen).unwrap();
    assert_eq!(pos.to_fen(), fen);
    let mut list = MoveList::new();
    movegen::generate_legal(&pos, &mut list);
    assert!(list.as_slice().iter().any(|m| m.to_uci() == "d5e6" && m.is_en_passant()));
    // No white pawn beside e5: the square is dropped.
    let pos = Position::from_fen("4k3/8/8/4p3/8/8/8/4K3 w - e6 0 1").unwrap();
    assert_eq!(pos.to_fen(), "4k3/8/8/4p3/8/8/8/4K3 w - - 0 1");
}

#[test]
fn fen_drops_an_en_passant_square_on_the_wrong_rank() {
    let pos = Position::from_fen("4k3/8/8/8/8/8/3Pp3/4K3 w - e3 0 1").unwrap();
    assert_eq!(pos.ep_square(), None);
    let pos = Position::from_fen("4k3/8/8/8/3p4/8/3P4/4K3 w - e3 0 1").unwrap();
    assert_eq!(pos.ep_square(), None);
}
