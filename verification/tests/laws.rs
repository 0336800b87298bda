//! Concrete instances of the library's laws: what one call undoes of another,
//! what reading back gives of writing.

use beluga_core::chess_move::MoveList;
use beluga_core::movegen;
use beluga_core::nnue::{Network, HIDDEN, INPUT};
use beluga_core::perft::perft;
use beluga_core::position::Position;
use beluga_core::search::{score_from_tt, score_to_tt, MATE};
use beluga_core::uci::position_from_command;

#[test]
fn emitted_fen_reads_back_after_moves() {
    let (pos, played) =
        position_from_command("position startpos moves e2e4 c7c5 g1f3 d7d6 e1e2").unwrap();
    assert_eq!(played, 5);
    let fen = pos.to_fen();
    let back = Position::from_fen(&fen).unwrap();
    assert_eq!(back.to_fen(), fen);
    assert_eq!(back.key(), pos.key());
    assert_eq!(back.side_to_move(), pos.side_to_move());
}

#[test]
fn emitted_fen_keeps_en_passant_square() {
    // After e2e4 d7d5 e4e5 f7f5, White may capture en passant on f6.
    let (pos, _) = position_from_command("position startpos moves e2e4 d7d5 e4e5 f7f5").unwrap();
    let fen = pos.to_fen();
    assert_eq!(fen, "rnbqkbnr/ppp1p1pp/8/3pPp2/8/8/PPPP1PPP/RNBQKBNR w KQkq f6 0 3");
    assert_eq!(Position::from_fen(&fen).unwrap().key(), pos.key());
}

#[test]
fn unmake_restores_every_move_of_a_position() {
    let mut pos = Position::from_fen(
        "r3k2r/p1ppqpb1/bn2pnp1/3PN3/1p2P3/2N2Q1p/PPPBBPPP/R3K2R w KQkq - 0 1",
    )
    .unwrap();
    let fen = pos.to_fen();
    let key = pos.key();
    let mut list = MoveList::new();
    movegen::generate_legal(&pos, &mut list);
    assert_eq!(list.len(), 48);
    for &m in list.as_slice() {
        pos.make_move(m);
        assert_eq!(pos.key(), pos.recompute_key());
        pos.unmake_move(m);
        assert_eq!(pos.to_fen(), fen);
        assert_eq!(pos.key(), key);
    }
}

#[test]
fn null_move_is_undone() {
    let (mut pos, _) = position_from_command("position startpos moves e2e4").unwrap();
    let fen = pos.to_fen();
    let key = pos.key();
    pos.make_null_move();
    assert_ne!(pos.key(), key);
    assert_eq!(pos.ep_square(), None);
    pos.unmake_null_move();
    assert_eq!(pos.to_fen(), fen);
    assert_eq!(pos.key(), key);
}

#[test]
fn perft_leaves_the_position_as_it_was() {
    let mut pos = Position::startpos();
    let fen = pos.to_fen();
    assert_eq!(perft(&mut pos, 3), 8902);
    assert_eq!(pos.to_fen(), fen);
}

#[test]
fn table_scores_read_back() {
    for &(score, ply) in &[
        (0, 0),
        (123, 7),
        (-456, 12),
        (MATE - 3, 2),
        (MATE - 40, 20),
        (-(MATE - 5), 4),
        (-(MATE - 60), 30),
    ] {
        let stored = score_to_tt(score, ply);
        assert_eq!(score_from_tt(stored, ply), score);
    }
    // A mate found 3 plies below a node 2 plies deep is stored as mate in 3 from
    // the node itself.
    assert_eq!(score_to_tt(MATE - 5, 2), MATE - 3);
    assert_eq!(score_from_tt(MATE - 3, 2), MATE - 5);
    assert_eq!(score_to_tt(50, 9), 50);
}

#[test]
fn network_file_decodes_little_endian() {
    let n = (INPUT * HIDDEN + HIDDEN + 2 * HIDDEN) * 2 + 4;
    let mut bytes = vec![0u8; n];
    bytes[0] = 0x34;
    bytes[1] = 0x12;
    bytes[2] = 0xff;
    bytes[3] = 0xff;
    let fb = INPUT * HIDDEN * 2;
    bytes[fb] = 7;
    let ob = fb + HIDDEN * 2;
    bytes[ob] = 0xfe;
    bytes[ob + 1] = 0xff;
    bytes[n - 4] = 0x78;
    bytes[n - 3] = 0x56;
    bytes[n - 2] = 0x34;
    bytes[n - 1] = 0x12;
    let net = Network::from_bytes(&bytes).expect("right size");
    assert_eq!(net.feature_weights.len(), INPUT * HIDDEN);
    assert_eq!(net.feature_weights[0], 0x1234);
    assert_eq!(net.feature_weights[1], -1);
    assert_eq!(net.feature_bias[0], 7);
    assert_eq!(net.output_weights[0], -2);
    assert_eq!(net.output_bias, 0x12345678);
    assert!(Network::from_bytes(&bytes[..n - 1]).is_none());
}
