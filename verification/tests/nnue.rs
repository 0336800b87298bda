//! Network loading and accumulator updates.

use beluga_core::nnue::{Accumulator, Network, HIDDEN, INPUT};
use beluga_core::position::Position;
use beluga_core::types::{Color, PieceType};

/// Build a deterministic pseudo-random network purely to validate the
/// accumulator math (not a trained net: the values mean nothing for strength).
fn synthetic() -> Network {
    let mut state = 0x1234_5678u64;
    let mut next = || {
        state ^= state << 13;
        state ^= state >> 7;
        state ^= state << 17;
        (state >> 48) as i16 / 64
    };
    let n_fw = INPUT * HIDDEN;
    Network {
        feature_weights: (0..n_fw).map(|_| next()).collect(),
        feature_bias: (0..HIDDEN).map(|_| next()).collect(),
        output_weights: (0..2 * HIDDEN).map(|_| next()).collect(),
        output_bias: 0,
    }
}

#[test]
fn incremental_matches_refresh() {
    beluga_core::attacks::init();
    let net = synthetic();

    // Start position, refreshed.
    let mut pos = Position::startpos();
    let mut inc = Accumulator::default();
    net.refresh(&pos, &mut inc);

    // Apply a non-king move incrementally and compare to a full refresh.
    let m = pos.parse_uci_move("e2e4").unwrap();
    let wk = pos.king_square(Color::White).index();
    let bk = pos.king_square(Color::Black).index();
    // Pawn e2 -> e4: remove from e2, add at e4.
    net.remove_piece(&mut inc, wk, bk, Color::White, PieceType::Pawn, 12);
    net.add_piece(&mut inc, wk, bk, Color::White, PieceType::Pawn, 28);

    pos.make_move(m);
    let mut full = Accumulator::default();
    net.refresh(&pos, &mut full);

    assert_eq!(
        inc.v, full.v,
        "incremental accumulator must equal full refresh"
    );
}

#[test]
fn load_rejects_wrong_size() {
    assert!(Network::from_bytes(&[0u8; 10]).is_none());
}
