//! Evaluation terms on hand-built positions.

use beluga_core::eval::{
    eval_terms, evaluate, params, Score, Terms, T_KING_SAFETY, T_OUTPOST, T_PASSED,
    T_PAWN_STRUCT, T_ROOK_7TH, T_THREATS,
};
use beluga_core::position::Position;
use beluga_core::types::{Color, PieceType};

fn terms(fen: &str) -> Terms {
    beluga_core::attacks::init();
    let pos = Position::from_fen(fen).expect("valid fen");
    eval_terms(&pos)
}

fn term_net(t: &Terms, idx: usize, color: Color) -> Score {
    t.v[idx][color.index()]
}

#[test]
fn startpos_is_tempo_only() {
    beluga_core::attacks::init();
    let pos = Position::startpos();
    assert_eq!(evaluate(&pos), params().tempo);
}

#[test]
fn doubled_and_isolated_pawns_penalized() {
    // White: a2, a3 doubled+isolated; Black: healthy b7, c7.
    let t = terms("4k3/1pp5/8/8/8/P7/P7/4K3 w - - 0 1");
    let w = term_net(&t, T_PAWN_STRUCT, Color::White);
    let b = term_net(&t, T_PAWN_STRUCT, Color::Black);
    assert!(w.mg < 0 && w.eg < 0, "white structure should be penalized: {w:?}");
    assert_eq!(b, Score::default(), "black structure is healthy: {b:?}");
}

#[test]
fn backward_pawn_detected() {
    // White pawns: c4, d3. Black pawn: e5 (attacks d4). d3's only neighbor
    // (c4) is ahead, and d4 is enemy-pawn-controlled => backward.
    let t = terms("4k3/8/8/4p3/2P5/3P4/8/4K3 w - - 0 1");
    let w = term_net(&t, T_PAWN_STRUCT, Color::White);
    assert!(
        w.mg <= -params().backward_pawn.0,
        "d3 should be flagged backward: {w:?}"
    );
}

#[test]
fn knight_outpost_detected() {
    // White Nd5 supported by pawn e4; black has no c- or e-pawns to evict it.
    let t = terms("4k3/8/8/3N4/4P3/8/8/4K3 w - - 0 1");
    let w = term_net(&t, T_OUTPOST, Color::White);
    assert_eq!(w.mg, params().knight_outpost.0, "Nd5 is an outpost: {w:?}");

    // Same but black pawn on c7 can eventually attack d5: no outpost.
    let t2 = terms("4k3/2p5/8/3N4/4P3/8/8/4K3 w - - 0 1");
    let w2 = term_net(&t2, T_OUTPOST, Color::White);
    assert_eq!(w2.mg, 0, "c7 pawn denies the outpost: {w2:?}");
}

#[test]
fn rook_on_seventh_detected() {
    // White Ra7, black king on e8 (8th rank) => bonus.
    let t = terms("4k3/R7/8/8/8/8/8/4K3 w - - 0 1");
    let w = term_net(&t, T_ROOK_7TH, Color::White);
    assert_eq!(w.mg, params().rook_on_seventh.0);

    // Black king off the back rank and no pawns on the 7th => no bonus.
    let t2 = terms("8/R7/4k3/8/8/8/8/4K3 w - - 0 1");
    let w2 = term_net(&t2, T_ROOK_7TH, Color::White);
    assert_eq!(w2.mg, 0);
}

#[test]
fn passed_pawn_blocked_worth_less() {
    // White passed pawn on e5; in the second position a black knight
    // blockades e6. Material differs, so compare the passed-pawn term only.
    let open = terms("4k3/8/8/4P3/8/8/8/4K3 w - - 0 1");
    let blocked = terms("4k3/8/4n3/4P3/8/8/8/4K3 w - - 0 1");
    let wo = term_net(&open, T_PASSED, Color::White);
    let wb = term_net(&blocked, T_PASSED, Color::White);
    assert!(
        wb.eg < wo.eg,
        "blockaded passer should be worth less: open {wo:?} blocked {wb:?}"
    );
}

#[test]
fn shattered_king_shelter_penalized() {
    // Castled king with an intact f2/g2/h2 shield...
    let intact = terms("6k1/5ppp/8/8/8/8/5PPP/6K1 w - - 0 1");
    // ...vs the same with white's g/h pawns ripped away.
    let stripped = terms("6k1/5ppp/8/8/8/8/5P2/6K1 w - - 0 1");
    let wi = term_net(&intact, T_KING_SAFETY, Color::White);
    let ws = term_net(&stripped, T_KING_SAFETY, Color::White);
    assert!(
        ws.mg < wi.mg,
        "stripped shelter must score worse: intact {wi:?} stripped {ws:?}"
    );
}

#[test]
fn pawn_threat_on_piece_detected() {
    // White pawn e4 attacks black knight d5.
    let t = terms("4k3/8/8/3n4/4P3/8/8/4K3 w - - 0 1");
    let w = term_net(&t, T_THREATS, Color::White);
    assert_eq!(w.mg, params().pawn_threat[PieceType::Knight.index()].0);
}

#[test]
fn eval_is_color_symmetric() {
    beluga_core::attacks::init();
    // A middlegame position and its exact color-mirror must evaluate
    // identically from the mover's perspective.
    let a = Position::from_fen(
        "r1bqk2r/pppp1ppp/2n2n2/2b1p3/2B1P3/3P1N2/PPP2PPP/RNBQK2R w KQkq - 0 1",
    )
    .unwrap();
    let b = Position::from_fen(
        "rnbqk2r/ppp2ppp/3p1n2/2b1p3/2B1P3/2N2N2/PPPP1PPP/R1BQK2R b KQkq - 0 1",
    )
    .unwrap();
    assert_eq!(evaluate(&a), evaluate(&b));
}

#[test]
fn king_shelter_exact_values() {
    // Full shield on f2/g2/h2, no attackers: nothing is taken off.
    let intact = terms("6k1/5ppp/8/8/8/8/5PPP/6K1 w - - 0 1");
    assert_eq!(term_net(&intact, T_KING_SAFETY, Color::White), Score { mg: 0, eg: 0 });
    // Only f2 is left: 21 off for each of the g and h files, 9 for the
    // half-open king file.
    let stripped = terms("6k1/5ppp/8/8/8/8/5P2/6K1 w - - 0 1");
    assert_eq!(term_net(&stripped, T_KING_SAFETY, Color::White), Score { mg: -51, eg: 0 });
    // The g pawn one rank further up costs seven.
    let advanced = terms("6k1/5ppp/8/8/8/6P1/5P1P/6K1 w - - 0 1");
    assert_eq!(term_net(&advanced, T_KING_SAFETY, Color::White), Score { mg: -7, eg: 0 });
}
