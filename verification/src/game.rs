//! Game-level queries for front ends: the state of play, the legal moves as
//! text, and playing a move given in UCI notation.
use vstd::prelude::*;
use crate::bitboard::{lemma_nonzero_iff, mem};
use crate::chess_move::{MoveList, uci_bytes};
use crate::movegen::{generate_legal, pawn_ranks_valid, pawns_on_board, legal_list};
use crate::position::{
    PosView, Position, attacked_by, counters_ok, has_king, holds, insufficient, occ_of, repeats,
    spec_make,
};
use crate::fen::{split_words, words};
use crate::text::{all_ascii, ascii_string, chars_of, lemma_ascii_concat, push_all};
use crate::types::{Color, PieceType, opposite};
use vstd::string::StringSliceAdditionalSpecFns;

verus! {

/// State of play.
#[derive(Clone, Copy, PartialEq, Eq, Structural, Debug)]
pub enum GameResult {
    Ongoing,
    Checkmate,
    Stalemate,
    Draw,
}

/// The lowest king of the side to move is attacked.
pub open spec fn side_in_check(v: PosView) -> bool {
    exists|k: int|
        0 <= k < 64 && holds(v.board, k, v.side, PieceType::King) && (forall|j: int|
            0 <= j < k ==> !holds(v.board, j, v.side, PieceType::King)) && attacked_by(
            v.board,
            k,
            opposite(v.side),
            occ_of(v.board),
        )
}

/// The state of play when the generator yields the move list `l`.
pub open spec fn result_of(v: PosView, l: Seq<crate::chess_move::Move>) -> GameResult {
    if l.len() == 0 {
        if side_in_check(v) {
            GameResult::Checkmate
        } else {
            GameResult::Stalemate
        }
    } else if repeats(v) || v.halfmove >= 100 || insufficient(v.board) {
        GameResult::Draw
    } else {
        GameResult::Ongoing
    }
}

/// The position can be played on: well formed, the side to move has a king,
/// no pawn on its far rank, and the move counters can still advance.
pub open spec fn can_play_spec(v: PosView) -> bool {
    &&& has_king(v.board, v.side)
    &&& pawns_on_board(v.board)
    &&& counters_ok(v)
}

/// Can moves be generated and played in this position?
pub fn can_play(pos: &Position) -> (r: bool)
    requires
        pos.wf(),
    ensures
        r == can_play_spec(pos@),
{
    let k = pos.pieces(pos.side_to_move(), PieceType::King);
    proof {
        lemma_nonzero_iff(k.0);
        if has_king(pos@.board, pos@.side) {
            let s = choose|s: int| 0 <= s < 64 && holds(pos@.board, s, pos@.side, PieceType::King);
            assert(mem(k.0, s));
        }
    }
    k.any() && pawn_ranks_valid(pos) && pos.halfmove_clock() < 0xFFFF && pos.fullmove_number()
        < 0xFFFF
}

/// Checkmate, stalemate, a draw by rule, or play continues.
pub fn game_result(pos: &Position) -> (r: GameResult)
    requires
        pos.wf(),
        has_king(pos@.board, pos@.side),
        pawns_on_board(pos@.board),
    ensures
        exists|l: Seq<crate::chess_move::Move>| #[trigger] legal_list(pos@, l) && r == result_of(pos@, l),
        crate::movegen::single_king(pos@.board, pos@.side) && (exists|m: u16| #[trigger] crate::movegen::legal_move(pos@, m))
            ==> (r == GameResult::Draw <==> (repeats(pos@) || pos@.halfmove >= 100 || insufficient(pos@.board))),
{
    let mut list = MoveList::new();
    generate_legal(pos, &mut list);
    proof {
        assert(legal_list(pos@, list@));
        if crate::movegen::single_king(pos@.board, pos@.side) {
            lemma_result_rules(pos@, list@);
        }
    }
    if list.is_empty() {
        if pos.in_check() {
            return GameResult::Checkmate;
        }
        return GameResult::Stalemate;
    }
    if pos.is_repetition() || pos.is_fifty_move() || pos.is_insufficient_material() {
        return GameResult::Draw;
    }
    GameResult::Ongoing
}

/// The move a search falls back on when it has no result of its own: the first
/// generated move, or the null move when there is none.
pub fn fallback_move(pos: &Position) -> (r: crate::chess_move::Move)
    requires
        pos.wf(),
        has_king(pos@.board, pos@.side),
        pawns_on_board(pos@.board),
    ensures
        exists|l: Seq<crate::chess_move::Move>|
            #[trigger] legal_list(pos@, l) && r == (if l.len() == 0 {
                crate::chess_move::Move(0)
            } else {
                l[0]
            }),
{
    let mut list = MoveList::new();
    generate_legal(pos, &mut list);
    proof {
        assert(legal_list(pos@, list@));
    }
    if list.is_empty() {
        crate::chess_move::Move(0)
    } else {
        list.get(0)
    }
}

/// The UCI texts of `l`, separated by single spaces.
pub open spec fn moves_text(l: Seq<crate::chess_move::Move>) -> Seq<u8>
    decreases l.len(),
{
    if l.len() == 0 {
        Seq::empty()
    } else if l.len() == 1 {
        uci_bytes(l[0].0)
    } else {
        moves_text(l.drop_last()) + seq![32u8] + uci_bytes(l.last().0)
    }
}

/// The legal moves in UCI notation, separated by spaces.
pub fn legal_moves_text(pos: &Position) -> (r: String)
    requires
        pos.wf(),
        has_king(pos@.board, pos@.side),
        pawns_on_board(pos@.board),
    ensures
        exists|l: Seq<crate::chess_move::Move>| #[trigger] legal_list(pos@, l) && r@ == chars_of(moves_text(l)),
{
    let mut list = MoveList::new();
    generate_legal(pos, &mut list);
    let ghost l = list@;
    proof {
        assert(legal_list(pos@, l));
    }
    let mut out: Vec<u8> = Vec::new();
    let mut i: usize = 0;
    while i < list.len()
        invariant
            list.wf(),
            l == list@,
            0 <= i <= l.len(),
            out@ == moves_text(l.subrange(0, i as int)),
            all_ascii(out@),
        decreases l.len() - i,
    {
        let m = list.get(i);
        let u = m.uci_bytes();
        let ghost before = out@;
        if i > 0 {
            out.push(32);
        }
        push_all(&mut out, u.as_slice());
        proof {
            let s = l.subrange(0, i + 1);
            assert(s.drop_last() =~= l.subrange(0, i as int));
            assert(s.last() == m);
            if i > 0 {
                lemma_ascii_concat(before, seq![32u8]);
                lemma_ascii_concat(before + seq![32u8], u@);
                assert(out@ =~= before + seq![32u8] + u@);
            } else {
                assert(out@ =~= u@);
            }
        }
        i = i + 1;
    }
    proof {
        assert(l.subrange(0, l.len() as int) =~= l);
    }
    ascii_string(out)
}

/// Play the legal move whose UCI text is `text`. Returns false, leaving the
/// position unchanged, when no legal move has that text.
pub fn play_uci_move(pos: &mut Position, text: &str) -> (r: bool)
    requires
        old(pos).wf(),
        can_play_spec(old(pos)@),
    ensures
        final(pos).wf(),
        r ==> exists|m: u16|
            #![trigger spec_make(old(pos)@, m)]
            crate::movegen::legal_move(old(pos)@, m) && uci_bytes(m) == text.spec_bytes()
                && final(pos)@ == spec_make(old(pos)@, m),
        !r ==> final(pos)@ == old(pos)@,
        exists|l: Seq<crate::chess_move::Move>|
            #[trigger] legal_list(old(pos)@, l) && (!r <==> forall|i: int|
                0 <= i < l.len() ==> uci_bytes(#[trigger] l[i].0) != text.spec_bytes()),
{
    let ghost v = pos@;
    match pos.parse_uci_move(text) {
        Some(m) => {
            proof {
                let l = choose|l: Seq<crate::chess_move::Move>|
                    #[trigger] legal_list(v, l) && exists|i: int|
                        0 <= i < l.len() && #[trigger] l[i] == m && uci_bytes(m.0) == text.spec_bytes()
                            && forall|j: int| 0 <= j < i ==> uci_bytes(#[trigger] l[j].0) != text.spec_bytes();
                let i = choose|i: int|
                    0 <= i < l.len() && #[trigger] l[i] == m && uci_bytes(m.0) == text.spec_bytes()
                        && forall|j: int| 0 <= j < i ==> uci_bytes(#[trigger] l[j].0) != text.spec_bytes();
                assert(crate::movegen::legal_move(v, l[i].0));
                assert(uci_bytes(l[i].0) == text.spec_bytes());
            }
            pos.make_move(m);
            true
        },
        None => false,
    }
}

/// The position reached from `v` by playing the moves of `ms` in order.
pub open spec fn after_moves(v: PosView, ms: Seq<u16>) -> PosView
    decreases ms.len(),
{
    if ms.len() == 0 {
        v
    } else {
        spec_make(after_moves(v, ms.drop_last()), ms.last())
    }
}

/// `ms` plays the words of `ws` one by one from `v`: before each move the
/// position can be played on, and the move is a generated move named by its word.
pub open spec fn plays_words(v: PosView, ms: Seq<u16>, ws: Seq<Seq<u8>>) -> bool {
    &&& ms.len() <= ws.len()
    &&& forall|i: int|
        0 <= i < ms.len() ==> #[trigger] plays_word(after_moves(v, ms.take(i)), ms[i], ws[i])
}

/// From `v`, which can be played on, the generated move `m` is named by the word `w`.
#[verifier::opaque]
pub open spec fn plays_word(v: PosView, m: u16, w: Seq<u8>) -> bool {
    &&& can_play_spec(v)
    &&& crate::movegen::legal_move(v, m)
    &&& uci_bytes(m) == w
}

/// No move can be played for the word `w` from `v`: the position cannot be
/// played on, or no generated move has that text.
pub open spec fn refuses_word(v: PosView, w: Seq<u8>) -> bool {
    ||| !can_play_spec(v)
    ||| exists|l: Seq<crate::chess_move::Move>|
        #[trigger] legal_list(v, l) && forall|i: int|
            0 <= i < l.len() ==> uci_bytes(#[trigger] l[i].0) != w
}

/// A move that the lookup by text found is a generated move with that text.
proof fn lemma_found_is_legal(v: PosView, t: Seq<u8>, m: crate::chess_move::Move)
    requires
        exists|l: Seq<crate::chess_move::Move>|
            #[trigger] legal_list(v, l) && exists|i: int|
                0 <= i < l.len() && #[trigger] l[i] == m && uci_bytes(m.0) == t && forall|j: int|
                    0 <= j < i ==> uci_bytes(#[trigger] l[j].0) != t,
    ensures
        crate::movegen::legal_move(v, m.0),
        uci_bytes(m.0) == t,
{
    let l = choose|l: Seq<crate::chess_move::Move>|
        #[trigger] legal_list(v, l) && exists|i: int|
            0 <= i < l.len() && #[trigger] l[i] == m && uci_bytes(m.0) == t && forall|j: int|
                0 <= j < i ==> uci_bytes(#[trigger] l[j].0) != t;
    let i = choose|i: int|
        0 <= i < l.len() && #[trigger] l[i] == m && uci_bytes(m.0) == t && forall|j: int|
            0 <= j < i ==> uci_bytes(#[trigger] l[j].0) != t;
    assert(crate::movegen::legal_move(v, l[i].0));
}

/// One more word played keeps the chain.
proof fn lemma_plays_one_more(v0: PosView, ms: Seq<u16>, ws: Seq<Seq<u8>>, m: u16)
    requires
        plays_words(v0, ms, ws),
        ms.len() < ws.len(),
        plays_word(after_moves(v0, ms), m, ws[ms.len() as int]),
    ensures
        plays_words(v0, ms.push(m), ws),
        after_moves(v0, ms.push(m)) == spec_make(after_moves(v0, ms), m),
{
    let ms2 = ms.push(m);
    assert(ms2.drop_last() =~= ms);
    assert(ms2.take(ms.len() as int) =~= ms);
    assert forall|k: int| 0 <= k < ms2.len() implies #[trigger] plays_word(
        after_moves(v0, ms2.take(k)),
        ms2[k],
        ws[k],
    ) by {
        if k < ms.len() {
            assert(ms2.take(k) =~= ms.take(k));
            assert(ms2[k] == ms[k]);
        }
    }
}

/// Play the whitespace-separated UCI move words of `moves` in turn, stopping at
/// the first word that names no legal move of the position reached. Returns the
/// number of words played.
pub fn play_moves(pos: &mut Position, moves: &[u8]) -> (r: usize)
    requires
        old(pos).wf(),
    ensures
        final(pos).wf(),
        r <= words(moves@).len(),
        exists|ms: Seq<u16>|
            #![trigger after_moves(old(pos)@, ms)]
            ms.len() == r && plays_words(old(pos)@, ms, words(moves@)) && final(pos)@
                == after_moves(old(pos)@, ms),
        r < words(moves@).len() ==> refuses_word(final(pos)@, words(moves@)[r as int]),
{
    let w = split_words(moves);
    let ghost ws = words(moves@);
    let ghost v0 = pos@;
    let ghost mut ms: Seq<u16> = Seq::empty();
    let mut i: usize = 0;
    while i < w.len()
        invariant_except_break
            pos.wf(),
            w@.len() == ws.len(),
            forall|k: int| 0 <= k < w@.len() ==> #[trigger] w@[k]@ == ws[k],
            ws == words(moves@),
            0 <= i <= ws.len(),
            ms.len() == i,
            plays_words(v0, ms, ws),
            pos@ == after_moves(v0, ms),
        ensures
            pos.wf(),
            0 <= i <= ws.len(),
            ms.len() == i,
            plays_words(v0, ms, ws),
            pos@ == after_moves(v0, ms),
            i < ws.len() ==> refuses_word(pos@, ws[i as int]),
        decreases ws.len() - i,
    {
        if !can_play(pos) {
            break;
        }
        let ghost v = pos@;
        let text = w[i].as_slice();
        match pos.find_uci_move(text) {
            Some(m) => {
                proof {
                    lemma_found_is_legal(v, text@, m);
                }
                pos.make_move(m);
                proof {
                    reveal(plays_word);
                    lemma_plays_one_more(v0, ms, ws, m.0);
                    ms = ms.push(m.0);
                }
                i = i + 1;
            },
            None => {
                break;
            },
        }
    }
    i
}


/// How a game stands, over any list of the legal moves (each once, all of them
/// when the side to move has one king): without a legal move the game is lost
/// when in check and stalemated otherwise; with one, a position that has
/// occurred before, a halfmove clock of 100 or more, or too little material to
/// mate is a draw, and play goes on in every other case.
pub proof fn lemma_result_rules(v: PosView, l: Seq<crate::chess_move::Move>)
    requires
        legal_list(v, l),
        crate::movegen::single_king(v.board, v.side),
    ensures
        (forall|m: u16| !#[trigger] crate::movegen::legal_move(v, m)) ==> result_of(v, l) == (if side_in_check(v) {
            GameResult::Checkmate
        } else {
            GameResult::Stalemate
        }),
        (exists|m: u16| #[trigger] crate::movegen::legal_move(v, m)) ==> (result_of(v, l) == GameResult::Draw <==> (
        repeats(v) || v.halfmove >= 100 || insufficient(v.board))),
        (exists|m: u16| #[trigger] crate::movegen::legal_move(v, m)) ==> (result_of(v, l) == GameResult::Ongoing <==> !(
        repeats(v) || v.halfmove >= 100 || insufficient(v.board))),
{
    if exists|m: u16| #[trigger] crate::movegen::legal_move(v, m) {
        let m = choose|m: u16| #[trigger] crate::movegen::legal_move(v, m);
        assert(crate::movegen::listed(l, m));
    } else if l.len() > 0 {
        assert(crate::movegen::legal_move(v, l[0].0));
    }
}

} // verus!
