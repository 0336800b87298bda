//! Board representation, FEN handling, and incremental make/unmake.
use vstd::prelude::*;
use crate::attacks::{
    bishop_attacks, bishop_hit, king_adj, king_attacks, knight_adj, knight_attacks, pawn_adj,
    pawn_attacks, rook_attacks, rook_hit, lemma_bishop_sym, lemma_rook_sym, lemma_leaper_sym,
};
use crate::bitboard::{Bitboard, group_bits, lemma_lowest, lowest, mem, popcount, single};
use crate::fen::{board_error, board_error_from, rank_shown, bytes_rank_pre, bytes_rank_suf, bytes_file_over, bytes_bad_piece, bytes_quote, bytes_out, bytes_not_8x8, bytes_missing, bytes_side, bytes_castle, bytes_ep, bytes_kings, bytes_check, msg_missing, msg_side, msg_castle, msg_quote, msg_ep, msg_kings, msg_check, 
    Scan, castle_field, empty_board, lemma_scan_inv, lemma_scan_tail, parse_castling, parse_u16, placement, scan,
    scan_inv, scan_step, split_words, u16_field, words,
};
use crate::movegen::{generate_legal, pawns_on_board, legal_list};
use crate::text::{all_ascii, ascii_string, bytes_eq, char_at, char_bytes, chars_of, dec, int_bytes, lemma_ascii_concat, lemma_dec_ascii, push_all, push_decimal};
use vstd::string::StringSliceAdditionalSpecFns;
use crate::chess_move::{
    Move, MoveList, flag_is_promotion, mv_flag, mv_from, mv_to, promo_type, uci_bytes,
};
use crate::types::{
    CastlingRights, Color, NO_PIECE, Piece, PieceType, Square, castling_field, char_code, code_char, code_color,
    code_type, color_idx, file_of, opposite, piece_code, pt_idx, rank_of, square_from_name,
};
use crate::zobrist::{
    castling_key, ckey, color_key, ekey, en_passant_key, piece_key, pkey, side_key, skey,
};

verus! {

broadcast use group_bits;

pub const START_FEN: &'static str = "rnbqkbnr/pppppppp/8/8/8/8/PPPPPPPP/RNBQKBNR w KQkq - 0 1";

/// Per-ply data needed to undo a move in O(1).
#[derive(Clone, Copy, PartialEq, Eq, Structural, Debug)]
pub struct Undo {
    pub captured: u8,
    pub castling: CastlingRights,
    pub ep_square: Option<Square>,
    pub halfmove: u16,
    pub key: u64,
}

/// Mathematical model of a position.
#[verifier::ext_equal]
pub struct PosView {
    /// Piece code on each of the 64 squares (`12` = empty).
    pub board: Seq<u8>,
    pub side: Color,
    pub castling: u8,
    pub ep: Option<Square>,
    pub halfmove: u16,
    pub fullmove: u16,
    pub key: u64,
    /// Undo records of the moves made since the position was loaded.
    pub undo: Seq<Undo>,
    /// Keys of the positions since the position was loaded, the current one last.
    pub keys: Seq<u64>,
}

pub struct Position {
    piece_bb: [u64; 12],
    color_bb: [u64; 2],
    occupied: u64,
    mailbox: [u8; 64],
    side: Color,
    castling: CastlingRights,
    ep_square: Option<Square>,
    halfmove: u16,
    fullmove: u16,
    key: u64,
    history: Vec<Undo>,
    key_history: Vec<u64>,
}

// -- key model -----------------------------------------------------------------

/// Key contribution of code `p` on square `s` (nothing for an empty square).
pub open spec fn sq_term(p: u8, s: int) -> u64 {
    if p < 12 {
        pkey(p as int, s)
    } else {
        0
    }
}

/// XOR of the piece-square keys of the first `n` squares.
pub open spec fn board_hash(b: Seq<u8>, n: int) -> u64
    decreases n,
{
    if n <= 0 {
        0
    } else {
        board_hash(b, n - 1) ^ sq_term(b[n - 1], n - 1)
    }
}

pub open spec fn ep_term(ep: Option<Square>) -> u64 {
    match ep {
        Some(e) => ekey(file_of(e.0 as int)),
        None => 0,
    }
}

pub open spec fn side_term(c: Color) -> u64 {
    if c == Color::Black {
        skey()
    } else {
        0
    }
}

/// The Zobrist key of a position, computed from scratch.
pub open spec fn full_key(b: Seq<u8>, castling: u8, ep: Option<Square>, side: Color) -> u64 {
    ((board_hash(b, 64) ^ ckey(castling as int)) ^ ep_term(ep)) ^ side_term(side)
}

pub proof fn lemma_xor(a: u64, b: u64, c: u64)
    ensures
        a ^ b == b ^ a,
        (a ^ b) ^ c == a ^ (b ^ c),
        a ^ a == 0,
        a ^ 0 == a,
        0 ^ a == a,
{
    assert(a ^ b == b ^ a && (a ^ b) ^ c == a ^ (b ^ c) && a ^ a == 0 && a ^ 0 == a && 0 ^ a == a)
        by (bit_vector);
}

/// Changing one square changes the hash by the old and the new square terms.
pub proof fn lemma_hash_update(b: Seq<u8>, i: int, v: u8, n: int)
    requires
        0 <= i < b.len(),
        0 <= n <= b.len(),
    ensures
        board_hash(b.update(i, v), n) == if i < n {
            board_hash(b, n) ^ sq_term(b[i], i) ^ sq_term(v, i)
        } else {
            board_hash(b, n)
        },
    decreases n,
{
    if n > 0 {
        lemma_hash_update(b, i, v, n - 1);
        let h = board_hash(b, n - 1);
        let o = sq_term(b[i], i);
        let w = sq_term(v, i);
        let t = sq_term(b[n - 1], n - 1);
        assert(((h ^ o) ^ w) ^ t == ((h ^ t) ^ o) ^ w && h ^ w == ((h ^ o) ^ o) ^ w) by (bit_vector);
        if i < n - 1 {
            assert(b.update(i, v)[n - 1] == b[n - 1]);
        } else if i == n - 1 {
        } else {
            assert(b.update(i, v)[n - 1] == b[n - 1]);
        }
    }
}

// -- well-formedness -------------------------------------------------------------

/// Square holding the pawn that an en-passant capture by `c` onto `e` removes.
pub open spec fn cap_sq(c: Color, e: int) -> int {
    if c == Color::White {
        e - 8
    } else {
        e + 8
    }
}

/// Castling mask applied for a move touching square `s`.
pub open spec fn castle_mask(s: int) -> u8 {
    if s == 0 {
        13u8
    } else if s == 7 {
        14u8
    } else if s == 4 {
        12u8
    } else if s == 56 {
        7u8
    } else if s == 63 {
        11u8
    } else if s == 60 {
        3u8
    } else {
        15u8
    }
}

/// An en-passant square, when set, is empty and has the pawn to capture behind it.
pub open spec fn ep_ok(v: PosView) -> bool {
    match v.ep {
        Some(e) => {
            let c = cap_sq(v.side, e.0 as int);
            e.0 < 64 && rank_of(e.0 as int) == (if v.side == Color::White { 5int } else { 2int }) && 0 <= c < 64
                && v.board[e.0 as int] == NO_PIECE && v.board[c] == piece_code(opposite(v.side), PieceType::Pawn)
        },
        None => true,
    }
}

/// Every castling right has its king and rook on their home squares.
pub open spec fn castle_ok(v: PosView) -> bool {
    &&& (v.castling & 1 != 0 ==> v.board[4] == 5 && v.board[7] == 3)
    &&& (v.castling & 2 != 0 ==> v.board[4] == 5 && v.board[0] == 3)
    &&& (v.castling & 4 != 0 ==> v.board[60] == 11 && v.board[63] == 9)
    &&& (v.castling & 8 != 0 ==> v.board[60] == 11 && v.board[56] == 9)
}

/// Invariant of the position model.
pub open spec fn view_ok(v: PosView) -> bool {
    &&& v.board.len() == 64
    &&& forall|s: int| 0 <= s < 64 ==> #[trigger] v.board[s] <= 12
    &&& v.castling < 16
    &&& ep_ok(v)
    &&& castle_ok(v)
    &&& v.key == full_key(v.board, v.castling, v.ep, v.side)
    &&& v.keys.len() == v.undo.len() + 1
    &&& v.keys.last() == v.key
}

impl View for Position {
    type V = PosView;

    closed spec fn view(&self) -> PosView {
        PosView {
            board: self.mailbox@,
            side: self.side,
            castling: self.castling.0,
            ep: self.ep_square,
            halfmove: self.halfmove,
            fullmove: self.fullmove,
            key: self.key,
            undo: self.history@,
            keys: self.key_history@,
        }
    }
}

/// Does the board hold a piece of color `c` and type `pt` on `s`?
pub open spec fn holds(b: Seq<u8>, s: int, c: Color, pt: PieceType) -> bool {
    b[s] == piece_code(c, pt)
}

impl Position {
    /// The bitboards agree with the mailbox.
    pub closed spec fn bb_ok(&self) -> bool {
        &&& forall|p: int, s: int|
            0 <= p < 12 ==> #[trigger] mem(self.piece_bb[p], s) == (0 <= s < 64 && self.mailbox@[s]
                == p)
        &&& forall|c: int, s: int|
            0 <= c < 2 ==> #[trigger] mem(self.color_bb[c], s) == (0 <= s < 64 && self.mailbox@[s]
                < 12 && color_idx(code_color(self.mailbox@[s] as int)) == c)
        &&& forall|s: int| #[trigger] mem(self.occupied, s) == (0 <= s < 64 && self.mailbox@[s] < 12)
    }

    /// The position is well formed.
    pub closed spec fn wf(&self) -> bool {
        self.bb_ok() && view_ok(self@)
    }

    pub proof fn lemma_wf(&self)
        requires
            self.wf(),
        ensures
            view_ok(self@),
            self.bb_ok(),
    {
    }

    // -- accessors -----------------------------------------------------------

    pub fn side_to_move(&self) -> (r: Color)
        ensures
            r == self@.side,
    {
        self.side
    }

    pub fn key(&self) -> (r: u64)
        ensures
            r == self@.key,
    {
        self.key
    }

    pub fn halfmove_clock(&self) -> (r: u16)
        ensures
            r == self@.halfmove,
    {
        self.halfmove
    }

    pub fn fullmove_number(&self) -> (r: u16)
        ensures
            r == self@.fullmove,
    {
        self.fullmove
    }

    pub fn ep_square(&self) -> (r: Option<Square>)
        ensures
            r == self@.ep,
    {
        self.ep_square
    }

    pub fn castling_rights(&self) -> (r: CastlingRights)
        ensures
            r.0 == self@.castling,
    {
        self.castling
    }

    pub fn occupied(&self) -> (r: Bitboard)
        requires
            self.wf(),
        ensures
            forall|s: int| #[trigger] mem(r.0, s) == (0 <= s < 64 && self@.board[s] < 12),
    {
        Bitboard(self.occupied)
    }

    pub fn pieces(&self, color: Color, pt: PieceType) -> (r: Bitboard)
        requires
            self.wf(),
        ensures
            forall|s: int| #[trigger] mem(r.0, s) == (0 <= s < 64 && holds(self@.board, s, color, pt)),
    {
        let i = Piece::new(color, pt).index();
        Bitboard(self.piece_bb[i])
    }

    pub fn pieces_by_type(&self, pt: PieceType) -> (r: Bitboard)
        requires
            self.wf(),
        ensures
            forall|s: int| #[trigger]
                mem(r.0, s) == (0 <= s < 64 && (holds(self@.board, s, Color::White, pt) || holds(
                    self@.board,
                    s,
                    Color::Black,
                    pt,
                ))),
    {
        Bitboard(self.pieces(Color::White, pt).0 | self.pieces(Color::Black, pt).0)
    }

    pub fn color_pieces(&self, color: Color) -> (r: Bitboard)
        requires
            self.wf(),
        ensures
            forall|s: int| #[trigger]
                mem(r.0, s) == (0 <= s < 64 && self@.board[s] < 12 && code_color(
                    self@.board[s] as int,
                ) == color),
    {
        let r = Bitboard(self.color_bb[color.index()]);
        proof {
            assert forall|s: int| #[trigger]
                mem(r.0, s) == (0 <= s < 64 && self@.board[s] < 12 && code_color(
                    self@.board[s] as int,
                ) == color) by {
                assert(mem(self.color_bb[color_idx(color)], s) == (0 <= s < 64 && self.mailbox@[s]
                    < 12 && color_idx(code_color(self.mailbox@[s] as int)) == color_idx(color)));
            }
        }
        r
    }

    pub fn piece_on(&self, sq: Square) -> (r: Option<Piece>)
        requires
            self.wf(),
            sq.0 < 64,
        ensures
            r == (if self@.board[sq.0 as int] == NO_PIECE {
                None
            } else {
                Some(Piece(self@.board[sq.0 as int]))
            }),
    {
        let p = self.mailbox[sq.0 as usize];
        if p == NO_PIECE {
            None
        } else {
            Some(Piece(p))
        }
    }

    /// Lowest square holding a king of `color`.
    pub fn king_square(&self, color: Color) -> (r: Square)
        requires
            self.wf(),
            has_king(self@.board, color),
        ensures
            r.0 < 64,
            holds(self@.board, r.0 as int, color, PieceType::King),
            forall|s: int| 0 <= s < r.0 ==> !holds(self@.board, s, color, PieceType::King),
    {
        let b = self.pieces(color, PieceType::King);
        proof {
            let w = choose|s: int| 0 <= s < 64 && holds(self@.board, s, color, PieceType::King);
            assert(mem(b.0, w));
        }
        let k = b.lsb();
        proof {
            assert(mem(b.0, k as int));
            assert forall|s: int| 0 <= s < k implies !holds(self@.board, s, color, PieceType::King) by {
                assert(!mem(b.0, s));
            }
        }
        Square(k)
    }


    // -- attack queries ------------------------------------------------------

    pub proof fn lemma_occ(&self)
        requires
            self.wf(),
        ensures
            self.occ_word() == occ_of(self@.board),
    {
        lemma_occ_upto(self@.board, 64);
        assert forall|t: int| 0 <= t < 64 implies #[trigger] mem(self.occupied, t) == mem(
            occ_of(self@.board),
            t,
        ) by {}
        crate::bitboard::lemma_bits_ext(self.occupied, occ_of(self@.board));
    }

    /// The occupancy word kept by the position.
    pub closed spec fn occ_word(&self) -> u64 {
        self.occupied
    }

    /// All pieces of both colors that attack `sq` given occupancy `occ`.
    pub fn attackers_to(&self, sq: Square, occ: Bitboard) -> (r: Bitboard)
        requires
            self.wf(),
            sq.0 < 64,
        ensures
            forall|x: int| #[trigger] mem(r.0, x) == attacker(self@.board, x, sq.0 as int, occ.0),
    {
        let s = sq.0;
        let b = &self.piece_bb;
        let bishops = b[2] | b[8] | b[4] | b[10];
        let rooks = b[3] | b[9] | b[4] | b[10];
        let r = (pawn_attacks(Color::Black, s) & b[0]) | (pawn_attacks(Color::White, s) & b[6])
            | (knight_attacks(s) & (b[1] | b[7])) | (king_attacks(s) & (b[5] | b[11]))
            | (bishop_attacks(s, occ.0) & bishops) | (rook_attacks(s, occ.0) & rooks);
        proof {
            assert forall|x: int| #[trigger] mem(r, x) == attacker(self@.board, x, sq.0 as int, occ.0) by {
                if 0 <= x < 64 {
                    lemma_leaper_sym(Color::White, s as int, x);
                    lemma_leaper_sym(Color::Black, s as int, x);
                    lemma_bishop_sym(s as int, occ.0, x);
                    lemma_rook_sym(s as int, occ.0, x);
                    assert(mem(b[0], x) == (self@.board[x] == 0));
                    assert(mem(b[1], x) == (self@.board[x] == 1));
                    assert(mem(b[2], x) == (self@.board[x] == 2));
                    assert(mem(b[3], x) == (self@.board[x] == 3));
                    assert(mem(b[4], x) == (self@.board[x] == 4));
                    assert(mem(b[5], x) == (self@.board[x] == 5));
                    assert(mem(b[6], x) == (self@.board[x] == 6));
                    assert(mem(b[7], x) == (self@.board[x] == 7));
                    assert(mem(b[8], x) == (self@.board[x] == 8));
                    assert(mem(b[9], x) == (self@.board[x] == 9));
                    assert(mem(b[10], x) == (self@.board[x] == 10));
                    assert(mem(b[11], x) == (self@.board[x] == 11));
                }
            }
        }
        Bitboard(r)
    }

    /// Is `sq` attacked by any piece of `by`?
    pub fn is_attacked(&self, sq: Square, by: Color, occ: Bitboard) -> (r: bool)
        requires
            self.wf(),
            sq.0 < 64,
        ensures
            r == attacked_by(self@.board, sq.0 as int, by, occ.0),
    {
        let a = self.attackers_to(sq, occ);
        let them = self.color_pieces(by);
        let r = a.0 & them.0;
        proof {
            crate::bitboard::lemma_nonzero_iff(r);
            if r != 0 {
                let x = choose|x: int| 0 <= x < 64 && #[trigger] mem(r, x);
                assert(attacker(self@.board, x, sq.0 as int, occ.0) && code_color(self@.board[x] as int) == by);
            }
            if attacked_by(self@.board, sq.0 as int, by, occ.0) {
                let x = choose|x: int| #[trigger] attacker(self@.board, x, sq.0 as int, occ.0) && code_color(self@.board[x] as int) == by;
                assert(mem(r, x));
            }
        }
        r != 0
    }

    /// Is the side to move in check?
    pub fn in_check(&self) -> (r: bool)
        requires
            self.wf(),
            has_king(self@.board, self@.side),
        ensures
            r == exists|k: int|
                0 <= k < 64 && holds(self@.board, k, self@.side, PieceType::King)
                    && (forall|j: int| 0 <= j < k ==> !holds(self@.board, j, self@.side, PieceType::King))
                    && attacked_by(self@.board, k, opposite(self@.side), occ_of(self@.board)),
    {
        let ksq = self.king_square(self.side);
        proof {
            self.lemma_occ();
        }
        self.is_attacked(ksq, self.side.flip(), Bitboard(self.occupied))
    }

    /// Bitboard of enemy pieces giving check to the side to move.
    pub fn checkers(&self) -> (r: Bitboard)
        requires
            self.wf(),
            has_king(self@.board, self@.side),
        ensures
            exists|k: int|
                0 <= k < 64 && holds(self@.board, k, self@.side, PieceType::King) && (forall|j: int|
                    0 <= j < k ==> !holds(self@.board, j, self@.side, PieceType::King)) && forall|
                    x: int,
                | #[trigger] mem(r.0, x) == (attacker(self@.board, x, k, occ_of(self@.board))
                    && code_color(self@.board[x] as int) == opposite(self@.side)),
    {
        let ksq = self.king_square(self.side);
        proof {
            self.lemma_occ();
        }
        let a = self.attackers_to(ksq, Bitboard(self.occupied));
        let them = self.color_pieces(self.side.flip());
        let r = Bitboard(a.0 & them.0);
        proof {
            assert forall|x: int| #[trigger] mem(r.0, x) == (attacker(self@.board, x, ksq.0 as int, occ_of(self@.board))
                    && code_color(self@.board[x] as int) == opposite(self@.side)) by {}
        }
        r
    }


    // -- draw detection ------------------------------------------------------

    /// True if the current position has repeated within the irreversible window.
    pub fn is_repetition(&self) -> (r: bool)
        requires
            self.wf(),
        ensures
            r == repeats(self@),
    {
        let n = self.key_history.len();
        if n < 5 {
            return false;
        }
        let limit = if (self.halfmove as usize) < n - 1 { self.halfmove as usize } else { n - 1 };
        let mut i: usize = 4;
        while i <= limit
            invariant
                n == self@.keys.len(),
                n >= 5,
                limit < n,
                limit == (if (self@.halfmove as int) < n - 1 { self@.halfmove as int } else { n - 1 }),
                4 <= i,
                i % 2 == 0,
                forall|j: int| 4 <= j < i && j % 2 == 0 ==> #[trigger] self@.keys[n - 1 - j] != self@.key,
            decreases limit + 2 - i,
        {
            if self.key_history[n - 1 - i] == self.key {
                return true;
            }
            i = i + 2;
        }
        proof {
            assert forall|j: int| 4 <= j <= limit && j % 2 == 0 implies #[trigger] self@.keys[n - 1 - j] != self@.key by {
                assert(j < i);
            }
        }
        false
    }

    pub fn is_fifty_move(&self) -> (r: bool)
        ensures
            r == (self@.halfmove >= 100),
    {
        self.halfmove >= 100
    }

    /// Draw by insufficient mating material (strict set only).
    pub fn is_insufficient_material(&self) -> (r: bool)
        requires
            self.wf(),
        ensures
            r == insufficient(self@.board),
    {
        let pawns = self.pieces_by_type(PieceType::Pawn);
        let rooks = self.pieces_by_type(PieceType::Rook);
        let queens = self.pieces_by_type(PieceType::Queen);
        proof {
            crate::bitboard::lemma_nonzero_iff(pawns.0);
            crate::bitboard::lemma_nonzero_iff(rooks.0);
            crate::bitboard::lemma_nonzero_iff(queens.0);
        }
        if pawns.any() || rooks.any() || queens.any() {
            proof {
                if pawns.0 != 0 {
                    let x = choose|x: int| 0 <= x < 64 && #[trigger] mem(pawns.0, x);
                    assert(self@.board[x] == 0 || self@.board[x] == 6);
                } else if rooks.0 != 0 {
                    let x = choose|x: int| 0 <= x < 64 && #[trigger] mem(rooks.0, x);
                    assert(self@.board[x] == 3 || self@.board[x] == 9);
                } else {
                    let x = choose|x: int| 0 <= x < 64 && #[trigger] mem(queens.0, x);
                    assert(self@.board[x] == 4 || self@.board[x] == 10);
                }
            }
            return false;
        }
        proof {
            assert forall|s: int| 0 <= s < 64 implies !(self@.board[s] == 0 || self@.board[s] == 6 || self@.board[s] == 3 || self@.board[s] == 9 || self@.board[s] == 4 || self@.board[s] == 10) by {
                assert(!mem(pawns.0, s));
                assert(!mem(rooks.0, s));
                assert(!mem(queens.0, s));
            }
        }
        let knights = self.pieces_by_type(PieceType::Knight);
        let bishops = self.pieces_by_type(PieceType::Bishop);
        let nk = knights.count();
        let nb = bishops.count();
        proof {
            lemma_popcount_count(knights.0, self@.board, 1, 7, 64);
            lemma_popcount_count(bishops.0, self@.board, 2, 8, 64);
        }
        nk + nb <= 1
    }

    /// Recompute the Zobrist key from scratch; on a well-formed position it is
    /// the key kept up to date by every move.
    pub fn recompute_key(&self) -> (r: u64)
        requires
            self.wf(),
        ensures
            r == full_key(self@.board, self@.castling, self@.ep, self@.side),
            r == self@.key,
    {
        self.compute_key()
    }

    /// The Zobrist key from scratch, from the mailbox.
    fn compute_key(&self) -> (r: u64)
        requires
            self.bb_ok(),
            self@.board.len() == 64,
            forall|s: int| 0 <= s < 64 ==> #[trigger] self@.board[s] <= 12,
            self@.castling < 16,
            self@.ep matches Some(e) ==> e.0 < 64,
        ensures
            r == full_key(self@.board, self@.castling, self@.ep, self@.side),
    {
        let mut key: u64 = 0;
        let mut sq: u8 = 0;
        while sq < 64
            invariant
                0 <= sq <= 64,
                self@.board.len() == 64,
                forall|s: int| 0 <= s < 64 ==> #[trigger] self@.board[s] <= 12,
                key == board_hash(self@.board, sq as int),
            decreases 64 - sq,
        {
            let p = self.mailbox[sq as usize];
            if p != NO_PIECE {
                key = key ^ piece_key(Piece(p), Square(sq));
            } else {
                proof {
                    lemma_xor(key, 0, 0);
                }
            }
            sq = sq + 1;
        }
        key = key ^ castling_key(self.castling.0);
        if let Some(ep) = self.ep_square {
            key = key ^ en_passant_key(ep.file());
        } else {
            proof {
                lemma_xor(key, 0, 0);
            }
        }
        let ck = color_key(self.side);
        key ^ ck
    }

    /// True if `color` has any piece other than pawns and its king.
    pub fn has_non_pawn_material(&self, color: Color) -> (r: bool)
        requires
            self.wf(),
        ensures
            r == exists|s: int|
                0 <= s < 64 && #[trigger] self@.board[s] < 12 && code_color(self@.board[s] as int)
                    == color && code_type(self@.board[s] as int) != PieceType::Pawn && code_type(
                    self@.board[s] as int,
                ) != PieceType::King,
    {
        let own = self.color_pieces(color);
        let pawns = self.pieces(color, PieceType::Pawn);
        let kings = self.pieces(color, PieceType::King);
        let w = own.0 & !(pawns.0 | kings.0);
        proof {
            crate::bitboard::lemma_nonzero_iff(w);
            assert forall|s: int| 0 <= s < 64 implies #[trigger] mem(w, s) == (self@.board[s] < 12 && code_color(self@.board[s] as int)
                    == color && code_type(self@.board[s] as int) != PieceType::Pawn && code_type(
                    self@.board[s] as int,
                ) != PieceType::King) by {
                if self@.board[s] < 12 {
                    lemma_code_split(self@.board[s] as int);
                    lemma_code_parts(color, PieceType::Pawn);
                    lemma_code_parts(color, PieceType::King);
                }
            }
            if exists|s: int|
                0 <= s < 64 && #[trigger] self@.board[s] < 12 && code_color(self@.board[s] as int)
                    == color && code_type(self@.board[s] as int) != PieceType::Pawn && code_type(
                    self@.board[s] as int,
                ) != PieceType::King {
                let s = choose|s: int|
                0 <= s < 64 && #[trigger] self@.board[s] < 12 && code_color(self@.board[s] as int)
                    == color && code_type(self@.board[s] as int) != PieceType::Pawn && code_type(
                    self@.board[s] as int,
                ) != PieceType::King;
                assert(mem(w, s));
            }
        }
        w != 0
    }


    // -- FEN -----------------------------------------------------------------

    fn empty() -> (r: Position)
        ensures
            r.bb_ok(),
            r@ == (PosView {
                board: empty_board(),
                side: Color::White,
                castling: 0,
                ep: None,
                halfmove: 0,
                fullmove: 1,
                key: 0,
                undo: Seq::empty(),
                keys: Seq::empty(),
            }),
    {
        let r = Position {
            piece_bb: [0u64; 12],
            color_bb: [0u64; 2],
            occupied: 0,
            mailbox: [NO_PIECE; 64],
            side: Color::White,
            castling: CastlingRights(0),
            ep_square: None,
            halfmove: 0,
            fullmove: 1,
            key: 0,
            history: Vec::new(),
            key_history: Vec::new(),
        };
        proof {
            assert(r.mailbox@ =~= empty_board());
        }
        r
    }


    /// The standard starting position (the one `START_FEN` describes).
    #[verifier::rlimit(80)]
    #[verifier::spinoff_prover]
    pub fn startpos() -> (r: Position)
        ensures
            r.wf(),
            r@ == loaded(start_board(), Color::White, 15, None, 0, 1),
    {
        let back: [u8; 8] = [3, 1, 2, 4, 5, 2, 1, 3];
        let mut pos = Position::empty();
        let ghost sb = start_board();
        let mut f: u8 = 0;
        while f < 8
            invariant
                f <= 8,
                pos.bb_ok(),
                back@ == seq![3u8, 1u8, 2u8, 4u8, 5u8, 2u8, 1u8, 3u8],
                pos@ == (PosView {
                    board: Seq::new(
                        64,
                        |s: int|
                            if (s < 16 || s >= 48) && s % 8 < f {
                                start_code(s)
                            } else {
                                NO_PIECE
                            },
                    ),
                    key: pos@.key,
                    ..Position::empty_view()
                }),
            decreases 8 - f,
        {
            pos.add_piece(back[f as usize], f);
            pos.add_piece(0, 8 + f);
            pos.add_piece(6, 48 + f);
            pos.add_piece(back[f as usize] + 6, 56 + f);
            f = f + 1;
            proof {
                assert(pos@.board =~= Seq::new(
                    64,
                    |s: int|
                        if (s < 16 || s >= 48) && s % 8 < f {
                            start_code(s)
                        } else {
                            NO_PIECE
                        },
                ));
            }
        }
        proof {
            assert(pos@.board =~= sb);
        }
        pos.castling = CastlingRights(15);
        let key = pos.compute_key();
        pos.key = key;
        pos.key_history.push(key);
        proof {
            assert(sb[4] == 5 && sb[7] == 3 && sb[0] == 3);
            assert(sb[60] == 11 && sb[63] == 9 && sb[56] == 9);
            assert(castle_fix(15, sb) == 15);
            assert(pos.key_history@ == seq![key]);
            assert(pos@ =~= loaded(sb, Color::White, 15, None, 0, 1));
            assert(view_ok(pos@));
        }
        pos
    }

    /// The model of an empty board with White to move and nothing recorded.
    pub closed spec fn empty_view() -> PosView {
        PosView {
            board: empty_board(),
            side: Color::White,
            castling: 0,
            ep: None,
            halfmove: 0,
            fullmove: 1,
            key: 0,
            undo: Seq::empty(),
            keys: Seq::empty(),
        }
    }


    /// The legal move whose UCI text is `s`, if any: the first generated move
    /// with that text.
    pub fn parse_uci_move(&self, s: &str) -> (r: Option<Move>)
        requires
            self.wf(),
            has_king(self@.board, self@.side),
            pawns_on_board(self@.board),
        ensures
            exists|l: Seq<Move>|
                #[trigger] legal_list(self@, l) && match r {
                    Some(m) => exists|i: int|
                        0 <= i < l.len() && #[trigger] l[i] == m && uci_bytes(m.0) == s.spec_bytes() && forall|j: int|
                            0 <= j < i ==> uci_bytes(#[trigger] l[j].0) != s.spec_bytes(),
                    None => forall|i: int| 0 <= i < l.len() ==> uci_bytes(#[trigger] l[i].0) != s.spec_bytes(),
                },
    {
        self.find_uci_move(s.as_bytes())
    }

    /// The first generated move whose UCI text is the bytes `text`, if any.
    pub fn find_uci_move(&self, text: &[u8]) -> (r: Option<Move>)
        requires
            self.wf(),
            has_king(self@.board, self@.side),
            pawns_on_board(self@.board),
        ensures
            exists|l: Seq<Move>|
                #[trigger] legal_list(self@, l) && match r {
                    Some(m) => exists|i: int|
                        0 <= i < l.len() && #[trigger] l[i] == m && uci_bytes(m.0) == text@ && forall|j: int|
                            0 <= j < i ==> uci_bytes(#[trigger] l[j].0) != text@,
                    None => forall|i: int| 0 <= i < l.len() ==> uci_bytes(#[trigger] l[i].0) != text@,
                },
    {
        let mut list = MoveList::new();
        generate_legal(self, &mut list);
        let ghost l = list@;
        proof {
            assert(legal_list(self@, l));
        }
        let mut i: usize = 0;
        while i < list.len()
            invariant
                list.wf(),
                l == list@,
                legal_list(self@, l),
                0 <= i <= l.len(),
                forall|j: int| 0 <= j < i ==> uci_bytes(#[trigger] l[j].0) != text@,
            decreases l.len() - i,
        {
            let m = list.get(i);
            let u = m.uci_bytes();
            if bytes_eq(u.as_slice(), text) {
                return Some(m);
            }
            i = i + 1;
        }
        None
    }

    /// Place the pieces of a placement field onto an empty board.
    fn load_placement(&mut self, t: &[u8]) -> (r: Result<(), String>)
        requires
            old(self).bb_ok(),
            old(self)@.board == empty_board(),
        ensures
            final(self).bb_ok(),
            r is Ok == placement(t@) is Some,
            r is Ok ==> final(self)@ == (PosView {
                board: placement(t@)->Some_0,
                key: final(self)@.key,
                ..old(self)@
            }),
            r matches Err(e) ==> board_error(t@) matches Some(m) && (all_ascii(m) ==> e@ == chars_of(m)),
    {
        let ghost v0 = self@;
        let mut rank: i64 = 7;
        let ghost mut srank: int = 7;
        let mut file: i8 = 0;
        let mut i: usize = 0;
        proof {
            assert(scan(t@, 0) == Some(Scan { rank: 7, file: 0, board: empty_board() }));
        }
        while i < t.len()
            invariant
                0 <= i <= t@.len(),
                srank <= 7,
                rank as int == rank_shown(srank),
                0 <= file <= 8,
                self.bb_ok(),
                scan(t@, i as int) == Some(Scan { rank: srank, file: file as int, board: self@.board }),
                self@ == (PosView { board: self@.board, key: self@.key, ..v0 }),
                board_error(t@) == board_error_from(t@, i as int, Scan { rank: srank, file: file as int, board: self@.board }),
            decreases t@.len() - i,
        {
            proof {
                lemma_scan_inv(t@, i as int);
            }
            let c = t[i];
            let ghost st = Scan { rank: srank, file: file as int, board: self@.board };
            if c == 47 {
                if file != 8 {
                    proof {
                        lemma_scan_tail(t@, i + 1, t@.len() as int);
                    }
                    let mut v = bytes_rank_pre();
                    let num = int_bytes(rank);
                    push_all(&mut v, num.as_slice());
                    let suf = bytes_rank_suf();
                    push_all(&mut v, suf.as_slice());
                    return Err(ascii_string(v));
                }
                if rank > i64::MIN {
                    rank = rank - 1;
                }
                proof {
                    srank = srank - 1;
                }
                file = 0;
            } else if 49 <= c && c <= 56 {
                let d = (c - 48) as i8;
                if file + d > 8 {
                    proof {
                        lemma_scan_tail(t@, i + 1, t@.len() as int);
                    }
                    return Err(ascii_string(bytes_file_over()));
                }
                file = file + d;
            } else {
                match Piece::from_char(c as char) {
                    None => {
                        proof {
                            lemma_scan_tail(t@, i + 1, t@.len() as int);
                        }
                        let mut v = bytes_bad_piece();
                        let ch = char_bytes(t, i);
                        push_all(&mut v, ch.as_slice());
                        let q = bytes_quote();
                        push_all(&mut v, q.as_slice());
                        return Err(ascii_string(v));
                    },
                    Some(p) => {
                        if !(0 <= file && file < 8) || !(0 <= rank && rank < 8) {
                            proof {
                                lemma_scan_tail(t@, i + 1, t@.len() as int);
                            }
                            return Err(ascii_string(bytes_out()));
                        }
                        let sq = (rank * 8 + file as i64) as u8;
                        proof {
                            assert((sq as int) / 8 == rank && (sq as int) % 8 == file);
                        }
                        self.add_piece(p.0, sq);
                        file = file + 1;
                    },
                }
            }
            i = i + 1;
            proof {
                assert(scan(t@, i as int) == scan_step(st, t@[i - 1]));
            }
        }
        if rank != 0 || file != 8 {
            return Err(ascii_string(bytes_not_8x8()));
        }
        Ok(())
    }

    fn read_side(t: &[u8]) -> (r: Option<Color>)
        ensures
            r == side_word(t@),
    {
        if t.len() == 1 && t[0] == 119 {
            assert(t@ == seq![119u8]);
            Some(Color::White)
        } else if t.len() == 1 && t[0] == 98 {
            assert(t@ == seq![98u8]);
            Some(Color::Black)
        } else {
            assert(!word_is(t@, 119) && !word_is(t@, 98)) by {
                if word_is(t@, 119) || word_is(t@, 98) {
                    assert(t@.len() == 1);
                }
            }
            None
        }
    }

    fn is_dash(t: &[u8]) -> (r: bool)
        ensures
            r == word_is(t@, 45),
    {
        if t.len() == 1 && t[0] == 45 {
            assert(t@ == seq![45u8]);
            true
        } else {
            assert(!word_is(t@, 45)) by {
                if word_is(t@, 45) {
                    assert(t@.len() == 1);
                }
            }
            false
        }
    }

    /// The en-passant square to keep, given the loaded board and side to move.
    fn read_ep(&self, t: &[u8], side: Color) -> (r: Result<Option<Square>, ()>)
        requires
            self.bb_ok(),
            self@.board.len() == 64,
        ensures
            r is Err == (!word_is(t@, 45) && square_from_name(t@) is None),
            r matches Ok(e) ==> e == (if word_is(t@, 45) {
                None
            } else {
                match square_from_name(t@) {
                    Some(sq) => if ep_capturers(self@.board, side, sq.0 as int) && ep_fits(self@.board, side, sq.0 as int) {
                        Some(sq)
                    } else {
                        None
                    },
                    None => None,
                }
            }),
    {
        if Self::is_dash(t) {
            return Ok(None);
        }
        match Square::from_name_bytes(t) {
            None => Err(()),
            Some(sq) => {
                let opp = side.flip();
                let bd = Ghost(self@.board);
                // Pawns of the side to move that could take en passant on `sq`.
                let capturers = pawn_attacks(opp, sq.0) & self.pieces_raw(side, PieceType::Pawn);
                let fits = self.ep_fits_exec(side, sq.0);
                proof {
                    crate::bitboard::lemma_nonzero_iff(capturers);
                    if capturers != 0 {
                        let x = choose|x: int| 0 <= x < 64 && #[trigger] mem(capturers, x);
                        assert(bd@[x] == pawn_code(side));
                    }
                    if ep_capturers(bd@, side, sq.0 as int) {
                        let x = choose|x: int| 0 <= x < 64 && pawn_adj(opposite(side), sq.0 as int, x) && #[trigger] bd@[x] == pawn_code(side);
                        assert(mem(capturers, x));
                    }
                }
                if capturers != 0 && fits {
                    Ok(Some(sq))
                } else {
                    Ok(None)
                }
            },
        }
    }

    fn read_counter(w: &Vec<Vec<u8>>, k: usize, default: u16) -> (r: u16)
        ensures
            r == fen_counter(w@.map_values(|x: Vec<u8>| x@), k as int, default),
    {
        if w.len() > k {
            match parse_u16(w[k].as_slice()) {
                Some(x) => x,
                None => default,
            }
        } else {
            default
        }
    }

    /// Drop the castling rights whose king or rook is away from home.
    fn fix_castling(&mut self, castle: u8)
        requires
            old(self).bb_ok(),
            old(self)@.board.len() == 64,
            castle < 16,
        ensures
            final(self).bb_ok(),
            final(self)@ == (PosView { castling: castle_fix(castle, old(self)@.board), ..old(self)@ }),
            castle_fix(castle, old(self)@.board) < 16,
            castle_ok(final(self)@),
    {
        let mut c = castle;
        let mb = &self.mailbox;
        if !(mb[4] == 5 && mb[7] == 3) {
            c = c & 0xFE;
        }
        if !(mb[4] == 5 && mb[0] == 3) {
            c = c & 0xFD;
        }
        if !(mb[60] == 11 && mb[63] == 9) {
            c = c & 0xFB;
        }
        if !(mb[60] == 11 && mb[56] == 9) {
            c = c & 0xF7;
        }
        self.castling = CastlingRights(c);
        proof {
            lemma_fix_bits(castle, self@.board);
        }
    }

    /// Load a position from FEN text.
    pub fn from_fen(fen: &str) -> (r: Result<Position, String>)
        ensures
            r matches Ok(p) ==> p.wf() && fen_result(fen.spec_bytes()) == Some(p@),
            r is Err ==> fen_result(fen.spec_bytes()) is None,
            r matches Err(e) ==> (all_ascii(fen_error(fen.spec_bytes())) ==> e@ == chars_of(fen_error(fen.spec_bytes()))),
    {
        Position::from_fen_bytes(fen.as_bytes())
    }

    /// Load a position from the bytes of a FEN text.
    pub fn from_fen_bytes(b: &[u8]) -> (r: Result<Position, String>)
        ensures
            r matches Ok(p) ==> p.wf() && fen_result(b@) == Some(p@),
            r is Err ==> fen_result(b@) is None,
            r matches Err(e) ==> (all_ascii(fen_error(b@)) ==> e@ == chars_of(fen_error(b@))),
    {
        let w = split_words(b);
        let ghost ws = words(b@);
        proof {
            assert(w@.map_values(|x: Vec<u8>| x@) =~= ws);
        }
        if w.len() < 1 {
            return Err(ascii_string(bytes_missing()));
        }
        let mut pos = Position::empty();
        match pos.load_placement(w[0].as_slice()) {
            Ok(()) => {},
            Err(e) => {
                return Err(e);
            },
        }
        let ghost bd = pos@.board;
        proof {
            lemma_scan_inv(ws[0], ws[0].len() as int);
        }
        let side = if w.len() >= 2 {
            Self::read_side(w[1].as_slice())
        } else {
            None
        };
        let side = match side {
            Some(s) => s,
            None => {
                return Err(ascii_string(bytes_side()));
            },
        };
        pos.side = side;
        let castle = if w.len() >= 3 {
            parse_castling(w[2].as_slice())
        } else {
            Some(0u8)
        };
        let castle = match castle {
            Some(c) => c,
            None => {
                let t = w[2].as_slice();
                let j = crate::fen::find_non_castle(t);
                let mut v = bytes_castle();
                let ch = if j < t.len() {
                    char_bytes(t, j)
                } else {
                    Vec::new()
                };
                proof {
                    if j >= t.len() {
                        assert(ch@ =~= char_at(t@, j as int));
                    }
                }
                push_all(&mut v, ch.as_slice());
                let q = bytes_quote();
                push_all(&mut v, q.as_slice());
                return Err(ascii_string(v));
            },
        };
        if w.len() >= 4 {
            match pos.read_ep(w[3].as_slice(), side) {
                Ok(e) => {
                    pos.ep_square = e;
                },
                Err(()) => {
                    return Err(ascii_string(bytes_ep()));
                },
            }
        }
        pos.halfmove = Self::read_counter(&w, 4, 0);
        pos.fullmove = Self::read_counter(&w, 5, 1);
        pos.fix_castling(castle);
        let key = pos.compute_key();
        pos.key = key;
        pos.key_history.push(key);
        proof {
            assert(pos.key_history@ == seq![key]);
            assert(pos@ =~= loaded(bd, side, castle, fen_ep(ws, bd, side), fen_counter(ws, 4, 0), fen_counter(ws, 5, 1)));
            assert(view_ok(pos@));
        }
        // Exactly one king per side.
        let wkb = pos.pieces(Color::White, PieceType::King);
        let bkb = pos.pieces(Color::Black, PieceType::King);
        let wk = wkb.count();
        let bk = bkb.count();
        proof {
            lemma_popcount_count(wkb.0, bd, 5, 5, 64);
            lemma_popcount_count(bkb.0, bd, 11, 11, 64);
        }
        if wk != 1 || bk != 1 {
            return Err(ascii_string(bytes_kings()));
        }
        let opp = side.flip();
        proof {
            lemma_count_exists(bd, 5, 64);
            lemma_count_exists(bd, 11, 64);
            let kw = choose|i: int| 0 <= i < 64 && bd[i] == 5;
            let kb = choose|i: int| 0 <= i < 64 && bd[i] == 11;
            assert(holds(bd, kw, Color::White, PieceType::King));
            assert(holds(bd, kb, Color::Black, PieceType::King));
        }
        // Side not to move must not be in check.
        let ksq = pos.king_square(opp);
        proof {
            pos.lemma_occ();
        }
        if pos.is_attacked(ksq, side, Bitboard(pos.occupied)) {
            proof {
                assert(opponent_in_check(pos@));
            }
            return Err(ascii_string(bytes_check()));
        }
        proof {
            let kc = if opp == Color::White { 5u8 } else { 11u8 };
            assert forall|k: int|
                0 <= k < 64 && holds(pos@.board, k, opposite(pos@.side), PieceType::King) implies !#[trigger] attacked_by(
                    pos@.board,
                    k,
                    pos@.side,
                    occ_of(pos@.board),
                ) by {
                lemma_count_unique(bd, kc, 64, k, ksq.0 as int);
            }
            assert(!opponent_in_check(pos@));
        }
        Ok(pos)
    }


    /// Append the FEN placement of rank `r` to `s`.
    fn push_rank_text(&self, s: &mut Vec<u8>, r: u8)
        requires
            self.wf(),
            r < 8,
            all_ascii(old(s)@),
        ensures
            final(s)@ == old(s)@ + rank_text(self@.board, r as int, 0, 0),
            all_ascii(final(s)@),
    {
        let ghost b = self@.board;
        let letters: [u8; 12] = [80, 78, 66, 82, 81, 75, 112, 110, 98, 114, 113, 107];
        proof {
            assert(letters@ == seq![80u8, 78u8, 66u8, 82u8, 81u8, 75u8, 112u8, 110u8, 98u8, 114u8, 113u8, 107u8]);
            self.lemma_wf();
        }
        let mut empty: u8 = 0;
        let mut file: u8 = 0;
        while file < 8
            invariant
                self.wf(),
                b == self@.board,
                b.len() == 64,
                forall|x: int| 0 <= x < 64 ==> #[trigger] b[x] <= 12,
                r < 8,
                file <= 8,
                empty <= file,
                letters@ == seq![80u8, 78u8, 66u8, 82u8, 81u8, 75u8, 112u8, 110u8, 98u8, 114u8, 113u8, 107u8],
                s@ + rank_text(b, r as int, file as int, empty as int) == old(s)@ + rank_text(b, r as int, 0, 0),
                all_ascii(s@),
            decreases 8 - file,
        {
            let sq = r * 8 + file;
            let p = self.mailbox[sq as usize];
            let ghost before = s@;
            if p < 12 {
                if empty > 0 {
                    s.push(48 + empty);
                }
                s.push(letters[p as usize]);
                proof {
                    let d = if empty > 0 { seq![(48 + empty) as u8] } else { Seq::<u8>::empty() };
                    assert(s@ == before + d + seq![piece_letter(p as int)]);
                    assert(rank_text(b, r as int, file as int, empty as int) == d + seq![piece_letter(p as int)] + rank_text(b, r as int, file + 1, 0));
                    assert(s@ + rank_text(b, r as int, file + 1, 0) == before + rank_text(b, r as int, file as int, empty as int));
                    assert forall|i: int| 0 <= i < s@.len() implies #[trigger] s@[i] < 128 by {
                        if i >= before.len() {
                        }
                    }
                }
                empty = 0;
            } else {
                empty = empty + 1;
            }
            file = file + 1;
        }
        if empty > 0 {
            let ghost before = s@;
            s.push(48 + empty);
            proof {
                assert(s@ == before + rank_text(b, r as int, 8, empty as int));
                assert forall|i: int| 0 <= i < s@.len() implies #[trigger] s@[i] < 128 by {}
            }
        } else {
            proof {
                assert(s@ == s@ + rank_text(b, r as int, 8, 0));
            }
        }
    }


    /// The FEN fields after the placement, as ASCII bytes.
    #[verifier::rlimit(60)]
    fn fields_bytes(&self) -> (r: Vec<u8>)
        requires
            self.wf(),
        ensures
            r@ == fen_fields(self@),
            all_ascii(r@),
    {
        let mut tail: Vec<u8> = Vec::new();
        tail.push(32);
        tail.push(if self.side == Color::White { 119 } else { 98 });
        tail.push(32);
        let c = self.castling.to_fen_bytes();
        push_all(&mut tail, c.as_slice());
        tail.push(32);
        match self.ep_square {
            Some(sq) => {
                proof {
                    self.lemma_wf();
                }
                let (f, rk) = sq.name_bytes();
                tail.push(f);
                tail.push(rk);
            },
            None => {
                tail.push(45);
            },
        }
        tail.push(32);
        push_decimal(&mut tail, self.halfmove as u64);
        tail.push(32);
        push_decimal(&mut tail, self.fullmove as u64);
        proof {
            let v = self@;
            lemma_fields_ascii(v);
            assert(tail@ =~= fen_fields(v));
        }
        tail
    }

    /// FEN text of the position, as ASCII bytes.
    pub fn fen_bytes(&self) -> (r: Vec<u8>)
        requires
            self.wf(),
        ensures
            r@ == fen_text(self@),
            all_ascii(r@),
    {
        let ghost b = self@.board;
        let mut s: Vec<u8> = Vec::new();
        let mut i: u8 = 0;
        while i < 8
            invariant
                self.wf(),
                b == self@.board,
                i <= 8,
                s@ + board_text(b, 7 - i) == board_text(b, 7),
                all_ascii(s@),
            decreases 8 - i,
        {
            let r = 7 - i;
            let ghost before = s@;
            self.push_rank_text(&mut s, r);
            if r > 0 {
                s.push(47);
                proof {
                    assert(board_text(b, r as int) == rank_text(b, r as int, 0, 0) + seq![47u8] + board_text(b, r - 1));
                    assert(s@ + board_text(b, r - 1) == before + board_text(b, r as int));
                    lemma_ascii_concat(before + rank_text(b, r as int, 0, 0), seq![47u8]);
                    assert(s@ == before + rank_text(b, r as int, 0, 0) + seq![47u8]);
                }
            } else {
                proof {
                    assert(board_text(b, 0) == rank_text(b, 0, 0, 0));
                    assert(board_text(b, -1) == Seq::<u8>::empty());
                    assert(s@ + board_text(b, -1) == before + board_text(b, 0));
                }
            }
            i = i + 1;
        }
        proof {
            assert(board_text(b, -1) == Seq::<u8>::empty());
            assert(s@ == board_text(b, 7));
        }
        let ghost head = s@;
        let tail = self.fields_bytes();
        push_all(&mut s, tail.as_slice());
        proof {
            lemma_ascii_concat(head, tail@);
            assert(s@ =~= fen_text(self@));
        }
        s
    }

    /// FEN text of the position.
    pub fn to_fen(&self) -> (r: String)
        requires
            self.wf(),
        ensures
            r@ == chars_of(fen_text(self@)),
    {
        ascii_string(self.fen_bytes())
    }

    /// The diagram of the position: the board, its FEN and its key.
    pub fn diagram(&self) -> (r: Vec<u8>)
        requires
            self.wf(),
        ensures
            r@ == diagram_text(self@),
    {
        let ghost b = self@.board;
        let mut out: Vec<u8> = Vec::new();
        let mut r: u8 = 8;
        while r > 0
            invariant
                r <= 8,
                b == self@.board,
                b.len() == 64,
                self.mailbox@ == b,
                out@ + diagram_rows(b, r - 1) == diagram_rows(b, 7),
            decreases r,
        {
            let rank = r - 1;
            let ghost before = out@;
            out.push(49 + rank);
            out.push(32);
            let mut f: u8 = 0;
            while f < 8
                invariant
                    f <= 8,
                    rank < 8,
                    b.len() == 64,
                    self.mailbox@ == b,
                    out@ + row_cells(b, rank as int, f as int) == before + seq![(49 + rank) as u8, 32u8]
                        + row_cells(b, rank as int, 0),
                decreases 8 - f,
            {
                let ghost o = out@;
                let c = square_char_exec(self.mailbox[(rank * 8 + f) as usize]);
                out.push(c);
                out.push(32);
                proof {
                    assert(row_cells(b, rank as int, f as int) == seq![square_char(b[rank * 8 + f]), 32u8]
                        + row_cells(b, rank as int, f + 1));
                    assert(out@ =~= o + seq![c, 32u8]);
                    assert(out@ + row_cells(b, rank as int, f + 1) =~= o + row_cells(b, rank as int, f as int));
                }
                f = f + 1;
            }
            out.push(10);
            proof {
                assert(row_cells(b, rank as int, 8) == Seq::<u8>::empty());
                assert(diagram_rows(b, rank as int) == seq![(49 + rank) as u8, 32u8] + row_cells(b, rank as int, 0)
                    + seq![10u8] + diagram_rows(b, rank - 1));
                assert(out@ + diagram_rows(b, rank - 1) =~= before + diagram_rows(b, rank as int));
            }
            r = r - 1;
        }
        proof {
            assert(diagram_rows(b, -1) == Seq::<u8>::empty());
            assert(out@ =~= diagram_rows(b, 7));
            assert(&[32u8, 32u8, 97u8, 32u8, 98u8, 32u8, 99u8, 32u8, 100u8, 32u8, 101u8, 32u8, 102u8, 32u8, 103u8, 32u8, 104u8, 10u8]@ == seq![32u8, 32u8, 97u8, 32u8, 98u8, 32u8, 99u8, 32u8, 100u8, 32u8, 101u8, 32u8, 102u8, 32u8, 103u8, 32u8, 104u8, 10u8]);
            assert(&[102u8, 101u8, 110u8, 58u8, 32u8]@ == seq![102u8, 101u8, 110u8, 58u8, 32u8]);
            assert(&[107u8, 101u8, 121u8, 58u8, 32u8]@ == seq![107u8, 101u8, 121u8, 58u8, 32u8]);
        }
        push_all(&mut out, &[32u8, 32u8, 97u8, 32u8, 98u8, 32u8, 99u8, 32u8, 100u8, 32u8, 101u8, 32u8, 102u8, 32u8, 103u8, 32u8, 104u8, 10u8]);
        push_all(&mut out, &[102u8, 101u8, 110u8, 58u8, 32u8]);
        let fen = self.fen_bytes();
        push_all(&mut out, fen.as_slice());
        out.push(10);
        push_all(&mut out, &[107u8, 101u8, 121u8, 58u8, 32u8]);
        push_hex(&mut out, self.key, 16);
        proof {
            assert(out@ =~= diagram_text(self@));
        }
        out
    }

    fn ep_fits_exec(&self, side: Color, e: u8) -> (r: bool)
        requires
            self.bb_ok(),
            self@.board.len() == 64,
            e < 64,
        ensures
            r == ep_fits(self@.board, side, e as int),
    {
        let rank = e / 8;
        let want: u8 = if side == Color::White { 5 } else { 2 };
        if rank != want {
            return false;
        }
        let cap: i16 = if side == Color::White { e as i16 - 8 } else { e as i16 + 8 };
        if cap < 0 || cap >= 64 {
            return false;
        }
        let them_pawn: u8 = if side == Color::White { 6 } else { 0 };
        self.mailbox[e as usize] == NO_PIECE && self.mailbox[cap as usize] == them_pawn
    }

    // -- low-level board mutation (update the key incrementally) -----------------

    fn add_piece(&mut self, piece: u8, sq: u8)
        requires
            old(self).bb_ok(),
            piece < 12,
            sq < 64,
            old(self).mailbox@[sq as int] == NO_PIECE,
        ensures
            final(self).bb_ok(),
            final(self)@.key ^ board_hash(final(self)@.board, 64) == old(self)@.key ^ board_hash(
                old(self)@.board,
                64,
            ),
            final(self)@ == (PosView {
                board: old(self)@.board.update(sq as int, piece),
                key: old(self)@.key ^ pkey(piece as int, sq as int),
                ..old(self)@
            }),
    {
        let m = 1u64 << sq;
        assert(m == single(sq as int));
        let c = if piece < 6 { 0usize } else { 1usize };
        let ghost mb = self.mailbox@;
        self.piece_bb[piece as usize] = self.piece_bb[piece as usize] | m;
        self.color_bb[c] = self.color_bb[c] | m;
        self.occupied = self.occupied | m;
        self.mailbox[sq as usize] = piece;
        let ghost k0 = self.key;
        let pk = piece_key(Piece(piece), Square(sq));
        self.key = self.key ^ pk;
        proof {
            assert(self.mailbox@ == mb.update(sq as int, piece));
            lemma_hash_update(mb, sq as int, piece, 64);
            let h = board_hash(mb, 64);
            assert((k0 ^ pk) ^ ((h ^ 0u64) ^ pk) == k0 ^ h) by (bit_vector);
        }
    }

    fn remove_piece(&mut self, sq: u8)
        requires
            old(self).bb_ok(),
            sq < 64,
            old(self).mailbox@[sq as int] < 12,
        ensures
            final(self).bb_ok(),
            final(self)@.key ^ board_hash(final(self)@.board, 64) == old(self)@.key ^ board_hash(
                old(self)@.board,
                64,
            ),
            final(self)@ == (PosView {
                board: old(self)@.board.update(sq as int, NO_PIECE),
                key: old(self)@.key ^ pkey(old(self)@.board[sq as int] as int, sq as int),
                ..old(self)@
            }),
    {
        let piece = self.mailbox[sq as usize];
        let m = 1u64 << sq;
        assert(m == single(sq as int));
        let c = if piece < 6 { 0usize } else { 1usize };
        let ghost mb = self.mailbox@;
        self.piece_bb[piece as usize] = self.piece_bb[piece as usize] & !m;
        self.color_bb[c] = self.color_bb[c] & !m;
        self.occupied = self.occupied & !m;
        self.mailbox[sq as usize] = NO_PIECE;
        let ghost k0 = self.key;
        let pk = piece_key(Piece(piece), Square(sq));
        self.key = self.key ^ pk;
        proof {
            assert(self.mailbox@ == mb.update(sq as int, NO_PIECE));
            lemma_hash_update(mb, sq as int, NO_PIECE, 64);
            let h = board_hash(mb, 64);
            assert((k0 ^ pk) ^ ((h ^ pk) ^ 0u64) == k0 ^ h) by (bit_vector);
        }
    }

    /// Board part of `make_move`: remove the captured piece, move or promote the
    /// moving piece, and move the castling rook.
    fn move_pieces(&mut self, mv: Move)
        requires
            old(self).bb_ok(),
            old(self)@.board.len() == 64,
            forall|s: int| 0 <= s < 64 ==> #[trigger] old(self)@.board[s] <= 12,
            move_ok(old(self)@, mv.0),
        ensures
            final(self).bb_ok(),
            final(self)@ == (PosView { board: make_board(old(self)@, mv.0), key: final(self)@.key, ..old(self)@ }),
            final(self)@.key ^ board_hash(final(self)@.board, 64) == old(self)@.key ^ board_hash(
                old(self)@.board,
                64,
            ),
    {
        let ghost v = self@;
        let ghost m = mv.0;
        let us = self.side;
        let from = mv.from();
        let to = mv.to();
        // Captures (including en passant).
        if mv.is_en_passant() {
            let cap = if us == Color::White { to.0 - 8 } else { to.0 + 8 };
            self.remove_piece(cap);
        } else if self.mailbox[to.0 as usize] != NO_PIECE {
            self.remove_piece(to.0);
        }
        assert(self@.board == board_after_capture(v, m));
        // Move / promote the piece.
        if let Some(promo) = mv.promotion() {
            self.remove_piece(from.0);
            self.add_piece(Piece::new(us, promo).0, to.0);
        } else {
            self.move_piece(from.0, to.0);
        }
        assert(self@.board == board_after_piece(v, m));
        // Castling: move the rook (king already moved above).
        if mv.is_king_castle() {
            if us == Color::White {
                self.move_piece(7, 5);
            } else {
                self.move_piece(63, 61);
            }
        } else if mv.is_queen_castle() {
            if us == Color::White {
                self.move_piece(0, 3);
            } else {
                self.move_piece(56, 59);
            }
        }
    }

    /// Remove the en-passant square and its key.
    fn clear_ep(&mut self)
        requires
            old(self).bb_ok(),
            ep_ok(old(self)@),
        ensures
            final(self).bb_ok(),
            final(self)@ == (PosView { ep: None, key: old(self)@.key ^ ep_term(old(self)@.ep), ..old(self)@ }),
    {
        if let Some(ep) = self.ep_square {
            self.key = self.key ^ en_passant_key(ep.file());
            self.ep_square = None;
        } else {
            proof {
                lemma_xor(self.key, 0, 0);
            }
        }
    }

    /// En-passant square created by `mv`, which has just been played by the side to move.
    fn ep_after(&self, mv: Move) -> (r: Option<Square>)
        requires
            self.wf() || (self.bb_ok() && self@.board.len() == 64),
            mv_flag(mv.0) == 1 ==> 0 <= push_over(self@.side, mv_to(mv.0)) < 64,
        ensures
            r == ep_for(self@.board, self@.side, mv.0),
            r matches Some(e) ==> e.0 < 64,
    {
        if !mv.is_double_push() {
            return None;
        }
        let us = self.side;
        let them = us.flip();
        let to = mv.to();
        let ep = if us == Color::White { to.0 - 8 } else { to.0 + 8 };
        let capturers = pawn_attacks(us, ep) & self.pieces_raw(them, PieceType::Pawn);
        proof {
            crate::bitboard::lemma_nonzero_iff(capturers);
            if capturers != 0 {
                let x = choose|x: int| 0 <= x < 64 && #[trigger] mem(capturers, x);
                assert(self@.board[x] == pawn_code(them));
            } else {
                assert forall|x: int|
                    0 <= x < 64 && pawn_adj(us, ep as int, x) implies !(#[trigger] self@.board[x]
                    == pawn_code(opposite(us))) by {
                    assert(!mem(capturers, x));
                }
            }
        }
        if capturers != 0 {
            Some(Square(ep))
        } else {
            None
        }
    }

    fn pieces_raw(&self, color: Color, pt: PieceType) -> (r: u64)
        requires
            self.bb_ok(),
        ensures
            forall|s: int| #[trigger] mem(r, s) == (0 <= s < 64 && holds(self@.board, s, color, pt)),
    {
        let i = Piece::new(color, pt).index();
        self.piece_bb[i]
    }

    /// Apply the castling mask of a move's squares, keeping the key in step.
    fn update_castling(&mut self, from: u8, to: u8)
        requires
            old(self).bb_ok(),
            old(self)@.castling < 16,
        ensures
            final(self).bb_ok(),
            final(self)@ == (PosView {
                castling: (old(self)@.castling & castle_mask(from as int)) & castle_mask(to as int),
                key: old(self)@.key ^ (ckey(old(self)@.castling as int) ^ ckey(
                    ((old(self)@.castling & castle_mask(from as int)) & castle_mask(to as int)) as int,
                )),
                ..old(self)@
            }),
    {
        let c0 = self.castling.0;
        let new_castling = CastlingRights(c0 & castle_mask_of(from) & castle_mask_of(to));
        proof {
            lemma_castle_bits(c0, castle_mask(from as int), castle_mask(to as int));
        }
        if new_castling.0 != c0 {
            self.key = self.key ^ (castling_key(c0) ^ castling_key(new_castling.0));
            self.castling = new_castling;
        } else {
            proof {
                let a = ckey(c0 as int);
                let k = self.key;
                assert(k ^ (a ^ a) == k) by (bit_vector);
            }
        }
    }

    /// Apply a move. The move must fit the board (`move_ok`); every move that
    /// `generate_legal` lists does.
    #[verifier::rlimit(40)]
    pub fn make_move(&mut self, mv: Move)
        requires
            old(self).wf(),
            move_ok(old(self)@, mv.0),
            counters_ok(old(self)@),
        ensures
            final(self).wf(),
            final(self)@ == spec_make(old(self)@, mv.0),
    {
        let ghost v = self@;
        let ghost m = mv.0;
        proof {
            lemma_make_view_ok(v, m);
        }
        let us = self.side;
        let them = us.flip();
        let from = mv.from();
        let to = mv.to();
        let moving = self.mailbox[from.0 as usize];
        self.history.push(
            Undo {
                captured: self.mailbox[to.0 as usize],
                castling: self.castling,
                ep_square: self.ep_square,
                halfmove: self.halfmove,
                key: self.key,
            },
        );
        self.clear_ep();
        let ghost k1 = self.key;
        let reset = mv.is_en_passant() || self.mailbox[to.0 as usize] != NO_PIECE
            || mv.is_promotion() || moving % 6 == 0;
        self.move_pieces(mv);
        self.halfmove = if reset { 0 } else { self.halfmove + 1 };
        let ghost kb = self.key;
        // Double push: set en passant square only if an enemy pawn can capture.
        let new_ep = self.ep_after(mv);
        if let Some(e) = new_ep {
            self.ep_square = Some(e);
            self.key = self.key ^ en_passant_key(e.file());
        } else {
            proof {
                lemma_xor(kb, 0, 0);
            }
        }
        let ghost ke = self.key;
        self.update_castling(from.0, to.0);
        let ghost kc = self.key;
        if us == Color::Black {
            self.fullmove = self.fullmove + 1;
        }
        self.side = them;
        let sk = side_key();
        self.key = self.key ^ sk;
        proof {
            let h0 = board_hash(v.board, 64);
            let h3 = board_hash(self@.board, 64);
            let ck0 = ckey(v.castling as int);
            let ck1 = ckey(make_castling(v, m) as int);
            let ek0 = ep_term(v.ep);
            let ek1 = ep_term(make_ep(v, m));
            let sk0 = side_term(v.side);
            let sk1 = side_term(them);
            let k0 = v.key;
            let kf = self.key;
            assert(sk1 == sk0 ^ sk) by {
                lemma_xor(sk, 0, 0);
            }
            assert(kf == ((h3 ^ ck1) ^ ek1) ^ sk1) by (bit_vector)
                requires
                    kb ^ h3 == k1 ^ h0,
                    k1 == k0 ^ ek0,
                    k0 == ((h0 ^ ck0) ^ ek0) ^ sk0,
                    ke == kb ^ ek1,
                    kc == ke ^ (ck0 ^ ck1),
                    kf == kc ^ sk,
                    sk1 == sk0 ^ sk,
            ;
        }
        self.key_history.push(self.key);
        proof {
            assert(self@ =~= spec_make(v, m));
        }
    }

    /// Undo the most recent `make_move`, which was `mv`.
    pub fn unmake_move(&mut self, mv: Move)
        requires
            old(self).wf(),
            exists|p: PosView|
                view_ok(p) && move_ok(p, mv.0) && counters_ok(p) && old(self)@ == #[trigger] spec_make(
                    p,
                    mv.0,
                ),
        ensures
            final(self).wf(),
            final(self)@ == spec_unmake(old(self)@, mv.0),
    {
        let ghost v = self@;
        let ghost m = mv.0;
        let ghost p = choose|p: PosView|
            view_ok(p) && move_ok(p, mv.0) && counters_ok(p) && old(self)@ == #[trigger] spec_make(
                p,
                mv.0,
            );
        proof {
            lemma_unmake_make(p, m);
            assert(v.undo.last() == v.undo[v.undo.len() - 1]);
        }
        let undo = self.history.pop().unwrap();
        self.key_history.pop();
        let them = self.side;
        let us = them.flip();
        self.side = us;
        if us == Color::Black {
            self.fullmove = self.fullmove - 1;
        }
        let from = mv.from();
        let to = mv.to();
        // Reverse rook move for castling first (king reversed below).
        if mv.is_king_castle() {
            if us == Color::White {
                self.move_piece(5, 7);
            } else {
                self.move_piece(61, 63);
            }
        } else if mv.is_queen_castle() {
            if us == Color::White {
                self.move_piece(3, 0);
            } else {
                self.move_piece(59, 56);
            }
        }
        // Reverse the moving piece.
        if mv.is_promotion() {
            self.remove_piece(to.0);
            self.add_piece(Piece::new(us, PieceType::Pawn).0, from.0);
        } else {
            self.move_piece(to.0, from.0);
        }
        // Restore captured material.
        if mv.is_en_passant() {
            let cap = if us == Color::White { to.0 - 8 } else { to.0 + 8 };
            self.add_piece(Piece::new(them, PieceType::Pawn).0, cap);
        } else if undo.captured != NO_PIECE {
            self.add_piece(undo.captured, to.0);
        }
        // Restore scalar state and key exactly.
        self.castling = undo.castling;
        self.ep_square = undo.ep_square;
        self.halfmove = undo.halfmove;
        self.key = undo.key;
        proof {
            assert(self@ =~= spec_unmake(v, m));
        }
    }

    /// Make a null move (search only — never a real game move).
    pub fn make_null_move(&mut self)
        requires
            old(self).wf(),
            counters_ok(old(self)@),
        ensures
            final(self).wf(),
            final(self)@ == spec_null(old(self)@),
    {
        let ghost v = self@;
        self.history.push(
            Undo {
                captured: NO_PIECE,
                castling: self.castling,
                ep_square: self.ep_square,
                halfmove: self.halfmove,
                key: self.key,
            },
        );
        if let Some(ep) = self.ep_square {
            self.key = self.key ^ en_passant_key(ep.file());
            self.ep_square = None;
        }
        let ghost k1 = self.key;
        proof {
            lemma_xor(v.key, 0, 0);
            assert(k1 == v.key ^ ep_term(v.ep));
        }
        self.halfmove = self.halfmove + 1;
        self.side = self.side.flip();
        let sk = side_key();
        self.key = self.key ^ sk;
        proof {
            let h0 = board_hash(v.board, 64);
            let ck0 = ckey(v.castling as int);
            let ek0 = ep_term(v.ep);
            let sk0 = side_term(v.side);
            let sk1 = side_term(self.side);
            let k0 = v.key;
            let kf = self.key;
            assert(sk1 == sk0 ^ sk) by {
                lemma_xor(sk, 0, 0);
            }
            assert(kf == ((h0 ^ ck0) ^ 0u64) ^ sk1) by (bit_vector)
                requires
                    k1 == k0 ^ ek0,
                    k0 == ((h0 ^ ck0) ^ ek0) ^ sk0,
                    kf == k1 ^ sk,
                    sk1 == sk0 ^ sk,
            ;
        }
        self.key_history.push(self.key);
        proof {
            assert(self@ =~= spec_null(v));
        }
    }

    /// Take back a null move.
    pub fn unmake_null_move(&mut self)
        requires
            old(self).wf(),
            exists|p: PosView|
                view_ok(p) && counters_ok(p) && old(self)@ == #[trigger] spec_null(p),
        ensures
            final(self).wf(),
            final(self)@ == spec_unnull(old(self)@),
    {
        let ghost v = self@;
        let ghost p = choose|p: PosView|
            view_ok(p) && counters_ok(p) && old(self)@ == #[trigger] spec_null(p);
        proof {
            lemma_unnull_null(p);
            assert(v.undo.last() == v.undo[v.undo.len() - 1]);
        }
        let undo = self.history.pop().unwrap();
        self.key_history.pop();
        self.side = self.side.flip();
        self.castling = undo.castling;
        self.ep_square = undo.ep_square;
        self.halfmove = undo.halfmove;
        self.key = undo.key;
        proof {
            assert(self@ =~= spec_unnull(v));
        }
    }

    fn move_piece(&mut self, from: u8, to: u8)
        requires
            old(self).bb_ok(),
            from < 64,
            to < 64,
            from != to,
            old(self).mailbox@[from as int] < 12,
            old(self).mailbox@[to as int] == NO_PIECE,
        ensures
            final(self).bb_ok(),
            final(self)@.key ^ board_hash(final(self)@.board, 64) == old(self)@.key ^ board_hash(
                old(self)@.board,
                64,
            ),
            final(self)@ == (PosView {
                board: old(self)@.board.update(from as int, NO_PIECE).update(
                    to as int,
                    old(self)@.board[from as int],
                ),
                key: old(self)@.key ^ pkey(old(self)@.board[from as int] as int, from as int)
                    ^ pkey(old(self)@.board[from as int] as int, to as int),
                ..old(self)@
            }),
    {
        let piece = self.mailbox[from as usize];
        self.remove_piece(from);
        self.add_piece(piece, to);
    }
}


// -- move semantics --------------------------------------------------------------

pub open spec fn pawn_code(c: Color) -> u8 {
    piece_code(c, PieceType::Pawn) as u8
}

/// Home square of the rook that castles with the king (`king_side` selects the h-rook).
pub open spec fn rook_home(c: Color, king_side: bool) -> int {
    if c == Color::White {
        if king_side { 7 } else { 0 }
    } else {
        if king_side { 63 } else { 56 }
    }
}

/// Square the castling rook lands on.
pub open spec fn rook_dest(c: Color, king_side: bool) -> int {
    if c == Color::White {
        if king_side { 5 } else { 3 }
    } else {
        if king_side { 61 } else { 59 }
    }
}

/// King squares of a castling move.
pub open spec fn castle_from(c: Color) -> int {
    if c == Color::White { 4 } else { 60 }
}

pub open spec fn castle_to(c: Color, king_side: bool) -> int {
    if c == Color::White {
        if king_side { 6 } else { 2 }
    } else {
        if king_side { 62 } else { 58 }
    }
}

/// The move can be applied to the model: the board facts that `make_move`
/// relies on, and that `unmake_move` needs to restore the board exactly.
pub open spec fn move_ok(v: PosView, m: u16) -> bool {
    let f = mv_from(m);
    let t = mv_to(m);
    let fl = mv_flag(m);
    let us = v.side;
    let them = opposite(us);
    let p = v.board[f];
    &&& f != t
    &&& p < 12 && code_color(p as int) == us
    &&& fl == 5 ==> {
        &&& p == pawn_code(us)
        &&& 0 <= cap_sq(us, t) < 64
        &&& cap_sq(us, t) != f
        &&& v.board[t] == NO_PIECE
        &&& v.board[cap_sq(us, t)] == pawn_code(them)
    }
    &&& flag_is_promotion(fl) ==> p == pawn_code(us)
    &&& fl == 1 ==> {
        &&& p == pawn_code(us)
        &&& (if us == Color::White { t == f + 16 && rank_of(f) == 1 } else { f == t + 16 && rank_of(f) == 6 })
        &&& v.board[(f + t) / 2] == NO_PIECE
    }
    &&& (fl == 2 || fl == 3) ==> {
        let ks = fl == 2;
        &&& f == castle_from(us)
        &&& t == castle_to(us, ks)
        &&& v.board[t] == NO_PIECE
        &&& v.board[rook_home(us, ks)] < 12
        &&& v.board[rook_dest(us, ks)] == NO_PIECE
    }
}

/// Board after removing the captured piece.
pub open spec fn board_after_capture(v: PosView, m: u16) -> Seq<u8> {
    let t = mv_to(m);
    if mv_flag(m) == 5 {
        v.board.update(cap_sq(v.side, t), NO_PIECE)
    } else if v.board[t] != NO_PIECE {
        v.board.update(t, NO_PIECE)
    } else {
        v.board
    }
}

/// Board after moving (or promoting) the piece.
pub open spec fn board_after_piece(v: PosView, m: u16) -> Seq<u8> {
    let f = mv_from(m);
    let t = mv_to(m);
    let b1 = board_after_capture(v, m);
    if flag_is_promotion(mv_flag(m)) {
        b1.update(f, NO_PIECE).update(t, piece_code(v.side, promo_type(mv_flag(m))) as u8)
    } else {
        b1.update(f, NO_PIECE).update(t, v.board[f])
    }
}

/// Board after the whole move (rook included for castling).
pub open spec fn make_board(v: PosView, m: u16) -> Seq<u8> {
    let b2 = board_after_piece(v, m);
    let fl = mv_flag(m);
    if fl == 2 || fl == 3 {
        let ks = fl == 2;
        let rf = rook_home(v.side, ks);
        let rt = rook_dest(v.side, ks);
        b2.update(rf, NO_PIECE).update(rt, b2[rf])
    } else {
        b2
    }
}

/// Square a double push passes over.
pub open spec fn push_over(c: Color, t: int) -> int {
    if c == Color::White {
        t - 8
    } else {
        t + 8
    }
}

/// En-passant square after the move: set by a double push when an enemy pawn
/// stands ready to capture.
pub open spec fn make_ep(v: PosView, m: u16) -> Option<Square> {
    ep_for(make_board(v, m), v.side, m)
}

/// En-passant square left by move `m` of side `c`, given the board after it.
pub open spec fn ep_for(b: Seq<u8>, c: Color, m: u16) -> Option<Square> {
    let e = push_over(c, mv_to(m));
    if mv_flag(m) == 1 && exists|x: int|
        0 <= x < 64 && pawn_adj(c, e, x) && #[trigger] b[x] == pawn_code(opposite(c)) {
        Some(Square(e as u8))
    } else {
        None
    }
}

pub open spec fn make_castling(v: PosView, m: u16) -> u8 {
    (v.castling & castle_mask(mv_from(m))) & castle_mask(mv_to(m))
}

/// Halfmove clock after the move: reset by captures, promotions and pawn moves.
pub open spec fn make_halfmove(v: PosView, m: u16) -> u16 {
    let t = mv_to(m);
    if mv_flag(m) == 5 || v.board[t] != NO_PIECE || flag_is_promotion(mv_flag(m))
        || v.board[mv_from(m)] == pawn_code(v.side) {
        0
    } else {
        (v.halfmove + 1) as u16
    }
}

/// The position after making move `m`.
pub open spec fn spec_make(v: PosView, m: u16) -> PosView {
    let them = opposite(v.side);
    let b = make_board(v, m);
    let c = make_castling(v, m);
    let e = make_ep(v, m);
    let k = full_key(b, c, e, them);
    PosView {
        board: b,
        side: them,
        castling: c,
        ep: e,
        halfmove: make_halfmove(v, m),
        fullmove: (v.fullmove + if v.side == Color::Black { 1int } else { 0int }) as u16,
        key: k,
        undo: v.undo.push(
            Undo {
                captured: v.board[mv_to(m)],
                castling: CastlingRights(v.castling),
                ep_square: v.ep,
                halfmove: v.halfmove,
                key: v.key,
            },
        ),
        keys: v.keys.push(k),
    }
}

/// Board after unmaking `m` (the side that made it is the one not to move).
pub open spec fn unmake_board(v: PosView, m: u16) -> Seq<u8> {
    let us = opposite(v.side);
    let f = mv_from(m);
    let t = mv_to(m);
    let fl = mv_flag(m);
    let u = v.undo.last();
    let b1 = if fl == 2 || fl == 3 {
        let ks = fl == 2;
        let rf = rook_home(us, ks);
        let rt = rook_dest(us, ks);
        v.board.update(rt, NO_PIECE).update(rf, v.board[rt])
    } else {
        v.board
    };
    let b2 = if flag_is_promotion(fl) {
        b1.update(t, NO_PIECE).update(f, pawn_code(us))
    } else {
        b1.update(t, NO_PIECE).update(f, b1[t])
    };
    if fl == 5 {
        b2.update(cap_sq(us, t), pawn_code(v.side))
    } else if u.captured != NO_PIECE {
        b2.update(t, u.captured)
    } else {
        b2
    }
}

/// The position after unmaking move `m`.
pub open spec fn spec_unmake(v: PosView, m: u16) -> PosView {
    let us = opposite(v.side);
    let u = v.undo.last();
    PosView {
        board: unmake_board(v, m),
        side: us,
        castling: u.castling.0,
        ep: u.ep_square,
        halfmove: u.halfmove,
        fullmove: (v.fullmove - if us == Color::Black { 1int } else { 0int }) as u16,
        key: u.key,
        undo: v.undo.drop_last(),
        keys: v.keys.drop_last(),
    }
}

/// The position after passing the turn.
pub open spec fn spec_null(v: PosView) -> PosView {
    let them = opposite(v.side);
    let k = full_key(v.board, v.castling, None, them);
    PosView {
        side: them,
        ep: None,
        halfmove: (v.halfmove + 1) as u16,
        key: k,
        undo: v.undo.push(
            Undo {
                captured: NO_PIECE,
                castling: CastlingRights(v.castling),
                ep_square: v.ep,
                halfmove: v.halfmove,
                key: v.key,
            },
        ),
        keys: v.keys.push(k),
        ..v
    }
}

/// The position after taking back a passed turn.
pub open spec fn spec_unnull(v: PosView) -> PosView {
    let u = v.undo.last();
    PosView {
        side: opposite(v.side),
        castling: u.castling.0,
        ep: u.ep_square,
        halfmove: u.halfmove,
        key: u.key,
        undo: v.undo.drop_last(),
        keys: v.keys.drop_last(),
        ..v
    }
}

/// The counters leave room for one more move.
pub open spec fn counters_ok(v: PosView) -> bool {
    v.halfmove < 0xFFFF && v.fullmove < 0xFFFF
}

pub proof fn lemma_castle_bits(c: u8, m1: u8, m2: u8)
    ensures
        ((c & m1) & m2) & 1 != 0 ==> c & 1 != 0 && m1 & 1 != 0 && m2 & 1 != 0,
        ((c & m1) & m2) & 2 != 0 ==> c & 2 != 0 && m1 & 2 != 0 && m2 & 2 != 0,
        ((c & m1) & m2) & 4 != 0 ==> c & 4 != 0 && m1 & 4 != 0 && m2 & 4 != 0,
        ((c & m1) & m2) & 8 != 0 ==> c & 8 != 0 && m1 & 8 != 0 && m2 & 8 != 0,
        (c & m1) & m2 <= c,
{
    assert((((c & m1) & m2) & 1 != 0 ==> c & 1 != 0 && m1 & 1 != 0 && m2 & 1 != 0)
        && (((c & m1) & m2) & 2 != 0 ==> c & 2 != 0 && m1 & 2 != 0 && m2 & 2 != 0)
        && (((c & m1) & m2) & 4 != 0 ==> c & 4 != 0 && m1 & 4 != 0 && m2 & 4 != 0)
        && (((c & m1) & m2) & 8 != 0 ==> c & 8 != 0 && m1 & 8 != 0 && m2 & 8 != 0)
        && (c & m1) & m2 <= c) by (bit_vector);
}

pub proof fn lemma_mask_bits(s: int)
    ensures
        (castle_mask(s) & 1 != 0) == (s != 4 && s != 7),
        (castle_mask(s) & 2 != 0) == (s != 4 && s != 0),
        (castle_mask(s) & 4 != 0) == (s != 60 && s != 63),
        (castle_mask(s) & 8 != 0) == (s != 60 && s != 56),
{
    assert(13u8 & 1 != 0 && 13u8 & 2 == 0 && 13u8 & 4 != 0 && 13u8 & 8 != 0
        && 14u8 & 1 == 0 && 14u8 & 2 != 0 && 14u8 & 4 != 0 && 14u8 & 8 != 0
        && 12u8 & 1 == 0 && 12u8 & 2 == 0 && 12u8 & 4 != 0 && 12u8 & 8 != 0
        && 7u8 & 1 != 0 && 7u8 & 2 != 0 && 7u8 & 4 != 0 && 7u8 & 8 == 0
        && 11u8 & 1 != 0 && 11u8 & 2 != 0 && 11u8 & 4 == 0 && 11u8 & 8 != 0
        && 3u8 & 1 != 0 && 3u8 & 2 != 0 && 3u8 & 4 == 0 && 3u8 & 8 == 0
        && 15u8 & 1 != 0 && 15u8 & 2 != 0 && 15u8 & 4 != 0 && 15u8 & 8 != 0) by (bit_vector);
}

fn castle_mask_of(sq: u8) -> (r: u8)
    ensures
        r == castle_mask(sq as int),
{
    match sq {
        0 => 13,
        7 => 14,
        4 => 12,
        56 => 7,
        63 => 11,
        60 => 3,
        _ => 15,
    }
}


/// Unmaking a move restores the position it was made from: the board, the side
/// to move, castling rights, en-passant square, both clocks, the key and the
/// key history.
pub proof fn lemma_unmake_make(v: PosView, m: u16)
    requires
        view_ok(v),
        move_ok(v, m),
        counters_ok(v),
    ensures
        spec_unmake(spec_make(v, m), m) == v,
{
    let w = spec_make(v, m);
    let f = mv_from(m);
    let t = mv_to(m);
    let fl = mv_flag(m);
    let us = v.side;
    assert(opposite(w.side) == us);
    assert(w.undo.last().captured == v.board[t]);
    let b1 = board_after_capture(v, m);
    let b2 = board_after_piece(v, m);
    assert(0 <= f < 64 && 0 <= t < 64);
    if fl == 2 || fl == 3 {
        let ks = fl == 2;
        assert(unmake_board(w, m) =~= v.board);
    } else if fl == 5 {
        assert(unmake_board(w, m) =~= v.board);
    } else if flag_is_promotion(fl) {
        assert(unmake_board(w, m) =~= v.board);
    } else {
        assert(unmake_board(w, m) =~= v.board);
    }
    assert(w.undo.drop_last() =~= v.undo);
    assert(w.keys.drop_last() =~= v.keys);
    assert(spec_unmake(w, m) =~= v);
}

/// Taking back a passed turn restores the position.
pub proof fn lemma_unnull_null(v: PosView)
    requires
        view_ok(v),
        counters_ok(v),
    ensures
        spec_unnull(spec_null(v)) == v,
{
    let w = spec_null(v);
    assert(w.undo.drop_last() =~= v.undo);
    assert(w.keys.drop_last() =~= v.keys);
    assert(spec_unnull(w) =~= v);
}


/// Making a move keeps the model invariant: the key still equals the key
/// computed from scratch, an en-passant square is only set with a capturable
/// pawn behind it, and castling rights keep their king and rook at home.
pub proof fn lemma_make_view_ok(v: PosView, m: u16)
    requires
        view_ok(v),
        move_ok(v, m),
        counters_ok(v),
    ensures
        view_ok(spec_make(v, m)),
{
    let w = spec_make(v, m);
    let f = mv_from(m);
    let t = mv_to(m);
    let fl = mv_flag(m);
    let us = v.side;
    let b = w.board;
    lemma_castle_bits(v.castling, castle_mask(f), castle_mask(t));
    lemma_mask_bits(f);
    lemma_mask_bits(t);
    assert(b.len() == 64);
    assert forall|s: int| 0 <= s < 64 implies #[trigger] b[s] <= 12 by {
        assert(v.board[s] <= 12);
    }
    if let Some(e) = w.ep {
        assert(fl == 1);
        assert(e.0 as int == (f + t) / 2);
        assert(rank_of(e.0 as int) == (if w.side == Color::White { 5int } else { 2int }));
    }
    assert(ep_ok(w));
    let c0 = v.castling;
    let c1 = w.castling;
    if fl == 5 {
        assert(v.board[cap_sq(us, t)] == 0 || v.board[cap_sq(us, t)] == 6);
    }
    if c1 & 1 != 0 {
        assert(b[4] == 5 && b[7] == 3);
    }
    if c1 & 2 != 0 {
        assert(b[4] == 5 && b[0] == 3);
    }
    if c1 & 4 != 0 {
        assert(b[60] == 11 && b[63] == 9);
    }
    if c1 & 8 != 0 {
        assert(b[60] == 11 && b[56] == 9);
    }
    assert(castle_ok(w));
}


/// A piece with code `p` standing on `x` attacks `sq`, given the occupancy `occ`.
pub open spec fn piece_attacks(p: u8, x: int, sq: int, occ: u64) -> bool {
    match code_type(p as int) {
        PieceType::Pawn => pawn_adj(code_color(p as int), x, sq),
        PieceType::Knight => knight_adj(x, sq),
        PieceType::Bishop => bishop_hit(x, occ, sq),
        PieceType::Rook => rook_hit(x, occ, sq),
        PieceType::Queen => bishop_hit(x, occ, sq) || rook_hit(x, occ, sq),
        PieceType::King => king_adj(x, sq),
    }
}

/// The piece on `x` attacks `sq`.
pub open spec fn attacker(b: Seq<u8>, x: int, sq: int, occ: u64) -> bool {
    0 <= x < 64 && b[x] < 12 && piece_attacks(b[x], x, sq, occ)
}

/// Some piece of color `c` attacks `sq`.
pub open spec fn attacked_by(b: Seq<u8>, sq: int, c: Color, occ: u64) -> bool {
    exists|x: int| #[trigger] attacker(b, x, sq, occ) && code_color(b[x] as int) == c
}

/// Word whose members are the occupied squares among the first `n`.
pub open spec fn occ_upto(b: Seq<u8>, n: int) -> u64
    decreases n,
{
    if n <= 0 {
        0
    } else {
        occ_upto(b, n - 1) | (if b[n - 1] < 12 { single(n - 1) } else { 0u64 })
    }
}

/// Occupancy word of a board.
pub open spec fn occ_of(b: Seq<u8>) -> u64 {
    occ_upto(b, 64)
}

pub proof fn lemma_occ_upto(b: Seq<u8>, n: int)
    requires
        0 <= n <= 64,
        b.len() == 64,
    ensures
        forall|s: int| #[trigger] mem(occ_upto(b, n), s) == (0 <= s < n && b[s] < 12),
    decreases n,
{
    if n > 0 {
        lemma_occ_upto(b, n - 1);
        assert forall|s: int| #[trigger] mem(occ_upto(b, n), s) == (0 <= s < n && b[s] < 12) by {
            let prev = occ_upto(b, n - 1);
            let y = if b[n - 1] < 12 { single(n - 1) } else { 0u64 };
            assert(occ_upto(b, n) == prev | y);
            crate::bitboard::lemma_has_or(prev, y, s);
            crate::bitboard::lemma_has_zero(s);
            crate::bitboard::lemma_has_single(n - 1, s);
            assert(mem(prev, s) == (0 <= s < n - 1 && b[s] < 12));
        }
    } else {
        assert forall|s: int| #[trigger] mem(occ_upto(b, n), s) == (0 <= s < n && b[s] < 12) by {
            crate::bitboard::lemma_has_zero(s);
        }
    }
}

/// The side to move attacks the opposing king.
pub open spec fn opponent_in_check(v: PosView) -> bool {
    exists|k: int|
        0 <= k < 64 && holds(v.board, k, opposite(v.side), PieceType::King) && #[trigger] attacked_by(
            v.board,
            k,
            v.side,
            occ_of(v.board),
        )
}

pub proof fn lemma_code_parts(c: Color, pt: PieceType)
    ensures
        code_color(piece_code(c, pt)) == c,
        code_type(piece_code(c, pt)) == pt,
        0 <= piece_code(c, pt) < 12,
{
}

pub proof fn lemma_code_split(p: int)
    requires
        0 <= p < 12,
    ensures
        p == piece_code(code_color(p), code_type(p)),
{
}


/// Number of the first `n` squares that hold code `p1` or `p2`.
pub open spec fn sq_count(b: Seq<u8>, p1: u8, p2: u8, n: int) -> int
    decreases n,
{
    if n <= 0 {
        0
    } else {
        sq_count(b, p1, p2, n - 1) + if b[n - 1] == p1 || b[n - 1] == p2 { 1int } else { 0int }
    }
}

pub proof fn lemma_popcount_count(w: u64, b: Seq<u8>, p1: u8, p2: u8, n: int)
    requires
        0 <= n <= 64,
        forall|s: int| #[trigger] mem(w, s) == (0 <= s < 64 && (b[s] == p1 || b[s] == p2)),
    ensures
        crate::bitboard::pop_upto(w, n) == sq_count(b, p1, p2, n),
    decreases n,
{
    if n > 0 {
        lemma_popcount_count(w, b, p1, p2, n - 1);
        assert(mem(w, n - 1) == (b[n - 1] == p1 || b[n - 1] == p2));
    }
}

/// The position repeats one of the earlier positions with the same side to
/// move inside the window of reversible moves.
pub open spec fn repeats(v: PosView) -> bool {
    let n = v.keys.len() as int;
    let limit = if (v.halfmove as int) < n - 1 { v.halfmove as int } else { n - 1 };
    n >= 5 && exists|i: int|
        4 <= i <= limit && i % 2 == 0 && #[trigger] v.keys[n - 1 - i] == v.key
}

/// Neither side has a pawn, rook or queen, and at most one minor piece is left.
pub open spec fn insufficient(b: Seq<u8>) -> bool {
    (forall|s: int|
        0 <= s < 64 ==> !(b[s] == 0 || b[s] == 6 || b[s] == 3 || b[s] == 9 || b[s] == 4 || b[s]
            == 10)) && sq_count(b, 1, 7, 64) + sq_count(b, 2, 8, 64) <= 1
}


/// Castling rights kept after loading: each right needs its king and rook at home.
pub open spec fn castle_fix(c: u8, b: Seq<u8>) -> u8 {
    let c1 = if b[4] == 5 && b[7] == 3 { c } else { c & 0xFE };
    let c2 = if b[4] == 5 && b[0] == 3 { c1 } else { c1 & 0xFD };
    let c3 = if b[60] == 11 && b[63] == 9 { c2 } else { c2 & 0xFB };
    if b[60] == 11 && b[56] == 9 { c3 } else { c3 & 0xF7 }
}

/// The loading test for an en-passant square `e` with `c` to move: a pawn of
/// `c` stands where it can capture onto `e` (a square that a pawn of the other
/// side on `e` would attack).
pub open spec fn ep_capturers(b: Seq<u8>, c: Color, e: int) -> bool {
    exists|x: int| 0 <= x < 64 && pawn_adj(opposite(c), e, x) && #[trigger] b[x] == pawn_code(c)
}

/// An en-passant square that fits the board: on the sixth rank of the side to
/// move (the square behind a pawn that has just advanced two squares), empty,
/// with that pawn behind it.
pub open spec fn ep_fits(b: Seq<u8>, c: Color, e: int) -> bool {
    0 <= e < 64 && rank_of(e) == (if c == Color::White { 5int } else { 2int }) && 0 <= cap_sq(c, e) < 64
        && b[e] == NO_PIECE && b[cap_sq(c, e)] == pawn_code(opposite(c))
}

pub open spec fn word_is(w: Seq<u8>, c: u8) -> bool {
    w == seq![c]
}

/// Side to move named by the second FEN word.
pub open spec fn side_word(t: Seq<u8>) -> Option<Color> {
    if word_is(t, 119) {
        Some(Color::White)
    } else if word_is(t, 98) {
        Some(Color::Black)
    } else {
        None
    }
}

pub open spec fn fen_side(w: Seq<Seq<u8>>) -> Option<Color> {
    if w.len() >= 2 { side_word(w[1]) } else { None }
}

pub open spec fn fen_castle(w: Seq<Seq<u8>>) -> Option<u8> {
    if w.len() >= 3 { castle_field(w[2]) } else { Some(0u8) }
}

/// The en-passant word is absent, `-`, or a square name.
pub open spec fn fen_ep_word_ok(w: Seq<Seq<u8>>) -> bool {
    w.len() < 4 || word_is(w[3], 45) || square_from_name(w[3]) is Some
}

/// En-passant square kept when loading.
pub open spec fn fen_ep(w: Seq<Seq<u8>>, bd: Seq<u8>, side: Color) -> Option<Square> {
    if w.len() < 4 || word_is(w[3], 45) {
        None
    } else {
        match square_from_name(w[3]) {
            Some(sq) => if ep_capturers(bd, side, sq.0 as int) && ep_fits(bd, side, sq.0 as int) {
                Some(sq)
            } else {
                None
            },
            None => None,
        }
    }
}

pub open spec fn fen_counter(w: Seq<Seq<u8>>, k: int, default: u16) -> u16 {
    if w.len() > k {
        match u16_field(w[k]) {
            Some(x) => x,
            None => default,
        }
    } else {
        default
    }
}

/// The model of a freshly loaded position.
pub open spec fn loaded(bd: Seq<u8>, side: Color, castle: u8, ep: Option<Square>, h: u16, f: u16) -> PosView {
    let c = castle_fix(castle, bd);
    let k = full_key(bd, c, ep, side);
    PosView {
        board: bd,
        side: side,
        castling: c,
        ep: ep,
        halfmove: h,
        fullmove: f,
        key: k,
        undo: Seq::empty(),
        keys: seq![k],
    }
}

/// The position described by a FEN text, or `None` when the text is refused.
/// The message with which loading the FEN text `b` fails: the first of its
/// checks, in order, that `b` does not pass (meaningful where `fen_result(b)`
/// is none).
pub open spec fn fen_error(b: Seq<u8>) -> Seq<u8> {
    let w = words(b);
    if w.len() < 1 {
        msg_missing()
    } else if placement(w[0]) is None {
        match board_error(w[0]) {
            Some(m) => m,
            None => Seq::empty(),
        }
    } else if fen_side(w) is None {
        msg_side()
    } else if fen_castle(w) is None {
        msg_castle() + char_at(w[2], crate::fen::first_non_castle(w[2], 0)) + msg_quote()
    } else if !fen_ep_word_ok(w) {
        msg_ep()
    } else if sq_count(placement(w[0])->Some_0, 5, 5, 64) != 1 || sq_count(placement(w[0])->Some_0, 11, 11, 64) != 1 {
        msg_kings()
    } else {
        msg_check()
    }
}

pub open spec fn fen_result(b: Seq<u8>) -> Option<PosView> {
    let w = words(b);
    if w.len() < 1 {
        None
    } else {
        match (placement(w[0]), fen_side(w), fen_castle(w)) {
            (Some(bd), Some(side), Some(castle)) => {
                let v = loaded(bd, side, castle, fen_ep(w, bd, side), fen_counter(w, 4, 0), fen_counter(w, 5, 1));
                if fen_ep_word_ok(w) && sq_count(bd, 5, 5, 64) == 1 && sq_count(bd, 11, 11, 64) == 1
                    && !opponent_in_check(v) {
                    Some(v)
                } else {
                    None
                }
            },
            _ => None,
        }
    }
}

pub proof fn lemma_count_unique(b: Seq<u8>, p: u8, n: int, i: int, j: int)
    requires
        0 <= i < n,
        0 <= j < n,
        b[i] == p,
        b[j] == p,
        sq_count(b, p, p, n) <= 1,
    ensures
        i == j,
    decreases n,
{
    lemma_count_nonneg(b, p, n - 1);
    if i < n - 1 && j < n - 1 {
        lemma_count_unique(b, p, n - 1, i, j);
    } else if i < n - 1 {
        lemma_count_pos(b, p, n - 1, i);
    } else if j < n - 1 {
        lemma_count_pos(b, p, n - 1, j);
    }
}

pub proof fn lemma_count_nonneg(b: Seq<u8>, p: u8, n: int)
    ensures
        sq_count(b, p, p, n) >= 0,
    decreases n,
{
    if n > 0 {
        lemma_count_nonneg(b, p, n - 1);
    }
}

pub proof fn lemma_count_pos(b: Seq<u8>, p: u8, n: int, i: int)
    requires
        0 <= i < n,
        b[i] == p,
    ensures
        sq_count(b, p, p, n) >= 1,
    decreases n,
{
    lemma_count_nonneg(b, p, n - 1);
    if i < n - 1 {
        lemma_count_pos(b, p, n - 1, i);
    }
}

pub proof fn lemma_count_exists(b: Seq<u8>, p: u8, n: int)
    requires
        sq_count(b, p, p, n) >= 1,
    ensures
        exists|i: int| 0 <= i < n && b[i] == p,
    decreases n,
{
    if n > 0 && b[n - 1] != p {
        lemma_count_exists(b, p, n - 1);
    }
}


pub proof fn lemma_fix_bits(c: u8, b: Seq<u8>)
    requires
        c < 16,
        b.len() == 64,
    ensures
        castle_fix(c, b) < 16,
        castle_ok(PosView { board: b, castling: castle_fix(c, b), side: Color::White, ep: None, halfmove: 0, fullmove: 0, key: 0, undo: Seq::empty(), keys: Seq::empty() }),
{
    let c1 = if b[4] == 5 && b[7] == 3 { c } else { c & 0xFE };
    let c2 = if b[4] == 5 && b[0] == 3 { c1 } else { c1 & 0xFD };
    let c3 = if b[60] == 11 && b[63] == 9 { c2 } else { c2 & 0xFB };
    let c4 = if b[60] == 11 && b[56] == 9 { c3 } else { c3 & 0xF7 };
    assert(forall|x: u8| #![auto] (x & 0xFE) & 1 == 0 && (x & 0xFE) & 2 == x & 2 && (x & 0xFE) & 4 == x & 4 && (x & 0xFE) & 8 == x & 8 && (x & 0xFE) <= x
        && (x & 0xFD) & 2 == 0 && (x & 0xFD) & 1 == x & 1 && (x & 0xFD) & 4 == x & 4 && (x & 0xFD) & 8 == x & 8 && (x & 0xFD) <= x
        && (x & 0xFB) & 4 == 0 && (x & 0xFB) & 1 == x & 1 && (x & 0xFB) & 2 == x & 2 && (x & 0xFB) & 8 == x & 8 && (x & 0xFB) <= x
        && (x & 0xF7) & 8 == 0 && (x & 0xF7) & 1 == x & 1 && (x & 0xF7) & 2 == x & 2 && (x & 0xF7) & 4 == x & 4 && (x & 0xF7) <= x) by (bit_vector);
}

/// Some square holds a king of `c`.

// -- FEN output ------------------------------------------------------------------

/// FEN letter of piece code `p`.
pub open spec fn piece_letter(p: int) -> u8 {
    seq![80u8, 78u8, 66u8, 82u8, 81u8, 75u8, 112u8, 110u8, 98u8, 114u8, 113u8, 107u8][p]
}

/// FEN text of the squares `file..8` of rank `r`, after a run of `run` empty squares.
pub open spec fn rank_text(b: Seq<u8>, r: int, file: int, run: int) -> Seq<u8>
    decreases 8 - file,
{
    if file >= 8 {
        if run > 0 {
            seq![(48 + run) as u8]
        } else {
            Seq::empty()
        }
    } else if b[r * 8 + file] < 12 {
        (if run > 0 {
            seq![(48 + run) as u8]
        } else {
            Seq::empty()
        }) + seq![piece_letter(b[r * 8 + file] as int)] + rank_text(b, r, file + 1, 0)
    } else {
        rank_text(b, r, file + 1, run + 1)
    }
}

/// FEN placement text of the ranks `r` down to the first, separated by `/`.
pub open spec fn board_text(b: Seq<u8>, r: int) -> Seq<u8>
    decreases r + 1,
{
    if r < 0 {
        Seq::empty()
    } else if r == 0 {
        rank_text(b, 0, 0, 0)
    } else {
        rank_text(b, r, 0, 0) + seq![47u8] + board_text(b, r - 1)
    }
}

/// FEN en-passant field.
pub open spec fn ep_text(ep: Option<Square>) -> Seq<u8> {
    match ep {
        Some(s) => seq![(97 + file_of(s.0 as int)) as u8, (49 + rank_of(s.0 as int)) as u8],
        None => seq![45u8],
    }
}


/// The FEN fields after the placement, with their leading space.
pub open spec fn fen_fields(v: PosView) -> Seq<u8> {
    seq![32u8, if v.side == Color::White { 119u8 } else { 98u8 }, 32u8] + castling_field(
        v.castling,
    ) + seq![32u8] + ep_text(v.ep) + seq![32u8] + dec(v.halfmove as nat) + seq![32u8] + dec(
        v.fullmove as nat,
    )
}

proof fn lemma_fields_ascii(v: PosView)
    ensures
        all_ascii(fen_fields(v)),
{
    lemma_dec_ascii(v.halfmove as nat);
    lemma_dec_ascii(v.fullmove as nat);
    let a = seq![32u8, if v.side == Color::White { 119u8 } else { 98u8 }, 32u8];
    let c = castling_field(v.castling);
    assert(all_ascii(a));
    assert(all_ascii(c)) by {
        let k = if v.castling & 1 != 0 { seq![75u8] } else { Seq::<u8>::empty() };
        let q = if v.castling & 2 != 0 { seq![81u8] } else { Seq::<u8>::empty() };
        let k2 = if v.castling & 4 != 0 { seq![107u8] } else { Seq::<u8>::empty() };
        let q2 = if v.castling & 8 != 0 { seq![113u8] } else { Seq::<u8>::empty() };
        lemma_ascii_concat(k, q);
        lemma_ascii_concat(k + q, k2);
        lemma_ascii_concat(k + q + k2, q2);
    }
    assert(all_ascii(ep_text(v.ep)));
    assert(all_ascii(seq![32u8]));
    lemma_ascii_concat(a, c);
    lemma_ascii_concat(a + c, seq![32u8]);
    lemma_ascii_concat(a + c + seq![32u8], ep_text(v.ep));
    lemma_ascii_concat(a + c + seq![32u8] + ep_text(v.ep), seq![32u8]);
    lemma_ascii_concat(a + c + seq![32u8] + ep_text(v.ep) + seq![32u8], dec(v.halfmove as nat));
    lemma_ascii_concat(
        a + c + seq![32u8] + ep_text(v.ep) + seq![32u8] + dec(v.halfmove as nat),
        seq![32u8],
    );
    lemma_ascii_concat(
        a + c + seq![32u8] + ep_text(v.ep) + seq![32u8] + dec(v.halfmove as nat) + seq![32u8],
        dec(v.fullmove as nat),
    );
}

/// The FEN text of a position.
pub open spec fn fen_text(v: PosView) -> Seq<u8> {
    board_text(v.board, 7) + fen_fields(v)
}


/// Piece code on square `s` in the standard starting position.
pub open spec fn start_code(s: int) -> u8 {
    let back = seq![3u8, 1u8, 2u8, 4u8, 5u8, 2u8, 1u8, 3u8];
    if s < 8 {
        back[s]
    } else if s < 16 {
        0u8
    } else if s < 48 {
        NO_PIECE
    } else if s < 56 {
        6u8
    } else {
        (back[s - 56] + 6) as u8
    }
}

/// Board of the standard starting position.
pub open spec fn start_board() -> Seq<u8> {
    Seq::new(64, |s: int| start_code(s))
}

pub open spec fn has_king(b: Seq<u8>, c: Color) -> bool {
    exists|s: int| 0 <= s < 64 && holds(b, s, c, PieceType::King)
}

// -- board diagram ----------------------------------------------------------------

/// The diagram character of a square code: its FEN letter, or `.` when empty.
pub open spec fn square_char(code: u8) -> u8 {
    if code < 12 {
        piece_letter(code as int)
    } else {
        46u8
    }
}

/// Squares `file..8` of rank `r`, each followed by a space.
pub open spec fn row_cells(b: Seq<u8>, r: int, file: int) -> Seq<u8>
    decreases 8 - file,
{
    if file >= 8 {
        Seq::empty()
    } else {
        seq![square_char(b[r * 8 + file]), 32u8] + row_cells(b, r, file + 1)
    }
}

/// Diagram lines of ranks `r` down to the first: the rank number, the squares, a newline.
pub open spec fn diagram_rows(b: Seq<u8>, r: int) -> Seq<u8>
    decreases r + 1,
{
    if r < 0 {
        Seq::empty()
    } else {
        seq![(49 + r) as u8, 32u8] + row_cells(b, r, 0) + seq![10u8] + diagram_rows(b, r - 1)
    }
}

/// The lowest `n` hexadecimal digits of `k`, most significant first.
pub open spec fn hex_digits(k: nat, n: nat) -> Seq<u8>
    decreases n,
{
    if n == 0 {
        Seq::empty()
    } else {
        let d = k % 16;
        hex_digits(k / 16, (n - 1) as nat).push(if d < 10 { (48 + d) as u8 } else { (87 + d) as u8 })
    }
}

/// The diagram of a position: the board with rank numbers and file letters,
/// then its FEN and its key in sixteen hexadecimal digits.
pub open spec fn diagram_text(v: PosView) -> Seq<u8> {
    diagram_rows(v.board, 7) + seq![32u8, 32u8, 97u8, 32u8, 98u8, 32u8, 99u8, 32u8, 100u8, 32u8, 101u8, 32u8, 102u8, 32u8, 103u8, 32u8, 104u8, 10u8] + seq![102u8, 101u8, 110u8, 58u8, 32u8] + fen_text(v) + seq![10u8] + seq![107u8, 101u8, 121u8, 58u8, 32u8]
        + hex_digits(v.key as nat, 16)
}

fn push_hex(v: &mut Vec<u8>, k: u64, n: u32)
    ensures
        final(v)@ == old(v)@ + hex_digits(k as nat, n as nat),
    decreases n,
{
    if n > 0 {
        push_hex(v, k / 16, n - 1);
        let d = (k % 16) as u8;
        let c: u8 = if d < 10 {
            48 + d
        } else {
            87 + d
        };
        v.push(c);
    }
}

fn square_char_exec(code: u8) -> (r: u8)
    ensures
        r == square_char(code),
{
    if code < 12 {
        let t: [u8; 12] = [80, 78, 66, 82, 81, 75, 112, 110, 98, 114, 113, 107];
        proof {
            assert(t@ == seq![80u8, 78u8, 66u8, 82u8, 81u8, 75u8, 112u8, 110u8, 98u8, 114u8, 113u8, 107u8]);
        }
        t[code as usize]
    } else {
        46
    }
}


/// The halfmove clock after a move: back to zero when the move captures (its
/// destination held a piece, or it takes en passant) or moves a pawn, one more
/// otherwise.
pub proof fn lemma_make_halfmove(v: PosView, m: u16)
    requires
        view_ok(v),
        move_ok(v, m),
        counters_ok(v),
    ensures
        (v.board[mv_to(m)] != NO_PIECE || mv_flag(m) == 5 || code_type(v.board[mv_from(m)] as int)
            == PieceType::Pawn) ==> spec_make(v, m).halfmove == 0,
        !(v.board[mv_to(m)] != NO_PIECE || mv_flag(m) == 5 || code_type(v.board[mv_from(m)] as int)
            == PieceType::Pawn) ==> spec_make(v, m).halfmove == v.halfmove + 1,
{
    let p = v.board[mv_from(m)];
    assert(p < 12 && code_color(p as int) == v.side);
    assert((code_type(p as int) == PieceType::Pawn) == (p == pawn_code(v.side)));
}


/// What a move does: the other side is to move, the move number grows after
/// Black's move, the origin square is left empty and the destination holds the
/// moving piece (or, for a promotion, the piece promoted to of the mover's
/// color), and every square that the move does not touch keeps its piece.
pub proof fn lemma_make_effects(v: PosView, m: u16)
    requires
        view_ok(v),
        move_ok(v, m),
        counters_ok(v),
    ensures
        spec_make(v, m).side == opposite(v.side),
        spec_make(v, m).fullmove == v.fullmove + (if v.side == Color::Black { 1int } else { 0int }),
        spec_make(v, m).board[mv_from(m)] == NO_PIECE,
        spec_make(v, m).board[mv_to(m)] == (if flag_is_promotion(mv_flag(m)) {
            piece_code(v.side, promo_type(mv_flag(m))) as u8
        } else {
            v.board[mv_from(m)]
        }),
        forall|s: int|
            0 <= s < 64 && s != mv_from(m) && s != mv_to(m) && (mv_flag(m) == 5 ==> s != cap_sq(v.side, mv_to(m)))
                && (mv_flag(m) == 2 || mv_flag(m) == 3 ==> s != rook_home(v.side, mv_flag(m) == 2) && s != rook_dest(
                v.side,
                mv_flag(m) == 2,
            )) ==> #[trigger] spec_make(v, m).board[s] == v.board[s],
{
    let fl = mv_flag(m);
    if fl == 2 || fl == 3 {
        let ks = fl == 2;
        assert(rook_home(v.side, ks) != mv_from(m) && rook_home(v.side, ks) != mv_to(m));
        assert(rook_dest(v.side, ks) != mv_from(m) && rook_dest(v.side, ks) != mv_to(m));
    }
}

} // verus!
