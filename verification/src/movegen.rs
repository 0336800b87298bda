//! Legal move generation using check and pin masks.
//!
//! The generator produces legal moves directly. The single per-move legality
//! test is reserved for en passant, whose legality cannot be expressed with
//! simple masks (pinned en passant / discovered check across the two vacated
//! squares).
use vstd::prelude::*;
use crate::attacks::{
    between, between_sq, bishop_attacks, bishop_hit, king_adj, king_attacks, knight_adj,
    knight_attacks, lemma_bishop_sym, lemma_leaper_between, lemma_leaper_sym, lemma_ray_between, lemma_ray_sym,
    lemma_rook_sym, line, line_sq, pawn_adj, pawn_attacks, ray_hit, ray_on, ray_sq, rook_attacks,
    rook_hit,
};
use crate::bitboard::{Bitboard, group_bits, lemma_bits_ext, mem, popcount, single};
use crate::chess_move::{
    FLAG_CAPTURE, FLAG_DOUBLE, FLAG_EP, FLAG_KCASTLE, FLAG_PROMO, FLAG_PROMO_CAPTURE, FLAG_QCASTLE,
    FLAG_QUIET, Move, MoveList, flag_is_capture, flag_is_promotion, mv_flag, mv_from, mv_to,
    promo_type,
};
use crate::legal::{
    board_codes, checks, king_safe_after, lemma_make_ep, lemma_make_step, lemma_pin_facts,
    lemma_check_answered, lemma_ep_check_answered, lemma_knight_not_between, lemma_knight_off_line,
    lemma_one_checker_answered, lemma_pin_respected, lemma_sniper_pins, lemma_step_keeps_king_safe,
    lowest_king, pins, step_board, step_rules,
};
use crate::position::{
    PosView, Position, attacked_by, attacker, cap_sq, has_king, holds, lemma_code_split, make_board,
    move_ok, occ_of, pawn_code, piece_attacks, view_ok,
};
use crate::types::{
    Color, NO_PIECE, PieceType, Square, code_color, code_type, opposite, piece_code, rank_of,
};

verus! {

broadcast use group_bits;

// -- what a generated move is ----------------------------------------------------

/// Square `s` holds a piece of color `c`.
pub open spec fn owned_by(b: Seq<u8>, s: int, c: Color) -> bool {
    b[s] < 12 && code_color(b[s] as int) == c
}

/// Rank from which a pawn of color `c` promotes by its next step.
pub open spec fn promo_rank(c: Color) -> int {
    if c == Color::White {
        6
    } else {
        1
    }
}

/// Rank from which a pawn of color `c` may advance two squares.
pub open spec fn start_rank(c: Color) -> int {
    if c == Color::White {
        1
    } else {
        6
    }
}

/// Square one step forward from `s` for a pawn of color `c`.
pub open spec fn forward(c: Color, s: int) -> int {
    if c == Color::White {
        s + 8
    } else {
        s - 8
    }
}

/// No pawn stands on the far rank of its own direction of travel.
pub open spec fn pawns_on_board(b: Seq<u8>) -> bool {
    forall|s: int|
        0 <= s < 64 ==> (#[trigger] b[s] == 0u8 ==> rank_of(s) < 7) && (b[s] == 6u8 ==> rank_of(
            s,
        ) > 0)
}

/// Castling right of side `c` (`king_side` selects the short castle).
pub open spec fn castle_bit(c: Color, king_side: bool) -> u8 {
    if c == Color::White {
        if king_side {
            1u8
        } else {
            2u8
        }
    } else {
        if king_side {
            4u8
        } else {
            8u8
        }
    }
}

/// First square of the back rank of side `c`.
pub open spec fn back_rank(c: Color) -> int {
    if c == Color::White {
        0
    } else {
        56
    }
}

/// The squares between king and rook are empty.
pub open spec fn castle_path_clear(b: Seq<u8>, c: Color, king_side: bool) -> bool {
    let base = back_rank(c);
    if king_side {
        b[base + 5] == NO_PIECE && b[base + 6] == NO_PIECE
    } else {
        b[base + 1] == NO_PIECE && b[base + 2] == NO_PIECE && b[base + 3] == NO_PIECE
    }
}

/// The king's square, the square it crosses and the square it lands on are not attacked.
pub open spec fn castle_path_safe(b: Seq<u8>, c: Color, king_side: bool) -> bool {
    let base = back_rank(c);
    let them = opposite(c);
    let occ = occ_of(b);
    &&& !attacked_by(b, base + 4, them, occ)
    &&& if king_side {
        !attacked_by(b, base + 5, them, occ) && !attacked_by(b, base + 6, them, occ)
    } else {
        !attacked_by(b, base + 3, them, occ) && !attacked_by(b, base + 2, them, occ)
    }
}

/// The pawn move `m` follows the pawn's rules in `v`.
pub open spec fn pawn_move_ok(v: PosView, m: u16) -> bool {
    let f = mv_from(m);
    let t = mv_to(m);
    let fl = mv_flag(m);
    let us = v.side;
    &&& fl != 2 && fl != 3 && fl != 6 && fl != 7
    &&& (fl == 0 || (8 <= fl && fl <= 11)) ==> t == forward(us, f) && v.board[t] == NO_PIECE
    &&& fl == 1 ==> rank_of(f) == start_rank(us) && t == forward(us, forward(us, f)) && v.board[t]
        == NO_PIECE && v.board[forward(us, f)] == NO_PIECE
    &&& (fl == 4 || fl >= 12) ==> pawn_adj(us, f, t) && owned_by(v.board, t, opposite(us))
    &&& fl == 5 ==> pawn_adj(us, f, t) && v.ep == Some(Square(t as u8))
    &&& fl != 5 ==> (flag_is_promotion(fl) == (rank_of(f) == promo_rank(us)))
}

/// The move `m` of a piece other than a pawn follows that piece's rules in `v`.
pub open spec fn piece_move_ok(v: PosView, m: u16) -> bool {
    let f = mv_from(m);
    let t = mv_to(m);
    let fl = mv_flag(m);
    let p = v.board[f];
    let us = v.side;
    let them = opposite(us);
    let occ = occ_of(v.board);
    if fl == 2 || fl == 3 {
        let ks = fl == 2;
        &&& code_type(p as int) == PieceType::King
        &&& v.castling & castle_bit(us, ks) != 0
        &&& castle_path_clear(v.board, us, ks)
        &&& castle_path_safe(v.board, us, ks)
    } else {
        &&& fl == 0 || fl == 4
        &&& !owned_by(v.board, t, us)
        &&& (fl == 4) == owned_by(v.board, t, them)
        &&& piece_attacks(p, f, t, occ)
        &&& code_type(p as int) == PieceType::King ==> !attacked_by(
            v.board,
            t,
            them,
            occ ^ single(f),
        )
    }
}

/// `m` is a pseudo-legal move of the side to move in `v`: it can be made, the piece
/// moves by its rules, the capture flag tells whether it takes, a king does not step
/// onto an attacked square and does not castle out of, through or into check.
pub open spec fn pseudo_legal(v: PosView, m: u16) -> bool {
    &&& move_ok(v, m)
    &&& if code_type(v.board[mv_from(m)] as int) == PieceType::Pawn {
        pawn_move_ok(v, m)
    } else {
        piece_move_ok(v, m)
    }
}

/// A legal move: pseudo-legal, and the king of the side that moves is not
/// attacked after it. (A castling king is the one guarded when it is the lowest
/// king of its side, as it is whenever the side has one king.)
pub open spec fn legal_move(v: PosView, m: u16) -> bool {
    &&& pseudo_legal(v, m)
    &&& (mv_flag(m) != 2 && mv_flag(m) != 3) || lowest_king(v.board, v.side, mv_from(m)) ==> king_safe_after(
        v,
        m,
    )
}

/// A capture or a promotion.
pub open spec fn is_noisy(m: u16) -> bool {
    flag_is_capture(mv_flag(m)) || flag_is_promotion(mv_flag(m))
}

/// No king of the side to move is attacked.
pub open spec fn not_in_check(v: PosView) -> bool {
    forall|k: int|
        0 <= k < 64 && holds(v.board, k, v.side, PieceType::King) ==> !#[trigger] attacked_by(
            v.board,
            k,
            opposite(v.side),
            occ_of(v.board),
        )
}

/// `new` keeps `old` as its prefix and every added move satisfies `p`.
pub open spec fn grows_by(old: Seq<Move>, new: Seq<Move>, p: spec_fn(u16) -> bool) -> bool {
    &&& old.len() <= new.len()
    &&& forall|i: int| 0 <= i < old.len() ==> new[i] == old[i]
    &&& forall|i: int| old.len() <= i < new.len() ==> p(#[trigger] new[i].0)
}

/// `l` lists legal moves of `v`, each once, and when the side to move has one
/// king, it lists every legal move.
pub open spec fn legal_list(v: PosView, l: Seq<Move>) -> bool {
    &&& grows_by(Seq::empty(), l, |m: u16| legal_move(v, m))
    &&& distinct_from(l, 0)
    &&& single_king(v.board, v.side) ==> forall|m: u16| #[trigger] legal_move(v, m) ==> listed(l, m)
}

/// The legal moves of `v`.
pub open spec fn legal_moves(v: PosView) -> Set<u16> {
    Set::new(|m: u16| legal_move(v, m))
}

/// A list of every legal move, each once, is as long as there are legal moves.
pub proof fn lemma_legal_count(v: PosView, l: Seq<Move>)
    requires
        legal_list(v, l),
        single_king(v.board, v.side),
    ensures
        legal_moves(v).finite(),
        l.len() == legal_moves(v).len(),
{
    let s = l.map_values(|mv: Move| mv.0);
    assert(s.no_duplicates()) by {
        assert forall|i: int, j: int| 0 <= i < s.len() && 0 <= j < s.len() && i != j implies s[i] != s[j] by {
            if i < j {
                assert(l[i].0 != l[j].0);
            } else {
                assert(l[j].0 != l[i].0);
            }
        }
    }
    assert(s.to_set() =~= legal_moves(v)) by {
        assert forall|m: u16| #[trigger] legal_moves(v).contains(m) implies s.to_set().contains(m) by {
            assert(listed(l, m));
            let i = choose|i: int| 0 <= i < l.len() && #[trigger] l[i].0 == m;
            assert(s[i] == m);
        }
        assert forall|m: u16| #[trigger] s.to_set().contains(m) implies legal_moves(v).contains(m) by {
            let i = choose|i: int| 0 <= i < s.len() && s[i] == m;
            assert(legal_move(v, l[i].0));
        }
    }
    s.unique_seq_to_set();
    vstd::seq_lib::seq_to_set_is_finite(s);
}

/// `m` stands in the list `l`.
pub open spec fn listed(l: Seq<Move>, m: u16) -> bool {
    exists|i: int| 0 <= i < l.len() && #[trigger] l[i].0 == m
}

/// What a list held stays in it as the list grows.
proof fn lemma_listed_keep(a: Seq<Move>, b: Seq<Move>, p: spec_fn(u16) -> bool)
    requires
        grows_by(a, b, p),
    ensures
        forall|m: u16| #[trigger] listed(a, m) ==> listed(b, m),
{
    assert forall|m: u16| #[trigger] listed(a, m) implies listed(b, m) by {
        let i = choose|i: int| 0 <= i < a.len() && #[trigger] a[i].0 == m;
        assert(b[i] == a[i]);
    }
}

/// The move just pushed stands in the list.
proof fn lemma_listed_last(l: Seq<Move>, x: Move)
    ensures
        listed(l.push(x), x.0),
        forall|m: u16| #[trigger] listed(l, m) ==> listed(l.push(x), m),
{
    assert(l.push(x)[l.len() as int] == x);
    assert forall|m: u16| #[trigger] listed(l, m) implies listed(l.push(x), m) by {
        let i = choose|i: int| 0 <= i < l.len() && #[trigger] l[i].0 == m;
        assert(l.push(x)[i] == l[i]);
    }
}

/// The moves of `l` from index `start` on differ from one another.
pub open spec fn distinct_from(l: Seq<Move>, start: int) -> bool {
    forall|i: int, j: int| start <= i < j < l.len() ==> #[trigger] l[i].0 != #[trigger] l[j].0
}

/// Two stretches of distinct moves, of kinds no move has both, make one.
proof fn lemma_distinct_chain(
    a: Seq<Move>,
    b: Seq<Move>,
    c: Seq<Move>,
    p: spec_fn(u16) -> bool,
    q: spec_fn(u16) -> bool,
)
    requires
        grows_by(a, b, p),
        grows_by(b, c, q),
        distinct_from(b, a.len() as int),
        distinct_from(c, b.len() as int),
        forall|m: u16| !(#[trigger] p(m) && q(m)),
    ensures
        distinct_from(c, a.len() as int),
{
    assert forall|i: int, j: int| a.len() <= i < j < c.len() implies #[trigger] c[i].0 != #[trigger] c[j].0 by {
        if j < b.len() {
            assert(c[i] == b[i] && c[j] == b[j]);
        } else if i >= b.len() {
        } else {
            assert(c[i] == b[i]);
            assert(p(b[i].0));
            assert(q(c[j].0));
        }
    }
}

/// A bishop's square and a rook's square seen from one square are never the same.
proof fn lemma_hits_apart(f: int, o: u64, t: int)
    requires
        0 <= f < 64,
    ensures
        !(bishop_hit(f, o, t) && rook_hit(f, o, t)),
{
    if bishop_hit(f, o, t) && rook_hit(f, o, t) {
        let (df, dr) = if ray_hit(f, 1, 1, o, t) {
            (1int, 1int)
        } else if ray_hit(f, -1, 1, o, t) {
            (-1int, 1int)
        } else if ray_hit(f, 1, -1, o, t) {
            (1int, -1int)
        } else {
            (-1int, -1int)
        };
        let j = choose|j: int|
            #![trigger ray_sq(f, df, dr, j)]
            1 <= j < 8 && ray_on(f, df, dr, j) && ray_sq(f, df, dr, j) == t && forall|i: int|
                1 <= i < j ==> !#[trigger] mem(o, ray_sq(f, df, dr, i));
        crate::lines::lemma_ray_coords(f, df, dr, j);
        let (ef, er) = if ray_hit(f, 1, 0, o, t) {
            (1int, 0int)
        } else if ray_hit(f, -1, 0, o, t) {
            (-1int, 0int)
        } else if ray_hit(f, 0, 1, o, t) {
            (0int, 1int)
        } else {
            (0int, -1int)
        };
        let i = choose|i: int|
            #![trigger ray_sq(f, ef, er, i)]
            1 <= i < 8 && ray_on(f, ef, er, i) && ray_sq(f, ef, er, i) == t && forall|y: int|
                1 <= y < i ==> !#[trigger] mem(o, ray_sq(f, ef, er, y));
        crate::lines::lemma_ray_coords(f, ef, er, i);
    }
}

/// The position can be searched: well formed, the side to move has a king, and no
/// pawn stands beyond its promotion rank.
pub open spec fn playable(v: PosView) -> bool {
    &&& view_ok(v)
    &&& has_king(v.board, v.side)
    &&& pawns_on_board(v.board)
}

// -- target lists ------------------------------------------------------------------

/// A plain (non-pawn) move from `from` to a member of `moves`, flagged as a capture
/// exactly when it lands on `enemies`.
pub open spec fn plain_move(m: u16, from: int, moves: u64, enemies: u64) -> bool {
    &&& mv_from(m) == from
    &&& mem(moves, mv_to(m))
    &&& mv_flag(m) == (if mem(enemies, mv_to(m)) {
        4int
    } else {
        0int
    })
}

fn push_piece_moves(list: &mut MoveList, from: u8, moves: u64, enemies: u64)
    requires
        old(list).wf(),
        from < 64,
    ensures
        final(list).wf(),
        grows_by(old(list)@, final(list)@, |m: u16| plain_move(m, from as int, moves, enemies)),
        forall|m: u16| #[trigger] plain_move(m, from as int, moves, enemies) ==> listed(final(list)@, m),
        distinct_from(final(list)@, old(list)@.len() as int),
{
    let mut rest = Bitboard(moves);
    while rest.any()
        invariant
            list.wf(),
            from < 64,
            forall|t: int| #[trigger] mem(rest.0, t) ==> mem(moves, t),
            grows_by(old(list)@, list@, |m: u16| plain_move(m, from as int, moves, enemies)),
            forall|m: u16| #[trigger] plain_move(m, from as int, moves, enemies) && !mem(rest.0, mv_to(m))
                ==> listed(list@, m),
            distinct_from(list@, old(list)@.len() as int),
            forall|i: int| old(list)@.len() <= i < list@.len() ==> !mem(rest.0, mv_to(#[trigger] list@[i].0)),
        decreases popcount(rest.0),
    {
        proof {
            crate::bitboard::lemma_popcount_zero_iff(rest.0);
        }
        let ghost rest0 = rest.0;
        let to = rest.pop_lsb();
        proof {
            crate::bitboard::lemma_popcount_zero_iff(rest.0);
        }
        let flag = if Bitboard(enemies).contains(to) {
            FLAG_CAPTURE
        } else {
            FLAG_QUIET
        };
        let m = Move::from_raw_flag(Square(from), Square(to), flag);
        let ghost before = list@;
        list.push(m);
        proof {
            lemma_listed_last(before, m);
            assert forall|m2: u16| #[trigger] plain_move(m2, from as int, moves, enemies) && !mem(rest.0, mv_to(m2))
                implies listed(list@, m2) by {
                if mv_to(m2) == to as int {
                    crate::chess_move::lemma_mv_fields(m2, m.0);
                } else {
                    assert(!mem(rest0, mv_to(m2)));
                    assert(listed(before, m2));
                }
            }
            assert forall|i: int| old(list)@.len() <= i < list@.len() implies !mem(rest.0, mv_to(#[trigger] list@[i].0)) by {
                if i < before.len() {
                    assert(list@[i] == before[i]);
                }
            }
            assert forall|i: int, j: int| old(list)@.len() <= i < j < list@.len() implies #[trigger] list@[i].0
                != #[trigger] list@[j].0 by {
                if j == before.len() {
                    assert(list@[i] == before[i]);
                    assert(!mem(rest0, mv_to(before[i].0)));
                } else {
                    assert(list@[i] == before[i] && list@[j] == before[j]);
                }
            }
        }
    }
}

/// Growth in two steps is growth in one.
proof fn lemma_grows_chain(
    a: Seq<Move>,
    b: Seq<Move>,
    c: Seq<Move>,
    p: spec_fn(u16) -> bool,
    q: spec_fn(u16) -> bool,
    r: spec_fn(u16) -> bool,
)
    requires
        grows_by(a, b, p),
        grows_by(b, c, q),
        forall|m: u16| #[trigger] p(m) ==> r(m),
        forall|m: u16| #[trigger] q(m) ==> r(m),
    ensures
        grows_by(a, c, r),
{
    assert forall|i: int| a.len() <= i < c.len() implies r(#[trigger] c[i].0) by {
        if i < b.len() {
            assert(p(b[i].0));
        } else {
            assert(q(c[i].0));
        }
    }
}

/// A knight or slider move from a square of the side to move onto `targets`.
pub open spec fn piece_step(v: PosView, m: u16, targets: u64, enemies: u64, pinned: u64, k: int) -> bool {
    let f = mv_from(m);
    let p = v.board[f];
    &&& owned_by(v.board, f, v.side)
    &&& code_type(p as int) != PieceType::Pawn
    &&& code_type(p as int) != PieceType::King
    &&& piece_attacks(p, f, mv_to(m), occ_of(v.board))
    &&& plain_move(m, f, targets, enemies)
    &&& step_ok(targets, pinned, k, f, mv_to(m))
    &&& code_type(p as int) == PieceType::Knight ==> !mem(pinned, f)
}

/// A move of the knight pass, or of the diagonal pass from a square no longer in
/// `diag`.
pub open spec fn diag_done(v: PosView, m: u16, occ: u64, diag: u64) -> bool {
    let ty = code_type(v.board[mv_from(m)] as int);
    ||| ty == PieceType::Knight
    ||| (ty == PieceType::Bishop || ty == PieceType::Queen) && bishop_hit(mv_from(m), occ, mv_to(m)) && !mem(
        diag,
        mv_from(m),
    )
}

/// A move of the knight or diagonal passes, or of the straight pass from a square
/// no longer in `straight`.
pub open spec fn straight_done(v: PosView, m: u16, occ: u64, straight: u64) -> bool {
    let ty = code_type(v.board[mv_from(m)] as int);
    ||| ty == PieceType::Knight
    ||| (ty == PieceType::Bishop || ty == PieceType::Queen) && bishop_hit(mv_from(m), occ, mv_to(m))
    ||| (ty == PieceType::Rook || ty == PieceType::Queen) && rook_hit(mv_from(m), occ, mv_to(m)) && !mem(
        straight,
        mv_from(m),
    )
}

/// The generator's rules for a step from `f` to `t` of a piece other than the
/// king: the target is among `targets`, and a piece in `pinned` stays on its line
/// to the king on `k`.
pub open spec fn step_ok(targets: u64, pinned: u64, k: int, f: int, t: int) -> bool {
    mem(targets, t) && (mem(pinned, f) ==> line_sq(k, f, t))
}

fn gen_knight_slider(
    pos: &Position,
    list: &mut MoveList,
    us: Color,
    ksq: Square,
    occ: Bitboard,
    enemies: Bitboard,
    pinned: Bitboard,
    targets: Bitboard,
)
    requires
        old(list).wf(),
        pos.wf(),
        us == pos@.side,
        ksq.0 < 64,
        occ.0 == occ_of(pos@.board),
    ensures
        final(list).wf(),
        grows_by(old(list)@, final(list)@, |m: u16| piece_step(pos@, m, targets.0, enemies.0, pinned.0, ksq.0 as int)),
        forall|m: u16| #[trigger] piece_step(pos@, m, targets.0, enemies.0, pinned.0, ksq.0 as int) ==> listed(
            final(list)@,
            m,
        ),
        distinct_from(final(list)@, old(list)@.len() as int),
{
    let ghost v = pos@;
    let ghost goal = |m: u16| piece_step(v, m, targets.0, enemies.0, pinned.0, ksq.0 as int);
    // Knights: a pinned knight can never move legally.
    let mut knights = Bitboard(pos.pieces(us, PieceType::Knight).0 & !pinned.0);
    proof {
        assert forall|m: u16| #[trigger] piece_step(v, m, targets.0, enemies.0, pinned.0, ksq.0 as int)
            && code_type(v.board[mv_from(m)] as int) == PieceType::Knight implies mem(knights.0, mv_from(m)) by {
            lemma_code_split(v.board[mv_from(m)] as int);
        }
    }
    while knights.any()
        invariant
            list.wf(),
            pos.wf(),
            v == pos@,
            us == v.side,
            occ.0 == occ_of(v.board),
            goal == (|m: u16| piece_step(v, m, targets.0, enemies.0, pinned.0, ksq.0 as int)),
            forall|t: int| #[trigger] mem(knights.0, t) ==> holds(v.board, t, us, PieceType::Knight)
                && !mem(pinned.0, t),
            grows_by(old(list)@, list@, goal),
            forall|m: u16| #[trigger] piece_step(v, m, targets.0, enemies.0, pinned.0, ksq.0 as int)
                && code_type(v.board[mv_from(m)] as int) == PieceType::Knight && !mem(knights.0, mv_from(m))
                ==> listed(list@, m),
            distinct_from(list@, old(list)@.len() as int),
            forall|i: int| old(list)@.len() <= i < list@.len() ==> code_type(
                v.board[mv_from(#[trigger] list@[i].0)] as int,
            ) == PieceType::Knight && !mem(knights.0, mv_from(list@[i].0)),
        decreases popcount(knights.0),
    {
        proof {
            crate::bitboard::lemma_popcount_zero_iff(knights.0);
        }
        let ghost knights0 = knights.0;
        let from = knights.pop_lsb();
        proof {
            crate::bitboard::lemma_popcount_zero_iff(knights.0);
        }
        let moves = knight_attacks(from) & targets.0;
        let ghost before = list@;
        push_piece_moves(list, from, moves, enemies.0);
        proof {
            assert(holds(v.board, from as int, us, PieceType::Knight));
            let q = |m: u16| plain_move(m, from as int, moves, enemies.0);
            assert forall|m: u16| #[trigger] q(m) implies goal(m) by {
                assert(mem(moves, mv_to(m)));
            }
            lemma_grows_chain(old(list)@, before, list@, goal, q, goal);
            lemma_listed_keep(before, list@, q);
            let pk = |m: u16| code_type(v.board[mv_from(m)] as int) == PieceType::Knight && !mem(knights0, mv_from(m));
            assert(grows_by(old(list)@, before, pk));
            lemma_distinct_chain(old(list)@, before, list@, pk, q);
            assert forall|i: int| old(list)@.len() <= i < list@.len() implies code_type(
                v.board[mv_from(#[trigger] list@[i].0)] as int,
            ) == PieceType::Knight && !mem(knights.0, mv_from(list@[i].0)) by {
                if i < before.len() {
                    assert(list@[i] == before[i]);
                } else {
                    assert(q(list@[i].0));
                }
            }
            assert forall|m: u16| #[trigger] piece_step(v, m, targets.0, enemies.0, pinned.0, ksq.0 as int)
                && code_type(v.board[mv_from(m)] as int) == PieceType::Knight && !mem(knights.0, mv_from(m))
                implies listed(list@, m) by {
                if mv_from(m) == from as int {
                    assert(q(m));
                } else {
                    assert(!mem(knights0, mv_from(m)));
                    assert(listed(before, m));
                }
            }
        }
    }
    proof {
        assert forall|m: u16| #[trigger] piece_step(v, m, targets.0, enemies.0, pinned.0, ksq.0 as int)
            && code_type(v.board[mv_from(m)] as int) == PieceType::Knight implies listed(list@, m) by {
            assert(!mem(knights.0, mv_from(m)));
        }
    }
    // Bishops and queens (diagonal component).
    let mut diag = Bitboard(pos.pieces(us, PieceType::Bishop).0 | pos.pieces(us, PieceType::Queen).0);
    proof {
        assert forall|m: u16| #[trigger] piece_step(v, m, targets.0, enemies.0, pinned.0, ksq.0 as int)
            && (code_type(v.board[mv_from(m)] as int) == PieceType::Bishop || code_type(
            v.board[mv_from(m)] as int,
        ) == PieceType::Queen) implies mem(diag.0, mv_from(m)) by {
            lemma_code_split(v.board[mv_from(m)] as int);
        }
    }
    while diag.any()
        invariant
            list.wf(),
            pos.wf(),
            v == pos@,
            us == v.side,
            ksq.0 < 64,
            occ.0 == occ_of(v.board),
            goal == (|m: u16| piece_step(v, m, targets.0, enemies.0, pinned.0, ksq.0 as int)),
            forall|t: int| #[trigger] mem(diag.0, t) ==> holds(v.board, t, us, PieceType::Bishop)
                || holds(v.board, t, us, PieceType::Queen),
            grows_by(old(list)@, list@, goal),
            forall|m: u16| #[trigger] piece_step(v, m, targets.0, enemies.0, pinned.0, ksq.0 as int)
                && code_type(v.board[mv_from(m)] as int) == PieceType::Knight ==> listed(list@, m),
            forall|m: u16| #[trigger] piece_step(v, m, targets.0, enemies.0, pinned.0, ksq.0 as int)
                && (code_type(v.board[mv_from(m)] as int) == PieceType::Bishop || code_type(
                v.board[mv_from(m)] as int,
            ) == PieceType::Queen) && bishop_hit(mv_from(m), occ.0, mv_to(m)) && !mem(diag.0, mv_from(m))
                ==> listed(list@, m),
            distinct_from(list@, old(list)@.len() as int),
            forall|i: int| old(list)@.len() <= i < list@.len() ==> diag_done(v, #[trigger] list@[i].0, occ.0, diag.0),
        decreases popcount(diag.0),
    {
        proof {
            crate::bitboard::lemma_popcount_zero_iff(diag.0);
        }
        let ghost diag0 = diag.0;
        let from = diag.pop_lsb();
        proof {
            crate::bitboard::lemma_popcount_zero_iff(diag.0);
        }
        let ba = bishop_attacks(from, occ.0);
        let mut moves = ba & targets.0;
        if pinned.contains(from) {
            moves = moves & line(ksq.0, from);
        }
        proof {
            assert forall|t: int| #[trigger] mem(moves, t) == (bishop_hit(from as int, occ.0, t) && mem(targets.0, t)
                && (mem(pinned.0, from as int) ==> line_sq(ksq.0 as int, from as int, t))) by {
                assert(mem(ba, t) == bishop_hit(from as int, occ.0, t));
            }
        }
        let ghost before = list@;
        push_piece_moves(list, from, moves, enemies.0);
        proof {
            let q = |m: u16| plain_move(m, from as int, moves, enemies.0);
            assert forall|m: u16| #[trigger] q(m) implies goal(m) by {
                assert(mem(moves, mv_to(m)));
            }
            lemma_grows_chain(old(list)@, before, list@, goal, q, goal);
            lemma_listed_keep(before, list@, q);
            let pd = |m: u16| diag_done(v, m, occ.0, diag0);
            assert(grows_by(old(list)@, before, pd));
            lemma_distinct_chain(old(list)@, before, list@, pd, q);
            assert forall|i: int| old(list)@.len() <= i < list@.len() implies diag_done(
                v,
                #[trigger] list@[i].0,
                occ.0,
                diag.0,
            ) by {
                if i < before.len() {
                    assert(list@[i] == before[i]);
                    assert(diag_done(v, before[i].0, occ.0, diag0));
                } else {
                    assert(q(list@[i].0));
                    assert(mem(moves, mv_to(list@[i].0)));
                }
            }
            assert forall|m: u16| #[trigger] piece_step(v, m, targets.0, enemies.0, pinned.0, ksq.0 as int)
                && (code_type(v.board[mv_from(m)] as int) == PieceType::Bishop || code_type(
                v.board[mv_from(m)] as int,
            ) == PieceType::Queen) && bishop_hit(mv_from(m), occ.0, mv_to(m)) && !mem(diag.0, mv_from(m))
                implies listed(list@, m) by {
                if mv_from(m) == from as int {
                    assert(mem(moves, mv_to(m)));
                    assert(q(m));
                } else {
                    assert(!mem(diag0, mv_from(m)));
                    assert(listed(before, m));
                }
            }
        }
    }
    proof {
        assert forall|m: u16| #[trigger] piece_step(v, m, targets.0, enemies.0, pinned.0, ksq.0 as int)
            && (code_type(v.board[mv_from(m)] as int) == PieceType::Bishop || code_type(
            v.board[mv_from(m)] as int,
        ) == PieceType::Queen) && bishop_hit(mv_from(m), occ.0, mv_to(m)) implies listed(list@, m) by {
            assert(!mem(diag.0, mv_from(m)));
        }
    }
    // Rooks and queens (straight component).
    let mut straight = Bitboard(pos.pieces(us, PieceType::Rook).0 | pos.pieces(us, PieceType::Queen).0);
    proof {
        assert forall|m: u16| #[trigger] piece_step(v, m, targets.0, enemies.0, pinned.0, ksq.0 as int)
            && (code_type(v.board[mv_from(m)] as int) == PieceType::Rook || code_type(
            v.board[mv_from(m)] as int,
        ) == PieceType::Queen) implies mem(straight.0, mv_from(m)) by {
            lemma_code_split(v.board[mv_from(m)] as int);
        }
    }
    while straight.any()
        invariant
            list.wf(),
            pos.wf(),
            v == pos@,
            us == v.side,
            ksq.0 < 64,
            occ.0 == occ_of(v.board),
            goal == (|m: u16| piece_step(v, m, targets.0, enemies.0, pinned.0, ksq.0 as int)),
            forall|t: int| #[trigger] mem(straight.0, t) ==> holds(v.board, t, us, PieceType::Rook)
                || holds(v.board, t, us, PieceType::Queen),
            grows_by(old(list)@, list@, goal),
            forall|m: u16| #[trigger] piece_step(v, m, targets.0, enemies.0, pinned.0, ksq.0 as int)
                && code_type(v.board[mv_from(m)] as int) == PieceType::Knight ==> listed(list@, m),
            forall|m: u16| #[trigger] piece_step(v, m, targets.0, enemies.0, pinned.0, ksq.0 as int)
                && (code_type(v.board[mv_from(m)] as int) == PieceType::Bishop || code_type(
                v.board[mv_from(m)] as int,
            ) == PieceType::Queen) && bishop_hit(mv_from(m), occ.0, mv_to(m)) ==> listed(list@, m),
            forall|m: u16| #[trigger] piece_step(v, m, targets.0, enemies.0, pinned.0, ksq.0 as int)
                && (code_type(v.board[mv_from(m)] as int) == PieceType::Rook || code_type(
                v.board[mv_from(m)] as int,
            ) == PieceType::Queen) && rook_hit(mv_from(m), occ.0, mv_to(m)) && !mem(straight.0, mv_from(m))
                ==> listed(list@, m),
            distinct_from(list@, old(list)@.len() as int),
            forall|i: int| old(list)@.len() <= i < list@.len() ==> straight_done(
                v,
                #[trigger] list@[i].0,
                occ.0,
                straight.0,
            ),
        decreases popcount(straight.0),
    {
        proof {
            crate::bitboard::lemma_popcount_zero_iff(straight.0);
        }
        let ghost straight0 = straight.0;
        let from = straight.pop_lsb();
        proof {
            crate::bitboard::lemma_popcount_zero_iff(straight.0);
        }
        let ra = rook_attacks(from, occ.0);
        let mut moves = ra & targets.0;
        if pinned.contains(from) {
            moves = moves & line(ksq.0, from);
        }
        proof {
            assert forall|t: int| #[trigger] mem(moves, t) == (rook_hit(from as int, occ.0, t) && mem(targets.0, t)
                && (mem(pinned.0, from as int) ==> line_sq(ksq.0 as int, from as int, t))) by {
                assert(mem(ra, t) == rook_hit(from as int, occ.0, t));
            }
        }
        let ghost before = list@;
        push_piece_moves(list, from, moves, enemies.0);
        proof {
            let q = |m: u16| plain_move(m, from as int, moves, enemies.0);
            assert forall|m: u16| #[trigger] q(m) implies goal(m) by {
                assert(mem(moves, mv_to(m)));
            }
            lemma_grows_chain(old(list)@, before, list@, goal, q, goal);
            lemma_listed_keep(before, list@, q);
            let ps = |m: u16| straight_done(v, m, occ.0, straight0);
            assert(grows_by(old(list)@, before, ps));
            assert forall|m: u16| !(#[trigger] ps(m) && q(m)) by {
                if ps(m) && q(m) {
                    lemma_hits_apart(mv_from(m), occ.0, mv_to(m));
                    assert(mem(moves, mv_to(m)));
                }
            }
            lemma_distinct_chain(old(list)@, before, list@, ps, q);
            assert forall|i: int| old(list)@.len() <= i < list@.len() implies straight_done(
                v,
                #[trigger] list@[i].0,
                occ.0,
                straight.0,
            ) by {
                if i < before.len() {
                    assert(list@[i] == before[i]);
                    assert(straight_done(v, before[i].0, occ.0, straight0));
                } else {
                    assert(q(list@[i].0));
                    assert(mem(moves, mv_to(list@[i].0)));
                }
            }
            assert forall|m: u16| #[trigger] piece_step(v, m, targets.0, enemies.0, pinned.0, ksq.0 as int)
                && (code_type(v.board[mv_from(m)] as int) == PieceType::Rook || code_type(
                v.board[mv_from(m)] as int,
            ) == PieceType::Queen) && rook_hit(mv_from(m), occ.0, mv_to(m)) && !mem(straight.0, mv_from(m))
                implies listed(list@, m) by {
                if mv_from(m) == from as int {
                    assert(mem(moves, mv_to(m)));
                    assert(q(m));
                } else {
                    assert(!mem(straight0, mv_from(m)));
                    assert(listed(before, m));
                }
            }
        }
    }
    proof {
        assert forall|m: u16| #[trigger] piece_step(v, m, targets.0, enemies.0, pinned.0, ksq.0 as int)
            implies listed(list@, m) by {
            let p = v.board[mv_from(m)];
            if code_type(p as int) == PieceType::Rook || code_type(p as int) == PieceType::Queen {
                if rook_hit(mv_from(m), occ.0, mv_to(m)) {
                    assert(!mem(straight.0, mv_from(m)));
                }
            }
        }
    }
}

/// A king step from `ksq` onto a square that no enemy attacks once the king has left.
pub open spec fn king_step(v: PosView, m: u16, ksq: int, enemies: u64, quiets: bool) -> bool {
    let t = mv_to(m);
    &&& mv_from(m) == ksq
    &&& king_adj(ksq, t)
    &&& !owned_by(v.board, t, v.side)
    &&& mv_flag(m) == (if mem(enemies, t) {
        4int
    } else {
        0int
    })
    &&& !attacked_by(v.board, t, opposite(v.side), occ_of(v.board) ^ single(ksq))
    &&& !quiets ==> mem(enemies, t)
}

fn gen_king(
    pos: &Position,
    list: &mut MoveList,
    them: Color,
    ksq: Square,
    occ: Bitboard,
    our: Bitboard,
    enemies: Bitboard,
    quiets: bool,
)
    requires
        old(list).wf(),
        pos.wf(),
        them == opposite(pos@.side),
        ksq.0 < 64,
        occ.0 == occ_of(pos@.board),
        forall|s: int| #[trigger] mem(our.0, s) == (0 <= s < 64 && owned_by(pos@.board, s, pos@.side)),
    ensures
        final(list).wf(),
        grows_by(
            old(list)@,
            final(list)@,
            |m: u16| king_step(pos@, m, ksq.0 as int, enemies.0, quiets),
        ),
        forall|m: u16| #[trigger] king_step(pos@, m, ksq.0 as int, enemies.0, quiets) ==> listed(final(list)@, m),
        distinct_from(final(list)@, old(list)@.len() as int),
{
    let ghost v = pos@;
    let ghost goal = |m: u16| king_step(v, m, ksq.0 as int, enemies.0, quiets);
    // Remove the king from the occupancy so sliders see through its square.
    let occ_no_king = Bitboard(occ.0 ^ Bitboard::from_square(ksq.0).0);
    let mut moves = Bitboard(king_attacks(ksq.0) & !our.0);
    if !quiets {
        moves = Bitboard(moves.0 & enemies.0);
    }
    proof {
        assert forall|m: u16| #[trigger] king_step(v, m, ksq.0 as int, enemies.0, quiets) implies mem(
            moves.0,
            mv_to(m),
        ) by {}
    }
    while moves.any()
        invariant
            list.wf(),
            pos.wf(),
            v == pos@,
            them == opposite(v.side),
            ksq.0 < 64,
            occ_no_king.0 == occ_of(v.board) ^ single(ksq.0 as int),
            goal == (|m: u16| king_step(v, m, ksq.0 as int, enemies.0, quiets)),
            forall|t: int| #[trigger] mem(moves.0, t) ==> king_adj(ksq.0 as int, t) && !owned_by(
                v.board,
                t,
                v.side,
            ) && (!quiets ==> mem(enemies.0, t)),
            grows_by(old(list)@, list@, goal),
            forall|m: u16| #[trigger] king_step(v, m, ksq.0 as int, enemies.0, quiets) && !mem(moves.0, mv_to(m))
                ==> listed(list@, m),
            distinct_from(list@, old(list)@.len() as int),
            forall|i: int| old(list)@.len() <= i < list@.len() ==> !mem(moves.0, mv_to(#[trigger] list@[i].0)),
        decreases popcount(moves.0),
    {
        proof {
            crate::bitboard::lemma_popcount_zero_iff(moves.0);
        }
        let ghost moves0 = moves.0;
        let to = moves.pop_lsb();
        proof {
            crate::bitboard::lemma_popcount_zero_iff(moves.0);
        }
        if !pos.is_attacked(Square(to), them, occ_no_king) {
            let flag = if enemies.contains(to) {
                FLAG_CAPTURE
            } else {
                FLAG_QUIET
            };
            let m = Move::from_raw_flag(ksq, Square(to), flag);
            let ghost before = list@;
            list.push(m);
            proof {
                assert(goal(m.0));
                lemma_listed_last(before, m);
                assert forall|m2: u16| #[trigger] king_step(v, m2, ksq.0 as int, enemies.0, quiets) && !mem(
                    moves.0,
                    mv_to(m2),
                ) implies listed(list@, m2) by {
                    if mv_to(m2) == to as int {
                        crate::chess_move::lemma_mv_fields(m2, m.0);
                    } else {
                        assert(!mem(moves0, mv_to(m2)));
                    }
                }
                assert forall|i: int| old(list)@.len() <= i < list@.len() implies !mem(
                    moves.0,
                    mv_to(#[trigger] list@[i].0),
                ) by {
                    if i < before.len() {
                        assert(list@[i] == before[i]);
                    }
                }
                assert forall|i: int, j: int| old(list)@.len() <= i < j < list@.len() implies #[trigger] list@[i].0
                    != #[trigger] list@[j].0 by {
                    if j == before.len() {
                        assert(list@[i] == before[i]);
                        assert(!mem(moves0, mv_to(before[i].0)));
                    } else {
                        assert(list@[i] == before[i] && list@[j] == before[j]);
                    }
                }
            }
        } else {
            proof {
                assert forall|m2: u16| #[trigger] king_step(v, m2, ksq.0 as int, enemies.0, quiets) && !mem(
                    moves.0,
                    mv_to(m2),
                ) implies listed(list@, m2) by {
                    if mv_to(m2) != to as int {
                        assert(!mem(moves0, mv_to(m2)));
                    }
                }
            }
        }
    }
}

/// A castling move whose right is held, whose path is empty and whose king squares are safe.
pub open spec fn castle_step(v: PosView, m: u16) -> bool {
    let fl = mv_flag(m);
    let ks = fl == 2;
    let base = back_rank(v.side);
    &&& fl == 2 || fl == 3
    &&& mv_from(m) == base + 4
    &&& mv_to(m) == base + (if ks { 6int } else { 2int })
    &&& v.castling & castle_bit(v.side, ks) != 0
    &&& castle_path_clear(v.board, v.side, ks)
    &&& castle_path_safe(v.board, v.side, ks)
}

proof fn lemma_clear_bits(o: u64)
    ensures
        ((o & 0x60u64) == 0) == (!mem(o, 5) && !mem(o, 6)),
        ((o & 0x0Eu64) == 0) == (!mem(o, 1) && !mem(o, 2) && !mem(o, 3)),
        ((o & 0x6000_0000_0000_0000u64) == 0) == (!mem(o, 61) && !mem(o, 62)),
        ((o & 0x0E00_0000_0000_0000u64) == 0) == (!mem(o, 57) && !mem(o, 58) && !mem(o, 59)),
{
    assert((((o & 0x60u64) == 0) == ((o >> 5u64) & 1 != 1 && (o >> 6u64) & 1 != 1))
        && (((o & 0x0Eu64) == 0) == ((o >> 1u64) & 1 != 1 && (o >> 2u64) & 1 != 1 && (o >> 3u64) & 1 != 1))
        && (((o & 0x6000_0000_0000_0000u64) == 0) == ((o >> 61u64) & 1 != 1 && (o >> 62u64) & 1 != 1))
        && (((o & 0x0E00_0000_0000_0000u64) == 0) == ((o >> 57u64) & 1 != 1 && (o >> 58u64) & 1 != 1
        && (o >> 59u64) & 1 != 1))) by (bit_vector);
}

/// Push the castling move `from`-`to` with `flag`; the list keeps what it listed.
fn push_castle(pos: &Position, list: &mut MoveList, from: u8, to: u8, flag: u16)
    requires
        old(list).wf(),
        from < 64,
        to < 64,
        flag < 16,
        forall|m: u16| mv_from(m) == from && mv_to(m) == to && mv_flag(m) == flag ==> #[trigger] castle_step(
            pos@,
            m,
        ),
    ensures
        final(list).wf(),
        grows_by(old(list)@, final(list)@, |m: u16| castle_step(pos@, m)),
        grows_by(old(list)@, final(list)@, |m: u16| mv_flag(m) == flag),
        forall|m: u16|
            mv_from(m) == from && mv_to(m) == to && mv_flag(m) == flag ==> #[trigger] listed(final(list)@, m),
        forall|m: u16| #[trigger] listed(old(list)@, m) ==> listed(final(list)@, m),
        distinct_from(final(list)@, old(list)@.len() as int),
{
    let m = Move::from_raw_flag(Square(from), Square(to), flag);
    let ghost before = list@;
    list.push(m);
    proof {
        lemma_listed_last(before, m);
        assert forall|m2: u16| mv_from(m2) == from && mv_to(m2) == to && mv_flag(m2) == flag implies #[trigger] listed(
            list@,
            m2,
        ) by {
            crate::chess_move::lemma_mv_fields(m2, m.0);
        }
    }
}

fn gen_castling(pos: &Position, list: &mut MoveList, us: Color, them: Color, occ: Bitboard)
    requires
        old(list).wf(),
        pos.wf(),
        us == pos@.side,
        them == opposite(us),
        occ.0 == occ_of(pos@.board),
    ensures
        final(list).wf(),
        grows_by(old(list)@, final(list)@, |m: u16| castle_step(pos@, m)),
        forall|m: u16| #[trigger] castle_step(pos@, m) ==> listed(final(list)@, m),
        distinct_from(final(list)@, old(list)@.len() as int),
{
    let ghost v = pos@;
    let ghost goal = |m: u16| castle_step(v, m);
    proof {
        lemma_clear_bits(occ.0);
        pos.lemma_wf();
        crate::position::lemma_occ_upto(v.board, 64);
    }
    let rights = pos.castling_rights();
    let (base, kbit, qbit, kpath, qpath): (u8, u8, u8, u64, u64) = if us == Color::White {
        (0, crate::types::WHITE_KING, crate::types::WHITE_QUEEN, 0x60, 0x0E)
    } else {
        (56, crate::types::BLACK_KING, crate::types::BLACK_QUEEN, 0x6000_0000_0000_0000, 0x0E00_0000_0000_0000)
    };
    proof {
        assert(base == back_rank(us));
        assert(kbit == castle_bit(us, true));
        assert(qbit == castle_bit(us, false));
        assert(((occ.0 & kpath) == 0) == castle_path_clear(v.board, us, true));
        assert(((occ.0 & qpath) == 0) == castle_path_clear(v.board, us, false));
    }
    let ghost l0 = list@;
    // King side: the two squares beside the king empty; king, crossed and landing squares safe.
    if rights.has(kbit) && (occ.0 & kpath) == 0 && !pos.is_attacked(Square(base + 4), them, occ)
        && !pos.is_attacked(Square(base + 5), them, occ) && !pos.is_attacked(Square(base + 6), them, occ) {
        push_castle(pos, list, base + 4, base + 6, FLAG_KCASTLE);
    }
    let ghost l1 = list@;
    // Queen side: the three squares toward the rook empty; king, crossed and landing squares safe.
    if rights.has(qbit) && (occ.0 & qpath) == 0 && !pos.is_attacked(Square(base + 4), them, occ)
        && !pos.is_attacked(Square(base + 3), them, occ) && !pos.is_attacked(Square(base + 2), them, occ) {
        push_castle(pos, list, base + 4, base + 2, FLAG_QCASTLE);
    }
    proof {
        assert forall|m: u16| #[trigger] castle_step(v, m) implies listed(list@, m) by {
            if mv_flag(m) == 2 {
                assert(listed(l1, m));
            }
        }
        let p2 = |m: u16| mv_flag(m) == 2;
        let p3 = |m: u16| mv_flag(m) == 3;
        assert(grows_by(l0, l1, p2));
        assert(grows_by(l1, list@, p3));
        lemma_distinct_chain(l0, l1, list@, p2, p3);
    }
}

/// A promotion from `from` to `to` (capturing exactly when `capture`).
pub open spec fn promo_move(m: u16, from: int, to: int, capture: bool) -> bool {
    &&& mv_from(m) == from
    &&& mv_to(m) == to
    &&& if capture {
        12 <= mv_flag(m) <= 15
    } else {
        8 <= mv_flag(m) <= 11
    }
}

/// Push the four promotions of a pawn move, queen first.
fn add_promotions(list: &mut MoveList, from: Square, to: Square, capture: bool)
    requires
        old(list).wf(),
        from.0 < 64,
        to.0 < 64,
    ensures
        final(list).wf(),
        grows_by(
            old(list)@,
            final(list)@,
            |m: u16| promo_move(m, from.0 as int, to.0 as int, capture),
        ),
        forall|m: u16| #[trigger] promo_move(m, from.0 as int, to.0 as int, capture) ==> listed(final(list)@, m),
        distinct_from(final(list)@, old(list)@.len() as int),
        final(list)@.len() == old(list)@.len() + 4,
{
    let base = if capture {
        FLAG_PROMO_CAPTURE
    } else {
        FLAG_PROMO
    };
    let ghost l0 = list@;
    // Queen, rook, bishop, knight (low two bits: N=0, B=1, R=2, Q=3).
    let q = Move::from_raw_flag(from, to, base + 3);
    list.push(q);
    let r = Move::from_raw_flag(from, to, base + 2);
    list.push(r);
    let b = Move::from_raw_flag(from, to, base + 1);
    list.push(b);
    let n = Move::from_raw_flag(from, to, base);
    list.push(n);
    proof {
        let l = list@;
        assert(l[l0.len() as int] == q);
        assert(l[l0.len() as int + 1] == r);
        assert(l[l0.len() as int + 2] == b);
        assert(l[l0.len() as int + 3] == n);
        assert forall|m: u16| #[trigger] promo_move(m, from.0 as int, to.0 as int, capture) implies listed(l, m) by {
            if mv_flag(m) == base + 3 {
                crate::chess_move::lemma_mv_fields(m, q.0);
            } else if mv_flag(m) == base + 2 {
                crate::chess_move::lemma_mv_fields(m, r.0);
            } else if mv_flag(m) == base + 1 {
                crate::chess_move::lemma_mv_fields(m, b.0);
            } else {
                crate::chess_move::lemma_mv_fields(m, n.0);
            }
        }
    }
}

/// A generated pawn move: pseudo-legal, and noisy unless quiet moves were asked for.
pub open spec fn pawn_gen(v: PosView, m: u16, quiets: bool, targets: u64, pinned: u64, k: int) -> bool {
    let f = mv_from(m);
    let t = mv_to(m);
    &&& code_type(v.board[f] as int) == PieceType::Pawn
    &&& pseudo_legal(v, m)
    &&& !quiets ==> is_noisy(m)
    &&& mv_flag(m) != 5 ==> step_ok(targets, pinned, k, f, t)
    &&& mv_flag(m) == 5 ==> !attacked_by(
        ep_board(v.board, f, cap_sq(v.side, t), t, v.side),
        k,
        opposite(v.side),
        (occ_of(v.board) ^ single(f) ^ single(cap_sq(v.side, t))) | single(t),
    )
}

/// Could the en-passant capture `from`x`ep` be legal? Prunes captures that neither
/// remove nor block a single checker, then tests every enemy line onto the king with
/// the occupancy after the capture.
fn ep_is_legal(
    pos: &Position,
    from: Square,
    ep: Square,
    us: Color,
    them: Color,
    ksq: Square,
    occ: Bitboard,
    num_checkers: u32,
    targets: Bitboard,
) -> (r: bool)
    requires
        pos.wf(),
        from.0 < 64,
        ksq.0 < 64,
        ep.0 < 64,
        us == opposite(them),
        0 <= cap_sq(us, ep.0 as int) < 64,
    ensures
        r ==> !attacked_by(
            ep_board(pos@.board, from.0 as int, cap_sq(us, ep.0 as int), ep.0 as int, us),
            ksq.0 as int,
            them,
            (occ.0 ^ single(from.0 as int) ^ single(cap_sq(us, ep.0 as int))) | single(ep.0 as int),
        ),
        ep_capture_safe(pos@.board, from.0 as int, ep.0 as int, us, ksq.0 as int, occ.0) && (num_checkers == 1
            ==> mem(targets.0, cap_sq(us, ep.0 as int)) || mem(targets.0, ep.0 as int)) ==> r,
{
    let cap = if us == Color::White {
        ep.0 - 8
    } else {
        ep.0 + 8
    };
    if num_checkers == 1 && !targets.contains(cap) && !targets.contains(ep.0) {
        return false;
    }
    let new_occ = (occ.0 ^ Bitboard::from_square(from.0).0 ^ Bitboard::from_square(cap).0)
        | Bitboard::from_square(ep.0).0;
    let ghost b = pos@.board;
    let ghost eb = ep_board(b, from.0 as int, cap as int, ep.0 as int, us);
    let ghost k = ksq.0 as int;
    let ghost safe = ep_capture_safe(b, from.0 as int, ep.0 as int, us, k, occ.0);
    proof {
        pos.lemma_wf();
        crate::position::lemma_code_parts(us, PieceType::Pawn);
        crate::position::lemma_code_parts(them, PieceType::Pawn);
    }
    let enemy_bq = pos.pieces(them, PieceType::Bishop).0 | pos.pieces(them, PieceType::Queen).0;
    let enemy_rq = pos.pieces(them, PieceType::Rook).0 | pos.pieces(them, PieceType::Queen).0;
    let ba = bishop_attacks(ksq.0, new_occ);
    if (ba & enemy_bq) != 0 {
        proof {
            if safe {
                crate::bitboard::lemma_nonzero_iff(ba & enemy_bq);
                let x = choose|x: int| 0 <= x < 64 && #[trigger] mem(ba & enemy_bq, x);
                lemma_ep_attacker(b, from.0 as int, ep.0 as int, us, k, x);
                lemma_bishop_sym(k, new_occ, x);
                assert(attacker(eb, x, k, new_occ) && code_color(eb[x] as int) == them);
            }
        }
        return false;
    }
    let ra = rook_attacks(ksq.0, new_occ);
    if (ra & enemy_rq) != 0 {
        proof {
            if safe {
                crate::bitboard::lemma_nonzero_iff(ra & enemy_rq);
                let x = choose|x: int| 0 <= x < 64 && #[trigger] mem(ra & enemy_rq, x);
                lemma_ep_attacker(b, from.0 as int, ep.0 as int, us, k, x);
                lemma_rook_sym(k, new_occ, x);
                assert(attacker(eb, x, k, new_occ) && code_color(eb[x] as int) == them);
            }
        }
        return false;
    }
    // The captured pawn no longer attacks.
    let enemy_pawns = pos.pieces(them, PieceType::Pawn).0 & !Bitboard::from_square(cap).0;
    let pa = pawn_attacks(us, ksq.0);
    if (pa & enemy_pawns) != 0 {
        proof {
            if safe {
                crate::bitboard::lemma_nonzero_iff(pa & enemy_pawns);
                let x = choose|x: int| 0 <= x < 64 && #[trigger] mem(pa & enemy_pawns, x);
                lemma_ep_attacker(b, from.0 as int, ep.0 as int, us, k, x);
                lemma_leaper_sym(us, k, x);
                assert(attacker(eb, x, k, new_occ) && code_color(eb[x] as int) == them);
            }
        }
        return false;
    }
    let na = knight_attacks(ksq.0);
    let enemy_n = pos.pieces(them, PieceType::Knight).0;
    if (na & enemy_n) != 0 {
        proof {
            if safe {
                crate::bitboard::lemma_nonzero_iff(na & enemy_n);
                let x = choose|x: int| 0 <= x < 64 && #[trigger] mem(na & enemy_n, x);
                lemma_ep_attacker(b, from.0 as int, ep.0 as int, us, k, x);
                lemma_leaper_sym(us, k, x);
                assert(attacker(eb, x, k, new_occ) && code_color(eb[x] as int) == them);
            }
        }
        return false;
    }
    let ka = king_attacks(ksq.0);
    let enemy_k = pos.pieces(them, PieceType::King).0;
    if (ka & enemy_k) != 0 {
        proof {
            if safe {
                crate::bitboard::lemma_nonzero_iff(ka & enemy_k);
                let x = choose|x: int| 0 <= x < 64 && #[trigger] mem(ka & enemy_k, x);
                lemma_ep_attacker(b, from.0 as int, ep.0 as int, us, k, x);
                lemma_leaper_sym(us, k, x);
                assert(attacker(eb, x, k, new_occ) && code_color(eb[x] as int) == them);
            }
        }
        return false;
    }
    proof {
        assert(!mem(ba & enemy_bq, 0int) && !mem(ra & enemy_rq, 0int));
        assert forall|x: int| !(#[trigger] attacker(eb, x, k, new_occ) && code_color(eb[x] as int) == them) by {
            if attacker(eb, x, k, new_occ) && code_color(eb[x] as int) == them {
                crate::position::lemma_code_parts(us, PieceType::Pawn);
                pos.lemma_wf();
                assert(pos@.board.len() == 64);
                if x == ep.0 as int {
                    assert(eb[x] == piece_code(us, PieceType::Pawn) as u8);
                    assert(false);
                } else if x == cap as int {
                    assert(eb[x] == NO_PIECE);
                    assert(false);
                } else if x == from.0 as int {
                    assert(eb[x] == NO_PIECE);
                    assert(false);
                }
                assert(eb[x] == pos@.board[x]);
                lemma_leaper_sym(us, k, x);
                lemma_leaper_sym(them, k, x);
                lemma_bishop_sym(k, new_occ, x);
                lemma_rook_sym(k, new_occ, x);
                crate::position::lemma_code_split(pos@.board[x] as int);
                assert(!mem(ba & enemy_bq, x));
                assert(!mem(ra & enemy_rq, x));
                assert(!mem(pa & enemy_pawns, x));
                assert(!mem(na & enemy_n, x));
                assert(!mem(ka & enemy_k, x));
                assert(false);
            }
        }
    }
    true
}

/// The en-passant capture `f`x`e` of `us`, on a board where it can be made, leaves
/// the king on `k` unattacked.
pub open spec fn ep_capture_safe(b: Seq<u8>, f: int, e: int, us: Color, k: int, occ: u64) -> bool {
    let c = cap_sq(us, e);
    &&& b[f] == pawn_code(us)
    &&& b[c] == pawn_code(opposite(us))
    &&& b[e] == NO_PIECE
    &&& occ == occ_of(b)
    &&& !attacked_by(
        ep_board(b, f, c, e, us),
        k,
        opposite(us),
        (occ ^ single(f) ^ single(c)) | single(e),
    )
}

/// A piece of the other side found by the en-passant test stands unmoved on the
/// board after the capture.
proof fn lemma_ep_attacker(b: Seq<u8>, f: int, e: int, us: Color, k: int, x: int)
    requires
        board_codes(b),
        0 <= f < 64,
        0 <= e < 64,
        0 <= cap_sq(us, e) < 64,
        0 <= x < 64,
        0 <= k < 64,
        b[f] == pawn_code(us),
        b[e] == NO_PIECE,
        b[x] < 12,
        code_color(b[x] as int) == opposite(us),
        x != cap_sq(us, e),
    ensures
        ep_board(b, f, cap_sq(us, e), e, us)[x] == b[x],
{
    crate::position::lemma_code_parts(us, PieceType::Pawn);
}

/// The board after the en-passant capture `f`x`e` of `us`, taking the pawn on `c`.
pub open spec fn ep_board(b: Seq<u8>, f: int, c: int, e: int, us: Color) -> Seq<u8> {
    b.update(f, NO_PIECE).update(c, NO_PIECE).update(e, piece_code(us, PieceType::Pawn) as u8)
}

/// Push the move `from`-`to` with `flag`.
fn push_move(list: &mut MoveList, from: u8, to: u8, flag: u16) -> (m: Move)
    requires
        old(list).wf(),
        from < 64,
        to < 64,
        flag < 16,
    ensures
        final(list).wf(),
        final(list)@ == old(list)@.push(m),
        mv_from(m.0) == from,
        mv_to(m.0) == to,
        mv_flag(m.0) == flag,
        forall|m2: u16|
            mv_from(m2) == from && mv_to(m2) == to && mv_flag(m2) == flag ==> #[trigger] listed(final(list)@, m2),
        forall|m2: u16| #[trigger] listed(old(list)@, m2) ==> listed(final(list)@, m2),
        distinct_from(final(list)@, old(list)@.len() as int),
{
    let m = Move::from_raw_flag(Square(from), Square(to), flag);
    let ghost before = list@;
    list.push(m);
    proof {
        lemma_listed_last(before, m);
        assert forall|m2: u16| mv_from(m2) == from && mv_to(m2) == to && mv_flag(m2) == flag implies #[trigger] listed(
            list@,
            m2,
        ) by {
            crate::chess_move::lemma_mv_fields(m2, m.0);
        }
    }
    m
}

/// A capture from `from` onto a square no longer in `caps`.
pub open spec fn cap_done(m: u16, from: u8, caps: u64) -> bool {
    mv_from(m) == from && cap_flag(mv_flag(m)) && !mem(caps, mv_to(m))
}

/// Flags of pawn pushes: quiet, double, and the quiet promotions.
pub open spec fn push_flag(fl: int) -> bool {
    fl == 0 || fl == 1 || (8 <= fl && fl <= 11)
}

/// Flags of pawn captures other than en passant.
pub open spec fn cap_flag(fl: int) -> bool {
    fl == 4 || fl >= 12
}

/// A pawn move the generator owes: one it may add, which in single check, when it
/// takes en passant, takes the checking piece or lands on the checking line.
pub open spec fn pawn_owed(
    v: PosView,
    m: u16,
    quiets: bool,
    targets: u64,
    pinned: u64,
    k: int,
    num_checkers: u32,
) -> bool {
    &&& pawn_gen(v, m, quiets, targets, pinned, k)
    &&& mv_flag(m) == 5 && num_checkers == 1 ==> mem(targets, cap_sq(v.side, mv_to(m))) || mem(
        targets,
        mv_to(m),
    )
}

fn gen_pawns(
    pos: &Position,
    list: &mut MoveList,
    us: Color,
    them: Color,
    ksq: Square,
    occ: Bitboard,
    enemies: Bitboard,
    pinned: Bitboard,
    targets: Bitboard,
    quiets: bool,
    num_checkers: u32,
)
    requires
        old(list).wf(),
        pos.wf(),
        pawns_on_board(pos@.board),
        us == pos@.side,
        them == opposite(us),
        ksq.0 < 64,
        occ.0 == occ_of(pos@.board),
        forall|s: int| #[trigger] mem(enemies.0, s) == (0 <= s < 64 && owned_by(pos@.board, s, them)),
    ensures
        final(list).wf(),
        grows_by(
            old(list)@,
            final(list)@,
            |m: u16| pawn_gen(pos@, m, quiets, targets.0, pinned.0, ksq.0 as int),
        ),
        forall|m: u16| #[trigger] pawn_owed(pos@, m, quiets, targets.0, pinned.0, ksq.0 as int, num_checkers)
            ==> listed(final(list)@, m),
        distinct_from(final(list)@, old(list)@.len() as int),
{
    let ghost v = pos@;
    let ghost goal = |m: u16| pawn_gen(v, m, quiets, targets.0, pinned.0, ksq.0 as int);
    let mut pawns = pos.pieces(us, PieceType::Pawn);
    proof {
        assert forall|m: u16| #[trigger] pawn_owed(v, m, quiets, targets.0, pinned.0, ksq.0 as int, num_checkers)
            implies mem(pawns.0, mv_from(m)) by {
            lemma_code_split(v.board[mv_from(m)] as int);
        }
    }
    while pawns.any()
        invariant
            list.wf(),
            pos.wf(),
            v == pos@,
            pawns_on_board(v.board),
            us == v.side,
            them == opposite(us),
            ksq.0 < 64,
            occ.0 == occ_of(v.board),
            forall|s: int| #[trigger] mem(enemies.0, s) == (0 <= s < 64 && owned_by(v.board, s, them)),
            goal == (|m: u16| pawn_gen(v, m, quiets, targets.0, pinned.0, ksq.0 as int)),
            forall|t: int| #[trigger] mem(pawns.0, t) ==> holds(v.board, t, us, PieceType::Pawn),
            grows_by(old(list)@, list@, goal),
            forall|m: u16| #[trigger] pawn_owed(v, m, quiets, targets.0, pinned.0, ksq.0 as int, num_checkers)
                && !mem(pawns.0, mv_from(m)) ==> listed(list@, m),
            distinct_from(list@, old(list)@.len() as int),
            forall|i: int| old(list)@.len() <= i < list@.len() ==> !mem(pawns.0, mv_from(#[trigger] list@[i].0)),
        decreases popcount(pawns.0),
    {
        proof {
            crate::bitboard::lemma_popcount_zero_iff(pawns.0);
        }
        let ghost pawns0 = pawns.0;
        let from = pawns.pop_lsb();
        proof {
            crate::bitboard::lemma_popcount_zero_iff(pawns.0);
        }
        let ghost before = list@;
        gen_pawn_from(pos, list, us, them, ksq, occ, enemies, pinned, targets, quiets, num_checkers, from);
        proof {
            lemma_grows_chain(old(list)@, before, list@, goal, goal, goal);
            lemma_listed_keep(before, list@, goal);
            let pp = |m: u16| !mem(pawns0, mv_from(m));
            let pq = |m: u16| mv_from(m) == from;
            assert(grows_by(old(list)@, before, pp));
            lemma_distinct_chain(old(list)@, before, list@, pp, pq);
            assert forall|i: int| old(list)@.len() <= i < list@.len() implies !mem(
                pawns.0,
                mv_from(#[trigger] list@[i].0),
            ) by {
                if i < before.len() {
                    assert(list@[i] == before[i]);
                    assert(pp(before[i].0));
                } else {
                    assert(pq(list@[i].0));
                }
            }
            assert forall|m: u16| #[trigger] pawn_owed(v, m, quiets, targets.0, pinned.0, ksq.0 as int, num_checkers)
                && !mem(pawns.0, mv_from(m)) implies listed(list@, m) by {
                if mv_from(m) != from as int {
                    assert(!mem(pawns0, mv_from(m)));
                    assert(listed(before, m));
                }
            }
        }
    }
}

/// The moves of the pawn on `from`.
fn gen_pawn_from(
    pos: &Position,
    list: &mut MoveList,
    us: Color,
    them: Color,
    ksq: Square,
    occ: Bitboard,
    enemies: Bitboard,
    pinned: Bitboard,
    targets: Bitboard,
    quiets: bool,
    num_checkers: u32,
    from: u8,
)
    requires
        old(list).wf(),
        pos.wf(),
        pawns_on_board(pos@.board),
        us == pos@.side,
        them == opposite(us),
        ksq.0 < 64,
        occ.0 == occ_of(pos@.board),
        forall|s: int| #[trigger] mem(enemies.0, s) == (0 <= s < 64 && owned_by(pos@.board, s, them)),
        from < 64,
        holds(pos@.board, from as int, us, PieceType::Pawn),
    ensures
        final(list).wf(),
        grows_by(
            old(list)@,
            final(list)@,
            |m: u16| pawn_gen(pos@, m, quiets, targets.0, pinned.0, ksq.0 as int),
        ),
        forall|m: u16| #[trigger] pawn_owed(pos@, m, quiets, targets.0, pinned.0, ksq.0 as int, num_checkers)
            && mv_from(m) == from ==> listed(final(list)@, m),
        grows_by(old(list)@, final(list)@, |m: u16| mv_from(m) == from),
        distinct_from(final(list)@, old(list)@.len() as int),
{
    let ghost v = pos@;
    let ghost goal = |m: u16| pawn_gen(v, m, quiets, targets.0, pinned.0, ksq.0 as int);
    let pinray = if pinned.contains(from) {
        line(ksq.0, from)
    } else {
        !0u64
    };
    proof {
        assert(forall|x: int| #[trigger] mem(pinray, x) && mem(pinned.0, from as int) ==> line_sq(
            ksq.0 as int,
            from as int,
            x,
        ));
        assert forall|x: int| 0 <= x < 64 && step_ok(targets.0, pinned.0, ksq.0 as int, from as int, x) implies #[trigger] mem(
            pinray,
            x,
        ) by {
            if !mem(pinned.0, from as int) {
                crate::bitboard::lemma_has_not(0u64, x);
                crate::bitboard::lemma_has_zero(x);
            }
        }
    }
    let ghost l0 = list@;
    gen_pawn_pushes(pos, list, us, ksq, occ, pinned, targets, quiets, num_checkers, from, pinray);
    let ghost l1 = list@;
    gen_pawn_captures(pos, list, us, them, ksq, enemies, pinned, targets, quiets, num_checkers, from, pinray);
    let ghost l2 = list@;
    gen_pawn_ep(pos, list, us, them, ksq, occ, pinned, targets, quiets, num_checkers, from);
    proof {
        lemma_grows_chain(old(list)@, l1, l2, goal, goal, goal);
        lemma_grows_chain(old(list)@, l2, list@, goal, goal, goal);
        lemma_listed_keep(l1, l2, goal);
        lemma_listed_keep(l2, list@, goal);
        let pa = |m: u16| mv_from(m) == from && push_flag(mv_flag(m));
        let pb = |m: u16| mv_from(m) == from && cap_flag(mv_flag(m));
        let pab = |m: u16| mv_from(m) == from && (push_flag(mv_flag(m)) || cap_flag(mv_flag(m)));
        let pe = |m: u16| mv_from(m) == from && mv_flag(m) == 5;
        lemma_distinct_chain(l0, l1, l2, pa, pb);
        lemma_grows_chain(l0, l1, l2, pa, pb, pab);
        lemma_distinct_chain(l0, l2, list@, pab, pe);
        let pf = |m: u16| mv_from(m) == from;
        lemma_grows_chain(l0, l2, list@, pab, pe, pf);
        assert forall|m: u16| #[trigger] pawn_owed(v, m, quiets, targets.0, pinned.0, ksq.0 as int, num_checkers)
            && mv_from(m) == from implies listed(list@, m) by {
            assert(pawn_move_ok(v, m));
            if mv_flag(m) == 0 || mv_flag(m) == 1 || (8 <= mv_flag(m) && mv_flag(m) <= 11) {
                assert(listed(l1, m));
                assert(listed(l2, m));
            } else if mv_flag(m) == 4 || mv_flag(m) >= 12 {
                assert(listed(l2, m));
            }
        }
    }
}

/// The pushes of the pawn on `from`: single, double, and promotions.
fn gen_pawn_pushes(
    pos: &Position,
    list: &mut MoveList,
    us: Color,
    ksq: Square,
    occ: Bitboard,
    pinned: Bitboard,
    targets: Bitboard,
    quiets: bool,
    num_checkers: u32,
    from: u8,
    pinray: u64,
)
    requires
        old(list).wf(),
        pos.wf(),
        pawns_on_board(pos@.board),
        us == pos@.side,
        ksq.0 < 64,
        occ.0 == occ_of(pos@.board),
        from < 64,
        holds(pos@.board, from as int, us, PieceType::Pawn),
        forall|x: int| #[trigger] mem(pinray, x) && mem(pinned.0, from as int) ==> line_sq(
            ksq.0 as int,
            from as int,
            x,
        ),
        forall|x: int| 0 <= x < 64 && step_ok(targets.0, pinned.0, ksq.0 as int, from as int, x) ==> #[trigger] mem(
            pinray,
            x,
        ),
    ensures
        final(list).wf(),
        grows_by(
            old(list)@,
            final(list)@,
            |m: u16| pawn_gen(pos@, m, quiets, targets.0, pinned.0, ksq.0 as int),
        ),
        forall|m: u16| #[trigger] pawn_owed(pos@, m, quiets, targets.0, pinned.0, ksq.0 as int, num_checkers)
            && mv_from(m) == from && (mv_flag(m) == 0 || mv_flag(m) == 1 || (8 <= mv_flag(m) && mv_flag(m) <= 11))
            ==> listed(final(list)@, m),
        grows_by(old(list)@, final(list)@, |m: u16| mv_from(m) == from && push_flag(mv_flag(m))),
        distinct_from(final(list)@, old(list)@.len() as int),
{
    let ghost v = pos@;
    let ghost goal = |m: u16| pawn_gen(v, m, quiets, targets.0, pinned.0, ksq.0 as int);
    proof {
        pos.lemma_wf();
        crate::position::lemma_occ_upto(v.board, 64);
        assert(v.board[from as int] == pawn_code(us));
    }
    let white = us == Color::White;
    let start: u8 = if white {
        1
    } else {
        6
    };
    let promo: u8 = if white {
        6
    } else {
        1
    };
    let empties = !occ.0;
    let rank = Square(from).rank();
    let on_promo_rank = rank == promo;
    // The double push is considered on its own: it may block a check that the
    // single push cannot.
    let one = if white {
        from + 8
    } else {
        from - 8
    };
    proof {
        assert(one as int == forward(us, from as int));
    }
    if (empties >> one) & 1 == 1 {
        proof {
            assert(mem(empties, one as int));
            assert(v.board[one as int] == NO_PIECE);
        }
        if on_promo_rank {
            if targets.contains(one) && (pinray >> one) & 1 == 1 {
                proof {
                    assert(mem(pinray, one as int));
                }
                add_promotions(list, Square(from), Square(one), false);
                proof {
                    let q = |m: u16| promo_move(m, from as int, one as int, false);
                    assert forall|m: u16| #[trigger] q(m) implies goal(m) by {}
                    lemma_grows_chain(old(list)@, old(list)@, list@, goal, q, goal);
                    assert forall|m: u16| #[trigger] pawn_owed(
                        v,
                        m,
                        quiets,
                        targets.0,
                        pinned.0,
                        ksq.0 as int,
                        num_checkers,
                    ) && mv_from(m) == from && (mv_flag(m) == 0 || mv_flag(m) == 1 || (8 <= mv_flag(m) && mv_flag(
                        m,
                    ) <= 11)) implies listed(list@, m) by {
                        assert(pawn_move_ok(v, m));
                        assert(q(m));
                    }
                }
            } else {
                proof {
                    assert forall|m: u16| #[trigger] pawn_owed(
                        v,
                        m,
                        quiets,
                        targets.0,
                        pinned.0,
                        ksq.0 as int,
                        num_checkers,
                    ) && mv_from(m) == from && (mv_flag(m) == 0 || mv_flag(m) == 1 || (8 <= mv_flag(m) && mv_flag(
                        m,
                    ) <= 11)) implies listed(list@, m) by {
                        assert(pawn_move_ok(v, m));
                        assert(mem(pinray, mv_to(m)));
                    }
                }
            }
        } else if quiets {
            gen_pawn_quiet(pos, list, us, ksq, occ, pinned, targets, num_checkers, from, pinray);
        } else {
            proof {
                assert forall|m: u16| #[trigger] pawn_owed(v, m, quiets, targets.0, pinned.0, ksq.0 as int, num_checkers)
                    && mv_from(m) == from && (mv_flag(m) == 0 || mv_flag(m) == 1 || (8 <= mv_flag(m) && mv_flag(m)
                    <= 11)) implies listed(list@, m) by {
                    assert(pawn_move_ok(v, m));
                }
            }
        }
    } else {
        proof {
            assert forall|m: u16| #[trigger] pawn_owed(v, m, quiets, targets.0, pinned.0, ksq.0 as int, num_checkers)
                && mv_from(m) == from && (mv_flag(m) == 0 || mv_flag(m) == 1 || (8 <= mv_flag(m) && mv_flag(m)
                <= 11)) implies listed(list@, m) by {
                assert(pawn_move_ok(v, m));
                assert(mem(empties, one as int));
            }
        }
    }
}

/// The quiet single and double pushes of a pawn off its promotion rank whose
/// square ahead is empty.
fn gen_pawn_quiet(
    pos: &Position,
    list: &mut MoveList,
    us: Color,
    ksq: Square,
    occ: Bitboard,
    pinned: Bitboard,
    targets: Bitboard,
    num_checkers: u32,
    from: u8,
    pinray: u64,
)
    requires
        old(list).wf(),
        pos.wf(),
        pawns_on_board(pos@.board),
        us == pos@.side,
        ksq.0 < 64,
        occ.0 == occ_of(pos@.board),
        from < 64,
        holds(pos@.board, from as int, us, PieceType::Pawn),
        rank_of(from as int) != promo_rank(us),
        pos@.board[forward(us, from as int)] == NO_PIECE,
        forall|x: int| #[trigger] mem(pinray, x) && mem(pinned.0, from as int) ==> line_sq(
            ksq.0 as int,
            from as int,
            x,
        ),
        forall|x: int| 0 <= x < 64 && step_ok(targets.0, pinned.0, ksq.0 as int, from as int, x) ==> #[trigger] mem(
            pinray,
            x,
        ),
    ensures
        final(list).wf(),
        grows_by(old(list)@, final(list)@, |m: u16| pawn_gen(pos@, m, true, targets.0, pinned.0, ksq.0 as int)),
        forall|m: u16| #[trigger] pawn_owed(pos@, m, true, targets.0, pinned.0, ksq.0 as int, num_checkers)
            && mv_from(m) == from && (mv_flag(m) == 0 || mv_flag(m) == 1 || (8 <= mv_flag(m) && mv_flag(m) <= 11))
            ==> listed(final(list)@, m),
        grows_by(old(list)@, final(list)@, |m: u16| mv_from(m) == from && push_flag(mv_flag(m))),
        distinct_from(final(list)@, old(list)@.len() as int),
{
    let ghost v = pos@;
    let ghost goal = |m: u16| pawn_gen(v, m, true, targets.0, pinned.0, ksq.0 as int);
    proof {
        pos.lemma_wf();
        crate::position::lemma_occ_upto(v.board, 64);
        assert(v.board[from as int] == pawn_code(us));
    }
    let white = us == Color::White;
    let start: u8 = if white {
        1
    } else {
        6
    };
    let one = if white {
        from + 8
    } else {
        from - 8
    };
    let rank = Square(from).rank();
    proof {
        assert(one as int == forward(us, from as int));
    }
    let ghost l0 = list@;
    if targets.contains(one) && (pinray >> one) & 1 == 1 {
        proof {
            assert(mem(pinray, one as int));
        }
        let m = push_move(list, from, one, FLAG_QUIET);
        proof {
            assert(goal(m.0));
        }
    }
    let ghost l1 = list@;
    proof {
        assert forall|m: u16| #[trigger] pawn_owed(v, m, true, targets.0, pinned.0, ksq.0 as int, num_checkers)
            && mv_from(m) == from && mv_flag(m) == 0 implies listed(l1, m) by {
            assert(pawn_move_ok(v, m));
            assert(mem(pinray, mv_to(m)));
        }
    }
    if rank == start {
        let two = if white {
            from + 16
        } else {
            from - 16
        };
        proof {
            assert(two as int == forward(us, forward(us, from as int)));
        }
        if (!occ.0 >> two) & 1 == 1 && targets.contains(two) && (pinray >> two) & 1 == 1 {
            proof {
                assert(mem(!occ.0, two as int));
                assert(mem(pinray, two as int));
            }
            let m = push_move(list, from, two, FLAG_DOUBLE);
            proof {
                assert(goal(m.0));
            }
        }
    }
    proof {
        assert forall|m: u16| #[trigger] pawn_owed(v, m, true, targets.0, pinned.0, ksq.0 as int, num_checkers)
            && mv_from(m) == from && (mv_flag(m) == 0 || mv_flag(m) == 1 || (8 <= mv_flag(m) && mv_flag(m) <= 11))
            implies listed(list@, m) by {
            assert(pawn_move_ok(v, m));
            if mv_flag(m) == 0 {
                assert(listed(l1, m));
            } else if mv_flag(m) == 1 {
                assert(mem(pinray, mv_to(m)));
                assert(mem(!occ.0, mv_to(m)));
            }
        }
        let p0 = |m: u16| mv_from(m) == from && mv_flag(m) == 0;
        let p1 = |m: u16| mv_from(m) == from && mv_flag(m) == 1;
        assert(grows_by(l0, l1, p0));
        assert(grows_by(l1, list@, p1));
        lemma_distinct_chain(l0, l1, list@, p0, p1);
    }
}

/// The captures of the pawn on `from`, promoting on its promotion rank.
fn gen_pawn_captures(
    pos: &Position,
    list: &mut MoveList,
    us: Color,
    them: Color,
    ksq: Square,
    enemies: Bitboard,
    pinned: Bitboard,
    targets: Bitboard,
    quiets: bool,
    num_checkers: u32,
    from: u8,
    pinray: u64,
)
    requires
        old(list).wf(),
        pos.wf(),
        us == pos@.side,
        them == opposite(us),
        ksq.0 < 64,
        forall|s: int| #[trigger] mem(enemies.0, s) == (0 <= s < 64 && owned_by(pos@.board, s, them)),
        from < 64,
        holds(pos@.board, from as int, us, PieceType::Pawn),
        forall|x: int| #[trigger] mem(pinray, x) && mem(pinned.0, from as int) ==> line_sq(
            ksq.0 as int,
            from as int,
            x,
        ),
        forall|x: int| 0 <= x < 64 && step_ok(targets.0, pinned.0, ksq.0 as int, from as int, x) ==> #[trigger] mem(
            pinray,
            x,
        ),
    ensures
        final(list).wf(),
        grows_by(
            old(list)@,
            final(list)@,
            |m: u16| pawn_gen(pos@, m, quiets, targets.0, pinned.0, ksq.0 as int),
        ),
        forall|m: u16| #[trigger] pawn_owed(pos@, m, quiets, targets.0, pinned.0, ksq.0 as int, num_checkers)
            && mv_from(m) == from && (mv_flag(m) == 4 || mv_flag(m) >= 12) ==> listed(final(list)@, m),
        grows_by(old(list)@, final(list)@, |m: u16| mv_from(m) == from && cap_flag(mv_flag(m))),
        distinct_from(final(list)@, old(list)@.len() as int),
{
    let ghost v = pos@;
    let ghost goal = |m: u16| pawn_gen(v, m, quiets, targets.0, pinned.0, ksq.0 as int);
    let ghost owed = |m: u16| pawn_owed(v, m, quiets, targets.0, pinned.0, ksq.0 as int, num_checkers) && mv_from(m)
        == from;
    proof {
        pos.lemma_wf();
        assert(v.board[from as int] == pawn_code(us));
    }
    let promo: u8 = if us == Color::White {
        6
    } else {
        1
    };
    let on_promo_rank = Square(from).rank() == promo;
    let pa = pawn_attacks(us, from);
    let mut caps = Bitboard(pa & enemies.0 & targets.0 & pinray);
    proof {
        assert forall|m: u16| #[trigger] owed(m) && (mv_flag(m) == 4 || mv_flag(m) >= 12) implies mem(
            caps.0,
            mv_to(m),
        ) by {
            assert(pawn_move_ok(v, m));
            assert(mem(pinray, mv_to(m)));
        }
    }
    while caps.any()
        invariant
            list.wf(),
            pos.wf(),
            v == pos@,
            view_ok(v),
            us == v.side,
            them == opposite(us),
            from < 64,
            v.board[from as int] == pawn_code(us),
            on_promo_rank == (rank_of(from as int) == promo_rank(us)),
            forall|s: int| #[trigger] mem(enemies.0, s) == (0 <= s < 64 && owned_by(v.board, s, them)),
            goal == (|m: u16| pawn_gen(v, m, quiets, targets.0, pinned.0, ksq.0 as int)),
            owed == (|m: u16| pawn_owed(v, m, quiets, targets.0, pinned.0, ksq.0 as int, num_checkers) && mv_from(m)
                == from),
            forall|t: int| #[trigger] mem(caps.0, t) ==> pawn_adj(us, from as int, t) && mem(enemies.0, t)
                && step_ok(targets.0, pinned.0, ksq.0 as int, from as int, t),
            grows_by(old(list)@, list@, goal),
            forall|m: u16| #[trigger] owed(m) && (mv_flag(m) == 4 || mv_flag(m) >= 12) && !mem(caps.0, mv_to(m))
                ==> listed(list@, m),
            distinct_from(list@, old(list)@.len() as int),
            forall|i: int| old(list)@.len() <= i < list@.len() ==> cap_done(#[trigger] list@[i].0, from, caps.0),
        decreases popcount(caps.0),
    {
        proof {
            crate::bitboard::lemma_popcount_zero_iff(caps.0);
        }
        let ghost caps0 = caps.0;
        let to = caps.pop_lsb();
        proof {
            crate::bitboard::lemma_popcount_zero_iff(caps.0);
            assert(owned_by(v.board, to as int, them));
        }
        let ghost before = list@;
        if on_promo_rank {
            add_promotions(list, Square(from), Square(to), true);
            proof {
                let q = |m: u16| promo_move(m, from as int, to as int, true);
                assert forall|m: u16| #[trigger] q(m) implies goal(m) by {}
                lemma_grows_chain(old(list)@, before, list@, goal, q, goal);
                lemma_listed_keep(before, list@, q);
                let pc = |m: u16| cap_done(m, from, caps0);
                assert(grows_by(old(list)@, before, pc));
                lemma_distinct_chain(old(list)@, before, list@, pc, q);
                assert forall|i: int| old(list)@.len() <= i < list@.len() implies cap_done(
                    #[trigger] list@[i].0,
                    from,
                    caps.0,
                ) by {
                    if i < before.len() {
                        assert(list@[i] == before[i]);
                        assert(cap_done(before[i].0, from, caps0));
                    } else {
                        assert(q(list@[i].0));
                    }
                }
                assert forall|m: u16| #[trigger] owed(m) && (mv_flag(m) == 4 || mv_flag(m) >= 12) && !mem(
                    caps.0,
                    mv_to(m),
                ) implies listed(list@, m) by {
                    assert(pawn_move_ok(v, m));
                    if mv_to(m) == to as int {
                        assert(q(m));
                    } else {
                        assert(!mem(caps0, mv_to(m)));
                    }
                }
            }
        } else {
            let m = push_move(list, from, to, FLAG_CAPTURE);
            proof {
                assert(goal(m.0));
                let pc = |m: u16| cap_done(m, from, caps0);
                let q = |m2: u16| mv_from(m2) == from && mv_to(m2) == to && mv_flag(m2) == 4;
                assert(grows_by(old(list)@, before, pc));
                assert(grows_by(before, list@, q));
                lemma_distinct_chain(old(list)@, before, list@, pc, q);
                assert forall|i: int| old(list)@.len() <= i < list@.len() implies cap_done(
                    #[trigger] list@[i].0,
                    from,
                    caps.0,
                ) by {
                    if i < before.len() {
                        assert(list@[i] == before[i]);
                        assert(cap_done(before[i].0, from, caps0));
                    }
                }
                assert forall|m2: u16| #[trigger] owed(m2) && (mv_flag(m2) == 4 || mv_flag(m2) >= 12) && !mem(
                    caps.0,
                    mv_to(m2),
                ) implies listed(list@, m2) by {
                    assert(pawn_move_ok(v, m2));
                    if mv_to(m2) != to as int {
                        assert(!mem(caps0, mv_to(m2)));
                    }
                }
            }
        }
    }
    proof {
        assert forall|m: u16| #[trigger] pawn_owed(v, m, quiets, targets.0, pinned.0, ksq.0 as int, num_checkers)
            && mv_from(m) == from && (mv_flag(m) == 4 || mv_flag(m) >= 12) implies listed(list@, m) by {
            assert(owed(m));
        }
    }
}

/// The en-passant capture of the pawn on `from`, when it can be made.
fn gen_pawn_ep(
    pos: &Position,
    list: &mut MoveList,
    us: Color,
    them: Color,
    ksq: Square,
    occ: Bitboard,
    pinned: Bitboard,
    targets: Bitboard,
    quiets: bool,
    num_checkers: u32,
    from: u8,
)
    requires
        old(list).wf(),
        pos.wf(),
        us == pos@.side,
        them == opposite(us),
        ksq.0 < 64,
        occ.0 == occ_of(pos@.board),
        from < 64,
        holds(pos@.board, from as int, us, PieceType::Pawn),
    ensures
        final(list).wf(),
        grows_by(
            old(list)@,
            final(list)@,
            |m: u16| pawn_gen(pos@, m, quiets, targets.0, pinned.0, ksq.0 as int),
        ),
        forall|m: u16| #[trigger] pawn_owed(pos@, m, quiets, targets.0, pinned.0, ksq.0 as int, num_checkers)
            && mv_from(m) == from && mv_flag(m) == 5 ==> listed(final(list)@, m),
        grows_by(old(list)@, final(list)@, |m: u16| mv_from(m) == from && mv_flag(m) == 5),
        distinct_from(final(list)@, old(list)@.len() as int),
{
    let ghost v = pos@;
    let ghost goal = |m: u16| pawn_gen(v, m, quiets, targets.0, pinned.0, ksq.0 as int);
    proof {
        pos.lemma_wf();
        crate::position::lemma_occ_upto(v.board, 64);
        assert(v.board[from as int] == pawn_code(us));
    }
    let pa = pawn_attacks(us, from);
    let ep_target = pos.ep_square();
    if let Some(ep) = ep_target {
        if (pa & Bitboard::from_square(ep.0).0) != 0 && ep_is_legal(
            pos,
            Square(from),
            ep,
            us,
            them,
            ksq,
            occ,
            num_checkers,
            targets,
        ) {
            proof {
                let w = pa & single(ep.0 as int);
                crate::bitboard::lemma_nonzero_iff(w);
                assert(pawn_adj(us, from as int, ep.0 as int));
            }
            let m = push_move(list, from, ep.0, FLAG_EP);
            proof {
                assert(goal(m.0));
            }
        } else {
            proof {
                assert forall|m: u16| #[trigger] pawn_owed(v, m, quiets, targets.0, pinned.0, ksq.0 as int, num_checkers)
                    && mv_from(m) == from && mv_flag(m) == 5 implies listed(list@, m) by {
                    assert(pawn_move_ok(v, m));
                    assert(mem(pa, mv_to(m)));
                    assert(mem(pa & single(ep.0 as int), mv_to(m)));
                    assert(ep_capture_safe(v.board, from as int, ep.0 as int, us, ksq.0 as int, occ.0));
                }
            }
        }
    }
}

/// An enemy slider on `x` lined up with the king on `k` along one of its own lines,
/// on an empty board.
pub open spec fn sniper_at(b: Seq<u8>, x: int, k: int, us: Color) -> bool {
    &&& 0 <= x < 64
    &&& b[x] < 12
    &&& code_color(b[x] as int) == opposite(us)
    &&& ((code_type(b[x] as int) == PieceType::Rook || code_type(b[x] as int) == PieceType::Queen) && rook_hit(
        k,
        0u64,
        x,
    )) || ((code_type(b[x] as int) == PieceType::Bishop || code_type(b[x] as int) == PieceType::Queen)
        && bishop_hit(k, 0u64, x))
}

/// Bitboard of our pieces pinned to our king: each member is a piece of `us` standing
/// alone between the king and an enemy slider on an empty-board line.
fn compute_pinned(pos: &Position, us: Color, ksq: Square) -> (r: Bitboard)
    requires
        pos.wf(),
        ksq.0 < 64,
    ensures
        forall|s: int| #[trigger] mem(r.0, s) ==> owned_by(pos@.board, s, us),
        forall|x: int, f: int|
            #[trigger] pins(pos@.board, x, ksq.0 as int, f, us) && 0 <= f < 64 && owned_by(pos@.board, f, us)
                ==> mem(r.0, f),
        forall|f: int| #[trigger] mem(r.0, f) ==> exists|x: int| #[trigger] pins(pos@.board, x, ksq.0 as int, f, us),
{
    let ghost v = pos@;
    let ghost k = ksq.0 as int;
    proof {
        pos.lemma_wf();
        crate::position::lemma_occ_upto(v.board, 64);
    }
    let them = us.flip();
    let our = pos.color_pieces(us);
    let enemy_rq = pos.pieces(them, PieceType::Rook).0 | pos.pieces(them, PieceType::Queen).0;
    let enemy_bq = pos.pieces(them, PieceType::Bishop).0 | pos.pieces(them, PieceType::Queen).0;
    let mut snipers = Bitboard((rook_attacks(ksq.0, 0) & enemy_rq) | (bishop_attacks(ksq.0, 0)
        & enemy_bq));
    let ghost snipers0 = snipers.0;
    proof {
        assert forall|x: int| #[trigger] mem(snipers0, x) implies sniper_at(v.board, x, k, us) by {
            crate::position::lemma_code_parts(them, PieceType::Rook);
            crate::position::lemma_code_parts(them, PieceType::Bishop);
            crate::position::lemma_code_parts(them, PieceType::Queen);
        }
    }
    proof {
        assert forall|x: int, f: int|
            #[trigger] pins(v.board, x, k, f, us) && 0 <= f < 64 && owned_by(v.board, f, us) implies mem(
            snipers0,
            x,
        ) by {
            lemma_pin_facts(v.board, x, k, f, us);
            crate::position::lemma_code_split(v.board[x] as int);
        }
    }
    let occupied = pos.occupied();
    proof {
        lemma_bits_ext(occupied.0, occ_of(v.board));
    }
    let mut pinned = Bitboard(0);
    while snipers.any()
        invariant
            pos.wf(),
            v == pos@,
            k == ksq.0 as int,
            ksq.0 < 64,
            board_codes(v.board),
            occupied.0 == occ_of(v.board),
            forall|s: int| #[trigger] mem(occ_of(v.board), s) == (0 <= s < 64 && v.board[s] < 12),
            forall|s: int| #[trigger] mem(our.0, s) == (0 <= s < 64 && owned_by(v.board, s, us)),
            forall|s: int| #[trigger] mem(pinned.0, s) ==> owned_by(v.board, s, us),
            forall|s: int| #[trigger] mem(snipers.0, s) ==> mem(snipers0, s),
            forall|x: int, f: int|
                #[trigger] pins(v.board, x, k, f, us) && 0 <= f < 64 && owned_by(v.board, f, us) ==> mem(
                    snipers0,
                    x,
                ),
            forall|x: int, f: int|
                #[trigger] pins(v.board, x, k, f, us) && 0 <= f < 64 && owned_by(v.board, f, us) && !mem(
                    snipers.0,
                    x,
                ) ==> mem(pinned.0, f),
            forall|x: int| #[trigger] mem(snipers0, x) ==> sniper_at(v.board, x, k, us),
            forall|f: int| #[trigger] mem(pinned.0, f) ==> exists|x: int| #[trigger] pins(v.board, x, k, f, us),
        decreases popcount(snipers.0),
    {
        proof {
            crate::bitboard::lemma_popcount_zero_iff(snipers.0);
        }
        let ghost before = snipers.0;
        let ghost pinned_before = pinned.0;
        let sniper = snipers.pop_lsb();
        proof {
            crate::bitboard::lemma_popcount_zero_iff(snipers.0);
        }
        let between_occ = Bitboard(between(ksq.0, sniper) & occupied.0);
        if between_occ.count() == 1 && (between_occ.0 & our.0) != 0 {
            proof {
                crate::bitboard::lemma_popcount_one(between_occ.0);
                let w = between_occ.0 & our.0;
                crate::bitboard::lemma_nonzero_iff(w);
            }
            let ghost pb = pinned.0;
            pinned = Bitboard(pinned.0 | between_occ.0);
            proof {
                let w = between_occ.0 & our.0;
                let f = choose|f: int| 0 <= f < 64 && #[trigger] mem(w, f);
                assert(mem(between_occ.0, f));
                assert forall|y: int| #[trigger] between_sq(k, sniper as int, y) implies (mem(occ_of(v.board), y)
                    <==> y == f) by {
                    if mem(occ_of(v.board), y) {
                        assert(mem(between_occ.0, y));
                    }
                }
                lemma_sniper_pins(v.board, sniper as int, k, f, us);
                assert forall|g: int| #[trigger] mem(pinned.0, g) implies exists|x: int| #[trigger] pins(
                    v.board,
                    x,
                    k,
                    g,
                    us,
                ) by {
                    if !mem(pb, g) {
                        assert(mem(between_occ.0, g));
                        assert(g == f);
                        assert(pins(v.board, sniper as int, k, g, us));
                    }
                }
            }
        }
        proof {
            assert forall|x: int, f: int|
                #[trigger] pins(v.board, x, k, f, us) && 0 <= f < 64 && owned_by(v.board, f, us) && !mem(
                    snipers.0,
                    x,
                ) implies mem(pinned.0, f) by {
                if x == sniper as int {
                    lemma_pin_facts(v.board, x, k, f, us);
                    assert forall|y: int| #[trigger] mem(between_occ.0, y) == (y == f) by {
                        if y == f {
                            assert(between_sq(k, x, f)) by {
                                crate::lines::lemma_between_sym(k, x, f);
                            }
                        }
                    }
                    crate::bitboard::lemma_popcount_single(between_occ.0, f);
                    assert(mem(between_occ.0 & our.0, f));
                } else {
                    assert(!mem(before, x));
                    assert(mem(pinned_before, f));
                }
            }
        }
    }
    proof {
        assert forall|x: int, f: int|
            #[trigger] pins(v.board, x, k, f, us) && 0 <= f < 64 && owned_by(v.board, f, us) implies mem(
            pinned.0,
            f,
        ) by {
            assert(!mem(snipers.0, x));
        }
    }
    pinned
}

/// Nothing stands between a king and a piece that attacks it.
pub proof fn lemma_checker_line_clear(b: Seq<u8>, c: int, k: int, occ: u64)
    requires
        0 <= k < 64,
        attacker(b, c, k, occ),
    ensures
        forall|x: int| #[trigger] between_sq(k, c, x) ==> !mem(occ, x),
{
    let p = b[c];
    lemma_leaper_sym(Color::White, c, k);
    lemma_leaper_sym(Color::Black, c, k);
    match code_type(p as int) {
        PieceType::Pawn | PieceType::Knight | PieceType::King => {
            lemma_leaper_between(k, c);
        },
        _ => {
            lemma_bishop_sym(c, occ, k);
            lemma_rook_sym(c, occ, k);
            if crate::attacks::ray_hit(k, 1, 1, occ, c) {
                lemma_ray_between(k, 1, 1, occ, c);
            } else if crate::attacks::ray_hit(k, -1, 1, occ, c) {
                lemma_ray_between(k, -1, 1, occ, c);
            } else if crate::attacks::ray_hit(k, 1, -1, occ, c) {
                lemma_ray_between(k, 1, -1, occ, c);
            } else if crate::attacks::ray_hit(k, -1, -1, occ, c) {
                lemma_ray_between(k, -1, -1, occ, c);
            } else if crate::attacks::ray_hit(k, 1, 0, occ, c) {
                lemma_ray_between(k, 1, 0, occ, c);
            } else if crate::attacks::ray_hit(k, -1, 0, occ, c) {
                lemma_ray_between(k, -1, 0, occ, c);
            } else if crate::attacks::ray_hit(k, 0, 1, occ, c) {
                lemma_ray_between(k, 0, 1, occ, c);
            } else {
                lemma_ray_between(k, 0, -1, occ, c);
            }
        },
    }
}

// -- why generated moves are legal -------------------------------------------------

/// In check, every target captures or blocks each checking piece.
pub open spec fn check_targets(b: Seq<u8>, us: Color, k: int, targets: u64) -> bool {
    forall|x: int, t: int|
        #[trigger] checks(b, x, k, us) && #[trigger] mem(targets, t) ==> t == x || between_sq(k, x, t)
}

/// Every piece of `us` that is pinned to the king on `k` is in `pinned`.
pub open spec fn pins_in(b: Seq<u8>, us: Color, k: int, pinned: u64) -> bool {
    forall|x: int, f: int|
        #[trigger] pins(b, x, k, f, us) && 0 <= f < 64 && owned_by(b, f, us) ==> mem(pinned, f)
}

/// Nothing stands between a slider and a square it attacks.
proof fn lemma_slider_path(b: Seq<u8>, p: u8, f: int, t: int)
    requires
        board_codes(b),
        0 <= f < 64,
        0 <= t < 64,
        code_type(p as int) == PieceType::Bishop || code_type(p as int) == PieceType::Rook || code_type(
            p as int,
        ) == PieceType::Queen,
        piece_attacks(p, f, t, occ_of(b)),
    ensures
        forall|y: int| #[trigger] between_sq(f, t, y) ==> b[y] == NO_PIECE,
{
    let o = occ_of(b);
    crate::position::lemma_occ_upto(b, 64);
    if ray_hit(f, 1, 1, o, t) {
        lemma_ray_between(f, 1, 1, o, t);
    } else if ray_hit(f, -1, 1, o, t) {
        lemma_ray_between(f, -1, 1, o, t);
    } else if ray_hit(f, 1, -1, o, t) {
        lemma_ray_between(f, 1, -1, o, t);
    } else if ray_hit(f, -1, -1, o, t) {
        lemma_ray_between(f, -1, -1, o, t);
    } else if ray_hit(f, 1, 0, o, t) {
        lemma_ray_between(f, 1, 0, o, t);
    } else if ray_hit(f, -1, 0, o, t) {
        lemma_ray_between(f, -1, 0, o, t);
    } else if ray_hit(f, 0, 1, o, t) {
        lemma_ray_between(f, 0, 1, o, t);
    } else {
        lemma_ray_between(f, 0, -1, o, t);
    }
    assert forall|y: int| #[trigger] between_sq(f, t, y) implies b[y] == NO_PIECE by {
        assert(!mem(o, y));
        assert(0 <= y < 64) by {
            crate::lines::lemma_between_sym(f, t, y);
            crate::lines::lemma_aligned_ray(f, t);
            let df = crate::attacks::sign(crate::types::file_of(t) - crate::types::file_of(f));
            let dr = crate::attacks::sign(crate::types::rank_of(t) - crate::types::rank_of(f));
            let n = crate::attacks::cheb(f, t);
            crate::lines::lemma_ray_segment(f, df, dr, n, y);
            let i = choose|i: int| #![trigger ray_sq(f, df, dr, i)] 0 < i < n && y == ray_sq(f, df, dr, i);
            crate::lines::lemma_ray_on_inside(f, df, dr, i, n);
            crate::lines::lemma_ray_coords(f, df, dr, i);
        }
    }
}

/// Only one square holds the lowest king.
proof fn lemma_lowest_unique(b: Seq<u8>, c: Color, k1: int, k2: int)
    requires
        lowest_king(b, c, k1),
        lowest_king(b, c, k2),
    ensures
        k1 == k2,
{
}

/// A generated knight, bishop, rook or queen move leaves the king safe.
proof fn lemma_piece_step_safe(v: PosView, m: u16, targets: u64, enemies: u64, pinned: u64, k: int)
    requires
        view_ok(v),
        lowest_king(v.board, v.side, k),
        piece_step(v, m, targets, enemies, pinned, k),
        forall|t: int| #[trigger] mem(targets, t) ==> 0 <= t < 64 && !owned_by(v.board, t, v.side),
        check_targets(v.board, v.side, k, targets),
        pins_in(v.board, v.side, k, pinned),
    ensures
        king_safe_after(v, m),
{
    let b = v.board;
    let us = v.side;
    let f = mv_from(m);
    let t = mv_to(m);
    let p = b[f];
    lemma_code_split(p as int);
    crate::position::lemma_code_parts(us, PieceType::King);
    assert(f != k);
    assert(mem(targets, t));
    assert(t != f);
    assert(board_codes(b));
    if code_type(p as int) == PieceType::Knight {
        crate::attacks::lemma_leaper_between(f, t);
    } else {
        lemma_slider_path(b, p, f, t);
    }
    assert forall|x: int| #[trigger] pins(b, x, k, f, us) implies line_sq(k, f, t) by {
        assert(mem(pinned, f));
    }
    assert(step_rules(b, us, k, f, t));
    lemma_step_keeps_king_safe(b, us, k, f, t, p);
    lemma_make_step(v, m);
    assert forall|k2: int| #[trigger] lowest_king(b, us, k2) implies !attacked_by(
        make_board(v, m),
        if mv_from(m) == k2 { mv_to(m) } else { k2 },
        opposite(us),
        occ_of(make_board(v, m)),
    ) by {
        lemma_lowest_unique(b, us, k, k2);
    }
}

/// The squares between a pawn and the end of its double step: the one it passes.
proof fn lemma_double_path(c: Color, f: int, y: int)
    requires
        0 <= f < 64,
        rank_of(f) == start_rank(c),
        between_sq(f, forward(c, forward(c, f)), y),
    ensures
        y == forward(c, f),
{
    let dr: int = if c == Color::White { 1 } else { -1 };
    assert(ray_on(f, 0, dr, 2));
    crate::lines::lemma_ray_coords(f, 0, dr, 2);
    crate::lines::lemma_same_coords(ray_sq(f, 0, dr, 2), forward(c, forward(c, f)));
    crate::lines::lemma_ray_segment(f, 0, dr, 2, y);
    assert(ray_sq(f, 0, dr, 1) == forward(c, f));
}

/// The board after an en-passant capture is occupied where the capture's
/// occupancy word says.
proof fn lemma_ep_occupancy(b: Seq<u8>, us: Color, f: int, c: int, e: int)
    requires
        board_codes(b),
        0 <= f < 64,
        0 <= c < 64,
        0 <= e < 64,
        f != c,
        f != e,
        c != e,
        b[f] < 12,
        b[c] < 12,
    ensures
        occ_of(ep_board(b, f, c, e, us)) == (occ_of(b) ^ single(f) ^ single(c)) | single(e),
{
    let eb = ep_board(b, f, c, e, us);
    crate::position::lemma_occ_upto(b, 64);
    crate::position::lemma_occ_upto(eb, 64);
    crate::position::lemma_code_parts(us, PieceType::Pawn);
    assert forall|y: int| 0 <= y < 64 implies #[trigger] mem(occ_of(eb), y) == mem(
        (occ_of(b) ^ single(f) ^ single(c)) | single(e),
        y,
    ) by {
        crate::bitboard::lemma_has_single(f, y);
        crate::bitboard::lemma_has_single(c, y);
        crate::bitboard::lemma_has_single(e, y);
    }
    lemma_bits_ext(occ_of(eb), (occ_of(b) ^ single(f) ^ single(c)) | single(e));
}

/// A generated pawn move leaves the king safe.
proof fn lemma_pawn_step_safe(v: PosView, m: u16, quiets: bool, targets: u64, pinned: u64, k: int)
    requires
        view_ok(v),
        lowest_king(v.board, v.side, k),
        pawn_gen(v, m, quiets, targets, pinned, k),
        forall|t: int| #[trigger] mem(targets, t) ==> 0 <= t < 64 && !owned_by(v.board, t, v.side),
        check_targets(v.board, v.side, k, targets),
        pins_in(v.board, v.side, k, pinned),
    ensures
        king_safe_after(v, m),
{
    let b = v.board;
    let us = v.side;
    let f = mv_from(m);
    let t = mv_to(m);
    let fl = mv_flag(m);
    let p = b[f];
    assert(board_codes(b));
    lemma_code_split(p as int);
    crate::position::lemma_code_parts(us, PieceType::King);
    crate::position::lemma_code_parts(us, PieceType::Pawn);
    assert(f != k);
    if fl == 5 {
        let c = cap_sq(us, t);
        crate::position::lemma_code_parts(opposite(us), PieceType::Pawn);
        assert(0 <= c < 64 && b[c] == piece_code(opposite(us), PieceType::Pawn));
        assert(b[t] == NO_PIECE);
        assert(f != c && f != t && c != t);
        lemma_make_ep(v, m);
        lemma_ep_occupancy(b, us, f, c, t);
    } else {
        assert(mem(targets, t));
        let q: u8 = if flag_is_promotion(fl) {
            piece_code(us, promo_type(fl)) as u8
        } else {
            p
        };
        crate::position::lemma_code_parts(us, promo_type(fl));
        assert(!(b[t] < 12 && code_color(b[t] as int) == us));
        assert(t != f);
        if fl == 1 {
            assert forall|y: int| #[trigger] between_sq(f, t, y) implies b[y] == NO_PIECE by {
                lemma_double_path(us, f, y);
            }
        } else if fl == 4 || fl >= 12 {
            crate::attacks::lemma_leaper_between(f, t);
        } else {
            assert(crate::attacks::king_adj(f, t));
            crate::attacks::lemma_leaper_between(f, t);
        }
        assert forall|x: int| #[trigger] pins(b, x, k, f, us) implies line_sq(k, f, t) by {
            assert(mem(pinned, f));
        }
        assert(step_rules(b, us, k, f, t));
        lemma_step_keeps_king_safe(b, us, k, f, t, q);
        lemma_make_step(v, m);
    }
    assert forall|k2: int| #[trigger] lowest_king(b, us, k2) implies !attacked_by(
        make_board(v, m),
        if mv_from(m) == k2 { mv_to(m) } else { k2 },
        opposite(us),
        occ_of(make_board(v, m)),
    ) by {
        lemma_lowest_unique(b, us, k, k2);
    }
}

/// Castling opens no line onto the king's new square: a ray that reaches it on
/// the board after castling was open before, since the rook now stands between
/// the king's old square and its new one, and nothing lies beyond the rook's old
/// corner.
proof fn lemma_castle_ray(
    b: Seq<u8>,
    nb: Seq<u8>,
    x: int,
    df: int,
    dr: int,
    base: int,
    ks: bool,
)
    requires
        board_codes(b),
        board_codes(nb),
        base == 0 || base == 56,
        0 <= x < 64,
        crate::lines::unit_dir(df, dr),
        ray_hit(x, df, dr, occ_of(nb), base + (if ks { 6int } else { 2int })),
        nb[base + (if ks { 5int } else { 3int })] < 12,
        forall|y: int|
            0 <= y < 64 && y != base + 4 && y != base + (if ks { 7int } else { 0int }) && y != base + (if ks {
                5int
            } else {
                3int
            }) && y != base + (if ks { 6int } else { 2int }) ==> #[trigger] nb[y] == b[y],
    ensures
        ray_hit(x, df, dr, occ_of(b), base + (if ks { 6int } else { 2int })),
{
    let t = base + (if ks { 6int } else { 2int });
    let rt = base + (if ks { 5int } else { 3int });
    let rf = base + (if ks { 7int } else { 0int });
    let e = base + 4;
    let o = occ_of(b);
    let o2 = occ_of(nb);
    crate::position::lemma_occ_upto(b, 64);
    crate::position::lemma_occ_upto(nb, 64);
    let j = choose|j: int|
        #![trigger ray_sq(x, df, dr, j)]
        1 <= j < 8 && ray_on(x, df, dr, j) && ray_sq(x, df, dr, j) == t && forall|i: int|
            1 <= i < j ==> !#[trigger] mem(o2, ray_sq(x, df, dr, i));
    crate::lines::lemma_ray_coords(x, df, dr, j);
    assert forall|i: int| 1 <= i < j implies !#[trigger] mem(o, ray_sq(x, df, dr, i)) by {
        let y = ray_sq(x, df, dr, i);
        crate::lines::lemma_ray_on_inside(x, df, dr, i, j);
        crate::lines::lemma_ray_coords(x, df, dr, i);
        assert(!mem(o2, y));
        if y == e || y == rf {
            // On the back rank: the ray runs along it.
            assert(dr == 0);
            if y == e {
                crate::lines::lemma_ray_on_inside(x, df, dr, i + 1, j);
                crate::lines::lemma_ray_coords(x, df, dr, i + 1);
                crate::lines::lemma_same_coords(ray_sq(x, df, dr, i + 1), rt);
                assert(!mem(o2, ray_sq(x, df, dr, i + 1)));
            }
        } else {
            assert(y != t);
            assert(nb[y] == b[y]);
        }
    }
}

/// A castling move with the castling king as the guarded king leaves the king
/// safe on its new square.
proof fn lemma_castle_move_safe(v: PosView, m: u16)
    requires
        view_ok(v),
        pseudo_legal(v, m),
        mv_flag(m) == 2 || mv_flag(m) == 3,
        lowest_king(v.board, v.side, mv_from(m)),
    ensures
        king_safe_after(v, m),
{
    let b = v.board;
    let us = v.side;
    let them = opposite(us);
    let ks = mv_flag(m) == 2;
    let base = back_rank(us);
    let f = mv_from(m);
    let t = mv_to(m);
    let rf = crate::position::rook_home(us, ks);
    let rt = crate::position::rook_dest(us, ks);
    crate::position::lemma_code_parts(us, PieceType::King);
    crate::position::lemma_code_parts(us, PieceType::Rook);
    assert(board_codes(b));
    assert(f == base + 4);
    assert(b[rf] == piece_code(us, PieceType::Rook));
    let nb = make_board(v, m);
    assert(nb =~= b.update(f, NO_PIECE).update(t, b[f]).update(rf, NO_PIECE).update(rt, b[rf]));
    let o2 = occ_of(nb);
    crate::position::lemma_occ_upto(b, 64);
    crate::position::lemma_occ_upto(nb, 64);
    assert(board_codes(nb));
    assert(!attacked_by(b, t, them, occ_of(b)));
    assert forall|x: int| !(#[trigger] attacker(nb, x, t, o2) && code_color(nb[x] as int) == them) by {
        if attacker(nb, x, t, o2) && code_color(nb[x] as int) == them {
            assert(x != f && x != t && x != rf && x != rt);
            assert(nb[x] == b[x]);
            lemma_code_split(b[x] as int);
            let ty = code_type(b[x] as int);
            if ty == PieceType::Pawn || ty == PieceType::Knight || ty == PieceType::King {
                assert(attacker(b, x, t, occ_of(b)));
            } else {
                if ray_hit(x, 1, 1, o2, t) {
                    lemma_castle_ray(b, nb, x, 1, 1, base, ks);
                } else if ray_hit(x, -1, 1, o2, t) {
                    lemma_castle_ray(b, nb, x, -1, 1, base, ks);
                } else if ray_hit(x, 1, -1, o2, t) {
                    lemma_castle_ray(b, nb, x, 1, -1, base, ks);
                } else if ray_hit(x, -1, -1, o2, t) {
                    lemma_castle_ray(b, nb, x, -1, -1, base, ks);
                } else if ray_hit(x, 1, 0, o2, t) {
                    lemma_castle_ray(b, nb, x, 1, 0, base, ks);
                } else if ray_hit(x, -1, 0, o2, t) {
                    lemma_castle_ray(b, nb, x, -1, 0, base, ks);
                } else if ray_hit(x, 0, 1, o2, t) {
                    lemma_castle_ray(b, nb, x, 0, 1, base, ks);
                } else if ray_hit(x, 0, -1, o2, t) {
                    lemma_castle_ray(b, nb, x, 0, -1, base, ks);
                }
                assert(attacker(b, x, t, occ_of(b)));
            }
        }
    }
    assert forall|k2: int| #[trigger] lowest_king(b, us, k2) implies !attacked_by(
        make_board(v, m),
        if mv_from(m) == k2 { mv_to(m) } else { k2 },
        opposite(us),
        occ_of(make_board(v, m)),
    ) by {
        lemma_lowest_unique(b, us, f, k2);
    }
}

/// A generated king step leaves the king safe on its new square.
proof fn lemma_king_move_safe(v: PosView, m: u16, k: int, enemies: u64, quiets: bool)
    requires
        view_ok(v),
        lowest_king(v.board, v.side, k),
        king_step(v, m, k, enemies, quiets),
    ensures
        king_safe_after(v, m),
{
    let b = v.board;
    let us = v.side;
    let t = mv_to(m);
    crate::position::lemma_code_parts(us, PieceType::King);
    assert(board_codes(b));
    assert(t != k);
    lemma_make_step(v, m);
    crate::legal::lemma_king_step_safe(b, us, k, t, b[k]);
    assert forall|k2: int| #[trigger] lowest_king(b, us, k2) implies !attacked_by(
        make_board(v, m),
        if mv_from(m) == k2 { mv_to(m) } else { k2 },
        opposite(us),
        occ_of(make_board(v, m)),
    ) by {
        lemma_lowest_unique(b, us, k, k2);
    }
}

/// Out of check, every target set meets the check rule.
proof fn lemma_unchecked_targets(b: Seq<u8>, us: Color, k: int, checkers: u64, targets: u64)
    requires
        popcount(checkers) == 0,
        forall|x: int| #[trigger] mem(checkers, x) == checks(b, x, k, us),
    ensures
        check_targets(b, us, k, targets),
{
    crate::bitboard::lemma_popcount_zero_iff(checkers);
    assert forall|x: int, t: int| #[trigger] checks(b, x, k, us) && #[trigger] mem(targets, t) implies t == x
        || between_sq(k, x, t) by {
        assert(mem(checkers, x));
    }
}

// -- why every legal move is generated ----------------------------------------------

/// The side `c` has at most one king.
pub open spec fn single_king(b: Seq<u8>, c: Color) -> bool {
    forall|i: int, j: int|
        0 <= i < 64 && 0 <= j < 64 && #[trigger] holds(b, i, c, PieceType::King) && #[trigger] holds(
            b,
            j,
            c,
            PieceType::King,
        ) ==> i == j
}

/// What the generator computed for the king on `k`: the checking pieces, the
/// target squares of pieces other than the king, and the pinned pieces.
pub open spec fn gen_masks(
    b: Seq<u8>,
    us: Color,
    k: int,
    checkers: u64,
    targets: u64,
    pinned: u64,
    quiets: bool,
) -> bool {
    &&& forall|x: int| #[trigger] mem(checkers, x) == checks(b, x, k, us)
    &&& popcount(checkers) == 0 ==> forall|t: int|
        0 <= t < 64 && !owned_by(b, t, us) && (quiets || owned_by(b, t, opposite(us))) ==> #[trigger] mem(
            targets,
            t,
        )
    &&& popcount(checkers) == 1 ==> forall|x: int, t: int|
        #[trigger] mem(checkers, x) && (t == x || between_sq(k, x, t)) ==> #[trigger] mem(targets, t)
    &&& forall|f: int| #[trigger] mem(pinned, f) ==> exists|x: int| #[trigger] pins(b, x, k, f, us)
}

/// Two different members of a set with more than one.
proof fn lemma_two_members(w: u64)
    requires
        popcount(w) >= 2,
    ensures
        exists|a: int, c: int| 0 <= a < 64 && 0 <= c < 64 && a != c && #[trigger] mem(w, a) && #[trigger] mem(w, c),
{
    crate::bitboard::lemma_popcount_zero_iff(w);
    crate::bitboard::lemma_nonzero_iff(w);
    let a = choose|a: int| 0 <= a < 64 && #[trigger] mem(w, a);
    if forall|c: int| #[trigger] mem(w, c) ==> c == a {
        crate::bitboard::lemma_popcount_single(w, a);
    }
    let c = choose|c: int| #[trigger] mem(w, c) && c != a;
    assert(mem(w, a) && mem(w, c));
}

/// A step of a piece other than the king that leaves the king safe meets the
/// generator's masks: at most one piece gives check, the target is one of the
/// targets, and a pinned piece stays on its line.
proof fn lemma_step_answers(
    b: Seq<u8>,
    us: Color,
    k: int,
    f: int,
    t: int,
    p: u8,
    checkers: u64,
    targets: u64,
    pinned: u64,
    quiets: bool,
)
    requires
        board_codes(b),
        0 <= k < 64,
        holds(b, k, us, PieceType::King),
        0 <= f < 64,
        f != k,
        b[f] < 12,
        code_color(b[f] as int) == us,
        0 <= t < 64,
        t != f,
        !owned_by(b, t, us),
        quiets || owned_by(b, t, opposite(us)),
        p < 12,
        code_color(p as int) == us,
        !attacked_by(step_board(b, f, t, p), k, opposite(us), occ_of(step_board(b, f, t, p))),
        gen_masks(b, us, k, checkers, targets, pinned, quiets),
    ensures
        popcount(checkers) < 2,
        mem(targets, t),
        mem(pinned, f) ==> line_sq(k, f, t),
{
    assert(popcount(checkers) < 2) by {
        if popcount(checkers) >= 2 {
            lemma_two_members(checkers);
            let (a, c) = choose|a: int, c: int|
                0 <= a < 64 && 0 <= c < 64 && a != c && #[trigger] mem(checkers, a) && #[trigger] mem(checkers, c);
            lemma_check_answered(b, us, k, f, t, p, a);
            lemma_check_answered(b, us, k, f, t, p, c);
            lemma_one_checker_answered(b, us, k, t, a, c);
        }
    }
    assert(mem(targets, t)) by {
        if popcount(checkers) == 1 {
            crate::bitboard::lemma_popcount_zero_iff(checkers);
            crate::bitboard::lemma_nonzero_iff(checkers);
            let c = choose|c: int| 0 <= c < 64 && #[trigger] mem(checkers, c);
            lemma_check_answered(b, us, k, f, t, p, c);
            assert(mem(checkers, c) && (t == c || between_sq(k, c, t)));
        } else {
            crate::bitboard::lemma_popcount_zero_iff(checkers);
            assert(popcount(checkers) == 0);
            assert(0 <= t < 64 && !owned_by(b, t, us) && (quiets || owned_by(b, t, opposite(us))));
        }
    }
    if mem(pinned, f) {
        let x = choose|x: int| #[trigger] pins(b, x, k, f, us);
        lemma_pin_respected(b, us, k, f, t, p, x);
    }
}

/// A legal move of a knight, bishop, rook or queen is one the generator lists.
proof fn lemma_piece_owed(
    v: PosView,
    m: u16,
    k: int,
    checkers: u64,
    targets: u64,
    enemies: u64,
    pinned: u64,
    quiets: bool,
)
    requires
        view_ok(v),
        lowest_king(v.board, v.side, k),
        gen_masks(v.board, v.side, k, checkers, targets, pinned, quiets),
        !quiets ==> is_noisy(m),
        forall|s: int| #[trigger] mem(enemies, s) == (0 <= s < 64 && owned_by(v.board, s, opposite(v.side))),
        legal_move(v, m),
        code_type(v.board[mv_from(m)] as int) != PieceType::Pawn,
        code_type(v.board[mv_from(m)] as int) != PieceType::King,
    ensures
        popcount(checkers) < 2,
        piece_step(v, m, targets, enemies, pinned, k),
{
    let b = v.board;
    let us = v.side;
    let f = mv_from(m);
    let t = mv_to(m);
    let p = b[f];
    assert(board_codes(b));
    crate::position::lemma_code_parts(us, PieceType::King);
    assert(f != k);
    assert(king_safe_after(v, m));
    assert(lowest_king(b, us, k));
    lemma_make_step(v, m);
    lemma_step_answers(b, us, k, f, t, p, checkers, targets, pinned, quiets);
    if code_type(p as int) == PieceType::Knight && mem(pinned, f) {
        lemma_knight_off_line(k, f, t);
    }
}

/// A legal king step other than castling is one the generator lists.
proof fn lemma_king_owed(v: PosView, m: u16, k: int, enemies: u64, quiets: bool)
    requires
        !quiets ==> is_noisy(m),
        view_ok(v),
        lowest_king(v.board, v.side, k),
        single_king(v.board, v.side),
        forall|s: int| #[trigger] mem(enemies, s) == (0 <= s < 64 && owned_by(v.board, s, opposite(v.side))),
        legal_move(v, m),
        code_type(v.board[mv_from(m)] as int) == PieceType::King,
        mv_flag(m) != 2,
        mv_flag(m) != 3,
    ensures
        king_step(v, m, k, enemies, quiets),
{
    let b = v.board;
    let f = mv_from(m);
    lemma_code_split(b[f] as int);
    assert(holds(b, f, v.side, PieceType::King));
    assert(holds(b, k, v.side, PieceType::King));
}

/// A legal castling move is one the generator lists, and it is made out of check.
proof fn lemma_castle_owed(v: PosView, m: u16, k: int, checkers: u64)
    requires
        view_ok(v),
        lowest_king(v.board, v.side, k),
        single_king(v.board, v.side),
        forall|x: int| #[trigger] mem(checkers, x) == checks(v.board, x, k, v.side),
        legal_move(v, m),
        code_type(v.board[mv_from(m)] as int) == PieceType::King,
        mv_flag(m) == 2 || mv_flag(m) == 3,
    ensures
        castle_step(v, m),
        popcount(checkers) == 0,
{
    let b = v.board;
    let f = mv_from(m);
    lemma_code_split(b[f] as int);
    assert(holds(b, f, v.side, PieceType::King));
    assert(f == k);
    assert forall|x: int| 0 <= x < 64 implies !#[trigger] mem(checkers, x) by {
        if mem(checkers, x) {
            assert(attacker(b, x, k, occ_of(b)) && code_color(b[x] as int) == opposite(v.side));
        }
    }
    crate::bitboard::lemma_no_member_zero(checkers);
    crate::bitboard::lemma_popcount_zero_iff(checkers);
}

/// A legal pawn move is one the generator owes.
proof fn lemma_pawn_owed(
    v: PosView,
    m: u16,
    k: int,
    checkers: u64,
    targets: u64,
    pinned: u64,
    n: u32,
    quiets: bool,
)
    requires
        view_ok(v),
        lowest_king(v.board, v.side, k),
        gen_masks(v.board, v.side, k, checkers, targets, pinned, true),
        n == popcount(checkers),
        !quiets ==> is_noisy(m),
        legal_move(v, m),
        code_type(v.board[mv_from(m)] as int) == PieceType::Pawn,
    ensures
        popcount(checkers) < 2,
        pawn_owed(v, m, quiets, targets, pinned, k, n),
{
    let b = v.board;
    let us = v.side;
    let f = mv_from(m);
    let t = mv_to(m);
    let fl = mv_flag(m);
    let p = b[f];
    assert(board_codes(b));
    lemma_code_split(p as int);
    crate::position::lemma_code_parts(us, PieceType::King);
    crate::position::lemma_code_parts(us, PieceType::Pawn);
    assert(f != k);
    assert(king_safe_after(v, m));
    assert(lowest_king(b, us, k));
    if fl == 5 {
        let c = cap_sq(us, t);
        crate::position::lemma_code_parts(opposite(us), PieceType::Pawn);
        assert(f != c && f != t && c != t);
        lemma_make_ep(v, m);
        lemma_ep_occupancy(b, us, f, c, t);
        lemma_ep_answers(b, us, k, f, t, checkers, targets);
    } else {
        let q: u8 = if flag_is_promotion(fl) {
            piece_code(us, promo_type(fl)) as u8
        } else {
            p
        };
        crate::position::lemma_code_parts(us, promo_type(fl));
        lemma_make_step(v, m);
        lemma_step_answers(b, us, k, f, t, q, checkers, targets, pinned, true);
    }
}

/// An en-passant capture that leaves the king safe is made in at most single
/// check, and then takes the checking pawn or lands on the checking line.
proof fn lemma_ep_answers(b: Seq<u8>, us: Color, k: int, f: int, e: int, checkers: u64, targets: u64)
    requires
        board_codes(b),
        0 <= k < 64,
        holds(b, k, us, PieceType::King),
        0 <= f < 64,
        0 <= e < 64,
        0 <= cap_sq(us, e) < 64,
        f != e,
        f != cap_sq(us, e),
        e != cap_sq(us, e),
        b[f] == piece_code(us, PieceType::Pawn),
        b[cap_sq(us, e)] == piece_code(opposite(us), PieceType::Pawn),
        b[e] == NO_PIECE,
        !attacked_by(ep_board(b, f, cap_sq(us, e), e, us), k, opposite(us), occ_of(ep_board(b, f, cap_sq(us, e), e, us))),
        forall|x: int| #[trigger] mem(checkers, x) == checks(b, x, k, us),
        popcount(checkers) == 1 ==> forall|x: int, t: int|
            #[trigger] mem(checkers, x) && (t == x || between_sq(k, x, t)) ==> #[trigger] mem(targets, t),
    ensures
        popcount(checkers) < 2,
        popcount(checkers) == 1 ==> mem(targets, cap_sq(us, e)) || mem(targets, e),
{
    let cp = cap_sq(us, e);
    crate::position::lemma_code_parts(opposite(us), PieceType::Pawn);
    // The pawn taken, when it gives check, stands a knight's jump from the
    // landing square: the landing square then blocks no line onto the king.
    assert(checks(b, cp, k, us) ==> knight_adj(k, e)) by {
        if checks(b, cp, k, us) {
            assert(pawn_adj(opposite(us), cp, k));
        }
    }
    assert(popcount(checkers) < 2) by {
        if popcount(checkers) >= 2 {
            lemma_two_members(checkers);
            let (a, c) = choose|a: int, c: int|
                0 <= a < 64 && 0 <= c < 64 && a != c && #[trigger] mem(checkers, a) && #[trigger] mem(checkers, c);
            lemma_ep_check_answered(b, us, k, f, e, a);
            lemma_ep_check_answered(b, us, k, f, e, c);
            if a == cp {
                lemma_knight_not_between(k, c, e);
            } else if c == cp {
                lemma_knight_not_between(k, a, e);
            } else {
                lemma_one_checker_answered(b, us, k, e, a, c);
            }
        }
    }
    if popcount(checkers) == 1 {
        crate::bitboard::lemma_popcount_zero_iff(checkers);
        crate::bitboard::lemma_nonzero_iff(checkers);
        let c = choose|c: int| 0 <= c < 64 && #[trigger] mem(checkers, c);
        lemma_ep_check_answered(b, us, k, f, e, c);
        if c == cp {
            assert(mem(checkers, c) && (cp == c || between_sq(k, c, cp)));
        } else {
            assert(mem(checkers, c) && (e == c || between_sq(k, c, e)));
        }
    }
}

/// Target squares for pieces other than the king, and for pawns: in check,
/// capture the checker or block its line; otherwise any square not held by us
/// (or, for pieces, only enemy squares when noisy moves alone are asked for).
/// Pawns out of check may push to promote in either mode: their targets are
/// all squares not held by us (captures still need an enemy piece, and quiet
/// pushes are asked for separately).
fn gen_targets(
    pos: &Position,
    ksq: Square,
    checkers: Bitboard,
    num_checkers: u32,
    our: Bitboard,
    enemies: Bitboard,
    quiets: bool,
) -> (r: (Bitboard, Bitboard))
    requires
        pos.wf(),
        ksq.0 < 64,
        num_checkers == popcount(checkers.0),
        forall|x: int| #[trigger] mem(checkers.0, x) == checks(pos@.board, x, ksq.0 as int, pos@.side),
        forall|s: int| #[trigger] mem(our.0, s) == (0 <= s < 64 && owned_by(pos@.board, s, pos@.side)),
        forall|s: int| #[trigger] mem(enemies.0, s) == (0 <= s < 64 && owned_by(pos@.board, s, opposite(pos@.side))),
    ensures
        forall|t: int| #[trigger] mem(r.0.0, t) ==> 0 <= t < 64 && !owned_by(pos@.board, t, pos@.side),
        forall|t: int| #[trigger] mem(r.1.0, t) ==> 0 <= t < 64 && !owned_by(pos@.board, t, pos@.side),
        num_checkers < 2 ==> check_targets(pos@.board, pos@.side, ksq.0 as int, r.0.0),
        num_checkers < 2 ==> check_targets(pos@.board, pos@.side, ksq.0 as int, r.1.0),
        !quiets && num_checkers == 0 ==> forall|t: int| #[trigger] mem(r.0.0, t) ==> mem(enemies.0, t),
        quiets && num_checkers == 0 ==> r.0.0 == !our.0,
        !quiets && num_checkers == 0 ==> r.0.0 == enemies.0,
        num_checkers == 0 ==> r.1.0 == !our.0,
        num_checkers >= 1 ==> r.1 == r.0,
        num_checkers == 1 ==> forall|x: int, t: int|
            #[trigger] mem(checkers.0, x) && (t == x || between_sq(ksq.0 as int, x, t)) ==> #[trigger] mem(
                r.0.0,
                t,
            ),
{
    let ghost v = pos@;
    proof {
        pos.lemma_wf();
        crate::position::lemma_occ_upto(v.board, 64);
    }
    let targets = if num_checkers >= 1 {
        proof {
            crate::bitboard::lemma_popcount_zero_iff(checkers.0);
        }
        let checker = checkers.lsb();
        proof {
            assert(mem(checkers.0, checker as int));
            lemma_checker_line_clear(v.board, checker as int, ksq.0 as int, occ_of(v.board));
        }
        let t = Bitboard(between(ksq.0, checker) | checkers.0);
        proof {
            if num_checkers == 1 {
                crate::bitboard::lemma_popcount_one(checkers.0);
            }
        }
        t
    } else if quiets {
        Bitboard(!our.0)
    } else {
        enemies
    };
    proof {
        if num_checkers == 0 {
            lemma_unchecked_targets(v.board, v.side, ksq.0 as int, checkers.0, targets.0);
        }
        if num_checkers == 1 {
            crate::bitboard::lemma_popcount_one(checkers.0);
            assert forall|x: int, t: int|
                #[trigger] checks(v.board, x, ksq.0 as int, v.side) && #[trigger] mem(targets.0, t) implies t
                == x || between_sq(ksq.0 as int, x, t) by {
                assert(mem(checkers.0, x));
            }
        }
    }
    let pawn_targets = if num_checkers == 0 {
        Bitboard(!our.0)
    } else {
        targets
    };
    proof {
        if num_checkers == 0 {
            lemma_unchecked_targets(v.board, v.side, ksq.0 as int, checkers.0, pawn_targets.0);
        }
    }
    (targets, pawn_targets)
}

/// The moves of every piece but the king, in at most single check: pawns,
/// knights, sliders, and castling when quiet moves are asked for out of check.
/// Returns the pinned pieces it used.
fn gen_non_king(
    pos: &Position,
    list: &mut MoveList,
    us: Color,
    them: Color,
    ksq: Square,
    occ: Bitboard,
    enemies: Bitboard,
    targets: Bitboard,
    pawn_targets: Bitboard,
    quiets: bool,
    num_checkers: u32,
) -> (pinned: Bitboard)
    requires
        old(list).wf(),
        pos.wf(),
        pawns_on_board(pos@.board),
        us == pos@.side,
        them == opposite(us),
        lowest_king(pos@.board, us, ksq.0 as int),
        occ.0 == occ_of(pos@.board),
        forall|s: int| #[trigger] mem(enemies.0, s) == (0 <= s < 64 && owned_by(pos@.board, s, them)),
        forall|t: int| #[trigger] mem(targets.0, t) ==> 0 <= t < 64 && !owned_by(pos@.board, t, us),
        forall|t: int| #[trigger] mem(pawn_targets.0, t) ==> 0 <= t < 64 && !owned_by(pos@.board, t, us),
        check_targets(pos@.board, us, ksq.0 as int, targets.0),
        check_targets(pos@.board, us, ksq.0 as int, pawn_targets.0),
        num_checkers < 2,
        !quiets && not_in_check(pos@) ==> forall|t: int| #[trigger] mem(targets.0, t) ==> mem(enemies.0, t),
    ensures
        final(list).wf(),
        grows_by(old(list)@, final(list)@, |m: u16| generated(pos@, m, quiets)),
        forall|f: int| #[trigger] mem(pinned.0, f) ==> exists|x: int| #[trigger] pins(pos@.board, x, ksq.0 as int, f, us),
        forall|m: u16|
            #![trigger pawn_owed(pos@, m, quiets, pawn_targets.0, pinned.0, ksq.0 as int, num_checkers)]
            #![trigger piece_step(pos@, m, targets.0, enemies.0, pinned.0, ksq.0 as int)]
            #![trigger castle_step(pos@, m)]
            pawn_owed(pos@, m, quiets, pawn_targets.0, pinned.0, ksq.0 as int, num_checkers) || piece_step(
                pos@,
                m,
                targets.0,
                enemies.0,
                pinned.0,
                ksq.0 as int,
            ) || (quiets && num_checkers == 0 && castle_step(pos@, m)) ==> listed(final(list)@, m),
        grows_by(
            old(list)@,
            final(list)@,
            |m: u16| pawn_gen(pos@, m, quiets, pawn_targets.0, pinned.0, ksq.0 as int) || piece_step(
                pos@,
                m,
                targets.0,
                enemies.0,
                pinned.0,
                ksq.0 as int,
            ) || castle_step(pos@, m),
        ),
        distinct_from(final(list)@, old(list)@.len() as int),
{
    let ghost v = pos@;
    let ghost goal = |m: u16| generated(v, m, quiets);
    proof {
        pos.lemma_wf();
    }
    let pinned = compute_pinned(pos, us, ksq);
    let ghost l0 = list@;
    gen_pawns(pos, list, us, them, ksq, occ, enemies, pinned, pawn_targets, quiets, num_checkers);
    let ghost qp = |m: u16| pawn_gen(v, m, quiets, pawn_targets.0, pinned.0, ksq.0 as int);
    proof {
        assert forall|m: u16| #[trigger] qp(m) implies goal(m) by {
            lemma_pawn_step_safe(v, m, quiets, pawn_targets.0, pinned.0, ksq.0 as int);
        }
        lemma_grows_chain(old(list)@, l0, list@, goal, qp, goal);
    }
    let ghost l1 = list@;
    gen_knight_slider(pos, list, us, ksq, occ, enemies, pinned, targets);
    let ghost qk = |m: u16| piece_step(v, m, targets.0, enemies.0, pinned.0, ksq.0 as int);
    proof {
        assert forall|m: u16| #[trigger] qk(m) implies goal(m) by {
            assert(mem(targets.0, mv_to(m)));
            lemma_piece_step_safe(v, m, targets.0, enemies.0, pinned.0, ksq.0 as int);
        }
        lemma_grows_chain(old(list)@, l1, list@, goal, qk, goal);
        lemma_listed_keep(l1, list@, qk);
    }
    let ghost l2 = list@;
    if quiets && num_checkers == 0 {
        gen_castling(pos, list, us, them, occ);
        proof {
            let q = |m: u16| castle_step(v, m);
            assert forall|m: u16| #[trigger] q(m) implies goal(m) by {
                if lowest_king(v.board, v.side, mv_from(m)) {
                    lemma_castle_move_safe(v, m);
                }
            }
            lemma_grows_chain(old(list)@, l2, list@, goal, q, goal);
            lemma_listed_keep(l2, list@, q);
        }
    }
    proof {
        assert forall|m: u16|
            #![trigger pawn_owed(v, m, quiets, pawn_targets.0, pinned.0, ksq.0 as int, num_checkers)]
            #![trigger piece_step(v, m, targets.0, enemies.0, pinned.0, ksq.0 as int)]
            #![trigger castle_step(v, m)]
            pawn_owed(v, m, quiets, pawn_targets.0, pinned.0, ksq.0 as int, num_checkers) || piece_step(
                v,
                m,
                targets.0,
                enemies.0,
                pinned.0,
                ksq.0 as int,
            ) || (quiets && num_checkers == 0 && castle_step(v, m)) implies listed(list@, m) by {
            if pawn_owed(v, m, quiets, pawn_targets.0, pinned.0, ksq.0 as int, num_checkers) {
                assert(listed(l1, m));
                assert(listed(l2, m));
            } else if piece_step(v, m, targets.0, enemies.0, pinned.0, ksq.0 as int) {
                assert(listed(l2, m));
            }
        }
        let qpk = |m: u16| qp(m) || qk(m);
        let qc = |m: u16| castle_step(v, m);
        assert forall|m: u16| !(#[trigger] qp(m) && qk(m)) by {}
        lemma_distinct_chain(l0, l1, l2, qp, qk);
        lemma_grows_chain(l0, l1, l2, qp, qk, qpk);
        assert(grows_by(l2, list@, qc));
        assert forall|m: u16| !(#[trigger] qpk(m) && qc(m)) by {
            if qp(m) {
                assert(pawn_move_ok(v, m));
            }
        }
        lemma_distinct_chain(l0, l2, list@, qpk, qc);
        let qall = |m: u16| pawn_gen(v, m, quiets, pawn_targets.0, pinned.0, ksq.0 as int) || piece_step(
            v,
            m,
            targets.0,
            enemies.0,
            pinned.0,
            ksq.0 as int,
        ) || castle_step(v, m);
        lemma_grows_chain(l0, l2, list@, qpk, qc, qall);
    }
    pinned
}

/// The king's own steps differ from the moves of the other pieces and from castling.
proof fn lemma_king_apart(
    v: PosView,
    a: Seq<Move>,
    b: Seq<Move>,
    c: Seq<Move>,
    quiets: bool,
    pawn_targets: u64,
    targets: u64,
    enemies: u64,
    pinned: u64,
    k: int,
)
    requires
        lowest_king(v.board, v.side, k),
        grows_by(
            a,
            b,
            |m: u16| pawn_gen(v, m, quiets, pawn_targets, pinned, k) || piece_step(v, m, targets, enemies, pinned, k)
                || castle_step(v, m),
        ),
        distinct_from(b, a.len() as int),
        grows_by(b, c, |m: u16| king_step(v, m, k, enemies, quiets)),
        distinct_from(c, b.len() as int),
    ensures
        distinct_from(c, a.len() as int),
{
    let p = |m: u16| pawn_gen(v, m, quiets, pawn_targets, pinned, k) || piece_step(v, m, targets, enemies, pinned, k)
        || castle_step(v, m);
    let q = |m: u16| king_step(v, m, k, enemies, quiets);
    crate::position::lemma_code_parts(v.side, PieceType::King);
    assert forall|m: u16| !(#[trigger] p(m) && q(m)) by {}
    lemma_distinct_chain(a, b, c, p, q);
}

/// The masks `generate` computed meet `gen_masks` when quiet moves are asked for.
proof fn lemma_generate_masks(
    v: PosView,
    k: int,
    checkers: u64,
    targets: u64,
    pinned: u64,
    our: u64,
    enemies: u64,
    quiets: bool,
)
    requires
        forall|x: int| #[trigger] mem(checkers, x) == checks(v.board, x, k, v.side),
        forall|s: int| #[trigger] mem(our, s) == (0 <= s < 64 && owned_by(v.board, s, v.side)),
        forall|s: int| #[trigger] mem(enemies, s) == (0 <= s < 64 && owned_by(v.board, s, opposite(v.side))),
        popcount(checkers) == 0 ==> targets == (if quiets { !our } else { enemies }),
        popcount(checkers) == 1 ==> forall|x: int, t: int|
            #[trigger] mem(checkers, x) && (t == x || between_sq(k, x, t)) ==> #[trigger] mem(targets, t),
        forall|f: int| #[trigger] mem(pinned, f) ==> exists|x: int| #[trigger] pins(v.board, x, k, f, v.side),
    ensures
        gen_masks(v.board, v.side, k, checkers, targets, pinned, quiets),
{
}

/// Every legal move is listed, given what each generator lists.
proof fn lemma_generate_complete(
    v: PosView,
    k: int,
    checkers: u64,
    targets: u64,
    pawn_targets: u64,
    enemies: u64,
    pinned: u64,
    n: u32,
    l3: Seq<Move>,
    lf: Seq<Move>,
    quiets: bool,
)
    requires
        view_ok(v),
        lowest_king(v.board, v.side, k),
        single_king(v.board, v.side),
        gen_masks(v.board, v.side, k, checkers, targets, pinned, quiets),
        gen_masks(v.board, v.side, k, checkers, pawn_targets, pinned, true),
        forall|s: int| #[trigger] mem(enemies, s) == (0 <= s < 64 && owned_by(v.board, s, opposite(v.side))),
        n == popcount(checkers),
        quiets || n == 0,
        n < 2 ==> forall|m: u16|
            #![trigger pawn_owed(v, m, quiets, pawn_targets, pinned, k, n)]
            #![trigger piece_step(v, m, targets, enemies, pinned, k)]
            #![trigger castle_step(v, m)]
            pawn_owed(v, m, quiets, pawn_targets, pinned, k, n) || piece_step(v, m, targets, enemies, pinned, k) || (
            quiets && n == 0 && castle_step(v, m)) ==> listed(l3, m),
        forall|m: u16| #[trigger] king_step(v, m, k, enemies, quiets) ==> listed(lf, m),
        forall|m: u16| #[trigger] listed(l3, m) ==> listed(lf, m),
    ensures
        forall|m: u16| #[trigger] legal_move(v, m) && (quiets || is_noisy(m)) ==> listed(lf, m),
{
    assert forall|m: u16| #[trigger] legal_move(v, m) && (quiets || is_noisy(m)) implies listed(lf, m) by {
        let ty = code_type(v.board[mv_from(m)] as int);
        if ty == PieceType::King {
            if mv_flag(m) == 2 || mv_flag(m) == 3 {
                lemma_castle_owed(v, m, k, checkers);
                assert(listed(l3, m));
            } else {
                lemma_king_owed(v, m, k, enemies, quiets);
            }
        } else if ty == PieceType::Pawn {
            lemma_pawn_owed(v, m, k, checkers, pawn_targets, pinned, n, quiets);
            assert(listed(l3, m));
        } else {
            lemma_piece_owed(v, m, k, checkers, targets, enemies, pinned, quiets);
            assert(listed(l3, m));
        }
    }
}

/// What `generate` promises of every move it adds.
pub open spec fn generated(v: PosView, m: u16, quiets: bool) -> bool {
    &&& legal_move(v, m)
    &&& !quiets && not_in_check(v) ==> is_noisy(m)
}

#[verifier::rlimit(40)]
fn generate(pos: &Position, list: &mut MoveList, quiets: bool)
    requires
        old(list).wf(),
        pos.wf(),
        has_king(pos@.board, pos@.side),
        pawns_on_board(pos@.board),
    ensures
        final(list).wf(),
        grows_by(old(list)@, final(list)@, |m: u16| generated(pos@, m, quiets)),
        single_king(pos@.board, pos@.side) && (quiets || not_in_check(pos@)) ==> forall|m: u16| #[trigger] legal_move(
            pos@,
            m,
        ) && (quiets || is_noisy(m)) ==> listed(final(list)@, m),
        distinct_from(final(list)@, old(list)@.len() as int),
{
    let ghost v = pos@;
    let ghost goal = |m: u16| generated(v, m, quiets);
    proof {
        pos.lemma_wf();
        crate::position::lemma_occ_upto(v.board, 64);
    }
    let us = pos.side_to_move();
    let them = us.flip();
    let occ = pos.occupied();
    proof {
        lemma_bits_ext(occ.0, occ_of(v.board));
    }
    let our = pos.color_pieces(us);
    let enemies = pos.color_pieces(them);
    let ksq = pos.king_square(us);
    let checkers = pos.checkers();
    let num_checkers = checkers.count();
    proof {
        let k = choose|k: int|
            0 <= k < 64 && holds(v.board, k, v.side, PieceType::King) && (forall|j: int|
                0 <= j < k ==> !holds(v.board, j, v.side, PieceType::King)) && forall|x: int|
                #[trigger] mem(checkers.0, x) == (attacker(v.board, x, k, occ_of(v.board))
                    && code_color(v.board[x] as int) == opposite(v.side));
        assert(k == ksq.0 as int) by {
            if k < ksq.0 {
                assert(!holds(v.board, k, v.side, PieceType::King));
            } else if k > ksq.0 {
                assert(!holds(v.board, ksq.0 as int, v.side, PieceType::King));
            }
        }
        assert(lowest_king(v.board, v.side, ksq.0 as int));
        assert(forall|x: int| #[trigger] mem(checkers.0, x) == checks(v.board, x, ksq.0 as int, v.side));
        if not_in_check(v) {
            assert(!attacked_by(v.board, k, opposite(v.side), occ_of(v.board)));
            assert forall|t: int| 0 <= t < 64 implies !#[trigger] mem(checkers.0, t) by {
                if mem(checkers.0, t) {
                    assert(attacker(v.board, t, k, occ_of(v.board)) && code_color(v.board[t] as int)
                        == opposite(v.side));
                }
            }
            crate::bitboard::lemma_no_member_zero(checkers.0);
            crate::bitboard::lemma_popcount_zero_iff(checkers.0);
        }
    }
    let (targets, pawn_targets) = gen_targets(pos, ksq, checkers, num_checkers, our, enemies, quiets);
    let mut pinned = Bitboard(0);
    if num_checkers < 2 {
        pinned = gen_non_king(
            pos,
            list,
            us,
            them,
            ksq,
            occ,
            enemies,
            targets,
            pawn_targets,
            quiets,
            num_checkers,
        );
    }
    let ghost l3 = list@;
    gen_king(pos, list, them, ksq, occ, our, enemies, quiets);
    proof {
        let q = |m: u16| king_step(v, m, ksq.0 as int, enemies.0, quiets);
        assert forall|m: u16| #[trigger] q(m) implies goal(m) by {
            lemma_king_move_safe(v, m, ksq.0 as int, enemies.0, quiets);
        }
        lemma_grows_chain(old(list)@, l3, list@, goal, q, goal);
        lemma_listed_keep(l3, list@, q);
        lemma_king_apart(v, old(list)@, l3, list@, quiets, pawn_targets.0, targets.0, enemies.0, pinned.0, ksq.0 as int);
        if single_king(v.board, v.side) && (quiets || not_in_check(v)) {
            lemma_generate_masks(v, ksq.0 as int, checkers.0, targets.0, pinned.0, our.0, enemies.0, quiets);
            lemma_generate_masks(v, ksq.0 as int, checkers.0, pawn_targets.0, pinned.0, our.0, enemies.0, true);
            lemma_generate_complete(
                v,
                ksq.0 as int,
                checkers.0,
                targets.0,
                pawn_targets.0,
                enemies.0,
                pinned.0,
                num_checkers,
                l3,
                list@,
                quiets,
            );
        }
    }
}

/// Generate all legal moves, appending them to `list`.
pub fn generate_legal(pos: &Position, list: &mut MoveList)
    requires
        old(list).wf(),
        pos.wf(),
        has_king(pos@.board, pos@.side),
        pawns_on_board(pos@.board),
    ensures
        final(list).wf(),
        grows_by(old(list)@, final(list)@, |m: u16| legal_move(pos@, m)),
        single_king(pos@.board, pos@.side) ==> forall|m: u16| #[trigger] legal_move(pos@, m) ==> listed(
            final(list)@,
            m,
        ),
        distinct_from(final(list)@, old(list)@.len() as int),
{
    let ghost v = pos@;
    let ghost l0 = list@;
    generate(pos, list, true);
    proof {
        assert forall|i: int| l0.len() <= i < list@.len() implies legal_move(
            v,
            #[trigger] list@[i].0,
        ) by {
            assert(generated(v, list@[i].0, true));
        }
    }
}

/// Generate the noisy moves (captures, en passant, promotions), appending them to
/// `list`. Meant for positions where the side to move is not in check, where it
/// lists every legal noisy move; in check it also yields quiet evasions of pieces
/// onto the checking line.
pub fn generate_captures(pos: &Position, list: &mut MoveList)
    requires
        old(list).wf(),
        pos.wf(),
        has_king(pos@.board, pos@.side),
        pawns_on_board(pos@.board),
    ensures
        final(list).wf(),
        grows_by(old(list)@, final(list)@, |m: u16| generated(pos@, m, false)),
        single_king(pos@.board, pos@.side) && not_in_check(pos@) ==> forall|m: u16| #[trigger] legal_move(pos@, m)
            && is_noisy(m) ==> listed(final(list)@, m),
        distinct_from(final(list)@, old(list)@.len() as int),
{
    generate(pos, list, false);
}

/// Number of legal moves.
pub fn legal_move_count(pos: &Position) -> (r: usize)
    requires
        pos.wf(),
        has_king(pos@.board, pos@.side),
        pawns_on_board(pos@.board),
    ensures
        exists|l: Seq<Move>| #[trigger] legal_list(pos@, l) && l.len() == r,
        single_king(pos@.board, pos@.side) ==> r == legal_moves(pos@).len(),
{
    let mut list = MoveList::new();
    generate_legal(pos, &mut list);
    proof {
        assert(legal_list(pos@, list@));
        if single_king(pos@.board, pos@.side) {
            lemma_legal_count(pos@, list@);
        }
    }
    list.len()
}

/// Does every pawn stand on a rank it can move from (no pawn on the far rank of
/// its direction of travel)? The generators ask for this.
pub fn pawn_ranks_valid(pos: &Position) -> (r: bool)
    requires
        pos.wf(),
    ensures
        r == pawns_on_board(pos@.board),
{
    let mut s: u8 = 0;
    while s < 64
        invariant
            pos.wf(),
            s <= 64,
            forall|x: int|
                0 <= x < s ==> (#[trigger] pos@.board[x] == 0u8 ==> rank_of(x) < 7) && (pos@.board[x]
                    == 6u8 ==> rank_of(x) > 0),
        decreases 64 - s,
    {
        let sq = Square(s);
        let rank = sq.rank();
        match pos.piece_on(sq) {
            Some(p) => {
                if p.0 == 0 && rank == 7 {
                    return false;
                }
                if p.0 == 6 && rank == 0 {
                    return false;
                }
            },
            None => {},
        }
        s = s + 1;
    }
    true
}


/// Out of check, with one king for the side to move, the capture generator
/// lists exactly the legal captures and promotions.
pub proof fn lemma_captures_exact(v: PosView, l: Seq<Move>)
    requires
        grows_by(Seq::empty(), l, |m: u16| generated(v, m, false)),
        single_king(v.board, v.side) && not_in_check(v) ==> forall|m: u16| #[trigger] legal_move(v, m) && is_noisy(m)
            ==> listed(l, m),
        single_king(v.board, v.side),
        not_in_check(v),
    ensures
        forall|m: u16| #[trigger] listed(l, m) <==> legal_move(v, m) && is_noisy(m),
{
    assert forall|m: u16| #[trigger] listed(l, m) implies legal_move(v, m) && is_noisy(m) by {
        let i = choose|i: int| 0 <= i < l.len() && #[trigger] l[i].0 == m;
        assert(generated(v, l[i].0, false));
    }
}

} // verus!
