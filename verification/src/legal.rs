//! Why a generated move leaves its own king safe: a piece that moves must not
//! uncover an attack on the king (a pin), and in check it must capture the
//! checking piece or stand between it and the king.
use vstd::prelude::*;
use crate::attacks::{
    between_sq, bishop_hit, king_adj, knight_adj, lemma_bishop_sym, lemma_leaper_between,
    lemma_leaper_sym, lemma_ray_between, lemma_rook_sym, line_sq, pawn_adj, ray_hit, ray_on, ray_sq,
    rook_hit,
};
use crate::bitboard::{group_bits, mem, single};
use crate::lines::{lemma_between_line, lemma_between_sym, lemma_line_outside, lemma_ray_segment, lemma_same_ray, unit_dir};
use crate::chess_move::{flag_is_promotion, mv_flag, mv_from, mv_to, promo_type};
use crate::position::{
    PosView, attacked_by, attacker, cap_sq, holds, lemma_code_split, lemma_occ_upto, make_board, occ_of,
    piece_attacks,
};
use crate::types::{Color, NO_PIECE, PieceType, code_color, code_type, opposite, piece_code};

verus! {

broadcast use group_bits;

/// The piece on `x`, of the side not `us`, gives check to the king on `k`.
pub open spec fn checks(b: Seq<u8>, x: int, k: int, us: Color) -> bool {
    attacker(b, x, k, occ_of(b)) && code_color(b[x] as int) == opposite(us)
}

/// The piece on `x`, of the side not `us`, pins the piece on `f` to the king on
/// `k`: `f` stands strictly between them and, were it gone, `x` would attack `k`.
pub open spec fn pins(b: Seq<u8>, x: int, k: int, f: int, us: Color) -> bool {
    &&& 0 <= x < 64
    &&& b[x] < 12
    &&& code_color(b[x] as int) == opposite(us)
    &&& between_sq(x, k, f)
    &&& piece_attacks(b[x], x, k, occ_of(b) ^ single(f))
}

/// The board after the piece on `f` moves to `t`, where it becomes `p`.
pub open spec fn step_board(b: Seq<u8>, f: int, t: int, p: u8) -> Seq<u8> {
    b.update(f, NO_PIECE).update(t, p)
}

/// What a move of a piece of `us` other than the king, from `f` to `t`, must
/// satisfy on the board `b` with the king on `k`.
pub open spec fn step_rules(b: Seq<u8>, us: Color, k: int, f: int, t: int) -> bool {
    &&& forall|y: int| #[trigger] between_sq(f, t, y) ==> b[y] == NO_PIECE
    &&& forall|x: int| #[trigger] checks(b, x, k, us) ==> x == t || between_sq(k, x, t)
    &&& forall|x: int| #[trigger] pins(b, x, k, f, us) ==> line_sq(k, f, t)
}

pub open spec fn board_codes(b: Seq<u8>) -> bool {
    b.len() == 64 && forall|s: int| 0 <= s < 64 ==> #[trigger] b[s] <= 12
}

/// After the step, no slider on `x` attacks `k` along a ray it moves on.
proof fn lemma_no_ray_attack(b: Seq<u8>, us: Color, k: int, f: int, t: int, p: u8, x: int, df: int, dr: int)
    requires
        board_codes(b),
        0 <= k < 64,
        holds(b, k, us, PieceType::King),
        0 <= f < 64,
        f != k,
        b[f] < 12,
        0 <= t < 64,
        t != f,
        !(b[t] < 12 && code_color(b[t] as int) == us),
        p < 12,
        step_rules(b, us, k, f, t),
        0 <= x < 64,
        x != t,
        x != f,
        b[x] < 12,
        code_color(b[x] as int) == opposite(us),
        unit_dir(df, dr),
        forall|o: u64| ray_hit(x, df, dr, o, k) ==> #[trigger] piece_attacks(b[x], x, k, o),
    ensures
        !ray_hit(x, df, dr, occ_of(step_board(b, f, t, p)), k),
{
    if !ray_hit(x, df, dr, occ_of(step_board(b, f, t, p)), k) {
        return;
    }
    let b2 = step_board(b, f, t, p);
    let occ = occ_of(b);
    let occ2 = occ_of(b2);
    lemma_occ_upto(b, 64);
    lemma_occ_upto(b2, 64);
    let j = choose|j: int|
        #![trigger ray_sq(x, df, dr, j)]
        1 <= j < 8 && ray_on(x, df, dr, j) && ray_sq(x, df, dr, j) == k && forall|i: int|
            1 <= i < j ==> !#[trigger] mem(occ2, ray_sq(x, df, dr, i));
    // Every square strictly before the king is empty after the step, so none is `t`.
    assert forall|i: int| 1 <= i < j implies #[trigger] ray_sq(x, df, dr, i) != t
        && (ray_sq(x, df, dr, i) != f ==> b[ray_sq(x, df, dr, i)] == NO_PIECE) by {
        let y = ray_sq(x, df, dr, i);
        crate::lines::lemma_ray_on_inside(x, df, dr, i, j);
        crate::lines::lemma_ray_coords(x, df, dr, i);
        assert(!mem(occ2, y));
        assert(b2[y] >= 12);
        if y != f && y != t {
            assert(b2[y] == b[y]);
        }
    }
    if exists|i: int| 1 <= i < j && #[trigger] ray_sq(x, df, dr, i) == f {
        let i0 = choose|i: int| 1 <= i < j && #[trigger] ray_sq(x, df, dr, i) == f;
        // `x` pins the piece on `f`.
        assert forall|i: int| 1 <= i < j implies !#[trigger] mem(occ ^ single(f), ray_sq(x, df, dr, i)) by {
            let y = ray_sq(x, df, dr, i);
            crate::lines::lemma_ray_on_inside(x, df, dr, i, j);
            crate::lines::lemma_ray_coords(x, df, dr, i);
            crate::bitboard::lemma_has_single(f, y);
            crate::bitboard::lemma_has_xor(occ, single(f), y);
            assert(0 <= y < 64);
            assert(mem(occ, y) == (b[y] < 12));
            if y != f {
                assert(ray_sq(x, df, dr, i) != f ==> b[ray_sq(x, df, dr, i)] == NO_PIECE);
                assert(b[y] == NO_PIECE);
                assert(!mem(single(f), y));
            } else {
                assert(mem(single(f), y));
                assert(b[f] < 12);
            }
        }
        assert(ray_hit(x, df, dr, occ ^ single(f), k));
        lemma_ray_segment(x, df, dr, j, f);
        assert(between_sq(x, k, f));
        assert(pins(b, x, k, f, us));
        assert(line_sq(k, f, t));
        assert(t != k) by {
            crate::position::lemma_code_parts(us, PieceType::King);
        }
        crate::lines::lemma_line_outside(x, df, dr, j, i0, t);
        assert(b[x] != NO_PIECE);
        crate::position::lemma_code_parts(us, PieceType::King);
        assert(b[k] != NO_PIECE);
    } else {
        // The line was open before the step: `x` gave check.
        assert forall|i: int| 1 <= i < j implies !#[trigger] mem(occ, ray_sq(x, df, dr, i)) by {
            crate::lines::lemma_ray_on_inside(x, df, dr, i, j);
            crate::lines::lemma_ray_coords(x, df, dr, i);
        }
        assert(ray_hit(x, df, dr, occ, k));
        assert(piece_attacks(b[x], x, k, occ));
        assert(checks(b, x, k, us));
        assert(between_sq(k, x, t));
        lemma_between_sym(k, x, t);
        lemma_ray_segment(x, df, dr, j, t);
        let i = choose|i: int| #![trigger ray_sq(x, df, dr, i)] 0 < i < j && t == ray_sq(x, df, dr, i);
        assert(ray_sq(x, df, dr, i) != t);
    }
}

/// A move that keeps the rules of a step leaves the king unattacked.
pub proof fn lemma_step_keeps_king_safe(b: Seq<u8>, us: Color, k: int, f: int, t: int, p: u8)
    requires
        board_codes(b),
        0 <= k < 64,
        holds(b, k, us, PieceType::King),
        0 <= f < 64,
        f != k,
        b[f] < 12,
        code_color(b[f] as int) == us,
        0 <= t < 64,
        t != f,
        !(b[t] < 12 && code_color(b[t] as int) == us),
        p < 12,
        code_color(p as int) == us,
        step_rules(b, us, k, f, t),
    ensures
        !attacked_by(step_board(b, f, t, p), k, opposite(us), occ_of(step_board(b, f, t, p))),
{
    let b2 = step_board(b, f, t, p);
    let occ = occ_of(b);
    let occ2 = occ_of(b2);
    let them = opposite(us);
    lemma_occ_upto(b, 64);
    lemma_occ_upto(b2, 64);
    assert forall|x: int| !(#[trigger] attacker(b2, x, k, occ2) && code_color(b2[x] as int) == them) by {
        if attacker(b2, x, k, occ2) && code_color(b2[x] as int) == them {
            assert(x != t);
            assert(x != f);
            assert(b2[x] == b[x]);
            lemma_code_split(b[x] as int);
            lemma_leaper_sym(them, x, k);
            lemma_leaper_sym(us, k, x);
            let ty = code_type(b[x] as int);
            if ty == PieceType::Pawn || ty == PieceType::Knight || ty == PieceType::King {
                assert(piece_attacks(b[x], x, k, occ));
                assert(checks(b, x, k, us));
                lemma_leaper_between(k, x);
                assert(!between_sq(k, x, t));
            } else {
                if ty == PieceType::Bishop || ty == PieceType::Queen {
                    if ray_hit(x, 1, 1, occ2, k) {
                        lemma_no_ray_attack(b, us, k, f, t, p, x, 1, 1);
                    } else if ray_hit(x, -1, 1, occ2, k) {
                        lemma_no_ray_attack(b, us, k, f, t, p, x, -1, 1);
                    } else if ray_hit(x, 1, -1, occ2, k) {
                        lemma_no_ray_attack(b, us, k, f, t, p, x, 1, -1);
                    } else if ray_hit(x, -1, -1, occ2, k) {
                        lemma_no_ray_attack(b, us, k, f, t, p, x, -1, -1);
                    }
                }
                if ty == PieceType::Rook || ty == PieceType::Queen {
                    if ray_hit(x, 1, 0, occ2, k) {
                        lemma_no_ray_attack(b, us, k, f, t, p, x, 1, 0);
                    } else if ray_hit(x, -1, 0, occ2, k) {
                        lemma_no_ray_attack(b, us, k, f, t, p, x, -1, 0);
                    } else if ray_hit(x, 0, 1, occ2, k) {
                        lemma_no_ray_attack(b, us, k, f, t, p, x, 0, 1);
                    } else if ray_hit(x, 0, -1, occ2, k) {
                        lemma_no_ray_attack(b, us, k, f, t, p, x, 0, -1);
                    }
                }
            }
        }
    }
}

/// Along a ray that a pinning piece would attack through, the pinned piece is the
/// only occupied square between it and the king, and the ray reaches the pinner
/// from the king on an empty board.
proof fn lemma_pin_ray(b: Seq<u8>, x: int, k: int, f: int, df: int, dr: int)
    requires
        board_codes(b),
        0 <= x < 64,
        0 <= k < 64,
        0 <= f < 64,
        b[f] < 12,
        unit_dir(df, dr),
        ray_hit(x, df, dr, occ_of(b) ^ single(f), k),
    ensures
        ray_hit(k, -df, -dr, 0u64, x),
        forall|y: int| #[trigger] between_sq(k, x, y) ==> (b[y] < 12 <==> y == f),
{
    let occ = occ_of(b);
    lemma_occ_upto(b, 64);
    let j = choose|j: int|
        #![trigger ray_sq(x, df, dr, j)]
        1 <= j < 8 && ray_on(x, df, dr, j) && ray_sq(x, df, dr, j) == k && forall|i: int|
            1 <= i < j ==> !#[trigger] mem(occ ^ single(f), ray_sq(x, df, dr, i));
    assert forall|i: int| 1 <= i < j implies !#[trigger] mem(0u64, ray_sq(x, df, dr, i)) by {
        crate::bitboard::lemma_has_zero(ray_sq(x, df, dr, i));
    }
    assert(ray_hit(x, df, dr, 0u64, k));
    crate::attacks::lemma_ray_sym(x, df, dr, 0u64, k);
    assert forall|y: int| #[trigger] between_sq(k, x, y) implies (b[y] < 12 <==> y == f) by {
        lemma_between_sym(k, x, y);
        lemma_ray_segment(x, df, dr, j, y);
        let i = choose|i: int| #![trigger ray_sq(x, df, dr, i)] 0 < i < j && y == ray_sq(x, df, dr, i);
        crate::lines::lemma_ray_on_inside(x, df, dr, i, j);
        crate::lines::lemma_ray_coords(x, df, dr, i);
        crate::bitboard::lemma_has_single(f, y);
        crate::bitboard::lemma_has_xor(occ, single(f), y);
        assert(!mem(occ ^ single(f), y));
        assert(mem(occ, y) == (b[y] < 12));
    }
}

/// What a pin tells of the board: the pinner is a slider that reaches the king
/// along its line on an empty board, and the pinned piece is the only one between.
pub proof fn lemma_pin_facts(b: Seq<u8>, x: int, k: int, f: int, us: Color)
    requires
        board_codes(b),
        0 <= k < 64,
        0 <= f < 64,
        b[f] < 12,
        pins(b, x, k, f, us),
    ensures
        ((code_type(b[x] as int) == PieceType::Rook || code_type(b[x] as int) == PieceType::Queen)
            && rook_hit(k, 0u64, x)) || ((code_type(b[x] as int) == PieceType::Bishop || code_type(
            b[x] as int,
        ) == PieceType::Queen) && bishop_hit(k, 0u64, x)),
        forall|y: int| #[trigger] between_sq(k, x, y) ==> (b[y] < 12 <==> y == f),
{
    let o = occ_of(b) ^ single(f);
    lemma_code_split(b[x] as int);
    let ty = code_type(b[x] as int);
    if ty == PieceType::Pawn || ty == PieceType::Knight || ty == PieceType::King {
        lemma_leaper_sym(code_color(b[x] as int), x, k);
        lemma_leaper_between(x, k);
        assert(!between_sq(x, k, f));
    } else if ty == PieceType::Bishop {
        if ray_hit(x, 1, 1, o, k) {
            lemma_pin_ray(b, x, k, f, 1, 1);
        } else if ray_hit(x, -1, 1, o, k) {
            lemma_pin_ray(b, x, k, f, -1, 1);
        } else if ray_hit(x, 1, -1, o, k) {
            lemma_pin_ray(b, x, k, f, 1, -1);
        } else {
            lemma_pin_ray(b, x, k, f, -1, -1);
        }
    } else if ty == PieceType::Rook {
        if ray_hit(x, 1, 0, o, k) {
            lemma_pin_ray(b, x, k, f, 1, 0);
        } else if ray_hit(x, -1, 0, o, k) {
            lemma_pin_ray(b, x, k, f, -1, 0);
        } else if ray_hit(x, 0, 1, o, k) {
            lemma_pin_ray(b, x, k, f, 0, 1);
        } else {
            lemma_pin_ray(b, x, k, f, 0, -1);
        }
    } else {
        if ray_hit(x, 1, 1, o, k) {
            lemma_pin_ray(b, x, k, f, 1, 1);
        } else if ray_hit(x, -1, 1, o, k) {
            lemma_pin_ray(b, x, k, f, -1, 1);
        } else if ray_hit(x, 1, -1, o, k) {
            lemma_pin_ray(b, x, k, f, 1, -1);
        } else if ray_hit(x, -1, -1, o, k) {
            lemma_pin_ray(b, x, k, f, -1, -1);
        } else if ray_hit(x, 1, 0, o, k) {
            lemma_pin_ray(b, x, k, f, 1, 0);
        } else if ray_hit(x, -1, 0, o, k) {
            lemma_pin_ray(b, x, k, f, -1, 0);
        } else if ray_hit(x, 0, 1, o, k) {
            lemma_pin_ray(b, x, k, f, 0, 1);
        } else {
            lemma_pin_ray(b, x, k, f, 0, -1);
        }
    }
}

// -- the move made ------------------------------------------------------------------

/// `k` holds the lowest king of `c`: the one the move generator guards.
pub open spec fn lowest_king(b: Seq<u8>, c: Color, k: int) -> bool {
    &&& 0 <= k < 64
    &&& holds(b, k, c, PieceType::King)
    &&& forall|j: int| 0 <= j < k ==> !holds(b, j, c, PieceType::King)
}

/// After the move `m` the king of the side that made it (on its new square, when it
/// is the king that moved) is not attacked.
pub open spec fn king_safe_after(v: PosView, m: u16) -> bool {
    forall|k: int|
        #[trigger] lowest_king(v.board, v.side, k) ==> !attacked_by(
            make_board(v, m),
            if mv_from(m) == k {
                mv_to(m)
            } else {
                k
            },
            opposite(v.side),
            occ_of(make_board(v, m)),
        )
}

/// The board after a move other than castling and en passant: the piece leaves
/// its square and stands (promoted, for a promotion) on the target.
pub proof fn lemma_make_step(v: PosView, m: u16)
    requires
        v.board.len() == 64,
        0 <= mv_from(m) < 64,
        0 <= mv_to(m) < 64,
        mv_from(m) != mv_to(m),
        mv_flag(m) != 2,
        mv_flag(m) != 3,
        mv_flag(m) != 5,
    ensures
        make_board(v, m) == step_board(
            v.board,
            mv_from(m),
            mv_to(m),
            if flag_is_promotion(mv_flag(m)) {
                piece_code(v.side, promo_type(mv_flag(m))) as u8
            } else {
                v.board[mv_from(m)]
            },
        ),
{
    let f = mv_from(m);
    let t = mv_to(m);
    let q = if flag_is_promotion(mv_flag(m)) {
        piece_code(v.side, promo_type(mv_flag(m))) as u8
    } else {
        v.board[f]
    };
    assert(make_board(v, m) =~= step_board(v.board, f, t, q));
}

/// The board after an en-passant capture.
pub proof fn lemma_make_ep(v: PosView, m: u16)
    requires
        v.board.len() == 64,
        0 <= mv_from(m) < 64,
        0 <= mv_to(m) < 64,
        0 <= cap_sq(v.side, mv_to(m)) < 64,
        mv_from(m) != mv_to(m),
        mv_from(m) != cap_sq(v.side, mv_to(m)),
        mv_to(m) != cap_sq(v.side, mv_to(m)),
        mv_flag(m) == 5,
        v.board[mv_from(m)] == piece_code(v.side, PieceType::Pawn),
    ensures
        make_board(v, m) == crate::movegen::ep_board(
            v.board,
            mv_from(m),
            cap_sq(v.side, mv_to(m)),
            mv_to(m),
            v.side,
        ),
{
    assert(make_board(v, m) =~= crate::movegen::ep_board(
        v.board,
        mv_from(m),
        cap_sq(v.side, mv_to(m)),
        mv_to(m),
        v.side,
    ));
}

/// A ray reaching `t` looks at the squares before `t` only.
proof fn lemma_ray_hit_same(x: int, df: int, dr: int, o1: u64, o2: u64, t: int)
    requires
        0 <= x < 64,
        unit_dir(df, dr),
        forall|y: int| y != t ==> #[trigger] mem(o1, y) == mem(o2, y),
    ensures
        ray_hit(x, df, dr, o1, t) == ray_hit(x, df, dr, o2, t),
{
    if ray_hit(x, df, dr, o1, t) || ray_hit(x, df, dr, o2, t) {
        let o = if ray_hit(x, df, dr, o1, t) { o1 } else { o2 };
        let j = choose|j: int|
            #![trigger ray_sq(x, df, dr, j)]
            1 <= j < 8 && ray_on(x, df, dr, j) && ray_sq(x, df, dr, j) == t && forall|i: int|
                1 <= i < j ==> !#[trigger] mem(o, ray_sq(x, df, dr, i));
        crate::lines::lemma_ray_coords(x, df, dr, j);
        assert forall|i: int| 1 <= i < j implies #[trigger] ray_sq(x, df, dr, i) != t by {
            crate::lines::lemma_ray_on_inside(x, df, dr, i, j);
            crate::lines::lemma_ray_coords(x, df, dr, i);
        }
        assert forall|i: int| 1 <= i < j implies !#[trigger] mem(o1, ray_sq(x, df, dr, i)) by {
            let y = ray_sq(x, df, dr, i);
            assert(y != t);
            assert(!mem(o, y));
            assert(mem(o1, y) == mem(o2, y));
        }
        assert forall|i: int| 1 <= i < j implies !#[trigger] mem(o2, ray_sq(x, df, dr, i)) by {
            let y = ray_sq(x, df, dr, i);
            assert(y != t);
            assert(!mem(o, y));
            assert(mem(o1, y) == mem(o2, y));
        }
        assert(ray_sq(x, df, dr, j) == t);
        assert(ray_hit(x, df, dr, o1, t));
        assert(ray_hit(x, df, dr, o2, t));
    }
}

/// Attacks on `t` agree for occupancies that agree off `t`.
proof fn lemma_attacks_same(p: u8, x: int, t: int, o1: u64, o2: u64)
    requires
        0 <= x < 64,
        forall|y: int| y != t ==> #[trigger] mem(o1, y) == mem(o2, y),
    ensures
        piece_attacks(p, x, t, o1) == piece_attacks(p, x, t, o2),
{
    lemma_ray_hit_same(x, 1, 0, o1, o2, t);
    lemma_ray_hit_same(x, -1, 0, o1, o2, t);
    lemma_ray_hit_same(x, 0, 1, o1, o2, t);
    lemma_ray_hit_same(x, 0, -1, o1, o2, t);
    lemma_ray_hit_same(x, 1, 1, o1, o2, t);
    lemma_ray_hit_same(x, -1, 1, o1, o2, t);
    lemma_ray_hit_same(x, 1, -1, o1, o2, t);
    lemma_ray_hit_same(x, -1, -1, o1, o2, t);
}

/// A king step onto a square that no enemy piece attacks once the king has left
/// its square leaves the king unattacked.
pub proof fn lemma_king_step_safe(b: Seq<u8>, us: Color, f: int, t: int, p: u8)
    requires
        board_codes(b),
        0 <= f < 64,
        0 <= t < 64,
        t != f,
        p < 12,
        code_color(p as int) == us,
        b[f] < 12,
        code_color(b[f] as int) == us,
        !attacked_by(b, t, opposite(us), occ_of(b) ^ single(f)),
    ensures
        !attacked_by(step_board(b, f, t, p), t, opposite(us), occ_of(step_board(b, f, t, p))),
{
    let b2 = step_board(b, f, t, p);
    let o1 = occ_of(b) ^ single(f);
    let o2 = occ_of(b2);
    lemma_occ_upto(b, 64);
    lemma_occ_upto(b2, 64);
    assert forall|y: int| y != t implies #[trigger] mem(o1, y) == mem(o2, y) by {
        crate::bitboard::lemma_has_xor(occ_of(b), single(f), y);
        if 0 <= f < 64 {
            crate::bitboard::lemma_has_single(f, y);
        }
    }
    assert forall|x: int| !(#[trigger] attacker(b2, x, t, o2) && code_color(b2[x] as int) == opposite(us)) by {
        if attacker(b2, x, t, o2) && code_color(b2[x] as int) == opposite(us) {
            assert(x != t);
            assert(x != f);
            assert(b2[x] == b[x]);
            lemma_attacks_same(b[x], x, t, o1, o2);
            assert(attacker(b, x, t, o1));
        }
    }
}

// -- what a legal step must do ------------------------------------------------------

/// After the step, the checking piece on `c` still attacks the king unless the
/// step captured it or stood between: so a step that leaves the king safe does one
/// of the two.
pub proof fn lemma_check_answered(b: Seq<u8>, us: Color, k: int, f: int, t: int, p: u8, c: int)
    requires
        board_codes(b),
        0 <= k < 64,
        holds(b, k, us, PieceType::King),
        0 <= f < 64,
        f != k,
        b[f] < 12,
        code_color(b[f] as int) == us,
        0 <= t < 64,
        t != f,
        p < 12,
        code_color(p as int) == us,
        checks(b, c, k, us),
        !attacked_by(step_board(b, f, t, p), k, opposite(us), occ_of(step_board(b, f, t, p))),
    ensures
        t == c || between_sq(k, c, t),
{
    if !(t == c || between_sq(k, c, t)) {
        let b2 = step_board(b, f, t, p);
        let o = occ_of(b);
        let o2 = occ_of(b2);
        lemma_occ_upto(b, 64);
        lemma_occ_upto(b2, 64);
        assert(c != f);
        assert(b2[c] == b[c]);
        lemma_code_split(b[c] as int);
        let ty = code_type(b[c] as int);
        if ty == PieceType::Pawn || ty == PieceType::Knight || ty == PieceType::King {
            assert(attacker(b2, c, k, o2));
        } else {
            assert(!between_sq(c, k, t)) by {
                lemma_between_sym(c, k, t);
            }
            lemma_still_attacks(b, b2, c, k, f, t);
            assert(attacker(b2, c, k, o2));
        }
    }
}

/// A slider's ray onto `k` stays open after a step from `f` to `t` that does
/// not land strictly between it and `k`.
proof fn lemma_still_attacks(b: Seq<u8>, b2: Seq<u8>, c: int, k: int, f: int, t: int)
    requires
        board_codes(b),
        b2 == step_board(b, f, t, b2[t]),
        0 <= f < 64,
        0 <= t < 64,
        b[f] < 12,
        0 <= c < 64,
        0 <= k < 64,
        b[c] < 12,
        piece_attacks(b[c], c, k, occ_of(b)),
        code_type(b[c] as int) != PieceType::Pawn,
        code_type(b[c] as int) != PieceType::Knight,
        code_type(b[c] as int) != PieceType::King,
        !between_sq(c, k, t),
    ensures
        piece_attacks(b[c], c, k, occ_of(b2)),
{
    let o = occ_of(b);
    let o2 = occ_of(b2);
    lemma_occ_upto(b, 64);
    lemma_occ_upto(b2, 64);
    assert forall|df: int, dr: int|
        unit_dir(df, dr) && #[trigger] ray_hit(c, df, dr, o, k) implies ray_hit(c, df, dr, o2, k) by {
        let j = choose|j: int|
            #![trigger ray_sq(c, df, dr, j)]
            1 <= j < 8 && ray_on(c, df, dr, j) && ray_sq(c, df, dr, j) == k && forall|i: int|
                1 <= i < j ==> !#[trigger] mem(o, ray_sq(c, df, dr, i));
        assert forall|i: int| 1 <= i < j implies !#[trigger] mem(o2, ray_sq(c, df, dr, i)) by {
            let y = ray_sq(c, df, dr, i);
            crate::lines::lemma_ray_on_inside(c, df, dr, i, j);
            crate::lines::lemma_ray_coords(c, df, dr, i);
            lemma_ray_segment(c, df, dr, j, y);
            assert(between_sq(c, k, y));
            assert(y != t);
            assert(!mem(o, y));
            if y != f {
                assert(b2[y] == b[y]);
            }
        }
        assert(ray_hit(c, df, dr, o2, k));
    }
    lemma_code_split(b[c] as int);
}

/// After the step, a pinning piece attacks the king unless the pinned piece stayed
/// on its line: so a step that leaves the king safe stays on it.
pub proof fn lemma_pin_respected(b: Seq<u8>, us: Color, k: int, f: int, t: int, p: u8, x: int)
    requires
        board_codes(b),
        0 <= k < 64,
        holds(b, k, us, PieceType::King),
        0 <= f < 64,
        f != k,
        b[f] < 12,
        code_color(b[f] as int) == us,
        0 <= t < 64,
        t != f,
        p < 12,
        code_color(p as int) == us,
        pins(b, x, k, f, us),
        !attacked_by(step_board(b, f, t, p), k, opposite(us), occ_of(step_board(b, f, t, p))),
    ensures
        line_sq(k, f, t),
{
    if !line_sq(k, f, t) {
        let b2 = step_board(b, f, t, p);
        let o = occ_of(b);
        let o1 = occ_of(b) ^ single(f);
        let o2 = occ_of(b2);
        lemma_occ_upto(b, 64);
        lemma_occ_upto(b2, 64);
        lemma_between_line(x, k, f, x);
        assert(t != x);
        assert(x != f) by {
            crate::lines::lemma_between_ray(x, k, f);
        }
        assert(b2[x] == b[x]);
        // The squares between `x` and `k` are on the line, so `t` is none of them.
        assert forall|y: int| #[trigger] between_sq(x, k, y) implies y != t by {
            lemma_between_line(x, k, f, y);
        }
        lemma_code_split(b[x] as int);
        assert forall|df: int, dr: int|
            unit_dir(df, dr) && #[trigger] ray_hit(x, df, dr, o1, k) implies ray_hit(x, df, dr, o2, k) by {
            let j = choose|j: int|
                #![trigger ray_sq(x, df, dr, j)]
                1 <= j < 8 && ray_on(x, df, dr, j) && ray_sq(x, df, dr, j) == k && forall|i: int|
                    1 <= i < j ==> !#[trigger] mem(o1, ray_sq(x, df, dr, i));
            assert forall|i: int| 1 <= i < j implies !#[trigger] mem(o2, ray_sq(x, df, dr, i)) by {
                let y = ray_sq(x, df, dr, i);
                crate::lines::lemma_ray_on_inside(x, df, dr, i, j);
                crate::lines::lemma_ray_coords(x, df, dr, i);
                lemma_ray_segment(x, df, dr, j, y);
                assert(between_sq(x, k, y));
                assert(y != t);
                crate::bitboard::lemma_has_single(f, y);
                crate::bitboard::lemma_has_xor(o, single(f), y);
                assert(!mem(o1, y));
                if y != f {
                    assert(b2[y] == b[y]);
                    assert(!mem(o, y));
                }
            }
            assert(ray_hit(x, df, dr, o2, k));
        }
        let ty = code_type(b[x] as int);
        if ty == PieceType::Pawn || ty == PieceType::Knight || ty == PieceType::King {
            lemma_leaper_sym(code_color(b[x] as int), x, k);
            lemma_leaper_between(x, k);
        }
        assert(attacker(b2, x, k, o2));
    }
}

/// Two different pieces cannot both be answered by one step: the step would have
/// to capture or block each, and one of them would then not be giving check.
pub proof fn lemma_one_checker_answered(b: Seq<u8>, us: Color, k: int, t: int, c1: int, c2: int)
    requires
        board_codes(b),
        0 <= k < 64,
        checks(b, c1, k, us),
        checks(b, c2, k, us),
        t == c1 || between_sq(k, c1, t),
        t == c2 || between_sq(k, c2, t),
    ensures
        c1 == c2,
{
    if c1 != c2 {
        lemma_occ_upto(b, 64);
        lemma_code_split(b[c1] as int);
        lemma_code_split(b[c2] as int);
        // A checking leaper has nothing between it and the king.
        lemma_leaper_sym(code_color(b[c1] as int), c1, k);
        lemma_leaper_sym(code_color(b[c2] as int), c2, k);
        if t != c1 && t != c2 {
            lemma_same_ray(k, c1, c2, t);
            if between_sq(k, c2, c1) {
                lemma_between_blocks(b, c2, k, c1);
            } else {
                lemma_between_blocks(b, c1, k, c2);
            }
        } else if t == c1 {
            lemma_between_blocks(b, c2, k, c1);
        } else {
            lemma_between_blocks(b, c1, k, c2);
        }
    }
}

/// A piece giving check has no occupied square strictly between it and the king.
proof fn lemma_between_blocks(b: Seq<u8>, c: int, k: int, y: int)
    requires
        board_codes(b),
        0 <= k < 64,
        0 <= c < 64,
        b[c] < 12,
        piece_attacks(b[c], c, k, occ_of(b)),
        between_sq(k, c, y),
    ensures
        b[y] == NO_PIECE,
{
    lemma_occ_upto(b, 64);
    lemma_between_sym(k, c, y);
    lemma_code_split(b[c] as int);
    let ty = code_type(b[c] as int);
    if ty == PieceType::Pawn || ty == PieceType::Knight || ty == PieceType::King {
        lemma_leaper_sym(code_color(b[c] as int), c, k);
        lemma_leaper_between(c, k);
    } else {
        let o = occ_of(b);
        if ray_hit(c, 1, 1, o, k) {
            lemma_ray_between(c, 1, 1, o, k);
        } else if ray_hit(c, -1, 1, o, k) {
            lemma_ray_between(c, -1, 1, o, k);
        } else if ray_hit(c, 1, -1, o, k) {
            lemma_ray_between(c, 1, -1, o, k);
        } else if ray_hit(c, -1, -1, o, k) {
            lemma_ray_between(c, -1, -1, o, k);
        } else if ray_hit(c, 1, 0, o, k) {
            lemma_ray_between(c, 1, 0, o, k);
        } else if ray_hit(c, -1, 0, o, k) {
            lemma_ray_between(c, -1, 0, o, k);
        } else if ray_hit(c, 0, 1, o, k) {
            lemma_ray_between(c, 0, 1, o, k);
        } else {
            lemma_ray_between(c, 0, -1, o, k);
        }
        crate::lines::lemma_between_ray(c, k, y);
    }
}

/// A ray that reaches `k` on an empty board reaches it under any occupancy that
/// leaves the squares between empty.
proof fn lemma_ray_clear(x: int, df: int, dr: int, k: int, o: u64)
    requires
        0 <= x < 64,
        unit_dir(df, dr),
        ray_hit(x, df, dr, 0u64, k),
        forall|y: int| #[trigger] between_sq(x, k, y) ==> !mem(o, y),
    ensures
        ray_hit(x, df, dr, o, k),
{
    let j = choose|j: int|
        #![trigger ray_sq(x, df, dr, j)]
        1 <= j < 8 && ray_on(x, df, dr, j) && ray_sq(x, df, dr, j) == k && forall|i: int|
            1 <= i < j ==> !#[trigger] mem(0u64, ray_sq(x, df, dr, i));
    assert forall|i: int| 1 <= i < j implies !#[trigger] mem(o, ray_sq(x, df, dr, i)) by {
        let y = ray_sq(x, df, dr, i);
        lemma_ray_segment(x, df, dr, j, y);
        assert(between_sq(x, k, y));
    }
}

/// A slider that reaches `k` on an empty board reaches it under any occupancy that
/// leaves the squares between empty.
pub proof fn lemma_slider_clear(x: int, k: int, o: u64)
    requires
        0 <= x < 64,
        forall|y: int| #[trigger] between_sq(x, k, y) ==> !mem(o, y),
    ensures
        rook_hit(x, 0u64, k) ==> rook_hit(x, o, k),
        bishop_hit(x, 0u64, k) ==> bishop_hit(x, o, k),
{
    if ray_hit(x, 1, 0, 0u64, k) {
        lemma_ray_clear(x, 1, 0, k, o);
    }
    if ray_hit(x, -1, 0, 0u64, k) {
        lemma_ray_clear(x, -1, 0, k, o);
    }
    if ray_hit(x, 0, 1, 0u64, k) {
        lemma_ray_clear(x, 0, 1, k, o);
    }
    if ray_hit(x, 0, -1, 0u64, k) {
        lemma_ray_clear(x, 0, -1, k, o);
    }
    if ray_hit(x, 1, 1, 0u64, k) {
        lemma_ray_clear(x, 1, 1, k, o);
    }
    if ray_hit(x, -1, 1, 0u64, k) {
        lemma_ray_clear(x, -1, 1, k, o);
    }
    if ray_hit(x, 1, -1, 0u64, k) {
        lemma_ray_clear(x, 1, -1, k, o);
    }
    if ray_hit(x, -1, -1, 0u64, k) {
        lemma_ray_clear(x, -1, -1, k, o);
    }
}

/// An enemy slider lined up with the king on an empty board, with one piece `f`
/// alone between them, pins that piece.
pub proof fn lemma_sniper_pins(b: Seq<u8>, x: int, k: int, f: int, us: Color)
    requires
        board_codes(b),
        0 <= k < 64,
        0 <= x < 64,
        b[x] < 12,
        code_color(b[x] as int) == opposite(us),
        ((code_type(b[x] as int) == PieceType::Rook || code_type(b[x] as int) == PieceType::Queen)
            && rook_hit(k, 0u64, x)) || ((code_type(b[x] as int) == PieceType::Bishop || code_type(
            b[x] as int,
        ) == PieceType::Queen) && bishop_hit(k, 0u64, x)),
        between_sq(k, x, f),
        forall|y: int| #[trigger] between_sq(k, x, y) ==> (mem(occ_of(b), y) <==> y == f),
    ensures
        pins(b, x, k, f, us),
{
    let o = occ_of(b) ^ single(f);
    lemma_between_sym(k, x, f);
    crate::lines::lemma_between_ray(x, k, f);
    assert forall|y: int| #[trigger] between_sq(x, k, y) implies !mem(o, y) by {
        lemma_between_sym(k, x, y);
        crate::lines::lemma_between_ray(x, k, y);
        crate::bitboard::lemma_has_single(f, y);
        crate::bitboard::lemma_has_xor(occ_of(b), single(f), y);
    }
    lemma_rook_sym(k, 0u64, x);
    lemma_bishop_sym(k, 0u64, x);
    lemma_slider_clear(x, k, o);
    lemma_code_split(b[x] as int);
}

/// A knight's jump never stays on a line through its square.
pub proof fn lemma_knight_off_line(k: int, f: int, t: int)
    requires
        knight_adj(f, t),
    ensures
        !line_sq(k, f, t),
{
    if line_sq(k, f, t) {
        let df = crate::attacks::sign(crate::types::file_of(f) - crate::types::file_of(k));
        let dr = crate::attacks::sign(crate::types::rank_of(f) - crate::types::rank_of(k));
        crate::lines::lemma_aligned_ray(k, f);
        let n = crate::attacks::cheb(k, f);
        let j = choose|j: int|
            #![trigger ray_sq(k, df, dr, j)]
            -8 < j < 8 && ray_on(k, df, dr, j) && t == ray_sq(k, df, dr, j);
        crate::lines::lemma_ray_coords(k, df, dr, j);
        crate::lines::lemma_ray_coords(k, df, dr, n);
    }
}

/// A square a knight's jump away from `k` is on no line from `k`.
pub proof fn lemma_knight_not_between(k: int, c: int, y: int)
    requires
        knight_adj(k, y),
    ensures
        !between_sq(k, c, y),
{
    if between_sq(k, c, y) {
        crate::lines::lemma_between_ray(k, c, y);
        let df = crate::attacks::sign(crate::types::file_of(c) - crate::types::file_of(k));
        let dr = crate::attacks::sign(crate::types::rank_of(c) - crate::types::rank_of(k));
        crate::lines::lemma_ray_coords(k, df, dr, crate::attacks::cheb(k, y));
    }
}

/// After an en-passant capture that leaves the king safe, each checking piece was
/// either the pawn taken or stood on a line that the capturing pawn now blocks.
pub proof fn lemma_ep_check_answered(b: Seq<u8>, us: Color, k: int, f: int, e: int, c: int)
    requires
        board_codes(b),
        0 <= k < 64,
        holds(b, k, us, PieceType::King),
        0 <= f < 64,
        0 <= e < 64,
        0 <= cap_sq(us, e) < 64,
        f != e,
        f != cap_sq(us, e),
        e != cap_sq(us, e),
        b[f] == piece_code(us, PieceType::Pawn),
        b[cap_sq(us, e)] == piece_code(opposite(us), PieceType::Pawn),
        b[e] == NO_PIECE,
        checks(b, c, k, us),
        !attacked_by(
            crate::movegen::ep_board(b, f, cap_sq(us, e), e, us),
            k,
            opposite(us),
            occ_of(crate::movegen::ep_board(b, f, cap_sq(us, e), e, us)),
        ),
    ensures
        c == cap_sq(us, e) || between_sq(k, c, e),
{
    let cp = cap_sq(us, e);
    crate::position::lemma_code_parts(us, PieceType::Pawn);
    crate::position::lemma_code_parts(opposite(us), PieceType::Pawn);
    crate::position::lemma_code_parts(us, PieceType::King);
    if c != cp {
        let b1 = step_board(b, cp, cp, NO_PIECE);
        assert(b1 =~= b.update(cp, NO_PIECE));
        lemma_occ_upto(b, 64);
        lemma_occ_upto(b1, 64);
        // The checking piece still checks once the pawn is gone.
        assert(checks(b1, c, k, us)) by {
            assert(b1[c] == b[c]);
            lemma_code_split(b[c] as int);
            let ty = code_type(b[c] as int);
            if ty != PieceType::Pawn && ty != PieceType::Knight && ty != PieceType::King {
                assert(!between_sq(c, k, cp)) by {
                    if between_sq(c, k, cp) {
                        lemma_between_sym(c, k, cp);
                        lemma_between_blocks(b, c, k, cp);
                    }
                }
                lemma_still_attacks(b, b1, c, k, cp, cp);
            }
        }
        let eb = crate::movegen::ep_board(b, f, cp, e, us);
        assert(eb =~= step_board(b1, f, e, piece_code(us, PieceType::Pawn) as u8));
        assert(board_codes(b1));
        lemma_check_answered(b1, us, k, f, e, piece_code(us, PieceType::Pawn) as u8, c);
    }
}

} // verus!
