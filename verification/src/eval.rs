//! Handcrafted, tapered evaluation.
//!
//! The base is the PeSTO piece-square tables (midgame / endgame), interpolated
//! by a material phase. On top come the classic positional terms: bishop pair,
//! rook files, rook on the seventh, safe-square mobility, king safety (attack
//! units and pawn shelter), pawn structure (doubled / isolated / backward),
//! passed pawns (blockers, king proximity, connection), knight outposts,
//! threats, space and tempo. Scores are integer centipawns from the side to
//! move's point of view.
//!
//! Tables are indexed in reading order (index 0 = a8): a white piece on square
//! `s` (a1 = 0) reads `TABLE[s ^ 56]`, a black piece reads `TABLE[s]`.
use vstd::prelude::*;
use crate::attacks::{bishop_attacks, king_attacks, knight_attacks, queen_attacks, rook_attacks};
use crate::bitboard::{Bitboard, group_bits, lemma_popcount_zero_iff, mem, popcount};
use crate::position::{PosView, Position, has_king, holds, occ_of, view_ok};
use crate::text::{all_ascii, ascii_string, chars_of, dec, int_bytes, int_text, lemma_ascii_concat, lemma_dec_ascii, push_all};
use crate::types::{
    Color, PieceType, Square, code_color, code_type, color_idx, file_of, opposite, piece_code, pt_idx, pt_of,
    rank_of,
};
use vstd::set_lib::{lemma_int_range, lemma_len_subset, set_int_range};

verus! {

broadcast use group_bits;

/// Tapered score: separate midgame and endgame components.
#[derive(Clone, Copy, PartialEq, Eq, Structural, Debug)]
pub struct Score {
    pub mg: i32,
    pub eg: i32,
}

impl Default for Score {
    fn default() -> (r: Score)
        ensures
            r.mg == 0 && r.eg == 0,
    {
        Score { mg: 0, eg: 0 }
    }
}

impl Score {
    fn add(&mut self, mg: i32, eg: i32)
        requires
            i32::MIN <= old(self).mg + mg <= i32::MAX,
            i32::MIN <= old(self).eg + eg <= i32::MAX,
        ensures
            final(self).mg == old(self).mg + mg,
            final(self).eg == old(self).eg + eg,
    {
        self.mg = self.mg + mg;
        self.eg = self.eg + eg;
    }
}

/// All scalar evaluation weights, grouped for a tuner.
pub struct EvalParams {
    pub bishop_pair: (i32, i32),
    pub rook_open_file: (i32, i32),
    pub rook_semi_open_file: (i32, i32),
    /// Rook on the seventh rank with the enemy king on the eighth or enemy pawns on the seventh.
    pub rook_on_seventh: (i32, i32),
    pub tempo: i32,
    /// Passed pawn bonus by relative rank (owner's perspective, rank 0..7).
    pub passed_pawn: [(i32, i32); 8],
    /// Percent of the rank bonus kept when the stop square is blocked.
    pub passed_blocked_pct: i32,
    /// Passed pawn defended by an own pawn or with a phalanx neighbor.
    pub passed_connected: (i32, i32),
    /// Endgame king-distance weights (own-king penalty, enemy-king bonus) per
    /// Chebyshev distance to the stop square, scaled by relative rank.
    pub passed_king_dist: (i32, i32),
    /// Per-attacked-safe-square bonus, in quarter-centipawns (N, B, R, Q).
    pub mobility: [(i32, i32); 4],
    pub doubled_pawn: (i32, i32),
    pub isolated_pawn: (i32, i32),
    pub backward_pawn: (i32, i32),
    /// Knight on a pawn-defended square that no enemy pawn can ever attack.
    pub knight_outpost: (i32, i32),
    /// King-zone attack units per attacking piece type (N, B, R, Q).
    pub king_attack_weight: [i32; 4],
    /// Midgame king danger = min(units^2 / div, max), needs at least two attackers.
    pub king_danger_div: i32,
    pub king_danger_max: i32,
    /// Shelter: per shield file with no own pawn ahead of the king (mg).
    pub shelter_missing: i32,
    /// Shelter: per rank the nearest shield pawn is beyond the king + 1 (mg).
    pub shelter_far: i32,
    /// Extra mg penalty when the king's own file is fully open / semi-open.
    pub king_file_open: i32,
    pub king_file_semi_open: i32,
    /// Pawn attacks an enemy piece, indexed by victim type (pawn unused).
    pub pawn_threat: [(i32, i32); 5],
    /// Minor attacks an enemy piece not defended by a pawn, by victim type.
    pub minor_threat: [(i32, i32); 5],
    /// Per safe central square on our side of the board (mg only).
    pub space: i32,
}

/// The weights in use.
pub open spec fn weights() -> EvalParams {
    EvalParams {
        bishop_pair: (22, 38),
        rook_open_file: (28, 12),
        rook_semi_open_file: (12, 8),
        rook_on_seventh: (20, 32),
        tempo: 14,
        passed_pawn: [(0, 0), (2, 8), (6, 14), (14, 30), (28, 56), (52, 98), (88, 150), (0, 0)],
        passed_blocked_pct: 60,
        passed_connected: (10, 18),
        passed_king_dist: (2, 4),
        mobility: [(8, 4), (8, 6), (4, 8), (2, 10)],
        doubled_pawn: (10, 30),
        isolated_pawn: (10, 18),
        backward_pawn: (9, 22),
        knight_outpost: (24, 14),
        king_attack_weight: [2, 2, 3, 5],
        king_danger_div: 12,
        king_danger_max: 500,
        shelter_missing: 21,
        shelter_far: 7,
        king_file_open: 18,
        king_file_semi_open: 9,
        pawn_threat: [(0, 0), (40, 30), (40, 32), (55, 40), (60, 40)],
        minor_threat: [(0, 0), (12, 18), (14, 18), (38, 24), (42, 28)],
        space: 3,
    }
}

/// The evaluation weights.
pub fn params() -> (r: EvalParams)
    ensures
        r == weights(),
{
    EvalParams {
        bishop_pair: (22, 38),
        rook_open_file: (28, 12),
        rook_semi_open_file: (12, 8),
        rook_on_seventh: (20, 32),
        tempo: 14,
        passed_pawn: [(0, 0), (2, 8), (6, 14), (14, 30), (28, 56), (52, 98), (88, 150), (0, 0)],
        passed_blocked_pct: 60,
        passed_connected: (10, 18),
        passed_king_dist: (2, 4),
        mobility: [(8, 4), (8, 6), (4, 8), (2, 10)],
        doubled_pawn: (10, 30),
        isolated_pawn: (10, 18),
        backward_pawn: (9, 22),
        knight_outpost: (24, 14),
        king_attack_weight: [2, 2, 3, 5],
        king_danger_div: 12,
        king_danger_max: 500,
        shelter_missing: 21,
        shelter_far: 7,
        king_file_open: 18,
        king_file_semi_open: 9,
        pawn_threat: [(0, 0), (40, 30), (40, 32), (55, 40), (60, 40)],
        minor_threat: [(0, 0), (12, 18), (14, 18), (38, 24), (42, 28)],
        space: 3,
    }
}

pub const MG_VALUE: [i32; 6] = [82, 337, 365, 477, 1025, 0];
pub const EG_VALUE: [i32; 6] = [94, 281, 297, 512, 936, 0];

/// Phase weights per piece type; the total over a full board is 24.
pub const PHASE_WEIGHT: [i32; 6] = [0, 1, 1, 2, 4, 0];
pub const TOTAL_PHASE: i32 = 24;

pub const MG_PST: [[i32; 64]; 6] = [
    [
        0, 0, 0, 0, 0, 0, 0, 0,
        98, 134, 61, 95, 68, 126, 34, -11,
        -6, 7, 26, 31, 65, 56, 25, -20,
        -14, 13, 6, 21, 23, 12, 17, -23,
        -27, -2, -5, 12, 17, 6, 10, -25,
        -26, -4, -4, -10, 3, 3, 33, -12,
        -35, -1, -20, -23, -15, 24, 38, -22,
        0, 0, 0, 0, 0, 0, 0, 0,
    ],
    [
        -167, -89, -34, -49, 61, -97, -15, -107,
        -73, -41, 72, 36, 23, 62, 7, -17,
        -47, 60, 37, 65, 84, 129, 73, 44,
        -9, 17, 19, 53, 37, 69, 18, 22,
        -13, 4, 16, 13, 28, 19, 21, -8,
        -23, -9, 12, 10, 19, 17, 25, -16,
        -29, -53, -12, -3, -1, 18, -14, -19,
        -105, -21, -58, -33, -17, -28, -19, -23,
    ],
    [
        -29, 4, -82, -37, -25, -42, 7, -8,
        -26, 16, -18, -13, 30, 59, 18, -47,
        -16, 37, 43, 40, 35, 50, 37, -2,
        -4, 5, 19, 50, 37, 37, 7, -2,
        -6, 13, 13, 26, 34, 12, 10, 4,
        0, 15, 15, 15, 14, 27, 18, 10,
        4, 15, 16, 0, 7, 21, 33, 1,
        -33, -3, -14, -21, -13, -12, -39, -21,
    ],
    [
        32, 42, 32, 51, 63, 9, 31, 43,
        27, 32, 58, 62, 80, 67, 26, 44,
        -5, 19, 26, 36, 17, 45, 61, 16,
        -24, -11, 7, 26, 24, 35, -8, -20,
        -36, -26, -12, -1, 9, -7, 6, -23,
        -45, -25, -16, -17, 3, 0, -5, -33,
        -44, -16, -20, -9, -1, 11, -6, -71,
        -19, -13, 1, 17, 16, 7, -37, -26,
    ],
    [
        -28, 0, 29, 12, 59, 44, 43, 45,
        -24, -39, -5, 1, -16, 57, 28, 54,
        -13, -17, 7, 8, 29, 56, 47, 57,
        -27, -27, -16, -16, -1, 17, -2, 1,
        -9, -26, -9, -10, -2, -4, 3, -3,
        -14, 2, -11, -2, -5, 2, 14, 5,
        -35, -8, 11, 2, 8, 15, -3, 1,
        -1, -18, -9, 10, -15, -25, -31, -50,
    ],
    [
        -65, 23, 16, -15, -56, -34, 2, 13,
        29, -1, -20, -7, -8, -4, -38, -29,
        -9, 24, 2, -16, -20, 6, 22, -22,
        -17, -20, -12, -27, -30, -25, -14, -36,
        -49, -1, -27, -39, -46, -44, -33, -51,
        -14, -14, -22, -46, -44, -30, -15, -27,
        1, 7, -8, -64, -43, -16, 9, 8,
        -15, 36, 12, -54, 8, -28, 24, 14,
    ],
];

pub const EG_PST: [[i32; 64]; 6] = [
    [
        0, 0, 0, 0, 0, 0, 0, 0,
        178, 173, 158, 134, 147, 132, 165, 187,
        94, 100, 85, 67, 56, 53, 82, 84,
        32, 24, 13, 5, -2, 4, 17, 17,
        13, 9, -3, -7, -7, -8, 3, -1,
        4, 7, -6, 1, 0, -5, -1, -8,
        13, 8, 8, 10, 13, 0, 2, -7,
        0, 0, 0, 0, 0, 0, 0, 0,
    ],
    [
        -58, -38, -13, -28, -31, -27, -63, -99,
        -25, -8, -25, -2, -9, -25, -24, -52,
        -24, -20, 10, 9, -1, -9, -19, -41,
        -17, 3, 22, 22, 22, 11, 8, -18,
        -18, -6, 16, 25, 16, 17, 4, -18,
        -23, -3, -1, 15, 10, -3, -20, -22,
        -42, -20, -10, -5, -2, -20, -23, -44,
        -29, -51, -23, -15, -22, -18, -50, -64,
    ],
    [
        -14, -21, -11, -8, -7, -9, -17, -24,
        -8, -4, 7, -12, -3, -13, -4, -14,
        2, -8, 0, -1, -2, 6, 0, 4,
        -3, 9, 12, 9, 14, 10, 3, 2,
        -6, 3, 13, 19, 7, 10, -3, -9,
        -12, -3, 8, 10, 13, 3, -7, -15,
        -14, -18, -7, -1, 4, -9, -15, -27,
        -23, -9, -23, -5, -9, -16, -5, -17,
    ],
    [
        13, 10, 18, 15, 12, 12, 8, 5,
        11, 13, 13, 11, -3, 3, 8, 3,
        7, 7, 7, 5, 4, -3, -5, -3,
        4, 3, 13, 1, 2, 1, -1, 2,
        3, 5, 8, 4, -5, -6, -8, -11,
        -4, 0, -5, -1, -7, -12, -8, -16,
        -6, -6, 0, 2, -9, -9, -11, -3,
        -9, 2, 3, -1, -5, -13, 4, -20,
    ],
    [
        -9, 22, 22, 27, 27, 19, 10, 20,
        -17, 20, 32, 41, 58, 25, 30, 0,
        -20, 6, 9, 49, 47, 35, 19, 9,
        3, 22, 24, 45, 57, 40, 57, 36,
        -18, 28, 19, 47, 31, 34, 39, 23,
        -16, -27, 15, 6, 9, 17, 10, 5,
        -22, -23, -30, -16, -16, -23, -36, -32,
        -33, -28, -22, -43, -5, -32, -20, -41,
    ],
    [
        -74, -35, -18, -18, -11, 15, 4, -17,
        -12, 17, 14, 17, 17, 38, 23, 11,
        10, 17, 23, 15, 20, 45, 44, 13,
        -8, 22, 24, 27, 26, 33, 26, 3,
        -18, -4, 21, 24, 27, 23, 9, -11,
        -19, -3, 11, 21, 23, 16, 7, -9,
        -27, -11, 4, 13, 14, 4, -5, -17,
        -53, -34, -21, -11, -28, -14, -24, -43,
    ],
];

pub const FILE_MASKS: [u64; 8] = [
    0x0101_0101_0101_0101,
    0x0202_0202_0202_0202,
    0x0404_0404_0404_0404,
    0x0808_0808_0808_0808,
    0x1010_1010_1010_1010,
    0x2020_2020_2020_2020,
    0x4040_4040_4040_4040,
    0x8080_8080_8080_8080,
];

/// Adjacent-file masks (excluding the file itself).
pub const ADJ_FILES: [u64; 8] = [
    0x0202_0202_0202_0202,
    0x0505_0505_0505_0505,
    0x0A0A_0A0A_0A0A_0A0A,
    0x1414_1414_1414_1414,
    0x2828_2828_2828_2828,
    0x5050_5050_5050_5050,
    0xA0A0_A0A0_A0A0_A0A0,
    0x4040_4040_4040_4040,
];

/// Files c to f.
pub const CENTER_FILES: u64 = 0x3C3C_3C3C_3C3C_3C3C;

/// Relative ranks 2-4 for each color (the "own half" space area).
pub const SPACE_RANKS: [u64; 2] = [0x0000_0000_FFFF_FF00, 0x00FF_FFFF_0000_0000];

// -- term bookkeeping ----------------------------------------------------------

pub const NTERMS: usize = 11;
pub const T_MATERIAL: usize = 0;
pub const T_BISHOP_PAIR: usize = 1;
pub const T_ROOK_FILES: usize = 2;
pub const T_ROOK_7TH: usize = 3;
pub const T_MOBILITY: usize = 4;
pub const T_KING_SAFETY: usize = 5;
pub const T_PAWN_STRUCT: usize = 6;
pub const T_PASSED: usize = 7;
pub const T_OUTPOST: usize = 8;
pub const T_THREATS: usize = 9;
pub const T_SPACE: usize = 10;

/// Per-term, per-color tapered scores plus the material phase.
pub struct Terms {
    pub v: [[Score; 2]; 11],
    pub phase: i32,
}

/// Rust's division of integers, rounding toward zero.
pub open spec fn tdiv(a: int, d: int) -> int {
    if a >= 0 {
        a / d
    } else {
        -((-a) / d)
    }
}

/// Sum over the first `n` terms of White's minus Black's midgame score.
pub open spec fn net_mg(v: [[Score; 2]; 11], n: int) -> int
    decreases n,
{
    if n <= 0 {
        0
    } else {
        net_mg(v, n - 1) + (v[n - 1][0].mg - v[n - 1][1].mg)
    }
}

/// Sum over the first `n` terms of White's minus Black's endgame score.
pub open spec fn net_eg(v: [[Score; 2]; 11], n: int) -> int
    decreases n,
{
    if n <= 0 {
        0
    } else {
        net_eg(v, n - 1) + (v[n - 1][0].eg - v[n - 1][1].eg)
    }
}

pub open spec fn fits_i32(x: int) -> bool {
    i32::MIN <= x <= i32::MAX
}

/// The tapered total from White's point of view, before tempo.
pub open spec fn tapered(t: Terms) -> int {
    let mg_phase = if t.phase < 24 { t.phase as int } else { 24 };
    tdiv(net_mg(t.v, 11) * mg_phase + net_eg(t.v, 11) * (24 - mg_phase), 24)
}

/// Final centipawn score from `stm`'s point of view.
pub open spec fn terms_score(t: Terms, stm: Color) -> int {
    let s = tapered(t) + if stm == Color::White { 14int } else { -14int };
    if stm == Color::White { s } else { -s }
}

/// Every step of the score arithmetic stays within `i32`.
pub open spec fn score_fits(t: Terms) -> bool {
    let mg_phase = if t.phase < 24 { t.phase as int } else { 24 };
    &&& forall|i: int| #![trigger t.v[i]] 0 <= i < 11 ==> fits_i32(t.v[i][0].mg - t.v[i][1].mg)
        && fits_i32(t.v[i][0].eg - t.v[i][1].eg)
    &&& forall|n: int| 0 <= n <= 11 ==> fits_i32(#[trigger] net_mg(t.v, n)) && fits_i32(net_eg(t.v, n))
    &&& fits_i32(24 - mg_phase)
    &&& fits_i32(net_mg(t.v, 11) * mg_phase)
    &&& fits_i32(net_eg(t.v, 11) * (24 - mg_phase))
    &&& fits_i32(net_mg(t.v, 11) * mg_phase + net_eg(t.v, 11) * (24 - mg_phase))
    &&& fits_i32(tapered(t) + 14)
    &&& fits_i32(tapered(t) - 14)
    &&& tapered(t) - 14 > i32::MIN
}

impl Default for Terms {
    fn default() -> (r: Terms)
        ensures
            r.phase == 0,
            forall|i: int, c: int| 0 <= i < 11 && 0 <= c < 2 ==> #[trigger] r.v[i][c] == (Score { mg: 0, eg: 0 }),
    {
        let z = Score { mg: 0, eg: 0 };
        Terms { v: [[z, z]; 11], phase: 0 }
    }
}

impl Terms {
    /// Final centipawn score from `stm`'s point of view (taper and tempo).
    pub fn score(&self, stm: Color) -> (r: i32)
        requires
            score_fits(*self),
        ensures
            r == terms_score(*self, stm),
    {
        let p = params();
        let mut total = Score { mg: 0, eg: 0 };
        let mut i: usize = 0;
        while i < NTERMS
            invariant
                0 <= i <= 11,
                score_fits(*self),
                total.mg == net_mg(self.v, i as int),
                total.eg == net_eg(self.v, i as int),
            decreases 11 - i,
        {
            let t = self.v[i];
            proof {
                assert(fits_i32(net_mg(self.v, i + 1)));
                assert(fits_i32(net_eg(self.v, i + 1)));
            }
            total.add(t[0].mg - t[1].mg, t[0].eg - t[1].eg);
            i = i + 1;
        }
        let mg_phase = if self.phase < TOTAL_PHASE { self.phase } else { TOTAL_PHASE };
        let eg_phase = TOTAL_PHASE - mg_phase;
        let mut score = (total.mg * mg_phase + total.eg * eg_phase) / TOTAL_PHASE;
        score = score + if stm == Color::White {
            p.tempo
        } else {
            -p.tempo
        };
        if stm == Color::White {
            score
        } else {
            -score
        }
    }
}

// -- helpers -------------------------------------------------------------------------

/// Table index of square `s` for a piece of color `c`.
pub open spec fn pst_sq(c: Color, s: int) -> int {
    if c == Color::White {
        (7 - s / 8) * 8 + s % 8
    } else {
        s
    }
}

fn pst_index(color: Color, sq: usize) -> (r: usize)
    requires
        sq < 64,
    ensures
        r == pst_sq(color, sq as int),
        r < 64,
{
    if color == Color::White {
        proof {
            crate::types::lemma_flip_bits(sq);
        }
        sq ^ 56
    } else {
        sq
    }
}

fn file_bb(file: u8) -> (r: Bitboard)
    requires
        file < 8,
    ensures
        r.0 == FILE_MASKS[file as int],
{
    Bitboard(FILE_MASKS[file as usize])
}

/// Square `x` lies on a rank strictly ahead of square `s` for `c`.
pub open spec fn ahead_of(c: Color, s: int, x: int) -> bool {
    &&& 0 <= x < 64
    &&& if c == Color::White {
        rank_of(x) > rank_of(s)
    } else {
        rank_of(x) < rank_of(s)
    }
}

/// Number of squares `x` in `0..n` with `f(x)`.
pub open spec fn count_sq(f: spec_fn(int) -> bool, n: int) -> int
    decreases n,
{
    if n <= 0 {
        0
    } else {
        count_sq(f, n - 1) + if f(n - 1) {
            1int
        } else {
            0int
        }
    }
}

/// A bitboard has as many members as squares satisfy what it stands for.
proof fn lemma_popcount_sq(w: u64, f: spec_fn(int) -> bool, n: int)
    requires
        0 <= n <= 64,
        forall|x: int| 0 <= x < n ==> #[trigger] mem(w, x) == f(x),
    ensures
        crate::bitboard::pop_upto(w, n) == count_sq(f, n),
        0 <= count_sq(f, n) <= n,
    decreases n,
{
    if n > 0 {
        lemma_popcount_sq(w, f, n - 1);
        assert(mem(w, n - 1) == f(n - 1));
    }
}

/// What the constant masks hold.
proof fn lemma_masks(x: int)
    requires
        0 <= x < 64,
    ensures
        forall|f: int| 0 <= f < 8 ==> #[trigger] mem(FILE_MASKS[f], x) == (file_of(x) == f),
        forall|f: int| 0 <= f < 8 ==> #[trigger] mem(ADJ_FILES[f], x) == (file_of(x) == f - 1 || file_of(x) == f + 1),
        mem(CENTER_FILES, x) == (2 <= file_of(x) <= 5),
        mem(SPACE_RANKS[0], x) == (1 <= rank_of(x) <= 3),
        mem(SPACE_RANKS[1], x) == (4 <= rank_of(x) <= 6),
        mem(0x00FF_0000_0000_0000u64, x) == (rank_of(x) == 6),
        mem(0x0000_0000_0000_FF00u64, x) == (rank_of(x) == 1),
{
    let u = x as u64;
    assert(((0x0101_0101_0101_0101u64 >> u) & 1u64 == 1u64 <==> u % 8 == 0)
        && ((0x0202_0202_0202_0202u64 >> u) & 1u64 == 1u64 <==> u % 8 == 1)
        && ((0x0404_0404_0404_0404u64 >> u) & 1u64 == 1u64 <==> u % 8 == 2)
        && ((0x0808_0808_0808_0808u64 >> u) & 1u64 == 1u64 <==> u % 8 == 3)
        && ((0x1010_1010_1010_1010u64 >> u) & 1u64 == 1u64 <==> u % 8 == 4)
        && ((0x2020_2020_2020_2020u64 >> u) & 1u64 == 1u64 <==> u % 8 == 5)
        && ((0x4040_4040_4040_4040u64 >> u) & 1u64 == 1u64 <==> u % 8 == 6)
        && ((0x8080_8080_8080_8080u64 >> u) & 1u64 == 1u64 <==> u % 8 == 7)) by (bit_vector)
        requires
            u < 64,
    ;
    assert(((0x0505_0505_0505_0505u64 >> u) & 1u64 == 1u64 <==> (u % 8 == 0 || u % 8 == 2))
        && ((0x0A0A_0A0A_0A0A_0A0Au64 >> u) & 1u64 == 1u64 <==> (u % 8 == 1 || u % 8 == 3))
        && ((0x1414_1414_1414_1414u64 >> u) & 1u64 == 1u64 <==> (u % 8 == 2 || u % 8 == 4))
        && ((0x2828_2828_2828_2828u64 >> u) & 1u64 == 1u64 <==> (u % 8 == 3 || u % 8 == 5))
        && ((0x5050_5050_5050_5050u64 >> u) & 1u64 == 1u64 <==> (u % 8 == 4 || u % 8 == 6))
        && ((0xA0A0_A0A0_A0A0_A0A0u64 >> u) & 1u64 == 1u64 <==> (u % 8 == 5 || u % 8 == 7))
        && ((0x3C3C_3C3C_3C3C_3C3Cu64 >> u) & 1u64 == 1u64 <==> (2 <= u % 8 && u % 8 <= 5))
        && ((0x0000_0000_FFFF_FF00u64 >> u) & 1u64 == 1u64 <==> (8 <= u && u < 32))
        && ((0x00FF_FFFF_0000_0000u64 >> u) & 1u64 == 1u64 <==> (32 <= u && u < 56))
        && ((0x00FF_0000_0000_0000u64 >> u) & 1u64 == 1u64 <==> (48 <= u && u < 56))
        && ((0x0000_0000_0000_FF00u64 >> u) & 1u64 == 1u64 <==> (8 <= u && u < 16))) by (bit_vector)
        requires
            u < 64,
    ;
}

/// Squares on the ranks strictly ahead of `sq` for `color`, across the whole board.
fn ahead_bb(color: Color, sq: Square) -> (r: Bitboard)
    requires
        sq.0 < 64,
    ensures
        forall|x: int| #[trigger] mem(r.0, x) == ahead_of(color, sq.0 as int, x),
{
    let r = sq.rank() as u64;
    if color == Color::White {
        if r == 7 {
            Bitboard(0)
        } else {
            let sh: u64 = (r + 1) * 8;
            let w = 0xFFFF_FFFF_FFFF_FFFFu64 << sh;
            proof {
                assert forall|x: int| 0 <= x < 64 implies #[trigger] mem(w, x) == (x >= (r + 1) * 8) by {
                    let u = x as u64;
                    assert((((0xFFFF_FFFF_FFFF_FFFFu64 << sh) >> u) & 1u64 == 1u64) <==> u >= sh) by (bit_vector)
                        requires
                            u < 64,
                            sh < 64,
                    ;
                }
            }
            Bitboard(w)
        }
    } else {
        if r == 0 {
            Bitboard(0)
        } else {
            let sh: u64 = (8 - r) * 8;
            let w = 0xFFFF_FFFF_FFFF_FFFFu64 >> sh;
            proof {
                assert forall|x: int| 0 <= x < 64 implies #[trigger] mem(w, x) == (x < r * 8) by {
                    let u = x as u64;
                    assert((((0xFFFF_FFFF_FFFF_FFFFu64 >> sh) >> u) & 1u64 == 1u64) <==> u + sh < 64) by (bit_vector)
                        requires
                            u < 64,
                            sh < 64,
                    ;
                }
            }
            Bitboard(w)
        }
    }
}

/// A pawn of `c` on the board `b` attacks square `x`: one stands diagonally
/// behind it, as seen from `c`.
pub open spec fn pawn_att(b: Seq<u8>, c: Color, x: int) -> bool {
    &&& 0 <= x < 64
    &&& if c == Color::White {
        x >= 8 && ((file_of(x) != 0 && holds(b, x - 9, c, PieceType::Pawn)) || (file_of(x) != 7 && holds(
            b,
            x - 7,
            c,
            PieceType::Pawn,
        )))
    } else {
        x < 56 && ((file_of(x) != 0 && holds(b, x + 7, c, PieceType::Pawn)) || (file_of(x) != 7 && holds(
            b,
            x + 9,
            c,
            PieceType::Pawn,
        )))
    }
}

/// Attack set of a whole pawn bitboard.
fn pawn_attacks_bb(color: Color, pawns: Bitboard) -> (r: Bitboard)
    ensures
        color == Color::White ==> forall|x: int| #[trigger] mem(r.0, x) == (0 <= x < 64 && x >= 8 && ((file_of(x) != 0 && mem(pawns.0, x - 9)) || (file_of(x) != 7 && mem(pawns.0, x - 7)))),
        color == Color::Black ==> forall|x: int| #[trigger] mem(r.0, x) == (0 <= x < 64 && x < 56 && ((file_of(x) != 0 && mem(pawns.0, x + 7)) || (file_of(x) != 7 && mem(pawns.0, x + 9)))),
{
    match color {
        Color::White => Bitboard(pawns.shift_north().shift_east().0 | pawns.shift_north().shift_west().0),
        Color::Black => Bitboard(pawns.shift_south().shift_east().0 | pawns.shift_south().shift_west().0),
    }
}

fn forward_sq(color: Color, sq: Square) -> (r: Square)
    requires
        if color == Color::White { sq.0 < 56 } else { 8 <= sq.0 < 64 },
    ensures
        r.0 == if color == Color::White { sq.0 + 8 } else { sq.0 - 8 },
{
    Square(
        if color == Color::White {
            sq.0 + 8
        } else {
            sq.0 - 8
        },
    )
}

/// Rank of `sq` counted from `color`'s own side.
fn rel_rank(color: Color, sq: Square) -> (r: usize)
    requires
        sq.0 < 64,
    ensures
        r == if color == Color::White { (sq.0 / 8) as int } else { 7 - sq.0 / 8 },
        r < 8,
{
    if color == Color::White {
        sq.rank() as usize
    } else {
        7 - sq.rank() as usize
    }
}

/// King-step distance between two squares.
fn chebyshev(a: Square, b: Square) -> (r: i32)
    requires
        a.0 < 64,
        b.0 < 64,
    ensures
        r == crate::attacks::cheb(a.0 as int, b.0 as int),
        0 <= r <= 7,
{
    let af = a.file() as i32;
    let bf = b.file() as i32;
    let ar = a.rank() as i32;
    let br = b.rank() as i32;
    let df = if af >= bf { af - bf } else { bf - af };
    let dr = if ar >= br { ar - br } else { br - ar };
    if df > dr {
        df
    } else {
        dr
    }
}

// -- per-piece terms -----------------------------------------------------------------

/// What one knight, bishop, rook or queen adds to its side's terms.
struct PieceTerms {
    mobility: Score,
    zone_units: i32,
    zone_hit: bool,
    att: u64,
    outpost: Score,
    rook_files: Score,
    rook_7th: Score,
}

/// The activity of kind `kind` (as in `act_of`) that one piece brings.
spec fn pc_kind(pc: PieceTerms, kind: int) -> int {
    if kind == 0 {
        pc.mobility.mg as int
    } else if kind == 1 {
        pc.mobility.eg as int
    } else if kind == 2 {
        pc.outpost.mg as int
    } else if kind == 3 {
        pc.outpost.eg as int
    } else if kind == 4 {
        pc.rook_files.mg as int
    } else if kind == 5 {
        pc.rook_files.eg as int
    } else if kind == 6 {
        pc.rook_7th.mg as int
    } else if kind == 7 {
        pc.rook_7th.eg as int
    } else if kind == 8 {
        pc.zone_units as int
    } else {
        if pc.zone_hit { 1 } else { 0 }
    }
}

pub open spec fn within(s: Score, lo: int, hi: int) -> bool {
    lo <= s.mg <= hi && lo <= s.eg <= hi
}

/// Squares that a knight (1), bishop (2), rook (3) or queen (4) on `s` attacks
/// given the occupancy `occ`.
pub open spec fn piece_att(t: int, s: int, occ: u64, x: int) -> bool {
    if t == 1 {
        crate::attacks::knight_adj(s, x)
    } else if t == 2 {
        crate::attacks::bishop_hit(s, occ, x)
    } else if t == 3 {
        crate::attacks::rook_hit(s, occ, x)
    } else {
        crate::attacks::rook_hit(s, occ, x) || crate::attacks::bishop_hit(s, occ, x)
    }
}

/// A pawn of `c` stands on file `f`.
pub open spec fn pawn_on_file(b: Seq<u8>, c: Color, f: int) -> bool {
    exists|x: int| 0 <= x < 64 && file_of(x) == f && #[trigger] holds(b, x, c, PieceType::Pawn)
}

/// A square the pieces of `c` may count for mobility: not held by `c`, and not
/// attacked by an enemy pawn.
pub open spec fn mob_safe(b: Seq<u8>, c: Color, x: int) -> bool {
    &&& 0 <= x < 64
    &&& !(b[x] < 12 && code_color(b[x] as int) == c)
    &&& !pawn_att(b, opposite(c), x)
}

/// Rank of `s` counted from `c`'s own side.
pub open spec fn rel_rank_of(c: Color, s: int) -> int {
    if c == Color::White {
        rank_of(s)
    } else {
        7 - rank_of(s)
    }
}

/// Squares attacked by the piece of type index `t` on `s` that lie in `area`.
pub open spec fn att_count(t: int, s: int, occ: u64, area: spec_fn(int) -> bool) -> int {
    count_sq(|x: int| piece_att(t, s, occ, x) && area(x), 64)
}

/// A knight of `c` on `s` stands on an outpost: ranks four to six from its side,
/// defended by a pawn, and no enemy pawn on an adjacent file ahead of it.
pub open spec fn outpost_at(b: Seq<u8>, c: Color, s: int) -> bool {
    &&& 3 <= rel_rank_of(c, s) <= 5
    &&& pawn_att(b, c, s)
    &&& forall|x: int|
        0 <= x < 64 && (file_of(x) == file_of(s) - 1 || file_of(x) == file_of(s) + 1) && ahead_of(c, s, x)
            ==> !#[trigger] holds(b, x, opposite(c), PieceType::Pawn)
}

/// Safe squares attacked by the piece of type index `t` of `c` on `s`.
pub open spec fn mob_count(b: Seq<u8>, c: Color, t: int, s: int) -> int {
    count_sq(|x: int| piece_att(t, s, occ_of(b), x) && mob_safe(b, c, x), 64)
}

/// Rook-file bonus of a rook of `c` on `s`: open file, half-open file, or none.
pub open spec fn rook_file_bonus(b: Seq<u8>, c: Color, s: int) -> Score {
    if !pawn_on_file(b, c, file_of(s)) {
        if pawn_on_file(b, opposite(c), file_of(s)) {
            Score { mg: 12, eg: 8 }
        } else {
            Score { mg: 28, eg: 12 }
        }
    } else {
        Score { mg: 0, eg: 0 }
    }
}

/// A rook of `c` on `s` stands on the seventh rank from its side, with the enemy
/// king (on `ek`) on the eighth or an enemy pawn on the seventh.
pub open spec fn rook_on_seventh(b: Seq<u8>, c: Color, s: int, ek: int) -> bool {
    &&& rel_rank_of(c, s) == 6
    &&& rel_rank_of(c, ek) == 7 || exists|x: int|
        0 <= x < 64 && rel_rank_of(c, x) == 6 && #[trigger] holds(b, x, opposite(c), PieceType::Pawn)
}

/// A square near the king on `k`: its own or one next to it.
pub open spec fn near_king(k: int, y: int) -> bool {
    0 <= y < 64 && (crate::attacks::king_adj(k, y) || y == k)
}

/// The zone of the king of `c` on `k`: the squares near it, and those one rank
/// further toward the enemy.
pub open spec fn zone_of(c: Color, k: int, x: int) -> bool {
    &&& 0 <= x < 64
    &&& near_king(k, x) || if c == Color::White {
        x >= 8 && near_king(k, x - 8)
    } else {
        x < 56 && near_king(k, x + 8)
    }
}

/// Squares of the enemy king's zone (the king on `ek`) that the piece of type index
/// `t` of `c` on `s` attacks.
pub open spec fn zone_count(b: Seq<u8>, c: Color, t: int, s: int, ek: int) -> int {
    count_sq(|x: int| piece_att(t, s, occ_of(b), x) && zone_of(opposite(c), ek, x), 64)
}

/// Activity of a piece of `c` with type index `t` (knight to queen) on `s`, by
/// kind: mobility (0 midgame, 1 endgame), knight outpost (2, 3), rook file (4, 5),
/// rook on the seventh (6, 7), attack units against the enemy king's zone (8), and
/// whether it attacks that zone at all (9); the enemy king stands on `ek`.
pub open spec fn act_of(b: Seq<u8>, c: Color, ek: int, kind: int, t: int, s: int) -> int {
    if kind == 0 {
        weights().mobility[t - 1].0 * mob_count(b, c, t, s) / 4
    } else if kind == 1 {
        weights().mobility[t - 1].1 * mob_count(b, c, t, s) / 4
    } else if kind == 2 {
        if t == 1 && outpost_at(b, c, s) { 24 } else { 0 }
    } else if kind == 3 {
        if t == 1 && outpost_at(b, c, s) { 14 } else { 0 }
    } else if kind == 4 {
        if t == 3 { rook_file_bonus(b, c, s).mg as int } else { 0 }
    } else if kind == 5 {
        if t == 3 { rook_file_bonus(b, c, s).eg as int } else { 0 }
    } else if kind == 6 {
        if t == 3 && rook_on_seventh(b, c, s, ek) { 20 } else { 0 }
    } else if kind == 7 {
        if t == 3 && rook_on_seventh(b, c, s, ek) { 32 } else { 0 }
    } else if kind == 8 {
        weights().king_attack_weight[t - 1] * zone_count(b, c, t, s, ek)
    } else {
        if zone_count(b, c, t, s, ek) > 0 { 1 } else { 0 }
    }
}

/// Activity of kind `kind` of each piece of `c` with type index `t`.
pub open spec fn activity(b: Seq<u8>, c: Color, ek: int, kind: int, t: int) -> spec_fn(int) -> int {
    |s: int|
        if 0 <= s < 64 && 1 <= t <= 4 && holds(b, s, c, pt_of(t)) {
            act_of(b, c, ek, kind, t, s)
        } else {
            0
        }
}

/// Activity of kind `kind` of all the pieces of `c`.
pub open spec fn activity_total(b: Seq<u8>, c: Color, ek: int, kind: int) -> int {
    sum_to(|t: int| sum_to(activity(b, c, ek, kind, t), 64), 6)
}

fn piece_terms(
    color: Color,
    pti: usize,
    sq: Square,
    occ: u64,
    mob_area: u64,
    enemy_zone: u64,
    pawn_att_us: u64,
    us_pawns: u64,
    them_pawns: u64,
    enemy_king: Square,
    Ghost(b): Ghost<Seq<u8>>,
) -> (r: PieceTerms)
    requires
        1 <= pti <= 4,
        sq.0 < 64,
        enemy_king.0 < 64,
        b.len() == 64,
        forall|x: int| #[trigger] mem(pawn_att_us, x) == pawn_att(b, color, x),
        forall|x: int| #[trigger] mem(us_pawns, x) == (0 <= x < 64 && holds(b, x, color, PieceType::Pawn)),
        forall|x: int| #[trigger] mem(them_pawns, x) == (0 <= x < 64 && holds(b, x, opposite(color), PieceType::Pawn)),
        forall|x: int| #[trigger] mem(mob_area, x) == mob_safe(b, color, x),
        forall|x: int| #[trigger] mem(enemy_zone, x) == zone_of(opposite(color), enemy_king.0 as int, x),
        occ == occ_of(b),
    ensures
        forall|kind: int| 0 <= kind < 10 ==> #[trigger] pc_kind(r, kind) == act_of(b, color, enemy_king.0 as int, kind, pti as int, sq.0 as int),
        within(r.mobility, 0, 160),
        0 <= r.zone_units <= 320,
        r.zone_hit == (r.zone_units > 0),
        within(r.outpost, 0, 24),
        within(r.rook_files, 0, 28),
        within(r.rook_7th, 0, 32),
        forall|x: int| #[trigger] mem(r.att, x) == piece_att(pti as int, sq.0 as int, occ, x),
        r.mobility.mg == weights().mobility[pti - 1].0 * att_count(pti as int, sq.0 as int, occ, |x: int| mem(mob_area, x)) / 4,
        r.mobility.eg == weights().mobility[pti - 1].1 * att_count(pti as int, sq.0 as int, occ, |x: int| mem(mob_area, x)) / 4,
        r.zone_units == weights().king_attack_weight[pti - 1] * att_count(pti as int, sq.0 as int, occ, |x: int| mem(enemy_zone, x)),
        r.outpost == (if pti == 1 && outpost_at(b, color, sq.0 as int) {
            Score { mg: 24, eg: 14 }
        } else {
            Score { mg: 0, eg: 0 }
        }),
        r.rook_files == (if pti == 3 && !pawn_on_file(b, color, file_of(sq.0 as int)) {
            if pawn_on_file(b, opposite(color), file_of(sq.0 as int)) {
                Score { mg: 12, eg: 8 }
            } else {
                Score { mg: 28, eg: 12 }
            }
        } else {
            Score { mg: 0, eg: 0 }
        }),
        r.rook_7th == (if pti == 3 && rel_rank_of(color, sq.0 as int) == 6 && (rel_rank_of(color, enemy_king.0 as int) == 7
            || exists|x: int| 0 <= x < 64 && rel_rank_of(color, x) == 6 && #[trigger] holds(b, x, opposite(color), PieceType::Pawn)) {
            Score { mg: 20, eg: 32 }
        } else {
            Score { mg: 0, eg: 0 }
        }),
{
    let p = params();
    let att = if pti == 1 {
        knight_attacks(sq.0)
    } else if pti == 2 {
        bishop_attacks(sq.0, occ)
    } else if pti == 3 {
        rook_attacks(sq.0, occ)
    } else {
        queen_attacks(sq.0, occ)
    };
    // Mobility (quarter-centipawn weights over safe squares).
    let mob = Bitboard(att & mob_area).count() as i32;
    proof {
        assert forall|x: int| #[trigger] mem(att, x) == piece_att(pti as int, sq.0 as int, occ, x) by {}
        lemma_popcount_sq(att & mob_area, |x: int| piece_att(pti as int, sq.0 as int, occ, x) && mem(mob_area, x), 64);
        lemma_popcount_sq(att & enemy_zone, |x: int| piece_att(pti as int, sq.0 as int, occ, x) && mem(enemy_zone, x), 64);
        assert((|x: int| piece_att(pti as int, sq.0 as int, occ, x) && mem(mob_area, x)) =~= (|x: int| piece_att(pti as int, sq.0 as int, occ, x) && (|y: int| mem(mob_area, y))(x)));
        assert((|x: int| piece_att(pti as int, sq.0 as int, occ, x) && mem(mob_area, x)) =~= (|x: int| piece_att(pti as int, sq.0 as int, occ_of(b), x) && mob_safe(b, color, x)));
        assert((|x: int| piece_att(pti as int, sq.0 as int, occ, x) && mem(enemy_zone, x)) =~= (|x: int| piece_att(pti as int, sq.0 as int, occ_of(b), x) && zone_of(opposite(color), enemy_king.0 as int, x)));
        assert((|x: int| piece_att(pti as int, sq.0 as int, occ, x) && mem(enemy_zone, x)) =~= (|x: int| piece_att(pti as int, sq.0 as int, occ, x) && (|y: int| mem(enemy_zone, y))(x)));
    }
    let (wm, we) = p.mobility[pti - 1];
    let kw = p.king_attack_weight[pti - 1];
    proof {
        assert(1 <= wm <= 10 && 1 <= we <= 10 && 1 <= kw <= 5) by {
            if pti == 1 {
            } else if pti == 2 {
            } else if pti == 3 {
            } else {
            }
        }
        assert(0 <= wm * mob <= 640 && 0 <= we * mob <= 640) by (nonlinear_arith)
            requires
                1 <= wm <= 10,
                1 <= we <= 10,
                0 <= mob <= 64;
    }
    let mobility = Score { mg: wm * mob / 4, eg: we * mob / 4 };
    // King-zone attack units against the enemy king.
    let zone_hits = Bitboard(att & enemy_zone).count() as i32;
    proof {
        assert(0 <= kw * zone_hits <= 320) by (nonlinear_arith)
            requires
                1 <= kw <= 5,
                0 <= zone_hits <= 64;
    }
    let zone_units = if zone_hits > 0 {
        kw * zone_hits
    } else {
        0
    };
    let mut outpost = Score { mg: 0, eg: 0 };
    let mut rook_files = Score { mg: 0, eg: 0 };
    let mut rook_7th = Score { mg: 0, eg: 0 };
    if pti == 1 {
        // Outpost: pawn-defended, on ranks 4-6, and no enemy pawn on an adjacent
        // file can ever attack the square.
        let rr = rel_rank(color, sq);
        let ahead = ahead_bb(color, sq).0;
        let blockers = ADJ_FILES[sq.file() as usize] & ahead & them_pawns;
        proof {
            let f = file_of(sq.0 as int);
            assert forall|x: int| 0 <= x < 64 implies #[trigger] mem(blockers, x) == ((file_of(x) == f - 1
                || file_of(x) == f + 1) && ahead_of(color, sq.0 as int, x) && mem(them_pawns, x)) by {
                lemma_masks(x);
            }
            crate::bitboard::lemma_nonzero_iff(blockers);
        }
        if 3 <= rr && rr <= 5 && Bitboard(pawn_att_us).contains(sq.0) && blockers == 0 {
            outpost = Score { mg: p.knight_outpost.0, eg: p.knight_outpost.1 };
        }
        proof {
            let f = file_of(sq.0 as int);
            let oc = outpost_at(b, color, sq.0 as int);
            assert(rr == rel_rank_of(color, sq.0 as int));
            if blockers != 0 {
                let x = choose|x: int| 0 <= x < 64 && #[trigger] mem(blockers, x);
                assert(mem(them_pawns, x));
                assert(!oc);
            }
            if blockers == 0 && 3 <= rr <= 5 && mem(pawn_att_us, sq.0 as int) {
                assert forall|x: int|
                    0 <= x < 64 && (file_of(x) == f - 1 || file_of(x) == f + 1) && ahead_of(color, sq.0 as int, x)
                        implies !#[trigger] holds(b, x, opposite(color), PieceType::Pawn) by {
                    crate::bitboard::lemma_has_zero(x);
                    assert(!mem(blockers, x));
                }
                assert(oc);
            }
            assert(outpost == (if oc {
                Score { mg: 24, eg: 14 }
            } else {
                Score { mg: 0, eg: 0 }
            }));
        }
    } else if pti == 3 {
        let fbb = file_bb(sq.file()).0;
        proof {
            let f = file_of(sq.0 as int);
            assert forall|x: int| 0 <= x < 64 implies #[trigger] mem(fbb, x) == (file_of(x) == f) by {
                lemma_masks(x);
            }
            crate::bitboard::lemma_nonzero_iff(fbb & (us_pawns | them_pawns));
            crate::bitboard::lemma_nonzero_iff(fbb & us_pawns);
            if pawn_on_file(b, color, f) {
                let x = choose|x: int| 0 <= x < 64 && file_of(x) == f && #[trigger] holds(b, x, color, PieceType::Pawn);
                assert(mem(us_pawns, x));
                assert(mem(fbb & us_pawns, x));
                assert(mem(fbb & (us_pawns | them_pawns), x));
            }
            if pawn_on_file(b, opposite(color), f) {
                let x = choose|x: int| 0 <= x < 64 && file_of(x) == f && #[trigger] holds(b, x, opposite(color), PieceType::Pawn);
                assert(mem(them_pawns, x));
                assert(mem(fbb & (us_pawns | them_pawns), x));
            }
            if fbb & (us_pawns | them_pawns) != 0 {
                let x = choose|x: int| 0 <= x < 64 && #[trigger] mem(fbb & (us_pawns | them_pawns), x);
                if mem(us_pawns, x) {
                    assert(holds(b, x, color, PieceType::Pawn));
                } else {
                    assert(holds(b, x, opposite(color), PieceType::Pawn));
                }
            }
            if fbb & us_pawns != 0 {
                let x = choose|x: int| 0 <= x < 64 && #[trigger] mem(fbb & us_pawns, x);
                assert(holds(b, x, color, PieceType::Pawn));
            }
        }
        if fbb & (us_pawns | them_pawns) == 0 {
            rook_files = Score { mg: p.rook_open_file.0, eg: p.rook_open_file.1 };
        } else if fbb & us_pawns == 0 {
            rook_files = Score { mg: p.rook_semi_open_file.0, eg: p.rook_semi_open_file.1 };
        }
        // Rook on the seventh, with targets there or a trapped king.
        if rel_rank(color, sq) == 6 {
            let seventh: u64 = if color == Color::White {
                0x00FF_0000_0000_0000
            } else {
                0x0000_0000_0000_FF00
            };
            proof {
                assert forall|x: int| 0 <= x < 64 implies #[trigger] mem(seventh, x) == (rel_rank_of(color, x) == 6) by {
                    lemma_masks(x);
                }
                crate::bitboard::lemma_nonzero_iff(them_pawns & seventh);
                if them_pawns & seventh != 0 {
                    let x = choose|x: int| 0 <= x < 64 && #[trigger] mem(them_pawns & seventh, x);
                    assert(holds(b, x, opposite(color), PieceType::Pawn));
                }
                if exists|x: int| 0 <= x < 64 && rel_rank_of(color, x) == 6 && #[trigger] holds(b, x, opposite(color), PieceType::Pawn) {
                    let x = choose|x: int| 0 <= x < 64 && rel_rank_of(color, x) == 6 && #[trigger] holds(b, x, opposite(color), PieceType::Pawn);
                    assert(mem(them_pawns & seventh, x));
                }
            }
            if rel_rank(color, enemy_king) == 7 || (them_pawns & seventh) != 0 {
                rook_7th = Score { mg: p.rook_on_seventh.0, eg: p.rook_on_seventh.1 };
            }
        }
    }
    PieceTerms { mobility, zone_units, zone_hit: zone_hits > 0, att, outpost, rook_files, rook_7th }
}

/// Every square bonus is within 200 centipawns.
proof fn lemma_pst_bounds(t: int, i: int)
    requires
        0 <= t < 6,
        0 <= i < 64,
    ensures
        -200 <= MG_PST[t][i] <= 200,
        -200 <= EG_PST[t][i] <= 200,
{
}

// -- material, phase and piece activity ------------------------------------------

/// Sum of `f` over `0..n`.
pub open spec fn sum_to(f: spec_fn(int) -> int, n: int) -> int
    decreases n,
{
    if n <= 0 {
        0
    } else {
        sum_to(f, n - 1) + f(n - 1)
    }
}

/// A sum does not change over a stretch where `f` is zero.
pub proof fn lemma_sum_flat(f: spec_fn(int) -> int, k: int, j: int)
    requires
        0 <= k <= j,
        forall|x: int| k <= x < j ==> #[trigger] f(x) == 0,
    ensures
        sum_to(f, j) == sum_to(f, k),
    decreases j - k,
{
    if j > k {
        lemma_sum_flat(f, k, j - 1);
    }
}

/// Midgame value plus square bonus of each piece of color `c` and type index `t`.
pub open spec fn piece_mg(b: Seq<u8>, c: Color, t: int) -> spec_fn(int) -> int {
    |s: int|
        if 0 <= s < 64 && holds(b, s, c, pt_of(t)) {
            MG_VALUE[t] + MG_PST[t][pst_sq(c, s)]
        } else {
            0
        }
}

/// Endgame value plus square bonus of each piece of color `c` and type index `t`.
pub open spec fn piece_eg(b: Seq<u8>, c: Color, t: int) -> spec_fn(int) -> int {
    |s: int|
        if 0 <= s < 64 && holds(b, s, c, pt_of(t)) {
            EG_VALUE[t] + EG_PST[t][pst_sq(c, s)]
        } else {
            0
        }
}

/// Phase weight of each piece of color `c` and type index `t`.
pub open spec fn piece_phase(b: Seq<u8>, c: Color, t: int) -> spec_fn(int) -> int {
    |s: int|
        if 0 <= s < 64 && holds(b, s, c, pt_of(t)) {
            PHASE_WEIGHT[t] as int
        } else {
            0
        }
}

/// Material and square bonuses of color `c` (midgame).
pub open spec fn material_mg(b: Seq<u8>, c: Color) -> int {
    sum_to(|t: int| sum_to(piece_mg(b, c, t), 64), 6)
}

/// Material and square bonuses of color `c` (endgame).
pub open spec fn material_eg(b: Seq<u8>, c: Color) -> int {
    sum_to(|t: int| sum_to(piece_eg(b, c, t), 64), 6)
}

/// Phase contributed by the pieces of color `c`.
pub open spec fn phase_of(b: Seq<u8>, c: Color) -> int {
    sum_to(|t: int| sum_to(piece_phase(b, c, t), 64), 6)
}

/// The piece-by-piece sums of one side.
struct PieceSums {
    material: Score,
    phase: i32,
    mobility: Score,
    outpost: Score,
    rook_files: Score,
    rook_7th: Score,
    /// Attack units against the enemy king, and the number of pieces that bring them.
    units: i32,
    attackers: i32,
    /// Squares attacked by our knights and bishops.
    minor_att: u64,
}

pub open spec fn type_at(b: Seq<u8>, x: int) -> int {
    pt_idx(code_type(b[x] as int))
}

/// Popping the next piece of a type extends its sums by that piece.
proof fn lemma_next_piece(b: Seq<u8>, color: Color, pti: int, w: u64, k: int, x: int)
    requires
        0 <= pti < 6,
        0 <= k <= x < 64,
        mem(w, x),
        forall|y: int| k <= y < x ==> !#[trigger] mem(w, y),
        forall|s: int| #[trigger] mem(w, s) == (0 <= s < 64 && holds(b, s, color, pt_of(pti)) && s >= k),
    ensures
        sum_to(piece_mg(b, color, pti), x + 1) == sum_to(piece_mg(b, color, pti), k) + MG_VALUE[pti]
            + MG_PST[pti][pst_sq(color, x)],
        sum_to(piece_eg(b, color, pti), x + 1) == sum_to(piece_eg(b, color, pti), k) + EG_VALUE[pti]
            + EG_PST[pti][pst_sq(color, x)],
        sum_to(piece_phase(b, color, pti), x + 1) == sum_to(piece_phase(b, color, pti), k)
            + PHASE_WEIGHT[pti],
        -200 <= MG_PST[pti][pst_sq(color, x)] <= 200,
        -200 <= EG_PST[pti][pst_sq(color, x)] <= 200,
{
    assert forall|y: int| k <= y < x implies #[trigger] piece_mg(b, color, pti)(y) == 0 by {
        assert(!mem(w, y));
    }
    assert forall|y: int| k <= y < x implies #[trigger] piece_eg(b, color, pti)(y) == 0 by {
        assert(!mem(w, y));
    }
    assert forall|y: int| k <= y < x implies #[trigger] piece_phase(b, color, pti)(y) == 0 by {
        assert(!mem(w, y));
    }
    lemma_sum_flat(piece_mg(b, color, pti), k, x);
    lemma_sum_flat(piece_eg(b, color, pti), k, x);
    lemma_sum_flat(piece_phase(b, color, pti), k, x);
    lemma_pst_bounds(pti, pst_sq(color, x));
}

/// Once no piece of a type is left past `k`, its sums are complete.
proof fn lemma_type_done(b: Seq<u8>, color: Color, pti: int, w: u64, k: int)
    requires
        0 <= pti < 6,
        0 <= k <= 64,
        w == 0,
        forall|s: int| #[trigger] mem(w, s) == (0 <= s < 64 && holds(b, s, color, pt_of(pti)) && s >= k),
    ensures
        sum_to(piece_mg(b, color, pti), 64) == sum_to(piece_mg(b, color, pti), k),
        sum_to(piece_eg(b, color, pti), 64) == sum_to(piece_eg(b, color, pti), k),
        sum_to(piece_phase(b, color, pti), 64) == sum_to(piece_phase(b, color, pti), k),
{
    assert forall|y: int| k <= y < 64 implies #[trigger] piece_mg(b, color, pti)(y) == 0 by {
        assert(!mem(w, y));
    }
    assert forall|y: int| k <= y < 64 implies #[trigger] piece_eg(b, color, pti)(y) == 0 by {
        assert(!mem(w, y));
    }
    assert forall|y: int| k <= y < 64 implies #[trigger] piece_phase(b, color, pti)(y) == 0 by {
        assert(!mem(w, y));
    }
    lemma_sum_flat(piece_mg(b, color, pti), k, 64);
    lemma_sum_flat(piece_eg(b, color, pti), k, 64);
    lemma_sum_flat(piece_phase(b, color, pti), k, 64);
}

/// The activity sums stay within what `n` pieces can bring.
spec fn activity_within(a: PieceSums, n: int) -> bool {
    &&& within(a.mobility, 0, 160 * n)
    &&& within(a.outpost, 0, 24 * n)
    &&& within(a.rook_files, 0, 28 * n)
    &&& within(a.rook_7th, 0, 32 * n)
    &&& 0 <= a.units <= 320 * n
    &&& 0 <= a.attackers <= n
}

/// Square `x` is attacked by a knight or bishop of `c` already counted: knights
/// once type index `t` has passed them, or below square `k` while it is at them;
/// bishops likewise.
spec fn minor_seen(b: Seq<u8>, c: Color, t: int, k: int, x: int) -> bool {
    exists|s: int|
        0 <= s < 64 && ((#[trigger] holds(b, s, c, PieceType::Knight) && (t > 1 || (t == 1 && s < k))
            && crate::attacks::knight_adj(s, x)) || (holds(b, s, c, PieceType::Bishop) && (t > 2 || (t == 2
            && s < k)) && crate::attacks::bishop_hit(s, occ_of(b), x)))
}

/// Counting the next piece of the current type adds its attacks.
proof fn lemma_minor_step(b: Seq<u8>, c: Color, t: int, k0: int, x: int, y: int)
    requires
        0 <= t < 6,
        0 <= k0 <= x < 64,
        holds(b, x, c, pt_of(t)),
        forall|s: int| k0 <= s < x ==> !#[trigger] holds(b, s, c, pt_of(t)),
    ensures
        minor_seen(b, c, t, x + 1, y) == (minor_seen(b, c, t, k0, y) || (t == 1 && crate::attacks::knight_adj(x, y))
            || (t == 2 && crate::attacks::bishop_hit(x, occ_of(b), y))),
{
    crate::position::lemma_code_parts(c, PieceType::Knight);
    crate::position::lemma_code_parts(c, PieceType::Bishop);
    crate::position::lemma_code_parts(c, pt_of(t));
    if minor_seen(b, c, t, x + 1, y) {
        let s = choose|s: int|
            0 <= s < 64 && ((#[trigger] holds(b, s, c, PieceType::Knight) && (t > 1 || (t == 1 && s < x + 1))
                && crate::attacks::knight_adj(s, y)) || (holds(b, s, c, PieceType::Bishop) && (t > 2 || (t == 2
                && s < x + 1)) && crate::attacks::bishop_hit(s, occ_of(b), y)));
        if s != x {
            if k0 <= s < x && (t == 1 || t == 2) {
                assert(!holds(b, s, c, pt_of(t)));
            }
            assert(minor_seen(b, c, t, k0, y));
        }
    }
    if minor_seen(b, c, t, k0, y) {
        let s = choose|s: int|
            0 <= s < 64 && ((#[trigger] holds(b, s, c, PieceType::Knight) && (t > 1 || (t == 1 && s < k0))
                && crate::attacks::knight_adj(s, y)) || (holds(b, s, c, PieceType::Bishop) && (t > 2 || (t == 2
                && s < k0)) && crate::attacks::bishop_hit(s, occ_of(b), y)));
        assert(holds(b, s, c, PieceType::Knight) || holds(b, s, c, PieceType::Bishop));
    }
    if t == 1 && crate::attacks::knight_adj(x, y) {
        assert(holds(b, x, c, PieceType::Knight));
    }
    if t == 2 && crate::attacks::bishop_hit(x, occ_of(b), y) {
        assert(holds(b, x, c, PieceType::Bishop));
    }
}

/// Once every piece of the current type is counted, the next type starts afresh.
proof fn lemma_minor_done(b: Seq<u8>, c: Color, t: int, k: int, y: int)
    requires
        0 <= t < 6,
        0 <= k <= 64,
        forall|s: int| k <= s < 64 ==> !#[trigger] holds(b, s, c, pt_of(t)),
    ensures
        minor_seen(b, c, t, k, y) == minor_seen(b, c, t + 1, 0, y),
{
    crate::position::lemma_code_parts(c, PieceType::Knight);
    crate::position::lemma_code_parts(c, PieceType::Bishop);
    if minor_seen(b, c, t + 1, 0, y) {
        let s = choose|s: int|
            0 <= s < 64 && ((#[trigger] holds(b, s, c, PieceType::Knight) && (t + 1 > 1 || (t + 1 == 1 && s < 0))
                && crate::attacks::knight_adj(s, y)) || (holds(b, s, c, PieceType::Bishop) && (t + 1 > 2 || (t + 1
                == 2 && s < 0)) && crate::attacks::bishop_hit(s, occ_of(b), y)));
        if t == 1 && holds(b, s, c, PieceType::Knight) {
            assert(s < k);
        }
        if t == 2 && holds(b, s, c, PieceType::Bishop) {
            assert(s < k);
        }
    }
}

/// Square `x` is attacked by a knight or bishop of `c`.
pub open spec fn minor_att(b: Seq<u8>, c: Color, x: int) -> bool {
    exists|s: int|
        0 <= s < 64 && ((#[trigger] holds(b, s, c, PieceType::Knight) && crate::attacks::knight_adj(s, x)) || (
        holds(b, s, c, PieceType::Bishop) && crate::attacks::bishop_hit(s, occ_of(b), x)))
}

/// The activity of kind `kind` (as in `act_of`) gathered so far.
spec fn acc_kind(a: PieceSums, kind: int) -> int {
    if kind == 0 {
        a.mobility.mg as int
    } else if kind == 1 {
        a.mobility.eg as int
    } else if kind == 2 {
        a.outpost.mg as int
    } else if kind == 3 {
        a.outpost.eg as int
    } else if kind == 4 {
        a.rook_files.mg as int
    } else if kind == 5 {
        a.rook_files.eg as int
    } else if kind == 6 {
        a.rook_7th.mg as int
    } else if kind == 7 {
        a.rook_7th.eg as int
    } else if kind == 8 {
        a.units as int
    } else {
        a.attackers as int
    }
}

/// A sum grows by the next term after a stretch of zeros.
proof fn lemma_sum_step(f: spec_fn(int) -> int, k: int, x: int)
    requires
        0 <= k <= x,
        forall|y: int| k <= y < x ==> #[trigger] f(y) == 0,
    ensures
        sum_to(f, x + 1) == sum_to(f, k) + f(x),
{
    lemma_sum_flat(f, k, x);
}

/// Add one piece's value, square bonus and phase weight.
fn add_value(acc: &mut PieceSums, pti: usize, idx: usize, Ghost(n): Ghost<int>)
    requires
        pti < 6,
        idx < 64,
        0 <= n < 64,
        -200 <= MG_PST[pti as int][idx as int] <= 200,
        -200 <= EG_PST[pti as int][idx as int] <= 200,
        within(old(acc).material, -1200 * n, 1200 * n),
        0 <= old(acc).phase <= 4 * n,
        activity_within(*old(acc), n),
    ensures
        final(acc).material.mg == old(acc).material.mg + MG_VALUE[pti as int] + MG_PST[pti as int][idx as int],
        final(acc).material.eg == old(acc).material.eg + EG_VALUE[pti as int] + EG_PST[pti as int][idx as int],
        final(acc).phase == old(acc).phase + PHASE_WEIGHT[pti as int],
        within(final(acc).material, -1200 * (n + 1), 1200 * (n + 1)),
        0 <= final(acc).phase <= 4 * (n + 1),
        activity_within(*final(acc), n),
        activity_within(*final(acc), n + 1),
        forall|kind: int| #[trigger] acc_kind(*final(acc), kind) == acc_kind(*old(acc), kind),
        final(acc).minor_att == old(acc).minor_att,
{
    acc.material.add(MG_VALUE[pti] + MG_PST[pti][idx], EG_VALUE[pti] + EG_PST[pti][idx]);
    acc.phase = acc.phase + PHASE_WEIGHT[pti];
}

/// Add one piece's activity (mobility, king-zone pressure, outposts, rook terms).
fn add_activity(acc: &mut PieceSums, pc: &PieceTerms, minor: bool, Ghost(n): Ghost<int>)
    requires
        1 <= n <= 64,
        activity_within(*old(acc), n - 1),
        within(pc.mobility, 0, 160),
        0 <= pc.zone_units <= 320,
        pc.zone_hit == (pc.zone_units > 0),
        within(pc.outpost, 0, 24),
        within(pc.rook_files, 0, 28),
        within(pc.rook_7th, 0, 32),
    ensures
        final(acc).material == old(acc).material,
        final(acc).phase == old(acc).phase,
        activity_within(*final(acc), n),
        forall|kind: int| #[trigger] acc_kind(*final(acc), kind) == acc_kind(*old(acc), kind) + pc_kind(*pc, kind),
        final(acc).minor_att == (if minor { old(acc).minor_att | pc.att } else { old(acc).minor_att }),
{
    acc.mobility.add(pc.mobility.mg, pc.mobility.eg);
    if pc.zone_hit {
        acc.units = acc.units + pc.zone_units;
        acc.attackers = acc.attackers + 1;
    }
    if minor {
        acc.minor_att = acc.minor_att | pc.att;
    }
    acc.outpost.add(pc.outpost.mg, pc.outpost.eg);
    acc.rook_files.add(pc.rook_files.mg, pc.rook_files.eg);
    acc.rook_7th.add(pc.rook_7th.mg, pc.rook_7th.eg);
}

fn piece_loop(
    pos: &Position,
    color: Color,
    occ: u64,
    mob_area: u64,
    enemy_zone: u64,
    pawn_att_us: u64,
    us_pawns: u64,
    them_pawns: u64,
    enemy_king: Square,
) -> (r: PieceSums)
    requires
        pos.wf(),
        enemy_king.0 < 64,
        forall|x: int| #[trigger] mem(pawn_att_us, x) == pawn_att(pos@.board, color, x),
        forall|x: int| #[trigger] mem(us_pawns, x) == (0 <= x < 64 && holds(pos@.board, x, color, PieceType::Pawn)),
        forall|x: int| #[trigger] mem(them_pawns, x) == (0 <= x < 64 && holds(pos@.board, x, opposite(color), PieceType::Pawn)),
        forall|x: int| #[trigger] mem(mob_area, x) == mob_safe(pos@.board, color, x),
        forall|x: int| #[trigger] mem(enemy_zone, x) == zone_of(opposite(color), enemy_king.0 as int, x),
        occ == occ_of(pos@.board),
    ensures
        forall|kind: int| 0 <= kind < 10 ==> #[trigger] acc_kind(r, kind) == activity_total(pos@.board, color, enemy_king.0 as int, kind),
        forall|x: int| #[trigger] mem(r.minor_att, x) == minor_att(pos@.board, color, x),
        r.material.mg == material_mg(pos@.board, color),
        r.material.eg == material_eg(pos@.board, color),
        r.phase == phase_of(pos@.board, color),
        within(r.material, -80_000, 80_000),
        0 <= r.phase <= 256,
        activity_within(r, 64),
{
    let ghost b = pos@.board;
    proof {
        pos.lemma_wf();
    }
    let z = Score { mg: 0, eg: 0 };
    let mut acc = PieceSums {
        material: z,
        phase: 0,
        mobility: z,
        outpost: z,
        rook_files: z,
        rook_7th: z,
        units: 0,
        attackers: 0,
        minor_att: 0,
    };
    let ghost mut done: Set<int> = Set::empty();
    proof {
        lemma_int_range(0, 64);
    }
    let mut pti: usize = 0;
    while pti < 6
        invariant
            pos.wf(),
            b == pos@.board,
            forall|x: int| #[trigger] mem(pawn_att_us, x) == pawn_att(b, color, x),
            forall|x: int| #[trigger] mem(us_pawns, x) == (0 <= x < 64 && holds(b, x, color, PieceType::Pawn)),
            forall|x: int| #[trigger] mem(them_pawns, x) == (0 <= x < 64 && holds(b, x, opposite(color), PieceType::Pawn)),
            b.len() == 64,
            forall|x: int| #[trigger] mem(mob_area, x) == mob_safe(b, color, x),
            forall|x: int| #[trigger] mem(enemy_zone, x) == zone_of(opposite(color), enemy_king.0 as int, x),
            occ == occ_of(b),
            forall|kind: int| 0 <= kind < 10 ==> #[trigger] acc_kind(acc, kind) == sum_to(
                |t: int| sum_to(activity(b, color, enemy_king.0 as int, kind, t), 64),
                pti as int,
            ),
            forall|x: int| #[trigger] mem(acc.minor_att, x) == minor_seen(b, color, pti as int, 0, x),
            0 <= pti <= 6,
            enemy_king.0 < 64,
            set_int_range(0, 64).finite(),
            set_int_range(0, 64).len() == 64,
            done.finite(),
            done.subset_of(set_int_range(0, 64)),
            forall|x: int| #[trigger] done.contains(x) ==> 0 <= x < 64 && type_at(b, x) < pti,
            acc.material.mg == sum_to(|t: int| sum_to(piece_mg(b, color, t), 64), pti as int),
            acc.material.eg == sum_to(|t: int| sum_to(piece_eg(b, color, t), 64), pti as int),
            acc.phase == sum_to(|t: int| sum_to(piece_phase(b, color, t), 64), pti as int),
            within(acc.material, -1200 * (done.len() as int), 1200 * (done.len() as int)),
            0 <= acc.phase <= 4 * (done.len() as int),
            activity_within(acc, done.len() as int),
        decreases 6 - pti,
    {
        let pt = PieceType::from_index(pti);
        let mut bb = pos.pieces(color, pt);
        let ghost mut k: int = 0;
        let ghost m0 = acc.material.mg;
        let ghost a0 = acc;
        let ghost e0 = acc.material.eg;
        let ghost h0 = acc.phase;
        while bb.any()
            invariant
                pos.wf(),
                b == pos@.board,
                forall|x: int| #[trigger] mem(pawn_att_us, x) == pawn_att(b, color, x),
                forall|x: int| #[trigger] mem(us_pawns, x) == (0 <= x < 64 && holds(b, x, color, PieceType::Pawn)),
                forall|x: int| #[trigger] mem(them_pawns, x) == (0 <= x < 64 && holds(b, x, opposite(color), PieceType::Pawn)),
                b.len() == 64,
                forall|x: int| #[trigger] mem(mob_area, x) == mob_safe(b, color, x),
                forall|x: int| #[trigger] mem(enemy_zone, x) == zone_of(opposite(color), enemy_king.0 as int, x),
                occ == occ_of(b),
                forall|kind: int| 0 <= kind < 10 ==> #[trigger] acc_kind(a0, kind) == sum_to(
                    |t: int| sum_to(activity(b, color, enemy_king.0 as int, kind, t), 64),
                    pti as int,
                ),
                forall|kind: int| 0 <= kind < 10 ==> #[trigger] acc_kind(acc, kind) == acc_kind(a0, kind) + sum_to(
                    activity(b, color, enemy_king.0 as int, kind, pti as int),
                    k,
                ),
                forall|x: int| #[trigger] mem(acc.minor_att, x) == minor_seen(b, color, pti as int, k, x),
                0 <= pti < 6,
                pt == pt_of(pti as int),
                enemy_king.0 < 64,
                0 <= k <= 64,
                set_int_range(0, 64).finite(),
                set_int_range(0, 64).len() == 64,
                done.finite(),
                done.subset_of(set_int_range(0, 64)),
                forall|x: int| #[trigger] done.contains(x) ==> 0 <= x < 64 && (type_at(b, x) < pti
                    || (type_at(b, x) == pti && x < k)),
                forall|s: int| #[trigger] mem(bb.0, s) == (0 <= s < 64 && holds(b, s, color, pt) && s >= k),
                acc.material.mg == m0 + sum_to(piece_mg(b, color, pti as int), k),
                acc.material.eg == e0 + sum_to(piece_eg(b, color, pti as int), k),
                acc.phase == h0 + sum_to(piece_phase(b, color, pti as int), k),
                within(acc.material, -1200 * (done.len() as int), 1200 * (done.len() as int)),
                0 <= acc.phase <= 4 * (done.len() as int),
                activity_within(acc, done.len() as int),
            decreases popcount(bb.0),
        {
            proof {
                lemma_popcount_zero_iff(bb.0);
            }
            let ghost w = bb.0;
            let ghost k0 = k;
            let sq = bb.pop_lsb();
            let ghost n = done.len() as int;
            proof {
                lemma_popcount_zero_iff(bb.0);
                let x = sq as int;
                crate::position::lemma_code_parts(color, pt);
                assert(type_at(b, x) == pti);
                assert(!done.contains(x));
                lemma_next_piece(b, color, pti as int, w, k, x);
                assert(done.insert(x).subset_of(set_int_range(0, 64)));
                lemma_len_subset(done.insert(x), set_int_range(0, 64));
                done = done.insert(x);
                assert forall|kind: int| 0 <= kind < 10 implies #[trigger] sum_to(
                    activity(b, color, enemy_king.0 as int, kind, pti as int),
                    x + 1,
                ) == sum_to(activity(b, color, enemy_king.0 as int, kind, pti as int), k) + activity(
                    b,
                    color,
                    enemy_king.0 as int,
                    kind,
                    pti as int,
                )(x) by {
                    assert forall|y: int| k <= y < x implies #[trigger] activity(
                        b,
                        color,
                        enemy_king.0 as int,
                        kind,
                        pti as int,
                    )(y) == 0 by {
                        assert(!mem(w, y));
                    }
                    lemma_sum_step(activity(b, color, enemy_king.0 as int, kind, pti as int), k, x);
                }
                k = x + 1;
            }
            let idx = pst_index(color, sq as usize);
            add_value(&mut acc, pti, idx, Ghost(n));
            if 1 <= pti && pti <= 4 {
                let pc = piece_terms(
                    color,
                    pti,
                    Square(sq),
                    occ,
                    mob_area,
                    enemy_zone,
                    pawn_att_us,
                    us_pawns,
                    them_pawns,
                    enemy_king,
                    Ghost(b),
                );
                add_activity(&mut acc, &pc, pti == 1 || pti == 2, Ghost(n + 1));
            }
            proof {
                assert forall|y: int| #[trigger] mem(acc.minor_att, y) == minor_seen(b, color, pti as int, k, y) by {
                    assert forall|s: int| k0 <= s < sq implies !#[trigger] holds(b, s, color, pt_of(pti as int)) by {
                        assert(!mem(w, s));
                    }
                    lemma_minor_step(b, color, pti as int, k0, sq as int, y);
                }
            }
        }
        proof {
            lemma_type_done(b, color, pti as int, bb.0, k);
            assert forall|y: int| #[trigger] mem(acc.minor_att, y) == minor_seen(b, color, pti as int + 1, 0, y) by {
                assert forall|s: int| k <= s < 64 implies !#[trigger] holds(b, s, color, pt_of(pti as int)) by {
                    assert(!mem(bb.0, s));
                }
                lemma_minor_done(b, color, pti as int, k, y);
            }
            assert forall|kind: int| 0 <= kind < 10 implies #[trigger] sum_to(
                activity(b, color, enemy_king.0 as int, kind, pti as int),
                64,
            ) == sum_to(activity(b, color, enemy_king.0 as int, kind, pti as int), k) by {
                assert forall|y: int| k <= y < 64 implies #[trigger] activity(
                    b,
                    color,
                    enemy_king.0 as int,
                    kind,
                    pti as int,
                )(y) == 0 by {
                    assert(!mem(bb.0, y));
                }
                lemma_sum_flat(activity(b, color, enemy_king.0 as int, kind, pti as int), k, 64);
            }
        }
        pti = pti + 1;
    }
    proof {
        lemma_len_subset(done, set_int_range(0, 64));
        assert forall|x: int| #[trigger] mem(acc.minor_att, x) == minor_att(b, color, x) by {
            if minor_att(b, color, x) {
                let s = choose|s: int|
                    0 <= s < 64 && ((#[trigger] holds(b, s, color, PieceType::Knight) && crate::attacks::knight_adj(s, x))
                        || (holds(b, s, color, PieceType::Bishop) && crate::attacks::bishop_hit(s, occ_of(b), x)));
                assert(minor_seen(b, color, 6, 0, x));
            }
        }
    }
    acc
}

// -- pawns, shelter and space ----------------------------------------------------------

/// Doubled-pawn penalties over the eight files.
fn doubled_pawns(us_pawns: u64, Ghost(b): Ghost<Seq<u8>>, Ghost(c): Ghost<Color>) -> (r: Score)
    requires
        forall|x: int| #[trigger] mem(us_pawns, x) == (0 <= x < 64 && holds(b, x, c, PieceType::Pawn)),
    ensures
        within(r, -20_000, 0),
        score_pair(r) == (sum_to(|f: int| doubled_term(b, c, f, true), 8), sum_to(|f: int| doubled_term(b, c, f, false), 8)),
{
    let p = params();
    let mut acc = Score { mg: 0, eg: 0 };
    let mut f: u8 = 0;
    while f < 8
        invariant
            0 <= f <= 8,
            p == weights(),
            within(acc, -2_000 * (f as int), 0),
            forall|x: int| #[trigger] mem(us_pawns, x) == (0 <= x < 64 && holds(b, x, c, PieceType::Pawn)),
            acc.mg == sum_to(|g: int| doubled_term(b, c, g, true), f as int),
            acc.eg == sum_to(|g: int| doubled_term(b, c, g, false), f as int),
        decreases 8 - f,
    {
        let on_file = Bitboard(file_bb(f).0 & us_pawns).count() as i32;
        proof {
            assert forall|x: int| 0 <= x < 64 implies #[trigger] mem(FILE_MASKS[f as int] & us_pawns, x) == (file_of(x) == f
                && holds(b, x, c, PieceType::Pawn)) by {
                lemma_masks(x);
            }
            lemma_popcount_sq(FILE_MASKS[f as int] & us_pawns, |x: int| file_of(x) == f && holds(b, x, c, PieceType::Pawn), 64);
            assert(on_file == file_pawns(b, c, f as int));
        }
        if on_file > 1 {
            proof {
                assert(0 <= 10 * (on_file - 1) <= 640 && 0 <= 30 * (on_file - 1) <= 1920) by (nonlinear_arith)
                    requires
                        1 <= on_file <= 64;
            }
            acc.add(-p.doubled_pawn.0 * (on_file - 1), -p.doubled_pawn.1 * (on_file - 1));
        }
        f = f + 1;
    }
    acc
}

/// The square a pawn of `c` on `s` moves to.
pub open spec fn fwd(c: Color, s: int) -> int {
    if c == Color::White {
        s + 8
    } else {
        s - 8
    }
}

/// A pawn of `c` on `x` stands on a file next to that of square `s`.
pub open spec fn neighbor(b: Seq<u8>, c: Color, s: int, x: int) -> bool {
    0 <= x < 64 && (file_of(x) == file_of(s) - 1 || file_of(x) == file_of(s) + 1) && holds(b, x, c, PieceType::Pawn)
}

/// The pawn of `c` on `s` is passed: no enemy pawn ahead on its file or the files beside.
pub open spec fn is_passed(b: Seq<u8>, c: Color, s: int) -> bool {
    forall|x: int|
        0 <= x < 64 && file_of(s) - 1 <= file_of(x) <= file_of(s) + 1 && ahead_of(c, s, x) ==> !#[trigger] holds(
            b,
            x,
            opposite(c),
            PieceType::Pawn,
        )
}

/// Structure penalty (midgame, endgame) of the pawn of `c` on `s`: isolated (no
/// pawn of its own on a file beside), or backward (every such pawn ahead of it, and
/// its stop square attacked by an enemy pawn).
pub open spec fn pawn_struct(b: Seq<u8>, c: Color, s: int) -> (int, int) {
    if !exists|x: int| #[trigger] neighbor(b, c, s, x) {
        (-10, -18)
    } else if (forall|x: int| #[trigger] neighbor(b, c, s, x) ==> ahead_of(c, s, x)) && pawn_att(
        b,
        opposite(c),
        fwd(c, s),
    ) {
        (-9, -22)
    } else {
        (0, 0)
    }
}

/// Passed-pawn bonus (midgame, endgame) of the pawn of `c` on `s`, with its own
/// king on `ok` and the enemy king on `ek`: the bonus for its rank, cut to 60% when
/// its stop square is occupied; in the endgame, plus the enemy king's distance to
/// the stop square and minus its own king's, weighted by the rank; plus a bonus when
/// a pawn of its own defends it or stands beside it.
pub open spec fn pawn_passed(b: Seq<u8>, c: Color, s: int, ok: int, ek: int) -> (int, int) {
    if !is_passed(b, c, s) {
        (0, 0)
    } else {
        let rr = rel_rank_of(c, s);
        let stop = fwd(c, s);
        let blocked = b[stop] != crate::types::NO_PIECE;
        let mg = if blocked {
            weights().passed_pawn[rr].0 * 60 / 100
        } else {
            weights().passed_pawn[rr].0 as int
        };
        let eg = (if blocked {
            weights().passed_pawn[rr].1 * 60 / 100
        } else {
            weights().passed_pawn[rr].1 as int
        }) + tdiv((4 * crate::attacks::cheb(ek, stop) - 2 * crate::attacks::cheb(ok, stop)) * rr, 2);
        let conn = pawn_att(b, c, s) || (file_of(s) != 7 && holds(b, s + 1, c, PieceType::Pawn)) || (file_of(s)
            != 0 && holds(b, s - 1, c, PieceType::Pawn));
        if conn {
            (mg + 10, eg + 18)
        } else {
            (mg, eg)
        }
    }
}

/// Number of pawns of `c` on file `f`.
pub open spec fn file_pawns(b: Seq<u8>, c: Color, f: int) -> int {
    count_sq(|x: int| file_of(x) == f && holds(b, x, c, PieceType::Pawn), 64)
}

/// Doubled-pawn penalty of `c` on file `f`, midgame (`mg`) or endgame: for each
/// pawn beyond the first.
pub open spec fn doubled_term(b: Seq<u8>, c: Color, f: int, mg: bool) -> int {
    if file_pawns(b, c, f) > 1 {
        (if mg { -10int } else { -30int }) * (file_pawns(b, c, f) - 1)
    } else {
        0
    }
}

/// Structure penalties and passed-pawn bonuses of one pawn.
fn pawn_terms(
    pos: &Position,
    color: Color,
    sq: Square,
    us_pawns: u64,
    them_pawns: u64,
    pawn_att_us: u64,
    pawn_att_them: u64,
    own_king: Square,
    enemy_king: Square,
) -> (r: (Score, Score))
    requires
        pos.wf(),
        sq.0 < 64,
        if color == Color::White { sq.0 < 56 } else { sq.0 >= 8 },
        own_king.0 < 64,
        enemy_king.0 < 64,
        forall|x: int| #[trigger] mem(us_pawns, x) == (0 <= x < 64 && holds(pos@.board, x, color, PieceType::Pawn)),
        forall|x: int| #[trigger] mem(them_pawns, x) == (0 <= x < 64 && holds(pos@.board, x, opposite(color), PieceType::Pawn)),
        forall|x: int| #[trigger] mem(pawn_att_us, x) == pawn_att(pos@.board, color, x),
        forall|x: int| #[trigger] mem(pawn_att_them, x) == pawn_att(pos@.board, opposite(color), x),
    ensures
        within(r.0, -22, 0),
        -98 <= r.1.mg <= 98,
        -49 <= r.1.eg <= 266,
        score_pair(r.0) == pawn_struct(pos@.board, color, sq.0 as int),
        score_pair(r.1) == pawn_passed(pos@.board, color, sq.0 as int, own_king.0 as int, enemy_king.0 as int),
{
    let ghost b = pos@.board;
    let ghost s0 = sq.0 as int;
    proof {
        pos.lemma_wf();
    }
    let st = pawn_structure_of(pos, color, sq, us_pawns, pawn_att_them);
    let pa = pawn_passed_of(pos, color, sq, us_pawns, them_pawns, pawn_att_us, own_king, enemy_king);
    (st, pa)
}

/// Structure penalty of one pawn: isolated or backward.
fn pawn_structure_of(pos: &Position, color: Color, sq: Square, us_pawns: u64, pawn_att_them: u64) -> (r: Score)
    requires
        pos.wf(),
        sq.0 < 64,
        if color == Color::White { sq.0 < 56 } else { sq.0 >= 8 },
        forall|x: int| #[trigger] mem(us_pawns, x) == (0 <= x < 64 && holds(pos@.board, x, color, PieceType::Pawn)),
        forall|x: int| #[trigger] mem(pawn_att_them, x) == pawn_att(pos@.board, opposite(color), x),
    ensures
        within(r, -22, 0),
        score_pair(r) == pawn_struct(pos@.board, color, sq.0 as int),
{
    let ghost b = pos@.board;
    let ghost s0 = sq.0 as int;
    let p = params();
    let mut structure = Score { mg: 0, eg: 0 };
    let f = sq.file() as usize;
    let neighbors = ADJ_FILES[f] & us_pawns;
    let ahead = ahead_bb(color, sq).0;
    proof {
        assert forall|x: int| #[trigger] mem(neighbors, x) == neighbor(b, color, s0, x) by {
            if 0 <= x < 64 {
                lemma_masks(x);
            }
        }
        crate::bitboard::lemma_nonzero_iff(neighbors);
        crate::bitboard::lemma_nonzero_iff(neighbors & !ahead);
        if exists|x: int| #[trigger] neighbor(b, color, s0, x) {
            let x = choose|x: int| #[trigger] neighbor(b, color, s0, x);
            assert(mem(neighbors, x));
        }
        if neighbors & !ahead != 0 {
            let x = choose|x: int| 0 <= x < 64 && #[trigger] mem(neighbors & !ahead, x);
            assert(neighbor(b, color, s0, x) && !ahead_of(color, s0, x));
        } else {
            assert forall|x: int| #[trigger] neighbor(b, color, s0, x) implies ahead_of(color, s0, x) by {
                assert(mem(neighbors, x));
                assert(!mem(neighbors & !ahead, x));
            }
        }
    }
    if neighbors == 0 {
        structure = Score { mg: -p.isolated_pawn.0, eg: -p.isolated_pawn.1 };
    } else if (neighbors & !ahead) == 0 {
        // All neighbors are ahead: backward when the stop square is held by an enemy pawn.
        let stop = forward_sq(color, sq);
        if Bitboard(pawn_att_them).contains(stop.0) {
            structure = Score { mg: -p.backward_pawn.0, eg: -p.backward_pawn.1 };
        }
    }
    structure
}

/// Is the pawn of `color` on `sq` passed?
fn passed_check(color: Color, sq: Square, them_pawns: u64, Ghost(b): Ghost<Seq<u8>>) -> (r: bool)
    requires
        sq.0 < 64,
        forall|x: int| #[trigger] mem(them_pawns, x) == (0 <= x < 64 && holds(b, x, opposite(color), PieceType::Pawn)),
    ensures
        r == is_passed(b, color, sq.0 as int),
{
    let ghost s0 = sq.0 as int;
    let f = sq.file() as usize;
    let ahead = ahead_bb(color, sq).0;
    let front = (FILE_MASKS[f] | ADJ_FILES[f]) & ahead & them_pawns;
    proof {
        assert forall|x: int| 0 <= x < 64 implies #[trigger] mem(front, x) == (file_of(s0) - 1 <= file_of(x) <= file_of(s0)
            + 1 && ahead_of(color, s0, x) && holds(b, x, opposite(color), PieceType::Pawn)) by {
            lemma_masks(x);
        }
        crate::bitboard::lemma_nonzero_iff(front);
        if front != 0 {
            let x = choose|x: int| 0 <= x < 64 && #[trigger] mem(front, x);
            assert(!is_passed(b, color, s0));
        } else {
            assert forall|x: int|
                0 <= x < 64 && file_of(s0) - 1 <= file_of(x) <= file_of(s0) + 1 && ahead_of(color, s0, x) implies !#[trigger] holds(
                b,
                x,
                opposite(color),
                PieceType::Pawn,
            ) by {
                crate::bitboard::lemma_has_zero(x);
                assert(!mem(front, x));
            }
        }
    }
    front == 0
}

/// Is the pawn of `color` on `sq` defended by a pawn of its own or flanked by one?
fn connected_check(color: Color, sq: Square, us_pawns: u64, pawn_att_us: u64, Ghost(b): Ghost<Seq<u8>>) -> (r: bool)
    requires
        sq.0 < 64,
        forall|x: int| #[trigger] mem(us_pawns, x) == (0 <= x < 64 && holds(b, x, color, PieceType::Pawn)),
        forall|x: int| #[trigger] mem(pawn_att_us, x) == pawn_att(b, color, x),
    ensures
        r == (pawn_att(b, color, sq.0 as int) || (file_of(sq.0 as int) != 7 && holds(b, sq.0 + 1, color, PieceType::Pawn))
            || (file_of(sq.0 as int) != 0 && holds(b, sq.0 - 1, color, PieceType::Pawn))),
{
    let ghost s0 = sq.0 as int;
    let bb = Bitboard::from_square(sq.0);
    let side = (bb.shift_east().0 | bb.shift_west().0) & us_pawns;
    proof {
        crate::bitboard::lemma_nonzero_iff(side);
        assert forall|x: int| #[trigger] mem(side, x) == ((x == s0 + 1 && file_of(s0) != 7 && holds(b, x, color, PieceType::Pawn))
            || (x == s0 - 1 && file_of(s0) != 0 && holds(b, x, color, PieceType::Pawn))) by {}
        if file_of(s0) != 7 && holds(b, s0 + 1, color, PieceType::Pawn) {
            assert(mem(side, s0 + 1));
        }
        if file_of(s0) != 0 && holds(b, s0 - 1, color, PieceType::Pawn) {
            assert(mem(side, s0 - 1));
        }
    }
    Bitboard(pawn_att_us).contains(sq.0) || side != 0
}

/// Passed-pawn bonus of one pawn.
fn pawn_passed_of(
    pos: &Position,
    color: Color,
    sq: Square,
    us_pawns: u64,
    them_pawns: u64,
    pawn_att_us: u64,
    own_king: Square,
    enemy_king: Square,
) -> (r: Score)
    requires
        pos.wf(),
        sq.0 < 64,
        if color == Color::White { sq.0 < 56 } else { sq.0 >= 8 },
        own_king.0 < 64,
        enemy_king.0 < 64,
        forall|x: int| #[trigger] mem(us_pawns, x) == (0 <= x < 64 && holds(pos@.board, x, color, PieceType::Pawn)),
        forall|x: int| #[trigger] mem(them_pawns, x) == (0 <= x < 64 && holds(pos@.board, x, opposite(color), PieceType::Pawn)),
        forall|x: int| #[trigger] mem(pawn_att_us, x) == pawn_att(pos@.board, color, x),
    ensures
        -98 <= r.mg <= 98,
        -49 <= r.eg <= 266,
        score_pair(r) == pawn_passed(pos@.board, color, sq.0 as int, own_king.0 as int, enemy_king.0 as int),
{
    let ghost b = pos@.board;
    let p = params();
    if !passed_check(color, sq, them_pawns, Ghost(b)) {
        return Score { mg: 0, eg: 0 };
    }
    let rr = rel_rank(color, sq);
    let (mut mg, mut eg) = p.passed_pawn[rr];
    proof {
        assert(0 <= mg <= 88 && 0 <= eg <= 150) by {
            if rr == 0 {
            } else if rr == 1 {
            } else if rr == 2 {
            } else if rr == 3 {
            } else if rr == 4 {
            } else if rr == 5 {
            } else if rr == 6 {
            } else {
            }
        }
    }
    let stop = forward_sq(color, sq);
    if pos.piece_on(stop).is_some() {
        proof {
            assert(0 <= mg * 60 <= mg * 100 && 0 <= eg * 60 <= eg * 100) by (nonlinear_arith)
                requires
                    0 <= mg <= 88,
                    0 <= eg <= 150;
        }
        mg = mg * p.passed_blocked_pct / 100;
        eg = eg * p.passed_blocked_pct / 100;
    }
    // King proximity matters more the further the pawn has come.
    let (own_w, enemy_w) = p.passed_king_dist;
    let dt = chebyshev(enemy_king, stop);
    let du = chebyshev(own_king, stop);
    let rri = rr as i32;
    proof {
        assert(-14 <= enemy_w * dt - own_w * du <= 28);
        assert(-98 <= (enemy_w * dt - own_w * du) * rri <= 196) by (nonlinear_arith)
            requires
                -14 <= enemy_w * dt - own_w * du <= 28,
                0 <= rri <= 7;
    }
    eg = eg + (enemy_w * dt - own_w * du) * rri / 2;
    let mut passed = Score { mg, eg };
    // Connected: defended by a pawn or with a phalanx neighbor.
    if connected_check(color, sq, us_pawns, pawn_att_us, Ghost(b)) {
        passed.add(p.passed_connected.0, p.passed_connected.1);
    }
    passed
}

/// Pawn-structure and passed-pawn totals of one side.
fn pawn_loop(
    pos: &Position,
    color: Color,
    us_pawns: Bitboard,
    them_pawns: u64,
    pawn_att_us: u64,
    pawn_att_them: u64,
    own_king: Square,
    enemy_king: Square,
) -> (r: (Score, Score))
    requires
        pos.wf(),
        crate::movegen::pawns_on_board(pos@.board),
        forall|s: int| #[trigger] mem(us_pawns.0, s) == (0 <= s < 64 && holds(pos@.board, s, color, PieceType::Pawn)),
        forall|x: int| #[trigger] mem(them_pawns, x) == (0 <= x < 64 && holds(pos@.board, x, opposite(color), PieceType::Pawn)),
        forall|x: int| #[trigger] mem(pawn_att_us, x) == pawn_att(pos@.board, color, x),
        forall|x: int| #[trigger] mem(pawn_att_them, x) == pawn_att(pos@.board, opposite(color), x),
        own_king.0 < 64,
        enemy_king.0 < 64,
    ensures
        within(r.0, -22 * 64, 0),
        -98 * 64 <= r.1.mg <= 98 * 64,
        -49 * 64 <= r.1.eg <= 266 * 64,
        r.0.mg == sum_to(pawn_sq_struct(pos@.board, color, true), 64),
        r.0.eg == sum_to(pawn_sq_struct(pos@.board, color, false), 64),
        r.1.mg == sum_to(pawn_sq_passed(pos@.board, color, own_king.0 as int, enemy_king.0 as int, true), 64),
        r.1.eg == sum_to(pawn_sq_passed(pos@.board, color, own_king.0 as int, enemy_king.0 as int, false), 64),
{
    let ghost b = pos@.board;
    let ghost ok = own_king.0 as int;
    let ghost ek = enemy_king.0 as int;
    let mut structure = Score { mg: 0, eg: 0 };
    let mut passed = Score { mg: 0, eg: 0 };
    let mut rest = us_pawns;
    let ghost mut k: int = 0;
    let ghost mut n: int = 0;
    while rest.any()
        invariant
            pos.wf(),
            b == pos@.board,
            crate::movegen::pawns_on_board(b),
            own_king.0 < 64,
            enemy_king.0 < 64,
            ok == own_king.0 as int,
            ek == enemy_king.0 as int,
            forall|s: int| #[trigger] mem(us_pawns.0, s) == (0 <= s < 64 && holds(b, s, color, PieceType::Pawn)),
            forall|x: int| #[trigger] mem(them_pawns, x) == (0 <= x < 64 && holds(b, x, opposite(color), PieceType::Pawn)),
            forall|x: int| #[trigger] mem(pawn_att_us, x) == pawn_att(b, color, x),
            forall|x: int| #[trigger] mem(pawn_att_them, x) == pawn_att(b, opposite(color), x),
            0 <= n <= k <= 64,
            forall|s: int| #[trigger] mem(rest.0, s) == (0 <= s < 64 && holds(b, s, color, PieceType::Pawn) && s >= k),
            within(structure, -22 * n, 0),
            -98 * n <= passed.mg <= 98 * n,
            -49 * n <= passed.eg <= 266 * n,
            structure.mg == sum_to(pawn_sq_struct(b, color, true), k),
            structure.eg == sum_to(pawn_sq_struct(b, color, false), k),
            passed.mg == sum_to(pawn_sq_passed(b, color, ok, ek, true), k),
            passed.eg == sum_to(pawn_sq_passed(b, color, ok, ek, false), k),
        decreases popcount(rest.0),
    {
        proof {
            lemma_popcount_zero_iff(rest.0);
        }
        let ghost w = rest.0;
        let ghost k0 = k;
        let sq = rest.pop_lsb();
        proof {
            lemma_popcount_zero_iff(rest.0);
            assert(holds(b, sq as int, color, PieceType::Pawn));
            assert(sq / 8 == crate::types::rank_of(sq as int));
            if color == Color::White {
                assert(b[sq as int] == 0u8);
            } else {
                assert(b[sq as int] == 6u8);
            }
            let x = sq as int;
            assert forall|y: int| k0 <= y < x implies !#[trigger] holds(b, y, color, PieceType::Pawn) by {
                assert(!mem(w, y));
            }
            lemma_sum_step(pawn_sq_struct(b, color, true), k0, x);
            lemma_sum_step(pawn_sq_struct(b, color, false), k0, x);
            lemma_sum_step(pawn_sq_passed(b, color, ok, ek, true), k0, x);
            lemma_sum_step(pawn_sq_passed(b, color, ok, ek, false), k0, x);
            k = sq + 1;
            n = n + 1;
        }
        let (st, pa) = pawn_terms(
            pos,
            color,
            Square(sq),
            us_pawns.0,
            them_pawns,
            pawn_att_us,
            pawn_att_them,
            own_king,
            enemy_king,
        );
        structure.add(st.mg, st.eg);
        passed.add(pa.mg, pa.eg);
    }
    proof {
        assert forall|y: int| k <= y < 64 implies !#[trigger] holds(b, y, color, PieceType::Pawn) by {
            assert(!mem(rest.0, y));
        }
        lemma_sum_flat(pawn_sq_struct(b, color, true), k, 64);
        lemma_sum_flat(pawn_sq_struct(b, color, false), k, 64);
        lemma_sum_flat(pawn_sq_passed(b, color, ok, ek, true), k, 64);
        lemma_sum_flat(pawn_sq_passed(b, color, ok, ek, false), k, 64);
    }
    (structure, passed)
}

/// Structure penalty of each pawn of `c`, midgame (`mg`) or endgame.
pub open spec fn pawn_sq_struct(b: Seq<u8>, c: Color, mg: bool) -> spec_fn(int) -> int {
    |s: int|
        if 0 <= s < 64 && holds(b, s, c, PieceType::Pawn) {
            if mg {
                pawn_struct(b, c, s).0
            } else {
                pawn_struct(b, c, s).1
            }
        } else {
            0
        }
}

/// Passed-pawn bonus of each pawn of `c`, midgame (`mg`) or endgame.
pub open spec fn pawn_sq_passed(b: Seq<u8>, c: Color, ok: int, ek: int, mg: bool) -> spec_fn(int) -> int {
    |s: int|
        if 0 <= s < 64 && holds(b, s, c, PieceType::Pawn) {
            if mg {
                pawn_passed(b, c, s, ok, ek).0
            } else {
                pawn_passed(b, c, s, ok, ek).1
            }
        } else {
            0
        }
}

/// The square `d` ranks in front of the king square `k` of `c`, on file `f`.
pub open spec fn shield_sq(c: Color, k: int, f: int, d: int) -> int {
    if c == Color::White {
        (rank_of(k) + d) * 8 + f
    } else {
        (rank_of(k) - d) * 8 + f
    }
}

/// A pawn of `c` stands `d` ranks in front of its king square `k` on file `f`.
pub open spec fn shield_at(b: Seq<u8>, c: Color, k: int, f: int, d: int) -> bool {
    &&& 1 <= d
    &&& if c == Color::White {
        rank_of(k) + d <= 7
    } else {
        rank_of(k) - d >= 0
    }
    &&& holds(b, shield_sq(c, k, f, d), c, PieceType::Pawn)
}

/// `d` is the distance of the nearest such shield pawn on file `f`.
pub open spec fn nearest_shield(b: Seq<u8>, c: Color, k: int, f: int, d: int) -> bool {
    &&& shield_at(b, c, k, f, d)
    &&& forall|e: int| 1 <= e < d ==> !#[trigger] shield_at(b, c, k, f, e)
}

/// Shelter from file `f` of a king of `c` on `k`: 21 off without a pawn of `c`
/// in front of the king there, else seven off per rank between the king and
/// the nearest such pawn.
pub open spec fn file_shelter(b: Seq<u8>, c: Color, k: int, f: int) -> int {
    if exists|d: int| #[trigger] shield_at(b, c, k, f, d) {
        -((choose|d: int| nearest_shield(b, c, k, f, d)) - 1) * 7
    } else {
        -21
    }
}

/// Shelter from the files `lo` to `f - 1`.
pub open spec fn shelter_upto(b: Seq<u8>, c: Color, k: int, lo: int, f: int) -> int
    decreases f - lo,
{
    if f <= lo {
        0
    } else {
        shelter_upto(b, c, k, lo, f - 1) + file_shelter(b, c, k, f - 1)
    }
}

/// Pawn shelter of the king of `c` on `k` (midgame): the shelter from its own
/// file and the files beside it, then 18 off when no pawn at all stands on its
/// file, or 9 when only enemy pawns do.
pub open spec fn shelter_of(b: Seq<u8>, c: Color, k: int) -> int {
    let kf = file_of(k);
    let lo = if kf > 0 {
        kf - 1
    } else {
        0
    };
    let hi = if kf + 1 < 7 {
        kf + 1
    } else {
        7
    };
    shelter_upto(b, c, k, lo, hi + 1) + if pawn_on_file(b, c, kf) {
        0int
    } else if pawn_on_file(b, opposite(c), kf) {
        -9int
    } else {
        -18int
    }
}

proof fn lemma_nearest_unique(b: Seq<u8>, c: Color, k: int, f: int, d: int)
    requires
        nearest_shield(b, c, k, f, d),
    ensures
        file_shelter(b, c, k, f) == -(d - 1) * 7,
{
    assert(shield_at(b, c, k, f, d));
    let e = choose|e: int| nearest_shield(b, c, k, f, e);
    assert(nearest_shield(b, c, k, f, e));
    if e < d {
        assert(!shield_at(b, c, k, f, e));
    } else if d < e {
        assert(!shield_at(b, c, k, f, d));
    }
}

/// The nearest shield pawn found as the lowest (White) or highest (Black)
/// member of the shield squares on file `f`.
proof fn lemma_nearest(b: Seq<u8>, c: Color, k: int, f: int, shield: u64, r: int)
    requires
        0 <= k < 64,
        0 <= f < 8,
        forall|x: int| #[trigger] mem(shield, x) == (0 <= x < 64 && file_of(x) == f && ahead_of(c, k, x)
            && holds(b, x, c, PieceType::Pawn)),
        mem(shield, r),
        c == Color::White ==> forall|t: int| 0 <= t < r ==> !#[trigger] mem(shield, t),
        c == Color::Black ==> forall|t: int| r < t < 64 ==> !#[trigger] mem(shield, t),
    ensures
        file_shelter(b, c, k, f) == -((if rank_of(r) >= rank_of(k) {
            rank_of(r) - rank_of(k)
        } else {
            rank_of(k) - rank_of(r)
        }) - 1) * 7,
{
    let d = if c == Color::White {
        rank_of(r) - rank_of(k)
    } else {
        rank_of(k) - rank_of(r)
    };
    assert(0 <= r < 64);
    assert(shield_sq(c, k, f, d) == r);
    assert(shield_at(b, c, k, f, d));
    assert forall|e: int| 1 <= e < d implies !#[trigger] shield_at(b, c, k, f, e) by {
        let x = shield_sq(c, k, f, e);
        if shield_at(b, c, k, f, e) {
            assert(file_of(x) == f);
            assert(mem(shield, x));
        }
    }
    lemma_nearest_unique(b, c, k, f, d);
}

/// No shield pawn on file `f`.
proof fn lemma_no_shield(b: Seq<u8>, c: Color, k: int, f: int, shield: u64)
    requires
        0 <= k < 64,
        0 <= f < 8,
        forall|x: int| #[trigger] mem(shield, x) == (0 <= x < 64 && file_of(x) == f && ahead_of(c, k, x)
            && holds(b, x, c, PieceType::Pawn)),
        shield == 0,
    ensures
        file_shelter(b, c, k, f) == -21,
{
    crate::bitboard::lemma_nonzero_iff(shield);
    if exists|d: int| #[trigger] shield_at(b, c, k, f, d) {
        let d = choose|d: int| #[trigger] shield_at(b, c, k, f, d);
        let x = shield_sq(c, k, f, d);
        assert(file_of(x) == f);
        assert(mem(shield, x));
    }
}

/// Pawn shelter and file openness in front of our king (midgame only).
fn shelter(color: Color, king: Square, us_pawns: u64, them_pawns: u64, Ghost(b): Ghost<Seq<u8>>) -> (r: i32)
    requires
        king.0 < 64,
        forall|x: int| #[trigger] mem(us_pawns, x) == (0 <= x < 64 && holds(b, x, color, PieceType::Pawn)),
        forall|x: int| #[trigger] mem(them_pawns, x) == (0 <= x < 64 && holds(b, x, opposite(color), PieceType::Pawn)),
    ensures
        -200 <= r <= 30,
        r == shelter_of(b, color, king.0 as int),
{
    let p = params();
    let kf = king.file();
    let lo = if kf > 0 {
        kf - 1
    } else {
        0
    };
    let hi = if kf + 1 < 7 {
        kf + 1
    } else {
        7
    };
    let ahead = ahead_bb(color, king).0;
    let mut total: i32 = 0;
    let mut f = lo;
    while f <= hi
        invariant
            p == weights(),
            king.0 < 64,
            lo <= f <= hi + 1,
            hi <= 7,
            hi <= lo + 2,
            -42 * (f - lo) <= total <= 7 * (f - lo),
            lo == (if file_of(king.0 as int) > 0 { file_of(king.0 as int) - 1 } else { 0 }),
            hi == (if file_of(king.0 as int) + 1 < 7 { file_of(king.0 as int) + 1 } else { 7 }),
            total == shelter_upto(b, color, king.0 as int, lo as int, f as int),
            forall|x: int| #[trigger] mem(ahead, x) == ahead_of(color, king.0 as int, x),
            forall|x: int| #[trigger] mem(us_pawns, x) == (0 <= x < 64 && holds(b, x, color, PieceType::Pawn)),
        decreases hi + 1 - f,
    {
        let shield = Bitboard(file_bb(f).0 & us_pawns & ahead);
        proof {
            assert forall|x: int| #[trigger] mem(shield.0, x) == (0 <= x < 64 && file_of(x) == f && ahead_of(
                color,
                king.0 as int,
                x,
            ) && holds(b, x, color, PieceType::Pawn)) by {
                if 0 <= x < 64 {
                    lemma_masks(x);
                }
            }
        }
        if shield.is_empty() {
            proof {
                lemma_no_shield(b, color, king.0 as int, f as int, shield.0);
            }
            total = total - p.shelter_missing;
        } else {
            let nearest = if color == Color::White {
                Square(shield.lsb())
            } else {
                Square(shield.msb())
            };
            proof {
                lemma_nearest(b, color, king.0 as int, f as int, shield.0, nearest.0 as int);
            }
            let nr = nearest.rank() as i32;
            let kr = king.rank() as i32;
            let dist = if nr >= kr {
                nr - kr
            } else {
                kr - nr
            };
            proof {
                assert(-7 <= (dist - 1) * 7 <= 42) by (nonlinear_arith)
                    requires
                        0 <= dist <= 7;
            }
            total = total - (dist - 1) * p.shelter_far;
        }
        f = f + 1;
    }
    let kfile = file_bb(kf).0;
    proof {
        let ku = kfile & us_pawns;
        let kt = kfile & them_pawns;
        crate::bitboard::lemma_nonzero_iff(ku);
        crate::bitboard::lemma_nonzero_iff(kt);
        assert forall|x: int| 0 <= x < 64 implies #[trigger] mem(ku, x) == (file_of(x) == kf && holds(b, x, color, PieceType::Pawn)) by {
            lemma_masks(x);
        }
        assert forall|x: int| 0 <= x < 64 implies #[trigger] mem(kt, x) == (file_of(x) == kf && holds(b, x, opposite(color), PieceType::Pawn)) by {
            lemma_masks(x);
        }
        if pawn_on_file(b, color, kf as int) {
            let x = choose|x: int| 0 <= x < 64 && file_of(x) == kf && #[trigger] holds(b, x, color, PieceType::Pawn);
            assert(mem(ku, x));
        }
        if pawn_on_file(b, opposite(color), kf as int) {
            let x = choose|x: int| 0 <= x < 64 && file_of(x) == kf && #[trigger] holds(b, x, opposite(color), PieceType::Pawn);
            assert(mem(kt, x));
        }
    }
    if (kfile & us_pawns) == 0 {
        total = total - if (kfile & them_pawns) == 0 {
            p.king_file_open
        } else {
            p.king_file_semi_open
        };
    }
    total
}

/// Central squares (files c to f) on ranks two to four from `c`'s side that hold
/// no pawn of `c` and no enemy pawn attacks.
pub open spec fn space_sq(b: Seq<u8>, c: Color, x: int) -> bool {
    &&& 0 <= x < 64
    &&& 2 <= file_of(x) <= 5
    &&& 1 <= rel_rank_of(c, x) <= 3
    &&& !holds(b, x, c, PieceType::Pawn)
    &&& !pawn_att(b, opposite(c), x)
}

/// Space of `c`: three points per safe central square on its side (midgame only).
pub open spec fn space_score(b: Seq<u8>, c: Color) -> int {
    3 * count_sq(|x: int| space_sq(b, c, x), 64)
}

/// Safe central squares on our half of the board (midgame only).
fn space(us: usize, us_pawns: u64, pawn_att_them: u64, Ghost(b): Ghost<Seq<u8>>) -> (r: i32)
    requires
        us < 2,
        b.len() == 64,
        forall|x: int| #[trigger] mem(us_pawns, x) == (0 <= x < 64 && holds(b, x, side_color(us as int), PieceType::Pawn)),
        forall|x: int| #[trigger] mem(pawn_att_them, x) == pawn_att(b, opposite(side_color(us as int)), x),
    ensures
        0 <= r <= 192,
        r == space_score(b, side_color(us as int)),
{
    let p = params();
    let area = Bitboard(CENTER_FILES & SPACE_RANKS[us] & !us_pawns & !pawn_att_them);
    proof {
        let c = side_color(us as int);
        assert forall|x: int| 0 <= x < 64 implies #[trigger] mem(area.0, x) == space_sq(b, c, x) by {
            lemma_masks(x);
        }
        lemma_popcount_sq(area.0, |x: int| space_sq(b, c, x), 64);
    }
    p.space * area.count() as i32
}

// -- threats and king danger ------------------------------------------------------------

/// Enemy pieces of type index `t` that a pawn of `c` attacks.
pub open spec fn pawn_threats(b: Seq<u8>, c: Color, t: int) -> int {
    count_sq(|x: int| holds(b, x, opposite(c), pt_of(t)) && pawn_att(b, c, x), 64)
}

/// Enemy pieces of type index `t` that a knight or bishop of `c` attacks and no
/// enemy pawn defends.
pub open spec fn minor_threats(b: Seq<u8>, c: Color, t: int) -> int {
    count_sq(|x: int| holds(b, x, opposite(c), pt_of(t)) && minor_att(b, c, x) && !pawn_att(b, opposite(c), x), 64)
}

/// Threat bonus of `c` against enemy pieces of type index `t` (knight to queen),
/// midgame (`mg`) or endgame.
pub open spec fn threat_term(b: Seq<u8>, c: Color, t: int, mg: bool) -> int {
    if 1 <= t <= 4 {
        if mg {
            weights().pawn_threat[t].0 * pawn_threats(b, c, t) + weights().minor_threat[t].0 * minor_threats(b, c, t)
        } else {
            weights().pawn_threat[t].1 * pawn_threats(b, c, t) + weights().minor_threat[t].1 * minor_threats(b, c, t)
        }
    } else {
        0
    }
}

/// Threats of `c`: midgame and endgame totals over the enemy's knights to queens.
pub open spec fn threat_score(b: Seq<u8>, c: Color) -> (int, int) {
    (sum_to(|t: int| threat_term(b, c, t, true), 5), sum_to(|t: int| threat_term(b, c, t, false), 5))
}

/// Pawn and minor-piece threats of one side against the enemy's pieces.
fn threats(pos: &Position, them: Color, pawn_att_us: u64, minor_att_us: u64, pawn_att_them: u64) -> (r: Score)
    requires
        pos.wf(),
        forall|x: int| #[trigger] mem(pawn_att_us, x) == pawn_att(pos@.board, opposite(them), x),
        forall|x: int| #[trigger] mem(minor_att_us, x) == minor_att(pos@.board, opposite(them), x),
        forall|x: int| #[trigger] mem(pawn_att_them, x) == pawn_att(pos@.board, them, x),
    ensures
        within(r, 0, 26_112),
        score_pair(r) == threat_score(pos@.board, opposite(them)),
{
    let ghost b = pos@.board;
    let ghost us = opposite(them);
    proof {
        assert(opposite(us) == them);
    }
    let p = params();
    let mut acc = Score { mg: 0, eg: 0 };
    let mut pti: usize = 1;
    proof {
        reveal_with_fuel(sum_to, 2);
    }
    while pti <= 4
        invariant
            pos.wf(),
            b == pos@.board,
            us == opposite(them),
            them == opposite(us),
            forall|x: int| #[trigger] mem(pawn_att_us, x) == pawn_att(b, us, x),
            forall|x: int| #[trigger] mem(minor_att_us, x) == minor_att(b, us, x),
            forall|x: int| #[trigger] mem(pawn_att_them, x) == pawn_att(b, them, x),
            p == weights(),
            1 <= pti <= 5,
            within(acc, 0, 6_528 * (pti - 1)),
            acc.mg == sum_to(|t: int| threat_term(b, us, t, true), pti as int),
            acc.eg == sum_to(|t: int| threat_term(b, us, t, false), pti as int),
        decreases 5 - pti,
    {
        let targets = pos.pieces(them, PieceType::from_index(pti)).0;
        let by_pawn = Bitboard(targets & pawn_att_us).count() as i32;
        let by_minor = Bitboard(targets & minor_att_us & !pawn_att_them).count() as i32;
        proof {
            let t = pti as int;
            lemma_popcount_sq(targets & pawn_att_us, |x: int| holds(b, x, opposite(us), pt_of(t)) && pawn_att(b, us, x), 64);
            lemma_popcount_sq(
                targets & minor_att_us & !pawn_att_them,
                |x: int| holds(b, x, opposite(us), pt_of(t)) && minor_att(b, us, x) && !pawn_att(b, opposite(us), x),
                64,
            );
            assert(by_pawn == pawn_threats(b, us, t));
            assert(by_minor == minor_threats(b, us, t));
        }
        let (pm, pe) = p.pawn_threat[pti];
        let (mm, me) = p.minor_threat[pti];
        proof {
            assert(0 <= pm <= 60 && 0 <= pe <= 40 && 0 <= mm <= 42 && 0 <= me <= 28) by {
                if pti == 1 {
                } else if pti == 2 {
                } else if pti == 3 {
                } else {
                }
            }
        }
        if by_pawn > 0 {
            proof {
                assert(0 <= pm * by_pawn <= 3_840 && 0 <= pe * by_pawn <= 3_840) by (nonlinear_arith)
                    requires
                        0 <= pm <= 60,
                        0 <= pe <= 40,
                        0 <= by_pawn <= 64;
            }
            acc.add(pm * by_pawn, pe * by_pawn);
        }
        // Minor threats only count targets not protected by a pawn.
        if by_minor > 0 {
            proof {
                assert(0 <= mm * by_minor <= 2_688 && 0 <= me * by_minor <= 2_688) by (nonlinear_arith)
                    requires
                        0 <= mm <= 42,
                        0 <= me <= 28,
                        0 <= by_minor <= 64;
            }
            acc.add(mm * by_minor, me * by_minor);
        }
        pti = pti + 1;
    }
    acc
}

/// King danger (midgame, endgame) from `units` attack units brought by
/// `attackers` pieces against a king: none with fewer than two attackers or no
/// units; else the square of the units (halved first when the attacker has no
/// queen) over twelve, at most five hundred, and a quarter of that in the endgame.
pub open spec fn danger_of(units: int, attackers: int, enemy_has_queen: bool) -> (int, int) {
    if attackers >= 2 && units > 0 {
        let u = if enemy_has_queen {
            units
        } else {
            units / 2
        };
        let d = if u * u / 12 < 500 {
            u * u / 12
        } else {
            500
        };
        (-d, -(d / 4))
    } else {
        (0, 0)
    }
}

/// King danger from the attack units gathered against a king (quadratic,
/// mainly midgame); none with fewer than two attackers.
fn king_danger(units: i32, attackers: i32, enemy_has_queen: bool) -> (r: Score)
    requires
        0 <= units <= 20_480,
    ensures
        within(r, -500, 0),
        score_pair(r) == danger_of(units as int, attackers as int, enemy_has_queen),
{
    let p = params();
    let mut u = units;
    if attackers >= 2 && u > 0 {
        // Without a queen the attack is far less dangerous.
        if !enemy_has_queen {
            u = u / 2;
        }
        proof {
            assert(0 <= u * u <= 20_480 * 20_480) by (nonlinear_arith)
                requires
                    0 <= u <= 20_480;
        }
        let sq = u * u / p.king_danger_div;
        let danger = if sq < p.king_danger_max {
            sq
        } else {
            p.king_danger_max
        };
        Score { mg: -danger, eg: -danger / 4 }
    } else {
        Score { mg: 0, eg: 0 }
    }
}

// -- the whole evaluation -------------------------------------------------------------------

/// Color of side index `i`.
pub open spec fn side_color(i: int) -> Color {
    if i == 0 {
        Color::White
    } else {
        Color::Black
    }
}

/// Bishop-pair bonus of color `c`.
pub open spec fn bishop_pair_bonus(b: Seq<u8>, c: Color) -> Score {
    let code = piece_code(c, PieceType::Bishop) as u8;
    if crate::position::sq_count(b, code, code, 64) >= 2 {
        Score { mg: 22, eg: 38 }
    } else {
        Score { mg: 0, eg: 0 }
    }
}

/// Every entry is small enough for the score arithmetic.
pub open spec fn terms_bounded(t: Terms) -> bool {
    &&& forall|i: int, c: int| 0 <= i < 11 && 0 <= c < 2 ==> within(#[trigger] t.v[i][c], -100_000, 100_000)
    &&& 0 <= t.phase <= 512
}

/// Pawn structure of `c` (midgame, endgame): doubled pawns file by file, and the
/// isolated and backward pawns.
pub open spec fn structure_score(b: Seq<u8>, c: Color) -> (int, int) {
    (
        sum_to(|f: int| doubled_term(b, c, f, true), 8) + sum_to(pawn_sq_struct(b, c, true), 64),
        sum_to(|f: int| doubled_term(b, c, f, false), 8) + sum_to(pawn_sq_struct(b, c, false), 64),
    )
}

/// Passed pawns of `c` (midgame, endgame).
pub open spec fn passed_score(b: Seq<u8>, c: Color) -> (int, int) {
    (
        sum_to(pawn_sq_passed(b, c, king_sq(b, c), king_sq(b, opposite(c)), true), 64),
        sum_to(pawn_sq_passed(b, c, king_sq(b, c), king_sq(b, opposite(c)), false), 64),
    )
}

/// `c` has a queen on the board.
pub open spec fn has_queen(b: Seq<u8>, c: Color) -> bool {
    exists|s: int| 0 <= s < 64 && #[trigger] holds(b, s, c, PieceType::Queen)
}

/// King safety of `c` (midgame, endgame): the pawn shelter of its king, and the
/// danger from the attack units that the enemy's pieces bring against its zone.
pub open spec fn king_safety_score(b: Seq<u8>, c: Color) -> (int, int) {
    let k = king_sq(b, c);
    let e = opposite(c);
    let d = danger_of(activity_total(b, e, k, 8), activity_total(b, e, k, 9), has_queen(b, e));
    (shelter_of(b, c, k) + d.0, d.1)
}

/// The square of the king of `c` (the lowest one, should there be several).
pub open spec fn king_sq(b: Seq<u8>, c: Color) -> int {
    choose|k: int| crate::legal::lowest_king(b, c, k)
}

/// The two halves of a score.
pub open spec fn score_pair(s: Score) -> (int, int) {
    (s.mg as int, s.eg as int)
}

/// Activity terms of kinds `kind` and `kind + 1` (midgame, endgame) of `c`.
pub open spec fn activity_score(b: Seq<u8>, c: Color, kind: int) -> (int, int) {
    (
        activity_total(b, c, king_sq(b, opposite(c)), kind),
        activity_total(b, c, king_sq(b, opposite(c)), kind + 1),
    )
}

/// What the evaluation states of the terms of a position: the material, square
/// bonuses, phase, bishop pair, rook files, rooks on the seventh, mobility,
/// knight outposts, pawn structure, passed pawns, threats, space and king safety
/// exactly.
pub open spec fn terms_of(v: PosView, t: Terms) -> bool {
    &&& t.phase == phase_of(v.board, Color::White) + phase_of(v.board, Color::Black)
    &&& forall|c: int| 0 <= c < 2 ==> #[trigger] t.v[T_MATERIAL as int][c].mg == material_mg(v.board, side_color(c))
        && t.v[T_MATERIAL as int][c].eg == material_eg(v.board, side_color(c))
    &&& forall|c: int| 0 <= c < 2 ==> #[trigger] t.v[T_BISHOP_PAIR as int][c] == bishop_pair_bonus(v.board, side_color(c))
    &&& forall|c: int| 0 <= c < 2 ==> score_pair(#[trigger] t.v[T_MOBILITY as int][c])
        == activity_score(v.board, side_color(c), 0)
    &&& forall|c: int| 0 <= c < 2 ==> score_pair(#[trigger] t.v[T_OUTPOST as int][c])
        == activity_score(v.board, side_color(c), 2)
    &&& forall|c: int| 0 <= c < 2 ==> score_pair(#[trigger] t.v[T_ROOK_FILES as int][c])
        == activity_score(v.board, side_color(c), 4)
    &&& forall|c: int| 0 <= c < 2 ==> score_pair(#[trigger] t.v[T_ROOK_7TH as int][c])
        == activity_score(v.board, side_color(c), 6)
    &&& forall|c: int| 0 <= c < 2 ==> score_pair(#[trigger] t.v[T_PAWN_STRUCT as int][c]) == structure_score(
        v.board,
        side_color(c),
    )
    &&& forall|c: int| 0 <= c < 2 ==> score_pair(#[trigger] t.v[T_PASSED as int][c]) == passed_score(
        v.board,
        side_color(c),
    )
    &&& forall|c: int| 0 <= c < 2 ==> score_pair(#[trigger] t.v[T_THREATS as int][c]) == threat_score(
        v.board,
        side_color(c),
    )
    &&& forall|c: int| 0 <= c < 2 ==> score_pair(#[trigger] t.v[T_KING_SAFETY as int][c]) == king_safety_score(
        v.board,
        side_color(c),
    )
    &&& forall|c: int| 0 <= c < 2 ==> score_pair(#[trigger] t.v[T_SPACE as int][c]) == (space_score(
        v.board,
        side_color(c),
    ), 0int)
    &&& terms_bounded(t)
}

/// The position can be evaluated: both kings present, no pawn on its far rank.
pub open spec fn evaluable(v: PosView) -> bool {
    &&& has_king(v.board, Color::White)
    &&& has_king(v.board, Color::Black)
    &&& crate::movegen::pawns_on_board(v.board)
}

proof fn lemma_net_bounds(v: [[Score; 2]; 11], n: int)
    requires
        0 <= n <= 11,
        forall|i: int, c: int| 0 <= i < 11 && 0 <= c < 2 ==> within(#[trigger] v[i][c], -100_000, 100_000),
    ensures
        -200_000 * n <= net_mg(v, n) <= 200_000 * n,
        -200_000 * n <= net_eg(v, n) <= 200_000 * n,
    decreases n,
{
    if n > 0 {
        lemma_net_bounds(v, n - 1);
        assert(within(v[n - 1][0], -100_000, 100_000));
        assert(within(v[n - 1][1], -100_000, 100_000));
    }
}

proof fn lemma_score_fits(t: Terms)
    requires
        terms_bounded(t),
    ensures
        score_fits(t),
{
    assert forall|n: int| 0 <= n <= 11 implies fits_i32(#[trigger] net_mg(t.v, n)) && fits_i32(net_eg(t.v, n)) by {
        lemma_net_bounds(t.v, n);
    }
    assert forall|i: int| #![trigger t.v[i]] 0 <= i < 11 implies fits_i32(t.v[i][0].mg - t.v[i][1].mg)
        && fits_i32(t.v[i][0].eg - t.v[i][1].eg) by {
        assert(within(t.v[i][0], -100_000, 100_000));
        assert(within(t.v[i][1], -100_000, 100_000));
    }
    lemma_net_bounds(t.v, 11);
    let mg_phase = if t.phase < 24 { t.phase as int } else { 24 };
    let a = net_mg(t.v, 11);
    let e = net_eg(t.v, 11);
    assert(-52_800_000 <= a * mg_phase <= 52_800_000) by (nonlinear_arith)
        requires
            -2_200_000 <= a <= 2_200_000,
            0 <= mg_phase <= 24;
    assert(-52_800_000 <= e * (24 - mg_phase) <= 52_800_000) by (nonlinear_arith)
        requires
            -2_200_000 <= e <= 2_200_000,
            0 <= 24 - mg_phase <= 24;
}

/// Everything one side collects before the cross-side terms.
struct SideTerms {
    pieces: PieceSums,
    bishop_pair: Score,
    structure: Score,
    passed: Score,
    shelter: i32,
    space: i32,
}

fn side_terms(
    pos: &Position,
    color: Color,
    us: usize,
    us_pawns: Bitboard,
    them_pawns: Bitboard,
    pawn_att_us: u64,
    pawn_att_them: u64,
    own_king: Square,
    enemy_king: Square,
    enemy_zone: u64,
    occ: u64,
) -> (r: SideTerms)
    requires
        pos.wf(),
        evaluable(pos@),
        us < 2,
        color == side_color(us as int),
        forall|s: int| #[trigger] mem(us_pawns.0, s) == (0 <= s < 64 && holds(pos@.board, s, color, PieceType::Pawn)),
        forall|x: int| #[trigger] mem(them_pawns.0, x) == (0 <= x < 64 && holds(pos@.board, x, opposite(color), PieceType::Pawn)),
        forall|x: int| #[trigger] mem(pawn_att_us, x) == pawn_att(pos@.board, color, x),
        forall|x: int| #[trigger] mem(pawn_att_them, x) == pawn_att(pos@.board, opposite(color), x),
        own_king.0 < 64,
        enemy_king.0 < 64,
        occ == occ_of(pos@.board),
        forall|x: int| #[trigger] mem(enemy_zone, x) == zone_of(opposite(color), enemy_king.0 as int, x),
    ensures
        forall|kind: int| 0 <= kind < 10 ==> #[trigger] acc_kind(r.pieces, kind) == activity_total(pos@.board, color, enemy_king.0 as int, kind),
        r.pieces.material.mg == material_mg(pos@.board, color),
        r.pieces.material.eg == material_eg(pos@.board, color),
        r.pieces.phase == phase_of(pos@.board, color),
        within(r.pieces.material, -80_000, 80_000),
        0 <= r.pieces.phase <= 256,
        activity_within(r.pieces, 64),
        r.bishop_pair == bishop_pair_bonus(pos@.board, color),
        within(r.structure, -21_408, 0),
        -6_272 <= r.passed.mg <= 6_272,
        -3_136 <= r.passed.eg <= 17_024,
        -200 <= r.shelter <= 30,
        r.shelter == shelter_of(pos@.board, color, own_king.0 as int),
        0 <= r.space <= 192,
        r.space == space_score(pos@.board, color),
        score_pair(r.structure) == structure_score(pos@.board, color),
        score_pair(r.passed) == (
            sum_to(pawn_sq_passed(pos@.board, color, own_king.0 as int, enemy_king.0 as int, true), 64),
            sum_to(pawn_sq_passed(pos@.board, color, own_king.0 as int, enemy_king.0 as int, false), 64),
        ),
        forall|x: int| #[trigger] mem(r.pieces.minor_att, x) == minor_att(pos@.board, color, x),
{
    let p = params();
    let own = pos.color_pieces(color).0;
    // Squares that count for mobility: not ours, not held by an enemy pawn.
    let mob_area = !own & !pawn_att_them;
    proof {
        assert forall|x: int| #[trigger] mem(mob_area, x) == mob_safe(pos@.board, color, x) by {}
    }
    let pieces = piece_loop(
        pos,
        color,
        occ,
        mob_area,
        enemy_zone,
        pawn_att_us,
        us_pawns.0,
        them_pawns.0,
        enemy_king,
    );
    // Bishop pair.
    let bishops = pos.pieces(color, PieceType::Bishop);
    let nb = bishops.count();
    proof {
        let code = piece_code(color, PieceType::Bishop) as u8;
        crate::position::lemma_popcount_count(bishops.0, pos@.board, code, code, 64);
    }
    let bishop_pair = if nb >= 2 {
        Score { mg: p.bishop_pair.0, eg: p.bishop_pair.1 }
    } else {
        Score { mg: 0, eg: 0 }
    };
    // Pawn structure and passed pawns.
    let doubled = doubled_pawns(us_pawns.0, Ghost(pos@.board), Ghost(color));
    let (st, passed) = pawn_loop(
        pos,
        color,
        us_pawns,
        them_pawns.0,
        pawn_att_us,
        pawn_att_them,
        own_king,
        enemy_king,
    );
    let structure = Score { mg: doubled.mg + st.mg, eg: doubled.eg + st.eg };
    let sh = shelter(color, own_king, us_pawns.0, them_pawns.0, Ghost(pos@.board));
    proof {
        pos.lemma_wf();
    }
    let sp = space(us, us_pawns.0, pawn_att_them, Ghost(pos@.board));
    SideTerms { pieces, bishop_pair, structure, passed, shelter: sh, space: sp }
}

/// Per-term, per-color scores of a position.
#[verifier::rlimit(50)]
pub fn eval_terms(pos: &Position) -> (r: Terms)
    requires
        pos.wf(),
        evaluable(pos@),
    ensures
        terms_of(pos@, r),
{
    let occ = pos.occupied().0;
    proof {
        pos.lemma_wf();
        crate::position::lemma_occ_upto(pos@.board, 64);
        crate::bitboard::lemma_bits_ext(occ, occ_of(pos@.board));
    }
    let pw = pos.pieces(Color::White, PieceType::Pawn);
    let pb = pos.pieces(Color::Black, PieceType::Pawn);
    let paw = pawn_attacks_bb(Color::White, pw).0;
    let pab = pawn_attacks_bb(Color::Black, pb).0;
    proof {
        assert forall|x: int| #[trigger] mem(paw, x) == pawn_att(pos@.board, Color::White, x) by {}
        assert forall|x: int| #[trigger] mem(pab, x) == pawn_att(pos@.board, Color::Black, x) by {}
    }
    let kw = pos.king_square(Color::White);
    let kb = pos.king_square(Color::Black);
    proof {
        let b = pos@.board;
        assert(crate::legal::lowest_king(b, Color::White, kw.0 as int));
        assert(crate::legal::lowest_king(b, Color::Black, kb.0 as int));
        let w = king_sq(b, Color::White);
        let k = king_sq(b, Color::Black);
        assert(crate::legal::lowest_king(b, Color::White, w));
        assert(crate::legal::lowest_king(b, Color::Black, k));
        assert(w == kw.0 as int) by {
            if w < kw.0 {
                assert(!holds(b, w, Color::White, PieceType::King));
            } else if w > kw.0 {
                assert(!holds(b, kw.0 as int, Color::White, PieceType::King));
            }
        }
        assert(k == kb.0 as int) by {
            if k < kb.0 {
                assert(!holds(b, k, Color::Black, PieceType::King));
            } else if k > kb.0 {
                assert(!holds(b, kb.0 as int, Color::Black, PieceType::King));
            }
        }
    }
    // King zone: the king and its ring, extended one rank toward the enemy.
    let wz0 = king_attacks(kw.0) | Bitboard::from_square(kw.0).0;
    let bz0 = king_attacks(kb.0) | Bitboard::from_square(kb.0).0;
    let wz = wz0 | Bitboard(wz0).shift_north().0;
    let bz = bz0 | Bitboard(bz0).shift_south().0;
    proof {
        assert forall|x: int| #[trigger] mem(wz0, x) == near_king(kw.0 as int, x) by {}
        assert forall|x: int| #[trigger] mem(bz0, x) == near_king(kb.0 as int, x) by {}
        assert forall|x: int| #[trigger] mem(wz, x) == zone_of(Color::White, kw.0 as int, x) by {}
        assert forall|x: int| #[trigger] mem(bz, x) == zone_of(Color::Black, kb.0 as int, x) by {}
    }
    let w = side_terms(pos, Color::White, 0, pw, pb, paw, pab, kw, kb, bz, occ);
    let b = side_terms(pos, Color::Black, 1, pb, pw, pab, paw, kb, kw, wz, occ);
    // King danger from the units gathered against each king.
    let bq = pos.pieces(Color::Black, PieceType::Queen);
    let wq = pos.pieces(Color::White, PieceType::Queen);
    proof {
        crate::bitboard::lemma_nonzero_iff(bq.0);
        crate::bitboard::lemma_nonzero_iff(wq.0);
        if has_queen(pos@.board, Color::Black) {
            let s = choose|s: int| 0 <= s < 64 && #[trigger] holds(pos@.board, s, Color::Black, PieceType::Queen);
            assert(mem(bq.0, s));
        }
        if has_queen(pos@.board, Color::White) {
            let s = choose|s: int| 0 <= s < 64 && #[trigger] holds(pos@.board, s, Color::White, PieceType::Queen);
            assert(mem(wq.0, s));
        }
        assert(acc_kind(b.pieces, 8) == activity_total(pos@.board, Color::Black, kw.0 as int, 8));
        assert(acc_kind(b.pieces, 9) == activity_total(pos@.board, Color::Black, kw.0 as int, 9));
        assert(acc_kind(w.pieces, 8) == activity_total(pos@.board, Color::White, kb.0 as int, 8));
        assert(acc_kind(w.pieces, 9) == activity_total(pos@.board, Color::White, kb.0 as int, 9));
    }
    let dw = king_danger(b.pieces.units, b.pieces.attackers, bq.any());
    let db = king_danger(w.pieces.units, w.pieces.attackers, wq.any());
    // Threats need both sides' attack maps.
    let tw = threats(pos, Color::Black, paw, w.pieces.minor_att, pab);
    let tb = threats(pos, Color::White, pab, b.pieces.minor_att, paw);
    let r = Terms {
        v: [
            [w.pieces.material, b.pieces.material],
            [w.bishop_pair, b.bishop_pair],
            [w.pieces.rook_files, b.pieces.rook_files],
            [w.pieces.rook_7th, b.pieces.rook_7th],
            [w.pieces.mobility, b.pieces.mobility],
            [Score { mg: w.shelter + dw.mg, eg: dw.eg }, Score { mg: b.shelter + db.mg, eg: db.eg }],
            [w.structure, b.structure],
            [w.passed, b.passed],
            [w.pieces.outpost, b.pieces.outpost],
            [tw, tb],
            [Score { mg: w.space, eg: 0 }, Score { mg: b.space, eg: 0 }],
        ],
        phase: w.pieces.phase + b.pieces.phase,
    };
    proof {
        assert forall|i: int, c: int| 0 <= i < 11 && 0 <= c < 2 implies within(#[trigger] r.v[i][c], -100_000, 100_000) by {}
        assert forall|c: int| 0 <= c < 2 implies #[trigger] r.v[T_MATERIAL as int][c].mg == material_mg(pos@.board, side_color(c))
            && r.v[T_MATERIAL as int][c].eg == material_eg(pos@.board, side_color(c)) by {}
        assert forall|c: int| 0 <= c < 2 implies #[trigger] r.v[T_BISHOP_PAIR as int][c] == bishop_pair_bonus(pos@.board, side_color(c)) by {}
        assert(acc_kind(w.pieces, 0) == activity_total(pos@.board, Color::White, kb.0 as int, 0));
        assert(acc_kind(w.pieces, 1) == activity_total(pos@.board, Color::White, kb.0 as int, 1));
        assert(acc_kind(w.pieces, 2) == activity_total(pos@.board, Color::White, kb.0 as int, 2));
        assert(acc_kind(w.pieces, 3) == activity_total(pos@.board, Color::White, kb.0 as int, 3));
        assert(acc_kind(w.pieces, 4) == activity_total(pos@.board, Color::White, kb.0 as int, 4));
        assert(acc_kind(w.pieces, 5) == activity_total(pos@.board, Color::White, kb.0 as int, 5));
        assert(acc_kind(w.pieces, 6) == activity_total(pos@.board, Color::White, kb.0 as int, 6));
        assert(acc_kind(w.pieces, 7) == activity_total(pos@.board, Color::White, kb.0 as int, 7));
        assert(acc_kind(b.pieces, 0) == activity_total(pos@.board, Color::Black, kw.0 as int, 0));
        assert(acc_kind(b.pieces, 1) == activity_total(pos@.board, Color::Black, kw.0 as int, 1));
        assert(acc_kind(b.pieces, 2) == activity_total(pos@.board, Color::Black, kw.0 as int, 2));
        assert(acc_kind(b.pieces, 3) == activity_total(pos@.board, Color::Black, kw.0 as int, 3));
        assert(acc_kind(b.pieces, 4) == activity_total(pos@.board, Color::Black, kw.0 as int, 4));
        assert(acc_kind(b.pieces, 5) == activity_total(pos@.board, Color::Black, kw.0 as int, 5));
        assert(acc_kind(b.pieces, 6) == activity_total(pos@.board, Color::Black, kw.0 as int, 6));
        assert(acc_kind(b.pieces, 7) == activity_total(pos@.board, Color::Black, kw.0 as int, 7));
    }
    r
}

/// Full static evaluation in centipawns, from the side to move's point of view.
pub fn evaluate(pos: &Position) -> (r: i32)
    requires
        pos.wf(),
        evaluable(pos@),
    ensures
        exists|t: Terms| #[trigger] terms_of(pos@, t) && r == terms_score(t, pos@.side),
{
    let t = eval_terms(pos);
    proof {
        lemma_score_fits(t);
    }
    t.score(pos.side_to_move())
}


/// Static evaluation in centipawns from White's point of view.
pub fn white_eval(pos: &Position) -> (r: i32)
    requires
        pos.wf(),
        evaluable(pos@),
    ensures
        exists|t: Terms| #[trigger]
            terms_of(pos@, t) && r == tapered(t) + (if pos@.side == Color::White {
                14int
            } else {
                -14int
            }),
{
    let t = eval_terms(pos);
    proof {
        lemma_score_fits(t);
    }
    let s = t.score(pos.side_to_move());
    match pos.side_to_move() {
        Color::White => s,
        Color::Black => -s,
    }
}

/// Can the position be evaluated: both kings on the board and no pawn on a
/// back rank?
pub fn can_evaluate(pos: &Position) -> (r: bool)
    requires
        pos.wf(),
    ensures
        r == evaluable(pos@),
{
    let wk = pos.pieces(Color::White, PieceType::King);
    let bk = pos.pieces(Color::Black, PieceType::King);
    proof {
        crate::bitboard::lemma_nonzero_iff(wk.0);
        crate::bitboard::lemma_nonzero_iff(bk.0);
        if has_king(pos@.board, Color::White) {
            let s = choose|s: int| 0 <= s < 64 && holds(pos@.board, s, Color::White, PieceType::King);
            assert(mem(wk.0, s));
        }
        if has_king(pos@.board, Color::Black) {
            let s = choose|s: int| 0 <= s < 64 && holds(pos@.board, s, Color::Black, PieceType::King);
            assert(mem(bk.0, s));
        }
    }
    wk.any() && bk.any() && crate::movegen::pawn_ranks_valid(pos)
}

// -- trace -----------------------------------------------------------------------------

/// Name of term `i` in the trace table.
pub open spec fn term_name(i: int) -> Seq<u8> {
    if i == 0 {
        seq![109u8, 97u8, 116u8, 101u8, 114u8, 105u8, 97u8, 108u8, 43u8, 112u8, 115u8, 116u8]
    } else if i == 1 {
        seq![98u8, 105u8, 115u8, 104u8, 111u8, 112u8, 32u8, 112u8, 97u8, 105u8, 114u8]
    } else if i == 2 {
        seq![114u8, 111u8, 111u8, 107u8, 32u8, 102u8, 105u8, 108u8, 101u8, 115u8]
    } else if i == 3 {
        seq![114u8, 111u8, 111u8, 107u8, 32u8, 111u8, 110u8, 32u8, 55u8, 116u8, 104u8]
    } else if i == 4 {
        seq![109u8, 111u8, 98u8, 105u8, 108u8, 105u8, 116u8, 121u8]
    } else if i == 5 {
        seq![107u8, 105u8, 110u8, 103u8, 32u8, 115u8, 97u8, 102u8, 101u8, 116u8, 121u8]
    } else if i == 6 {
        seq![112u8, 97u8, 119u8, 110u8, 32u8, 115u8, 116u8, 114u8, 117u8, 99u8, 116u8, 117u8, 114u8, 101u8]
    } else if i == 7 {
        seq![112u8, 97u8, 115u8, 115u8, 101u8, 100u8, 32u8, 112u8, 97u8, 119u8, 110u8, 115u8]
    } else if i == 8 {
        seq![111u8, 117u8, 116u8, 112u8, 111u8, 115u8, 116u8, 115u8]
    } else if i == 9 {
        seq![116u8, 104u8, 114u8, 101u8, 97u8, 116u8, 115u8]
    } else {
        seq![115u8, 112u8, 97u8, 99u8, 101u8]
    }
}

fn push_term_name(v: &mut Vec<u8>, i: usize)
    requires
        i < 11,
    ensures
        final(v)@ == old(v)@ + term_name(i as int),
{
    if i == 0 {
        push_all(v, &[109u8, 97u8, 116u8, 101u8, 114u8, 105u8, 97u8, 108u8, 43u8, 112u8, 115u8, 116u8]);
    } else if i == 1 {
        push_all(v, &[98u8, 105u8, 115u8, 104u8, 111u8, 112u8, 32u8, 112u8, 97u8, 105u8, 114u8]);
    } else if i == 2 {
        push_all(v, &[114u8, 111u8, 111u8, 107u8, 32u8, 102u8, 105u8, 108u8, 101u8, 115u8]);
    } else if i == 3 {
        push_all(v, &[114u8, 111u8, 111u8, 107u8, 32u8, 111u8, 110u8, 32u8, 55u8, 116u8, 104u8]);
    } else if i == 4 {
        push_all(v, &[109u8, 111u8, 98u8, 105u8, 108u8, 105u8, 116u8, 121u8]);
    } else if i == 5 {
        push_all(v, &[107u8, 105u8, 110u8, 103u8, 32u8, 115u8, 97u8, 102u8, 101u8, 116u8, 121u8]);
    } else if i == 6 {
        push_all(v, &[112u8, 97u8, 119u8, 110u8, 32u8, 115u8, 116u8, 114u8, 117u8, 99u8, 116u8, 117u8, 114u8, 101u8]);
    } else if i == 7 {
        push_all(v, &[112u8, 97u8, 115u8, 115u8, 101u8, 100u8, 32u8, 112u8, 97u8, 119u8, 110u8, 115u8]);
    } else if i == 8 {
        push_all(v, &[111u8, 117u8, 116u8, 112u8, 111u8, 115u8, 116u8, 115u8]);
    } else if i == 9 {
        push_all(v, &[116u8, 104u8, 114u8, 101u8, 97u8, 116u8, 115u8]);
    } else {
        push_all(v, &[115u8, 112u8, 97u8, 99u8, 101u8]);
    }
}

/// `n` spaces (none when `n` is not positive).
pub open spec fn spaces(n: int) -> Seq<u8> {
    Seq::new(if n > 0 { n as nat } else { 0 }, |i: int| 32u8)
}

/// `t` right-aligned in a field of width `w`.
pub open spec fn pad_left(t: Seq<u8>, w: int) -> Seq<u8> {
    spaces(w - t.len()) + t
}

/// `t` left-aligned in a field of width `w`.
pub open spec fn pad_right(t: Seq<u8>, w: int) -> Seq<u8> {
    t + spaces(w - t.len())
}

/// Two right-aligned cells after a column bar.
pub open spec fn cell_pair(a: Seq<u8>, b: Seq<u8>) -> Seq<u8> {
    seq![32u8, 124u8, 32u8] + pad_left(a, 6) + seq![32u8] + pad_left(b, 6)
}

/// One line of the trace table.
pub open spec fn trace_row(
    name: Seq<u8>,
    a: Seq<u8>,
    b: Seq<u8>,
    c: Seq<u8>,
    d: Seq<u8>,
    e: Seq<u8>,
    f: Seq<u8>,
) -> Seq<u8> {
    pad_right(name, 16) + cell_pair(a, b) + cell_pair(c, d) + cell_pair(e, f) + seq![10u8]
}

/// The line of term `i`.
pub open spec fn term_row(t: Terms, i: int) -> Seq<u8> {
    let w = t.v[i][0];
    let b = t.v[i][1];
    trace_row(
        term_name(i),
        int_text(w.mg as int),
        int_text(w.eg as int),
        int_text(b.mg as int),
        int_text(b.eg as int),
        int_text(w.mg - b.mg),
        int_text(w.eg - b.eg),
    )
}

/// The lines of the first `n` terms.
pub open spec fn term_rows(t: Terms, n: int) -> Seq<u8>
    decreases n,
{
    if n <= 0 {
        Seq::empty()
    } else {
        term_rows(t, n - 1) + term_row(t, n - 1)
    }
}

/// The text `trace` prints for terms `t`, side to move `stm` and final score `total`.
pub open spec fn trace_text(t: Terms, stm: Color, total: int) -> Seq<u8> {
    let mg_phase = if t.phase < 24 { t.phase as int } else { 24 };
    trace_row(seq![116u8, 101u8, 114u8, 109u8], seq![119u8, 46u8, 109u8, 103u8], seq![119u8, 46u8, 101u8, 103u8], seq![98u8, 46u8, 109u8, 103u8], seq![98u8, 46u8, 101u8, 103u8], seq![109u8, 103u8], seq![101u8, 103u8])
        + Seq::new(66, |i: int| 45u8) + seq![10u8] + term_rows(t, 11)
        + seq![112u8, 104u8, 97u8, 115u8, 101u8, 32u8, 61u8, 32u8] + int_text(mg_phase) + seq![47u8, 50u8, 52u8, 32u8, 40u8, 109u8, 103u8, 45u8, 104u8, 101u8, 97u8, 118u8, 121u8, 32u8, 61u8, 32u8, 104u8, 105u8, 103u8, 104u8, 41u8, 10u8, 116u8, 101u8, 109u8, 112u8, 111u8, 32u8, 61u8, 32u8, 49u8, 52u8, 32u8, 40u8, 115u8, 116u8, 109u8, 41u8, 10u8, 115u8, 105u8, 100u8, 101u8, 32u8, 116u8, 111u8, 32u8, 109u8, 111u8, 118u8, 101u8, 32u8, 61u8, 32u8]
        + (if stm == Color::White { seq![87u8, 104u8, 105u8, 116u8, 101u8] } else { seq![66u8, 108u8, 97u8, 99u8, 107u8] })
        + seq![10u8, 101u8, 118u8, 97u8, 108u8, 32u8, 40u8, 115u8, 116u8, 109u8, 41u8, 32u8, 61u8, 32u8] + int_text(total) + seq![32u8, 99u8, 112u8]
}

/// Append `n` spaces.
fn push_spaces(v: &mut Vec<u8>, n: usize)
    ensures
        final(v)@ == old(v)@ + spaces(n as int),
{
    let mut i: usize = 0;
    while i < n
        invariant
            0 <= i <= n,
            v@ == old(v)@ + spaces(i as int),
        decreases n - i,
    {
        v.push(32);
        i = i + 1;
        proof {
            assert(spaces(i as int) =~= spaces(i - 1).push(32u8));
        }
    }
}


/// Append `t` right-aligned in a field of width `w`.
fn push_right(v: &mut Vec<u8>, t: &[u8], w: usize)
    ensures
        final(v)@ == old(v)@ + pad_left(t@, w as int),
{
    if t.len() < w {
        push_spaces(v, w - t.len());
    } else {
        proof {
            assert(spaces(w - t@.len()) =~= Seq::<u8>::empty());
        }
    }
    push_all(v, t);
    proof {
        assert(old(v)@ + spaces(w - t@.len()) + t@ =~= old(v)@ + pad_left(t@, w as int));
    }
}

/// Append two right-aligned cells after a column bar.
fn push_pair(v: &mut Vec<u8>, a: &[u8], b: &[u8])
    ensures
        final(v)@ == old(v)@ + cell_pair(a@, b@),
{
    let ghost v0 = v@;
    push_all(v, &[32u8, 124u8, 32u8]);
    push_right(v, a, 6);
    push_all(v, &[32u8]);
    push_right(v, b, 6);
    proof {
        assert(v@ =~= v0 + cell_pair(a@, b@));
    }
}

/// Append one line of the trace table.
fn push_row(v: &mut Vec<u8>, name: &[u8], cells: [&[u8]; 6])
    ensures
        final(v)@ == old(v)@ + trace_row(name@, cells[0]@, cells[1]@, cells[2]@, cells[3]@, cells[4]@, cells[5]@),
{
    let ghost v0 = v@;
    push_all(v, name);
    if name.len() < 16 {
        push_spaces(v, 16 - name.len());
    } else {
        proof {
            assert(spaces(16 - name@.len()) =~= Seq::<u8>::empty());
        }
    }
    let ghost v1 = v@;
    proof {
        assert(v1 =~= v0 + pad_right(name@, 16));
    }
    push_pair(v, cells[0], cells[1]);
    push_pair(v, cells[2], cells[3]);
    push_pair(v, cells[4], cells[5]);
    push_all(v, &[10u8]);
    proof {
        assert(v@ =~= v0 + trace_row(name@, cells[0]@, cells[1]@, cells[2]@, cells[3]@, cells[4]@, cells[5]@));
    }
}

proof fn lemma_spaces_ascii(n: int)
    ensures
        all_ascii(spaces(n)),
{
}

proof fn lemma_int_ascii(x: int)
    ensures
        all_ascii(int_text(x)),
{
    if x < 0 {
        lemma_dec_ascii((-x) as nat);
        lemma_ascii_concat(seq![45u8], dec((-x) as nat));
    } else {
        lemma_dec_ascii(x as nat);
    }
}

proof fn lemma_pad_ascii(t: Seq<u8>, w: int)
    requires
        all_ascii(t),
    ensures
        all_ascii(pad_left(t, w)),
        all_ascii(pad_right(t, w)),
{
    lemma_spaces_ascii(w - t.len());
    lemma_ascii_concat(spaces(w - t.len()), t);
    lemma_ascii_concat(t, spaces(w - t.len()));
}

proof fn lemma_pair_ascii(a: Seq<u8>, b: Seq<u8>)
    requires
        all_ascii(a),
        all_ascii(b),
    ensures
        all_ascii(cell_pair(a, b)),
{
    lemma_pad_ascii(a, 6);
    lemma_pad_ascii(b, 6);
    let bar = seq![32u8, 124u8, 32u8];
    lemma_ascii_concat(bar, pad_left(a, 6));
    lemma_ascii_concat(bar + pad_left(a, 6), seq![32u8]);
    lemma_ascii_concat(bar + pad_left(a, 6) + seq![32u8], pad_left(b, 6));
}

proof fn lemma_row_ascii(name: Seq<u8>, a: Seq<u8>, b: Seq<u8>, c: Seq<u8>, d: Seq<u8>, e: Seq<u8>, f: Seq<u8>)
    requires
        all_ascii(name),
        all_ascii(a),
        all_ascii(b),
        all_ascii(c),
        all_ascii(d),
        all_ascii(e),
        all_ascii(f),
    ensures
        all_ascii(trace_row(name, a, b, c, d, e, f)),
{
    lemma_pad_ascii(name, 16);
    lemma_pair_ascii(a, b);
    lemma_pair_ascii(c, d);
    lemma_pair_ascii(e, f);
    let p1 = pad_right(name, 16) + cell_pair(a, b);
    lemma_ascii_concat(pad_right(name, 16), cell_pair(a, b));
    lemma_ascii_concat(p1, cell_pair(c, d));
    lemma_ascii_concat(p1 + cell_pair(c, d), cell_pair(e, f));
    lemma_ascii_concat(p1 + cell_pair(c, d) + cell_pair(e, f), seq![10u8]);
}

proof fn lemma_name_ascii(i: int)
    ensures
        all_ascii(term_name(i)),
{
}

/// Per-term breakdown of the evaluation, as printed by the `eval` command.
#[verifier::rlimit(40)]
pub fn trace(pos: &Position) -> (r: String)
    requires
        pos.wf(),
        evaluable(pos@),
    ensures
        exists|t: Terms|
            #[trigger] terms_of(pos@, t) && r@ == chars_of(trace_text(t, pos@.side, terms_score(t, pos@.side))),
{
    let t = eval_terms(pos);
    proof {
        lemma_score_fits(t);
    }
    let side = pos.side_to_move();
    let total = t.score(side);
    let mut out: Vec<u8> = Vec::new();
    push_row(&mut out, &[116u8, 101u8, 114u8, 109u8], [&[119u8, 46u8, 109u8, 103u8], &[119u8, 46u8, 101u8, 103u8], &[98u8, 46u8, 109u8, 103u8], &[98u8, 46u8, 101u8, 103u8], &[109u8, 103u8], &[101u8, 103u8]]);
    proof {
        lemma_row_ascii(seq![116u8, 101u8, 114u8, 109u8], seq![119u8, 46u8, 109u8, 103u8], seq![119u8, 46u8, 101u8, 103u8], seq![98u8, 46u8, 109u8, 103u8], seq![98u8, 46u8, 101u8, 103u8], seq![109u8, 103u8], seq![101u8, 103u8]);
    }
    let mut d: usize = 0;
    while d < 66
        invariant
            0 <= d <= 66,
            out@ == trace_row(seq![116u8, 101u8, 114u8, 109u8], seq![119u8, 46u8, 109u8, 103u8], seq![119u8, 46u8, 101u8, 103u8], seq![98u8, 46u8, 109u8, 103u8], seq![98u8, 46u8, 101u8, 103u8], seq![109u8, 103u8], seq![101u8, 103u8]) + Seq::new(d as nat, |i: int| 45u8),
            all_ascii(out@),
        decreases 66 - d,
    {
        out.push(45);
        d = d + 1;
        proof {
            assert(Seq::new(d as nat, |i: int| 45u8) =~= Seq::new((d - 1) as nat, |i: int| 45u8).push(45u8));
        }
    }
    out.push(10);
    let ghost head = out@;
    let mut i: usize = 0;
    while i < NTERMS
        invariant
            0 <= i <= 11,
            out@ == head + term_rows(t, i as int),
            all_ascii(out@),
            terms_bounded(t),
        decreases 11 - i,
    {
        let w = t.v[i][0];
        let b = t.v[i][1];
        proof {
            assert(within(t.v[i as int][0], -100_000, 100_000));
            assert(within(t.v[i as int][1], -100_000, 100_000));
        }
        let mut name: Vec<u8> = Vec::new();
        push_term_name(&mut name, i);
        let c0 = int_bytes(w.mg as i64);
        let c1 = int_bytes(w.eg as i64);
        let c2 = int_bytes(b.mg as i64);
        let c3 = int_bytes(b.eg as i64);
        let c4 = int_bytes((w.mg - b.mg) as i64);
        let c5 = int_bytes((w.eg - b.eg) as i64);
        let ghost before = out@;
        push_row(
            &mut out,
            name.as_slice(),
            [c0.as_slice(), c1.as_slice(), c2.as_slice(), c3.as_slice(), c4.as_slice(), c5.as_slice()],
        );
        proof {
            lemma_name_ascii(i as int);
            lemma_int_ascii(w.mg as int);
            lemma_int_ascii(w.eg as int);
            lemma_int_ascii(b.mg as int);
            lemma_int_ascii(b.eg as int);
            lemma_int_ascii(w.mg - b.mg);
            lemma_int_ascii(w.eg - b.eg);
            lemma_row_ascii(name@, c0@, c1@, c2@, c3@, c4@, c5@);
            lemma_ascii_concat(before, term_row(t, i as int));
            assert(out@ =~= head + term_rows(t, i + 1));
        }
        i = i + 1;
    }
    let mg_phase = if t.phase < TOTAL_PHASE { t.phase } else { TOTAL_PHASE };
    let mut tail: Vec<u8> = Vec::new();
    push_all(&mut tail, &[112u8, 104u8, 97u8, 115u8, 101u8, 32u8, 61u8, 32u8]);
    let ph = int_bytes(mg_phase as i64);
    push_all(&mut tail, ph.as_slice());
    push_all(&mut tail, &[47u8, 50u8, 52u8, 32u8, 40u8, 109u8, 103u8, 45u8, 104u8, 101u8, 97u8, 118u8, 121u8, 32u8, 61u8, 32u8, 104u8, 105u8, 103u8, 104u8, 41u8, 10u8, 116u8, 101u8, 109u8, 112u8, 111u8, 32u8, 61u8, 32u8, 49u8, 52u8, 32u8, 40u8, 115u8, 116u8, 109u8, 41u8, 10u8, 115u8, 105u8, 100u8, 101u8, 32u8, 116u8, 111u8, 32u8, 109u8, 111u8, 118u8, 101u8, 32u8, 61u8, 32u8]);
    if side == Color::White {
        push_all(&mut tail, &[87u8, 104u8, 105u8, 116u8, 101u8]);
    } else {
        push_all(&mut tail, &[66u8, 108u8, 97u8, 99u8, 107u8]);
    }
    push_all(&mut tail, &[10u8, 101u8, 118u8, 97u8, 108u8, 32u8, 40u8, 115u8, 116u8, 109u8, 41u8, 32u8, 61u8, 32u8]);
    let tot = int_bytes(total as i64);
    push_all(&mut tail, tot.as_slice());
    push_all(&mut tail, &[32u8, 99u8, 112u8]);
    let ghost body = out@;
    push_all(&mut out, tail.as_slice());
    proof {
        lemma_int_ascii(mg_phase as int);
        lemma_int_ascii(total as int);
        let side_name = if side == Color::White { seq![87u8, 104u8, 105u8, 116u8, 101u8] } else { seq![66u8, 108u8, 97u8, 99u8, 107u8] };
        assert(all_ascii(side_name));
        let q1 = seq![112u8, 104u8, 97u8, 115u8, 101u8, 32u8, 61u8, 32u8] + ph@;
        lemma_ascii_concat(seq![112u8, 104u8, 97u8, 115u8, 101u8, 32u8, 61u8, 32u8], ph@);
        let q2 = q1 + seq![47u8, 50u8, 52u8, 32u8, 40u8, 109u8, 103u8, 45u8, 104u8, 101u8, 97u8, 118u8, 121u8, 32u8, 61u8, 32u8, 104u8, 105u8, 103u8, 104u8, 41u8, 10u8, 116u8, 101u8, 109u8, 112u8, 111u8, 32u8, 61u8, 32u8, 49u8, 52u8, 32u8, 40u8, 115u8, 116u8, 109u8, 41u8, 10u8, 115u8, 105u8, 100u8, 101u8, 32u8, 116u8, 111u8, 32u8, 109u8, 111u8, 118u8, 101u8, 32u8, 61u8, 32u8];
        lemma_ascii_concat(q1, seq![47u8, 50u8, 52u8, 32u8, 40u8, 109u8, 103u8, 45u8, 104u8, 101u8, 97u8, 118u8, 121u8, 32u8, 61u8, 32u8, 104u8, 105u8, 103u8, 104u8, 41u8, 10u8, 116u8, 101u8, 109u8, 112u8, 111u8, 32u8, 61u8, 32u8, 49u8, 52u8, 32u8, 40u8, 115u8, 116u8, 109u8, 41u8, 10u8, 115u8, 105u8, 100u8, 101u8, 32u8, 116u8, 111u8, 32u8, 109u8, 111u8, 118u8, 101u8, 32u8, 61u8, 32u8]);
        let q3 = q2 + side_name;
        lemma_ascii_concat(q2, side_name);
        let q4 = q3 + seq![10u8, 101u8, 118u8, 97u8, 108u8, 32u8, 40u8, 115u8, 116u8, 109u8, 41u8, 32u8, 61u8, 32u8];
        lemma_ascii_concat(q3, seq![10u8, 101u8, 118u8, 97u8, 108u8, 32u8, 40u8, 115u8, 116u8, 109u8, 41u8, 32u8, 61u8, 32u8]);
        let q5 = q4 + tot@;
        lemma_ascii_concat(q4, tot@);
        lemma_ascii_concat(q5, seq![32u8, 99u8, 112u8]);
        assert(tail@ =~= q5 + seq![32u8, 99u8, 112u8]);
        lemma_ascii_concat(body, tail@);
        assert(out@ =~= trace_text(t, side, total as int));
    }
    ascii_string(out)
}


/// `c` has two bishops (on two different squares).
pub open spec fn two_bishops(b: Seq<u8>, c: Color) -> bool {
    exists|i: int, j: int|
        0 <= i < j < 64 && #[trigger] holds(b, i, c, PieceType::Bishop) && #[trigger] holds(b, j, c, PieceType::Bishop)
}

/// At least two squares of the first `n` hold `p` exactly when the count of
/// `p` there is at least two.
proof fn lemma_count_two(b: Seq<u8>, p: u8, n: int)
    requires
        0 <= n <= b.len(),
    ensures
        (crate::position::sq_count(b, p, p, n) >= 2) == (exists|i: int, j: int|
            0 <= i < j < n && #[trigger] b[i] == p && #[trigger] b[j] == p),
    decreases n,
{
    if n > 0 {
        lemma_count_two(b, p, n - 1);
        crate::position::lemma_count_nonneg(b, p, n - 1);
        if b[n - 1] == p {
            if crate::position::sq_count(b, p, p, n - 1) >= 1 {
                crate::position::lemma_count_exists(b, p, n - 1);
                let i = choose|i: int| 0 <= i < n - 1 && b[i] == p;
                assert(b[i] == p && b[n - 1] == p);
            } else {
                assert forall|i: int, j: int| 0 <= i < j < n && #[trigger] b[i] == p implies !(#[trigger] b[j] == p) by {
                    if b[j] == p {
                        if j < n - 1 {
                            crate::position::lemma_count_pos(b, p, n - 1, j);
                        } else {
                            crate::position::lemma_count_pos(b, p, n - 1, i);
                        }
                    }
                }
            }
        } else {
            if exists|i: int, j: int| 0 <= i < j < n && #[trigger] b[i] == p && #[trigger] b[j] == p {
                let (i, j) = choose|i: int, j: int| 0 <= i < j < n && #[trigger] b[i] == p && #[trigger] b[j] == p;
                assert(j < n - 1);
            }
        }
    }
}

/// The bishop-pair term of each side is 22 (midgame) and 38 (endgame) when that
/// side has two bishops, and nothing when it has one or none.
pub proof fn lemma_bishop_pair_law(v: PosView, t: Terms, c: int)
    requires
        terms_of(v, t),
        0 <= c < 2,
        v.board.len() == 64,
    ensures
        t.v[T_BISHOP_PAIR as int][c] == (if two_bishops(v.board, side_color(c)) {
            Score { mg: 22, eg: 38 }
        } else {
            Score { mg: 0, eg: 0 }
        }),
{
    let b = v.board;
    let col = side_color(c);
    let code = piece_code(col, PieceType::Bishop) as u8;
    assert(t.v[T_BISHOP_PAIR as int][c] == bishop_pair_bonus(b, col));
    lemma_count_two(b, code, 64);
    if two_bishops(b, col) {
        let (i, j) = choose|i: int, j: int|
            0 <= i < j < 64 && #[trigger] holds(b, i, col, PieceType::Bishop) && #[trigger] holds(b, j, col, PieceType::Bishop);
        assert(b[i] == code && b[j] == code);
    }
    if crate::position::sq_count(b, code, code, 64) >= 2 {
        let (i, j) = choose|i: int, j: int| 0 <= i < j < 64 && #[trigger] b[i] == code && #[trigger] b[j] == code;
        assert(holds(b, i, col, PieceType::Bishop) && holds(b, j, col, PieceType::Bishop));
    }
}

} // verus!
