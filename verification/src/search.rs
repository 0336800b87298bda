//! Search bookkeeping: score conventions, mate-score normalization for the
//! transposition table, per-iteration reports and the move-ordering tables.
//!
//! Scores are centipawns from the side to move's point of view. A mate in `n`
//! plies scores `MATE - n`; `INFINITY` is the alpha/beta sentinel.
use vstd::prelude::*;
use crate::attacks::abs;
use crate::chess_move::{Move, flag_is_capture, mv_flag, mv_from, mv_to};
use crate::eval::tdiv;
use crate::position::{Position, PosView, has_king, counters_ok};
use crate::types::{Color, NO_PIECE, PieceType, Square, code_type, color_idx, pt_idx, opposite};
use crate::chess_move::MoveList;
use crate::eval::evaluate;
use crate::movegen::{generate_captures, generate_legal, legal_move, pawn_ranks_valid, pawns_on_board};
use crate::see::{SEE_VALUE, see_ge};
use crate::stop::stop_requested;
use crate::timeman::{Limits, TimeManager};
use crate::tt::{Bound, Tt};
use crate::bitboard::{lemma_nonzero_iff, mem};
use std::sync::Arc;
use std::sync::atomic::AtomicBool;

verus! {

pub const MATE: i32 = 30000;
pub const INFINITY: i32 = 32000;
pub const MAX_PLY: usize = 128;
pub const MATE_IN_MAX: i32 = 29872;

/// Entries per side of the static-evaluation correction table.
pub const CORR_SIZE: usize = 16384;

/// Information reported after each completed iteration.
pub struct SearchInfo {
    pub depth: u32,
    pub seldepth: u32,
    pub score: i32,
    pub nodes: u64,
    pub time_ms: u64,
    pub pv: Vec<Move>,
    pub hashfull: usize,
}

/// Move-ordering tables. Owned by a search but carried across the searches of
/// one game, so history keeps working from move to move; reset for a new game.
pub struct Heuristics {
    /// Two killer moves per ply.
    killers: Vec<u16>,
    /// Butterfly history by side, from square and to square.
    history: Vec<i32>,
    /// Counter move by previous moving piece and its destination.
    counters: Vec<u16>,
    /// Continuation history for ply offsets one and two, by previous piece and
    /// destination, current piece and destination.
    conthist: Vec<i16>,
    /// Capture history by moving piece, destination and captured type.
    capthist: Vec<i16>,
    /// Static-evaluation correction by side and pawn-structure key.
    corrhist: Vec<i32>,
}

/// Sizes of the tables, in entries.
pub open spec fn killers_len() -> int {
    (128 * 2) as int
}

pub open spec fn history_len() -> int {
    (2 * 64 * 64) as int
}

pub open spec fn counters_len() -> int {
    (12 * 64) as int
}

pub open spec fn conthist_len() -> int {
    (2 * 12 * 64 * 12 * 64) as int
}

pub open spec fn capthist_len() -> int {
    (12 * 64 * 6) as int
}

pub open spec fn corrhist_len() -> int {
    (2 * 16384) as int
}

fn zeros_u16(n: usize) -> (r: Vec<u16>)
    ensures
        r@ == Seq::new(n as nat, |i: int| 0u16),
{
    let mut v: Vec<u16> = Vec::new();
    let mut i: usize = 0;
    while i < n
        invariant
            0 <= i <= n,
            v@ == Seq::new(i as nat, |j: int| 0u16),
        decreases n - i,
    {
        v.push(0);
        i = i + 1;
        proof {
            assert(v@ =~= Seq::new(i as nat, |j: int| 0u16));
        }
    }
    v
}

fn zeros_i16(n: usize) -> (r: Vec<i16>)
    ensures
        r@ == Seq::new(n as nat, |i: int| 0i16),
{
    let mut v: Vec<i16> = Vec::new();
    let mut i: usize = 0;
    while i < n
        invariant
            0 <= i <= n,
            v@ == Seq::new(i as nat, |j: int| 0i16),
        decreases n - i,
    {
        v.push(0);
        i = i + 1;
        proof {
            assert(v@ =~= Seq::new(i as nat, |j: int| 0i16));
        }
    }
    v
}

fn zeros_i32(n: usize) -> (r: Vec<i32>)
    ensures
        r@ == Seq::new(n as nat, |i: int| 0i32),
{
    let mut v: Vec<i32> = Vec::new();
    let mut i: usize = 0;
    while i < n
        invariant
            0 <= i <= n,
            v@ == Seq::new(i as nat, |j: int| 0i32),
        decreases n - i,
    {
        v.push(0);
        i = i + 1;
        proof {
            assert(v@ =~= Seq::new(i as nat, |j: int| 0i32));
        }
    }
    v
}

impl Heuristics {
    /// Every table has its size and holds only zeros (no killer, no counter move,
    /// no history).
    pub closed spec fn is_clear(&self) -> bool {
        &&& self.killers@ == Seq::new(killers_len() as nat, |i: int| 0u16)
        &&& self.history@ == Seq::new(history_len() as nat, |i: int| 0i32)
        &&& self.counters@ == Seq::new(counters_len() as nat, |i: int| 0u16)
        &&& self.conthist@ == Seq::new(conthist_len() as nat, |i: int| 0i16)
        &&& self.capthist@ == Seq::new(capthist_len() as nat, |i: int| 0i16)
        &&& self.corrhist@ == Seq::new(corrhist_len() as nat, |i: int| 0i32)
    }

    /// Empty tables.
    pub fn new() -> (r: Heuristics)
        ensures
            r.is_clear(),
            heur_ok(r@),
    {
        Heuristics {
            killers: zeros_u16(MAX_PLY * 2),
            history: zeros_i32(2 * 64 * 64),
            counters: zeros_u16(12 * 64),
            conthist: zeros_i16(2 * 12 * 64 * 12 * 64),
            capthist: zeros_i16(12 * 64 * 6),
            corrhist: zeros_i32(2 * CORR_SIZE),
        }
    }

    /// Reset every table (between games).
    pub fn clear(&mut self)
        ensures
            final(self).is_clear(),
            heur_ok(final(self)@),
    {
        *self = Heuristics::new();
    }
}

impl Default for Heuristics {
    fn default() -> (r: Heuristics)
        ensures
            r.is_clear(),
    {
        Heuristics::new()
    }
}

/// Mate scores are stored in the table relative to the node, not the root:
/// a mate found `ply` plies down moves `ply` further from zero.
pub open spec fn to_tt(score: int, ply: int) -> int {
    if score >= MATE_IN_MAX {
        score + ply
    } else if score <= -MATE_IN_MAX {
        score - ply
    } else {
        score
    }
}

/// A stored score read back at `ply`.
pub open spec fn from_tt(score: int, ply: int) -> int {
    if score >= MATE_IN_MAX {
        score - ply
    } else if score <= -MATE_IN_MAX {
        score + ply
    } else {
        score
    }
}

/// Score to store in the transposition table for a node `ply` plies from the root.
pub fn score_to_tt(score: i32, ply: i32) -> (r: i32)
    requires
        -INFINITY <= score <= INFINITY,
        0 <= ply <= MAX_PLY,
    ensures
        r == to_tt(score as int, ply as int),
{
    if score >= MATE_IN_MAX {
        score + ply
    } else if score <= -MATE_IN_MAX {
        score - ply
    } else {
        score
    }
}

/// Score read from the transposition table at a node `ply` plies from the root.
pub fn score_from_tt(score: i32, ply: i32) -> (r: i32)
    requires
        -INFINITY - MAX_PLY <= score <= INFINITY + MAX_PLY,
        0 <= ply <= MAX_PLY,
    ensures
        r == from_tt(score as int, ply as int),
{
    if score >= MATE_IN_MAX {
        score - ply
    } else if score <= -MATE_IN_MAX {
        score + ply
    } else {
        score
    }
}

/// Reading back a stored score at the ply it was stored from gives the score
/// that was stored.
pub proof fn lemma_tt_round_trip(score: int, ply: int)
    requires
        0 <= ply,
    ensures
        from_tt(to_tt(score, ply), ply) == score,
{
}

/// Small varying draw value near zero (one of `-1, 0, 1, 2`), which discourages
/// shuffling into draws and breaks ties between equal draw lines.
pub fn draw_score(nodes: u64) -> (r: i32)
    ensures
        r == 2 - (nodes % 4),
        -1 <= r <= 2,
{
    assert(nodes & 3 == nodes % 4) by (bit_vector);
    2 - (nodes & 3) as i32
}

// -- updating the tables -------------------------------------------------------------

/// Correction-table entries are kept in these units per centipawn.
pub const CORR_GRAIN: i32 = 256;
/// Largest correction entry, in table units.
pub const CORR_MAX: i32 = 8192;

/// The contents of the move-ordering tables.
pub struct HeurView {
    pub killers: Seq<u16>,
    pub history: Seq<i32>,
    pub counters: Seq<u16>,
    pub cont: Seq<i16>,
    pub capt: Seq<i16>,
    pub corr: Seq<i32>,
}

impl View for Heuristics {
    type V = HeurView;

    closed spec fn view(&self) -> HeurView {
        HeurView {
            killers: self.killers@,
            history: self.history@,
            counters: self.counters@,
            cont: self.conthist@,
            capt: self.capthist@,
            corr: self.corrhist@,
        }
    }
}

/// Tables of their sizes, with history entries within +-16384 and corrections
/// within +-`CORR_MAX`.
pub open spec fn heur_ok(h: HeurView) -> bool {
    &&& h.killers.len() == killers_len()
    &&& h.history.len() == history_len()
    &&& h.counters.len() == counters_len()
    &&& h.cont.len() == conthist_len()
    &&& h.capt.len() == capthist_len()
    &&& h.corr.len() == corrhist_len()
    &&& forall|i: int| 0 <= i < history_len() ==> -16384 <= #[trigger] h.history[i] <= 16384
    &&& forall|i: int| 0 <= i < corrhist_len() ==> -CORR_MAX <= #[trigger] h.corr[i] <= CORR_MAX
}

pub open spec fn hist_idx(stm: int, from: int, to: int) -> int {
    stm * 4096 + from * 64 + to
}

pub open spec fn cont_idx(i: int, ppt: int, pto: int, cpt: int, to: int) -> int {
    (((i * 12 + ppt) * 64 + pto) * 12 + cpt) * 64 + to
}

pub open spec fn cap_idx(pc: int, to: int, ct: int) -> int {
    (pc * 64 + to) * 6 + ct
}

/// History gravity: the bonus is added, less the share of the old value that
/// the bonus's size takes away, so entries settle within +-16384.
pub open spec fn gravity(cur: int, bonus: int) -> int {
    cur + bonus - tdiv(cur * abs(bonus), 16384)
}

pub open spec fn clamp_i16(x: int) -> int {
    if x < -32768 {
        -32768
    } else if x > 32767 {
        32767
    } else {
        x
    }
}

/// Gravity keeps an entry within +-16384.
pub proof fn lemma_gravity_bound(cur: int, bonus: int)
    requires
        -16384 <= cur <= 16384,
        -16384 <= bonus <= 16384,
    ensures
        -16384 <= gravity(cur, bonus) <= 16384,
{
    let a = abs(bonus);
    let c = abs(cur);
    let q = (c * a) / 16384;
    assert(0 <= c * a) by (nonlinear_arith)
        requires
            0 <= c,
            0 <= a;
    assert(q * 16384 <= c * a < q * 16384 + 16384);
    assert(c * a <= 16384 * c) by (nonlinear_arith)
        requires
            0 <= c,
            0 <= a <= 16384;
    assert(c * a <= 16384 * a) by (nonlinear_arith)
        requires
            0 <= a,
            0 <= c <= 16384;
    assert(c * a >= 16384 * (c + a - 16384)) by (nonlinear_arith)
        requires
            0 <= c <= 16384,
            0 <= a <= 16384;
    if cur >= 0 {
        assert(tdiv(cur * a, 16384) == q);
    } else {
        assert(cur * a == -(c * a)) by (nonlinear_arith)
            requires
                cur < 0,
                c == -cur;
        assert(tdiv(cur * a, 16384) == -q);
    }
}

/// The table after one history update for the move `from`-`to` of piece `cpt`
/// (a mailbox code): the butterfly entry, then the continuation entry of each
/// earlier move given as (piece code, destination).
pub open spec fn history_updated(
    h: HeurView,
    stm: int,
    from: int,
    to: int,
    cpt: int,
    prev1: Option<(usize, usize)>,
    prev2: Option<(usize, usize)>,
    bonus: int,
) -> HeurView {
    let hi = hist_idx(stm, from, to);
    let h1 = HeurView { history: h.history.update(hi, gravity(h.history[hi] as int, bonus) as i32), ..h };
    let h2 = match prev1 {
        Some((ppt, pto)) => {
            let ci = cont_idx(0, ppt as int, pto as int, cpt, to);
            HeurView { cont: h1.cont.update(ci, clamp_i16(gravity(h1.cont[ci] as int, bonus)) as i16), ..h1 }
        },
        None => h1,
    };
    match prev2 {
        Some((ppt, pto)) => {
            let ci = cont_idx(1, ppt as int, pto as int, cpt, to);
            HeurView { cont: h2.cont.update(ci, clamp_i16(gravity(h2.cont[ci] as int, bonus)) as i16), ..h2 }
        },
        None => h2,
    }
}

pub open spec fn context_ok(p: Option<(usize, usize)>) -> bool {
    p matches Some((pt, to)) ==> pt < 12 && to < 64
}

/// Mailbox code of the piece on `s`, or 0 on an empty square.
pub open spec fn code_or_zero(b: Seq<u8>, s: int) -> int {
    if b[s] == NO_PIECE {
        0
    } else {
        b[s] as int
    }
}

/// The history updates after a quiet cutoff: `best` rewarded, every other tried
/// move in `tried[..n]` penalized, in order.
pub open spec fn quiet_updates(
    h: HeurView,
    b: Seq<u8>,
    stm: int,
    best: u16,
    prev1: Option<(usize, usize)>,
    prev2: Option<(usize, usize)>,
    bonus: int,
    tried: Seq<Move>,
    n: int,
) -> HeurView
    decreases n,
{
    if n <= 0 {
        history_updated(h, stm, mv_from(best), mv_to(best), code_or_zero(b, mv_from(best)), prev1, prev2, bonus)
    } else {
        let h0 = quiet_updates(h, b, stm, best, prev1, prev2, bonus, tried, n - 1);
        let q = tried[n - 1].0;
        if q == best {
            h0
        } else {
            history_updated(h0, stm, mv_from(q), mv_to(q), code_or_zero(b, mv_from(q)), prev1, prev2, -bonus)
        }
    }
}

/// Killers after a quiet cutoff at `ply`: `best` first, the old first killer
/// second, unless `best` already is the first.
pub open spec fn killers_after(k: Seq<u16>, ply: int, best: u16) -> Seq<u16> {
    if k[2 * ply] != best {
        k.update(2 * ply + 1, k[2 * ply]).update(2 * ply, best)
    } else {
        k
    }
}

/// The history bonus for a cutoff at `depth`.
pub open spec fn cutoff_bonus(depth: int) -> int {
    if depth * depth < 1600 {
        depth * depth
    } else {
        1600
    }
}

/// Captured piece type of `m` for capture history: a pawn for en passant or an
/// empty target.
pub open spec fn captured_of(b: Seq<u8>, m: u16) -> int {
    if mv_flag(m) == 5 || b[mv_to(m)] == NO_PIECE {
        0
    } else {
        pt_idx(code_type(b[mv_to(m)] as int)) as int
    }
}

/// The capture-history table after one update for the capture `m`.
pub open spec fn capture_updated(h: HeurView, b: Seq<u8>, m: u16, bonus: int) -> HeurView {
    let ci = cap_idx(code_or_zero(b, mv_from(m)), mv_to(m), captured_of(b, m));
    HeurView { capt: h.capt.update(ci, clamp_i16(gravity(h.capt[ci] as int, bonus)) as i16), ..h }
}

/// The capture-history updates after a cutoff: `best` rewarded when it is a
/// capture, every other tried capture in `tried[..n]` penalized, in order.
pub open spec fn capture_updates(h: HeurView, b: Seq<u8>, best: u16, bonus: int, tried: Seq<Move>, n: int) -> HeurView
    decreases n,
{
    if n <= 0 {
        if flag_is_capture(mv_flag(best)) {
            capture_updated(h, b, best, bonus)
        } else {
            h
        }
    } else {
        let h0 = capture_updates(h, b, best, bonus, tried, n - 1);
        if tried[n - 1].0 == best {
            h0
        } else {
            capture_updated(h0, b, tried[n - 1].0, -bonus)
        }
    }
}

/// The correction entry after blending in `diff` with a weight growing with depth.
pub open spec fn corrected(cur: int, depth: int, diff: int) -> int {
    let w = if depth + 1 < 16 { depth + 1 } else { 16 };
    let v = tdiv(cur * (CORR_GRAIN - w) + diff * CORR_GRAIN * w, CORR_GRAIN as int);
    if v < -CORR_MAX {
        -CORR_MAX as int
    } else if v > CORR_MAX {
        CORR_MAX as int
    } else {
        v
    }
}

pub open spec fn corr_idx(stm: int, key: u64) -> int {
    stm * 16384 + (key % 16384) as int
}

impl Heuristics {
    /// Killer `slot` (0 or 1) of `ply`.
    pub fn killer(&self, ply: usize, slot: usize) -> (r: Move)
        requires
            heur_ok(self@),
            ply < MAX_PLY,
            slot < 2,
        ensures
            r.0 == self@.killers[2 * ply + slot],
    {
        Move(self.killers[2 * ply + slot])
    }

    /// The counter move to the previous move (its piece code and destination), or
    /// the null move when there is none.
    pub fn counter_move(&self, prev: Option<(usize, usize)>) -> (r: Move)
        requires
            heur_ok(self@),
            context_ok(prev),
        ensures
            r.0 == (match prev {
                Some((pt, to)) => self@.counters[pt * 64 + to],
                None => 0u16,
            }),
    {
        match prev {
            Some((pt, to)) => Move(self.counters[pt * 64 + to]),
            None => Move(0),
        }
    }

    /// History score of a quiet move: the butterfly entry plus the continuation
    /// entries of the earlier moves given.
    pub fn quiet_history(
        &self,
        stm: usize,
        from: usize,
        to: usize,
        cpt: usize,
        prev1: Option<(usize, usize)>,
        prev2: Option<(usize, usize)>,
    ) -> (r: i32)
        requires
            heur_ok(self@),
            stm < 2,
            from < 64,
            to < 64,
            cpt < 12,
            context_ok(prev1),
            context_ok(prev2),
        ensures
            r == self@.history[hist_idx(stm as int, from as int, to as int)] + (match prev1 {
                Some((ppt, pto)) => self@.cont[cont_idx(0, ppt as int, pto as int, cpt as int, to as int)] as int,
                None => 0,
            }) + (match prev2 {
                Some((ppt, pto)) => self@.cont[cont_idx(1, ppt as int, pto as int, cpt as int, to as int)] as int,
                None => 0,
            }),
    {
        let mut h = self.history[stm * 4096 + from * 64 + to];
        if let Some((ppt, pto)) = prev1 {
            h = h + self.conthist[(((ppt) * 64 + pto) * 12 + cpt) * 64 + to] as i32;
        }
        if let Some((ppt, pto)) = prev2 {
            h = h + self.conthist[(((12 + ppt) * 64 + pto) * 12 + cpt) * 64 + to] as i32;
        }
        h
    }

    /// Capture-history score of piece code `pc` capturing type `ct` on `to`.
    pub fn capture_history(&self, pc: usize, to: usize, ct: usize) -> (r: i32)
        requires
            heur_ok(self@),
            pc < 12,
            to < 64,
            ct < 6,
        ensures
            r == self@.capt[cap_idx(pc as int, to as int, ct as int)],
    {
        self.capthist[(pc * 64 + to) * 6 + ct] as i32
    }

    /// Static-evaluation correction, in centipawns, for side `stm` and pawn key `key`.
    pub fn correction(&self, stm: usize, key: u64) -> (r: i32)
        requires
            heur_ok(self@),
            stm < 2,
        ensures
            r == tdiv(self@.corr[corr_idx(stm as int, key)] as int, CORR_GRAIN as int),
    {
        self.corrhist[stm * 16384 + (key % 16384) as usize] / CORR_GRAIN
    }

    /// Blend the search result's difference from the static evaluation into the
    /// correction entry, clamped to +-`CORR_MAX`.
    pub fn update_correction(&mut self, stm: usize, key: u64, depth: i32, diff: i32)
        requires
            heur_ok(old(self)@),
            stm < 2,
            0 <= depth < 1000,
            -2 * INFINITY <= diff <= 2 * INFINITY,
        ensures
            heur_ok(final(self)@),
            final(self)@ == (HeurView {
                corr: old(self)@.corr.update(
                    corr_idx(stm as int, key),
                    corrected(old(self)@.corr[corr_idx(stm as int, key)] as int, depth as int, diff as int) as i32,
                ),
                ..old(self)@
            }),
    {
        let idx = stm * 16384 + (key % 16384) as usize;
        let e = self.corrhist[idx];
        let w: i32 = if depth + 1 < 16 {
            depth + 1
        } else {
            16
        };
        proof {
            assert(-CORR_MAX <= e <= CORR_MAX);
            assert(-8192 * 255 <= e * (CORR_GRAIN - w) <= 8192 * 255) by (nonlinear_arith)
                requires
                    -8192 <= e <= 8192,
                    1 <= w <= 16,
                    CORR_GRAIN == 256;
            assert(-64000 * 256 * 16 <= diff * CORR_GRAIN * w <= 64000 * 256 * 16) by (nonlinear_arith)
                requires
                    -64000 <= diff <= 64000,
                    1 <= w <= 16,
                    CORR_GRAIN == 256;
        }
        let v = (e * (CORR_GRAIN - w) + diff * CORR_GRAIN * w) / CORR_GRAIN;
        let nv = if v < -CORR_MAX {
            -CORR_MAX
        } else if v > CORR_MAX {
            CORR_MAX
        } else {
            v
        };
        self.corrhist.set(idx, nv);
    }

    /// One history update for the move `from`-`to` of the piece with code `cpt`,
    /// given the earlier moves' contexts.
    pub fn update_history(
        &mut self,
        stm: usize,
        from: usize,
        to: usize,
        cpt: usize,
        prev1: Option<(usize, usize)>,
        prev2: Option<(usize, usize)>,
        bonus: i32,
    )
        requires
            heur_ok(old(self)@),
            stm < 2,
            from < 64,
            to < 64,
            cpt < 12,
            context_ok(prev1),
            context_ok(prev2),
            -16384 <= bonus <= 16384,
        ensures
            heur_ok(final(self)@),
            final(self)@ == history_updated(
                old(self)@,
                stm as int,
                from as int,
                to as int,
                cpt as int,
                prev1,
                prev2,
                bonus as int,
            ),
    {
        let ghost h0 = self@;
        let hi = stm * 4096 + from * 64 + to;
        let e = self.history[hi];
        let ab: i32 = if bonus < 0 {
            -bonus
        } else {
            bonus
        };
        proof {
            lemma_gravity_bound(e as int, bonus as int);
            assert(-16384 * 16384 <= e * ab <= 16384 * 16384) by (nonlinear_arith)
                requires
                    -16384 <= e <= 16384,
                    0 <= ab <= 16384;
        }
        let ne = e + bonus - e * ab / 16384;
        self.history.set(hi, ne);
        let ghost h1 = self@;
        if let Some((ppt, pto)) = prev1 {
            let ci = (((ppt) * 64 + pto) * 12 + cpt) * 64 + to;
            let c = self.conthist[ci] as i32;
            proof {
                assert(-32768 * 16384 <= c * ab <= 32768 * 16384) by (nonlinear_arith)
                    requires
                        -32768 <= c <= 32767,
                        0 <= ab <= 16384;
            }
            let nv = c + bonus - c * ab / 16384;
            let cv: i16 = if nv < -32768 {
                -32768
            } else if nv > 32767 {
                32767
            } else {
                nv as i16
            };
            self.conthist.set(ci, cv);
        }
        let ghost h2 = self@;
        if let Some((ppt, pto)) = prev2 {
            let ci = (((12 + ppt) * 64 + pto) * 12 + cpt) * 64 + to;
            let c = self.conthist[ci] as i32;
            proof {
                assert(-32768 * 16384 <= c * ab <= 32768 * 16384) by (nonlinear_arith)
                    requires
                        -32768 <= c <= 32767,
                        0 <= ab <= 16384;
            }
            let nv = c + bonus - c * ab / 16384;
            let cv: i16 = if nv < -32768 {
                -32768
            } else if nv > 32767 {
                32767
            } else {
                nv as i16
            };
            self.conthist.set(ci, cv);
        }
        proof {
            assert(self@ =~= history_updated(h0, stm as int, from as int, to as int, cpt as int, prev1, prev2, bonus as int));
        }
    }

    /// One capture-history update for the capture `m` on the board of `pos`.
    pub fn update_capture_history(&mut self, pos: &Position, m: Move, bonus: i32)
        requires
            heur_ok(old(self)@),
            pos.wf(),
            -16384 <= bonus <= 16384,
        ensures
            heur_ok(final(self)@),
            final(self)@ == capture_updated(old(self)@, pos@.board, m.0, bonus as int),
    {
        let pc = piece_code_or_zero(pos, m.from());
        let ct = captured_type(pos, m);
        let ci = (pc * 64 + m.to().0 as usize) * 6 + ct;
        let c = self.capthist[ci] as i32;
        let ab: i32 = if bonus < 0 {
            -bonus
        } else {
            bonus
        };
        proof {
            assert(-32768 * 16384 <= c * ab <= 32768 * 16384) by (nonlinear_arith)
                requires
                    -32768 <= c <= 32767,
                    0 <= ab <= 16384;
        }
        let nv = c + bonus - c * ab / 16384;
        let cv: i16 = if nv < -32768 {
            -32768
        } else if nv > 32767 {
            32767
        } else {
            nv as i16
        };
        self.capthist.set(ci, cv);
    }

    /// After a quiet move `best` caused a cutoff at `ply`: update the killers and
    /// the counter move, reward `best` and penalize the other quiet moves tried.
    pub fn update_quiet_stats(
        &mut self,
        pos: &Position,
        best: Move,
        depth: i32,
        ply: usize,
        prev1: Option<(usize, usize)>,
        prev2: Option<(usize, usize)>,
        tried: &[Move],
    )
        requires
            heur_ok(old(self)@),
            pos.wf(),
            ply < MAX_PLY,
            -46340 <= depth <= 46340,
            context_ok(prev1),
            context_ok(prev2),
        ensures
            heur_ok(final(self)@),
            final(self)@ == quiet_updates(
                HeurView {
                    killers: killers_after(old(self)@.killers, ply as int, best.0),
                    counters: match prev1 {
                        Some((pt, to)) => old(self)@.counters.update(pt * 64 + to, best.0),
                        None => old(self)@.counters,
                    },
                    ..old(self)@
                },
                pos@.board,
                color_idx(pos@.side) as int,
                best.0,
                prev1,
                prev2,
                cutoff_bonus(depth as int),
                tried@,
                tried@.len() as int,
            ),
    {
        let stm = pos.side_to_move().index();
        let p = ply;
        if self.killers[2 * p] != best.0 {
            let k0 = self.killers[2 * p];
            self.killers.set(2 * p + 1, k0);
            self.killers.set(2 * p, best.0);
        }
        if let Some((pt, to)) = prev1 {
            self.counters.set(pt * 64 + to, best.0);
        }
        proof {
            assert(0 <= depth * depth <= 46340 * 46340) by (nonlinear_arith)
                requires
                    -46340 <= depth <= 46340;
        }
        let dd = depth * depth;
        let bonus: i32 = if dd < 1600 {
            dd
        } else {
            1600
        };
        let ghost h0 = self@;
        let bf = best.from().0 as usize;
        let bc = piece_code_or_zero(pos, best.from());
        self.update_history(stm, bf, best.to().0 as usize, bc, prev1, prev2, bonus);
        let mut i: usize = 0;
        while i < tried.len()
            invariant
                heur_ok(self@),
                pos.wf(),
                stm == color_idx(pos@.side),
                context_ok(prev1),
                context_ok(prev2),
                bonus == cutoff_bonus(depth as int),
                0 <= bonus <= 1600,
                0 <= i <= tried@.len(),
                self@ == quiet_updates(h0, pos@.board, stm as int, best.0, prev1, prev2, bonus as int, tried@, i as int),
            decreases tried@.len() - i,
        {
            let q = tried[i];
            if q.0 != best.0 {
                let qc = piece_code_or_zero(pos, q.from());
                self.update_history(stm, q.from().0 as usize, q.to().0 as usize, qc, prev1, prev2, -bonus);
            }
            i = i + 1;
        }
    }

    /// After the move `best` caused a cutoff: reward it when it is a capture and
    /// penalize the other captures tried.
    pub fn update_capture_stats(&mut self, pos: &Position, best: Move, depth: i32, tried: &[Move])
        requires
            heur_ok(old(self)@),
            pos.wf(),
            -46340 <= depth <= 46340,
        ensures
            heur_ok(final(self)@),
            final(self)@ == capture_updates(
                old(self)@,
                pos@.board,
                best.0,
                cutoff_bonus(depth as int),
                tried@,
                tried@.len() as int,
            ),
    {
        proof {
            assert(0 <= depth * depth <= 46340 * 46340) by (nonlinear_arith)
                requires
                    -46340 <= depth <= 46340;
        }
        let dd = depth * depth;
        let bonus: i32 = if dd < 1600 {
            dd
        } else {
            1600
        };
        let ghost h0 = self@;
        if best.is_capture() {
            self.update_capture_history(pos, best, bonus);
        }
        let mut i: usize = 0;
        while i < tried.len()
            invariant
                heur_ok(self@),
                pos.wf(),
                bonus == cutoff_bonus(depth as int),
                0 <= bonus <= 1600,
                0 <= i <= tried@.len(),
                self@ == capture_updates(h0, pos@.board, best.0, bonus as int, tried@, i as int),
            decreases tried@.len() - i,
        {
            let c = tried[i];
            if c.0 != best.0 {
                self.update_capture_history(pos, c, -bonus);
            }
            i = i + 1;
        }
    }
}

/// Mailbox code of the piece on `sq`, or 0 on an empty square.
fn piece_code_or_zero(pos: &Position, sq: Square) -> (r: usize)
    requires
        pos.wf(),
        sq.0 < 64,
    ensures
        r == code_or_zero(pos@.board, sq.0 as int),
        r < 12,
{
    match pos.piece_on(sq) {
        Some(p) => {
            proof {
                pos.lemma_wf();
            }
            p.0 as usize
        },
        None => 0,
    }
}

/// The captured piece type of `m` for capture history (a pawn for en passant).
pub fn captured_type(pos: &Position, m: Move) -> (r: usize)
    requires
        pos.wf(),
    ensures
        r == captured_of(pos@.board, m.0),
        r < 6,
{
    if m.is_en_passant() {
        return 0;
    }
    match pos.piece_on(m.to()) {
        Some(p) => {
            proof {
                pos.lemma_wf();
            }
            p.piece_type().index()
        },
        None => 0,
    }
}

// -- the tree search ------------------------------------------------------------------------

/// Nodes between two looks at the clock and the stop flag.
pub const NODES_CHECK_MASK: u64 = 2047;

/// What the search keeps for one ply.
#[derive(Clone, Copy)]
pub struct StackEntry {
    pub eval: i32,
    pub moved_piece: u8,
    pub current_move: Move,
    /// Move left out at this ply by a singular-extension verification search.
    pub excluded: Move,
}

/// The moves can be generated, made and evaluated: one king of each side on
/// the board, no pawn on its far rank, and room left in the move counters.
pub open spec fn node_ok(v: PosView) -> bool {
    &&& has_king(v.board, v.side)
    &&& has_king(v.board, opposite(v.side))
    &&& crate::position::sq_count(v.board, 5, 5, 64) <= 1
    &&& crate::position::sq_count(v.board, 11, 11, 64) <= 1
    &&& pawns_on_board(v.board)
    &&& counters_ok(v)
}

/// Each side has at most one king.
pub proof fn lemma_node_single_king(v: PosView)
    requires
        node_ok(v),
    ensures
        crate::movegen::single_king(v.board, v.side),
        crate::movegen::single_king(v.board, opposite(v.side)),
{
    assert forall|c: Color, i: int, j: int|
        (c == v.side || c == opposite(v.side)) && 0 <= i < 64 && 0 <= j < 64 && #[trigger] crate::position::holds(v.board, i, c, PieceType::King)
            && #[trigger] crate::position::holds(v.board, j, c, PieceType::King) implies i == j by {
        if c == Color::White {
            crate::position::lemma_count_unique(v.board, 5, 64, i, j);
        } else {
            crate::position::lemma_count_unique(v.board, 11, 64, i, j);
        }
    }
}

fn playable(pos: &Position) -> (r: bool)
    requires
        pos.wf(),
    ensures
        r == node_ok(pos@),
{
    let us = pos.pieces(pos.side_to_move(), PieceType::King);
    let them = pos.pieces(pos.side_to_move().flip(), PieceType::King);
    let wk = pos.pieces(Color::White, PieceType::King);
    let bk = pos.pieces(Color::Black, PieceType::King);
    proof {
        lemma_nonzero_iff(us.0);
        lemma_nonzero_iff(them.0);
        pos.lemma_wf();
        crate::position::lemma_popcount_count(wk.0, pos@.board, 5, 5, 64);
        crate::position::lemma_popcount_count(bk.0, pos@.board, 11, 11, 64);
        if has_king(pos@.board, pos@.side) {
            let s = choose|s: int| 0 <= s < 64 && crate::position::holds(pos@.board, s, pos@.side, PieceType::King);
            assert(mem(us.0, s));
        }
        if has_king(pos@.board, opposite(pos@.side)) {
            let s = choose|s: int| 0 <= s < 64 && crate::position::holds(pos@.board, s, opposite(pos@.side), PieceType::King);
            assert(mem(them.0, s));
        }
    }
    us.any() && them.any() && wk.count() <= 1 && bk.count() <= 1 && pawn_ranks_valid(pos) && pos.halfmove_clock()
        < 0xFFFF && pos.fullmove_number() < 0xFFFF
}

/// The evaluation, kept off the mate scores.
fn static_value(pos: &Position) -> (r: i32)
    requires
        pos.wf(),
        node_ok(pos@),
    ensures
        -MATE_IN_MAX < r < MATE_IN_MAX,
{
    let e = evaluate(pos);
    if e < -MATE_IN_MAX + 1 {
        -MATE_IN_MAX + 1
    } else if e > MATE_IN_MAX - 1 {
        MATE_IN_MAX - 1
    } else {
        e
    }
}

/// Zobrist key of the pawns alone: the key of the pawn structure.
pub fn pawn_key(pos: &Position) -> (r: u64)
    requires
        pos.wf(),
    ensures
        r == pawn_hash(pos@.board, 64),
{
    let mut k: u64 = 0;
    let mut s: u8 = 0;
    while s < 64
        invariant
            pos.wf(),
            s <= 64,
            k == pawn_hash(pos@.board, s as int),
        decreases 64 - s,
    {
        match pos.piece_on(Square(s)) {
            Some(p) => {
                proof {
                    pos.lemma_wf();
                }
                if p.0 == 0 || p.0 == 6 {
                    k = k ^ crate::zobrist::piece_key(p, Square(s));
                }
            },
            None => {},
        }
        s = s + 1;
    }
    k
}

/// The pawn-square keys of the first `n` squares, combined.
pub open spec fn pawn_hash(b: Seq<u8>, n: int) -> u64
    decreases n,
{
    if n <= 0 {
        0
    } else if b[n - 1] == 0 || b[n - 1] == 6 {
        pawn_hash(b, n - 1) ^ crate::zobrist::pkey(b[n - 1] as int, n - 1)
    } else {
        pawn_hash(b, n - 1)
    }
}

/// The score of a draw, jittered by the node count: 2, 1, 0 or -1.
pub open spec fn draw_value(nodes: u64) -> int {
    2 - (nodes % 4) as int
}

/// A draw by rule: repetition, too little material, or the fifty-move rule,
/// which gives way to a checkmate on the board.
pub open spec fn drawn_by_rule(v: PosView) -> bool {
    crate::position::repeats(v) || crate::position::insufficient(v.board) || (v.halfmove >= 100 && !mated(v))
}

/// The move `m` mates: the reply position can be played on, is no draw by
/// repetition or material, and its side to move is checkmated.
#[verifier::opaque]
pub open spec fn mates_into(v: PosView, m: u16) -> bool {
    let w = crate::position::spec_make(v, m);
    &&& node_ok(w)
    &&& mated(w)
    &&& !crate::position::repeats(w)
    &&& !crate::position::insufficient(w.board)
}

/// Every legal move mates.
#[verifier::opaque]
pub open spec fn every_move_mates(v: PosView) -> bool {
    forall|m: u16| #[trigger] legal_move(v, m) ==> mates_into(v, m)
}

/// The side to move has a legal move, and every legal move mates.
pub open spec fn mates_all(v: PosView) -> bool {
    &&& exists|m: u16| #[trigger] legal_move(v, m)
    &&& every_move_mates(v)
}

/// The window `(alpha, beta)` at `ply` stays open after mate-distance pruning.
pub open spec fn window_open(alpha: int, beta: int, ply: int) -> bool {
    (if alpha > -MATE + ply {
        alpha
    } else {
        -MATE + ply
    }) < (if beta < MATE - ply - 1 {
        beta
    } else {
        MATE - ply - 1
    })
}

/// The draw rules of the search: a position that has occurred before (within
/// the reach of the halfmove clock) is a draw, so is one with too little
/// material to mate, and so is one where the halfmove clock has reached 100,
/// unless the side to move is checkmated; no other position is drawn by rule.
pub proof fn lemma_draw_rules(v: PosView)
    ensures
        crate::position::repeats(v) ==> drawn_by_rule(v),
        crate::position::insufficient(v.board) ==> drawn_by_rule(v),
        v.halfmove >= 100 && !mated(v) ==> drawn_by_rule(v),
        drawn_by_rule(v) ==> crate::position::repeats(v) || crate::position::insufficient(v.board) || v.halfmove
            >= 100,
        mated(v) && !crate::position::repeats(v) && !crate::position::insufficient(v.board) ==> !drawn_by_rule(v),
{
}

/// The side to move is checkmated.
pub open spec fn mated(v: PosView) -> bool {
    checked(v) && no_moves(v)
}

/// Is the position drawn by rule? A checkmate on the move ends the game before
/// the fifty-move rule is claimed.
fn drawn_now(pos: &Position) -> (r: bool)
    requires
        pos.wf(),
        node_ok(pos@),
    ensures
        r == drawn_by_rule(pos@),
{
    if pos.is_repetition() || pos.is_insufficient_material() {
        return true;
    }
    if !pos.is_fifty_move() {
        return false;
    }
    if !pos.in_check() {
        return true;
    }
    let mut list = MoveList::new();
    generate_legal(pos, &mut list);
    proof {
        let v = pos@;
        lemma_node_single_king(v);
        if list@.len() == 0 {
            assert forall|m: u16| !#[trigger] legal_move(v, m) by {
                if legal_move(v, m) {
                    assert(crate::movegen::listed(list@, m));
                }
            }
        } else {
            assert(legal_move(v, list@[0].0));
        }
    }
    !list.is_empty()
}

/// The side to move is in check (its lowest king is attacked).
pub open spec fn checked(v: PosView) -> bool {
    exists|k: int|
        0 <= k < 64 && crate::position::holds(v.board, k, v.side, PieceType::King) && (forall|j: int|
            0 <= j < k ==> !crate::position::holds(v.board, j, v.side, PieceType::King))
            && crate::position::attacked_by(v.board, k, opposite(v.side), crate::position::occ_of(v.board))
}

/// The side to move has no legal move.
pub open spec fn no_moves(v: PosView) -> bool {
    forall|m: u16| !#[trigger] legal_move(v, m)
}

/// An iterative-deepening alpha-beta search of one position.
pub struct Search {
    pos: Position,
    tt: Tt,
    stop: Arc<AtomicBool>,
    tm: TimeManager,
    limits: Limits,
    nodes: u64,
    seldepth: u32,
    stopped: bool,
    /// The current iteration's aspiration window failed low at the root.
    iter_fail_low: bool,
    heur: Heuristics,
    stack: Vec<StackEntry>,
    pv_table: Vec<Move>,
    pv_len: Vec<usize>,
    /// Late-move reductions by depth and move number (64 by 64).
    lmr: Vec<i32>,
    /// While non-zero, null moves are off below this ply.
    nmp_min_ply: i32,
    root_best: Move,
    root_score: i32,
    /// Nodes spent under each root move, by from and to square.
    root_nodes: Vec<u64>,
    /// The report of each completed iteration.
    infos: Vec<SearchInfo>,
}

impl Search {
    /// The tables are sized and bounded.
    pub closed spec fn wf(&self) -> bool {
        &&& self.pos.wf()
        &&& self.tt.wf()
        &&& heur_ok(self.heur@)
        &&& self.stack@.len() == MAX_PLY + 4
        &&& forall|i: int|
            0 <= i < self.stack@.len() ==> (#[trigger] self.stack@[i]).moved_piece < 12 && -INFINITY
                <= self.stack@[i].eval <= INFINITY
        &&& self.stack@[0].excluded.0 == 0
        &&& self.pv_table@.len() == MAX_PLY * MAX_PLY
        &&& self.pv_len@.len() == MAX_PLY
        &&& forall|i: int| 0 <= i < MAX_PLY ==> #[trigger] self.pv_len@[i] + i <= MAX_PLY
        &&& self.lmr@.len() == 4096
        &&& forall|i: int| 0 <= i < 4096 ==> 0 <= #[trigger] self.lmr@[i] <= 64
        &&& self.root_nodes@.len() == 4096
        &&& 0 <= self.nmp_min_ply <= 4000
        &&& -INFINITY < self.root_score < INFINITY
    }

    /// The position searched.
    pub closed spec fn position(&self) -> PosView {
        self.pos@
    }

    /// The search has been told to stop, or has run out of time or nodes.
    pub closed spec fn is_stopped(&self) -> bool {
        self.stopped
    }

    /// Nodes visited so far.
    pub closed spec fn node_count(&self) -> u64 {
        self.nodes
    }

    /// The move left out at `ply`, if any (0 for none).
    pub closed spec fn excluded_at(&self, ply: int) -> u16 {
        self.stack@[ply].excluded.0
    }

    /// The static evaluation kept for `ply`.
    pub closed spec fn eval_at(&self, ply: int) -> i32 {
        self.stack@[ply].eval
    }

    /// The first move of the principal variation at the end of the last
    /// completed iteration of `think` (the null move before any).
    pub closed spec fn root_move(&self) -> Move {
        self.root_best
    }

    /// The table holds no entry for `key`.
    pub closed spec fn table_miss(&self, key: u64) -> bool {
        let e = self.tt.slots()[crate::tt::slot_of(key, self.tt.slots().len() as int)];
        !(e.used && e.key == key)
    }

    /// The first move of the principal variation at the root.
    pub closed spec fn pv_first(&self) -> Move {
        self.pv_table@[0]
    }

    /// The moves left out, ply by ply.
    pub closed spec fn exclusions(&self) -> Seq<Move> {
        self.stack@.map_values(|e: StackEntry| e.excluded)
    }

    /// A search of `pos` under `limits`, with the table `tt`, the stop flag
    /// `stop` and the late-move reductions `lmr` (by depth and move number,
    /// each 64 wide).
    pub fn new(pos: Position, tt: Tt, stop: Arc<AtomicBool>, limits: Limits, lmr: Vec<i32>) -> (r: Search)
        requires
            pos.wf(),
            tt.wf(),
            lmr@.len() == 4096,
            forall|i: int| 0 <= i < 4096 ==> 0 <= #[trigger] lmr@[i] <= 64,
            crate::timeman::clock_fits(limits, pos@.side),
        ensures
            r.wf(),
            r.position() == pos@,
            !r.is_stopped(),
            r.node_count() == 0,
    {
        let stm = pos.side_to_move();
        let fullmove = pos.fullmove_number() as u32;
        let tm = TimeManager::new(&limits, stm, fullmove);
        let mut stack: Vec<StackEntry> = Vec::new();
        let mut i: usize = 0;
        while i < MAX_PLY + 4
            invariant
                i <= MAX_PLY + 4,
                stack@.len() == i,
                forall|k: int| 0 <= k < i ==> #[trigger] stack@[k] == (StackEntry { eval: 0, moved_piece: 0, current_move: Move(0), excluded: Move(0) }),
            decreases MAX_PLY + 4 - i,
        {
            stack.push(StackEntry { eval: 0, moved_piece: 0, current_move: Move(0), excluded: Move(0) });
            i = i + 1;
        }
        let mut pv_table: Vec<Move> = Vec::new();
        let mut i: usize = 0;
        while i < MAX_PLY * MAX_PLY
            invariant
                i <= MAX_PLY * MAX_PLY,
                pv_table@.len() == i,
            decreases MAX_PLY * MAX_PLY - i,
        {
            pv_table.push(Move(0));
            i = i + 1;
        }
        let mut pv_len: Vec<usize> = Vec::new();
        let mut i: usize = 0;
        while i < MAX_PLY
            invariant
                i <= MAX_PLY,
                pv_len@.len() == i,
                forall|k: int| 0 <= k < i ==> #[trigger] pv_len@[k] == 0,
            decreases MAX_PLY - i,
        {
            pv_len.push(0);
            i = i + 1;
        }
        let mut root_nodes: Vec<u64> = Vec::new();
        let mut i: usize = 0;
        while i < 4096
            invariant
                i <= 4096,
                root_nodes@.len() == i,
            decreases 4096 - i,
        {
            root_nodes.push(0);
            i = i + 1;
        }
        Search {
            pos,
            tt,
            stop,
            tm,
            limits,
            nodes: 0,
            seldepth: 0,
            stopped: false,
            iter_fail_low: false,
            heur: Heuristics::new(),
            stack,
            pv_table,
            pv_len,
            lmr,
            nmp_min_ply: 0,
            root_best: Move(0),
            root_score: 0,
            root_nodes,
            infos: Vec::new(),
        }
    }

    /// Score (centipawns, side to move) of the last completed iteration.
    pub fn root_score(&self) -> (r: i32)
        requires
            self.wf(),
        ensures
            -INFINITY < r < INFINITY,
    {
        self.root_score
    }

    /// Nodes visited so far.
    pub fn nodes(&self) -> (r: u64)
        ensures
            r == self.node_count(),
    {
        self.nodes
    }

    /// Count a node; every few thousand nodes look at the flag and the clock.
    fn tick(&mut self)
        requires
            old(self).wf(),
        ensures
            final(self).wf(),
            final(self).position() == old(self).position(),
            final(self).pv_first() == old(self).pv_first(),
            final(self).table() == old(self).table(),
            final(self).exclusions() == old(self).exclusions(),
            old(self).is_stopped() ==> final(self).is_stopped(),
            final(self).node_count() == (if old(self).node_count() < u64::MAX {
                old(self).node_count() + 1
            } else {
                old(self).node_count() as int
            }),
    {
        if self.nodes < u64::MAX {
            self.nodes = self.nodes + 1;
        }
        if self.nodes & NODES_CHECK_MASK == 0 {
            self.check_time();
        }
    }

    /// Stop on the flag, the hard time limit or the node limit.
    fn check_time(&mut self)
        requires
            old(self).wf(),
        ensures
            final(self).wf(),
            final(self).position() == old(self).position(),
            final(self).node_count() == old(self).node_count(),
            final(self).pv_first() == old(self).pv_first(),
            final(self).table() == old(self).table(),
            final(self).exclusions() == old(self).exclusions(),
            old(self).is_stopped() ==> final(self).is_stopped(),
    {
        if stop_requested(&*self.stop) || self.tm.hard_expired() {
            self.stopped = true;
        }
        match self.limits.nodes {
            Some(n) => {
                if self.nodes >= n {
                    self.stopped = true;
                }
            },
            None => {},
        }
    }

    /// The move made at `ply` and the piece that made it, when there was one.
    fn context(&self, ply: usize, off: usize) -> (r: Option<(usize, usize)>)
        requires
            self.wf(),
            ply < MAX_PLY,
        ensures
            context_ok(r),
    {
        if ply >= off {
            let pe = self.stack[ply - off];
            if pe.current_move.0 != 0 {
                return Some((pe.moved_piece as usize, pe.current_move.to().0 as usize));
            }
        }
        None
    }

    /// Static-evaluation correction for the side to move and its pawns.
    fn correction(&self) -> (r: i32)
        requires
            self.wf(),
        ensures
            -32 <= r <= 32,
    {
        let stm = self.pos.side_to_move().index();
        let k = pawn_key(&self.pos);
        let r = self.heur.correction(stm, k);
        proof {
            let c = self.heur@.corr[corr_idx(stm as int, k)] as int;
            assert(0 <= corr_idx(stm as int, k) < corrhist_len());
            assert(-8192 <= c <= 8192);
            assert(-32 <= tdiv(c, 256) <= 32) by (nonlinear_arith)
                requires
                    -8192 <= c <= 8192;
        }
        r
    }

    /// Exchange ordering value: victim times sixteen less the attacker, plus
    /// the promotion piece.
    fn mvv_lva(&self, m: Move) -> (r: i32)
        requires
            self.wf(),
        ensures
            -1000 <= r <= 16000,
    {
        let victim = if m.is_en_passant() {
            0
        } else {
            match self.pos.piece_on(m.to()) {
                Some(p) => p.piece_type().index(),
                None => 0,
            }
        };
        let attacker = match self.pos.piece_on(m.from()) {
            Some(p) => p.piece_type().index(),
            None => 0,
        };
        let promo = match m.promotion() {
            Some(pt) => SEE_VALUE[pt.index()],
            None => 0,
        };
        SEE_VALUE[victim] * 16 - SEE_VALUE[attacker] + promo
    }

    fn capture_score(&self, m: Move) -> (r: i32)
        requires
            self.wf(),
        ensures
            -6000 <= r <= 21000,
    {
        let pc = piece_code_or_zero(&self.pos, m.from());
        let ct = captured_type(&self.pos, m);
        let h = self.heur.capture_history(pc, m.to().0 as usize, ct);
        self.mvv_lva(m) + h / 8
    }

    /// Order the moves of a full-width node.
    fn score_moves(&self, list: &mut MoveList, tt_move: Move, ply: usize)
        requires
            self.wf(),
            old(list).wf(),
            ply < MAX_PLY,
        ensures
            final(list).wf(),
            final(list)@ == old(list)@,
    {
        let stm = self.pos.side_to_move().index();
        let prev1 = self.context(ply, 1);
        let prev2 = self.context(ply, 2);
        let counter = self.heur.counter_move(prev1);
        let killer0 = self.heur.killer(ply, 0);
        let killer1 = self.heur.killer(ply, 1);
        let mut i: usize = 0;
        while i < list.len()
            invariant
                self.wf(),
                list.wf(),
                list@ == old(list)@,
                i <= list@.len(),
                stm < 2,
                context_ok(prev1),
                context_ok(prev2),
            decreases list@.len() - i,
        {
            let m = list.get(i);
            let s: i32 = if m.0 == tt_move.0 {
                16_777_216
            } else if m.is_capture() || m.is_promotion() {
                let v = self.capture_score(m);
                if see_ge(&self.pos, m, 0) {
                    1_048_576 + v
                } else {
                    v
                }
            } else if m.0 == killer0.0 {
                524_288
            } else if m.0 == killer1.0 {
                524_287
            } else if m.0 == counter.0 {
                262_144
            } else {
                let cpt = piece_code_or_zero(&self.pos, m.from());
                let h = self.heur.quiet_history(stm, m.from().0 as usize, m.to().0 as usize, cpt, prev1, prev2);
                h
            };
            list.set_score(i, s);
            i = i + 1;
        }
    }
}



impl Search {
    /// Store a node's result, when its table score fits the table's range (a
    /// mate score always does).
    fn store_tt(&mut self, key: u64, m: Move, best: i32, raw_eval: i32, depth: i32, bound: Bound, ply: usize)
        requires
            old(self).wf(),
            -INFINITY < best < INFINITY,
            -INFINITY <= raw_eval <= INFINITY,
            -1000 <= depth <= 1000,
            ply < MAX_PLY,
        ensures
            final(self).wf(),
            final(self).position() == old(self).position(),
            final(self).is_stopped() == old(self).is_stopped(),
            final(self).node_count() == old(self).node_count(),
            final(self).pv_first() == old(self).pv_first(),
            final(self).exclusions() == old(self).exclusions(),
    {
        let s = score_to_tt(best, ply as i32);
        if -MATE <= s && s <= MATE {
            self.tt.store(key, m, s, raw_eval, depth, bound);
        }
    }

    /// Put `m` in front of the principal variation found below `ply`.
    fn update_pv(&mut self, ply: usize, m: Move)
        requires
            old(self).wf(),
            ply + 1 < MAX_PLY,
        ensures
            final(self).wf(),
            final(self).position() == old(self).position(),
            final(self).is_stopped() == old(self).is_stopped(),
            final(self).node_count() == old(self).node_count(),
            final(self).pv_first() == (if ply == 0 { m } else { old(self).pv_first() }),
            final(self).exclusions() == old(self).exclusions(),
    {
        let child = self.pv_len[ply + 1];
        self.pv_table.set(ply * MAX_PLY, m);
        let mut i: usize = 0;
        while i < child
            invariant
                self.wf(),
                self.pos == old(self).pos,
                self.stopped == old(self).stopped,
                self.nodes == old(self).nodes,
                self.stack == old(self).stack,
                ply + 1 < MAX_PLY,
                child == self.pv_len@[ply + 1],
                child + ply + 1 <= MAX_PLY,
                i <= child,
                self.pv_table@[0] == (if ply == 0 { m } else { old(self).pv_first() }),
            decreases child - i,
        {
            let mv = self.pv_table[(ply + 1) * MAX_PLY + i];
            self.pv_table.set(ply * MAX_PLY + i + 1, mv);
            i = i + 1;
        }
        self.pv_len.set(ply, child + 1);
    }

    /// Order the moves of a quiescence node: table move first, then captures and
    /// promotions by exchange value.
    fn score_moves_qs(&self, list: &mut MoveList, tt_move: Move)
        requires
            self.wf(),
            old(list).wf(),
        ensures
            final(list).wf(),
            final(list)@ == old(list)@,
    {
        let mut i: usize = 0;
        while i < list.len()
            invariant
                self.wf(),
                list.wf(),
                list@ == old(list)@,
                i <= list@.len(),
            decreases list@.len() - i,
        {
            let m = list.get(i);
            let s: i32 = if m.0 == tt_move.0 {
                16_777_216
            } else if m.is_capture() || m.is_promotion() {
                self.capture_score(m)
            } else {
                0
            };
            list.set_score(i, s);
            i = i + 1;
        }
    }

    /// Play `m`, search the reply in quiescence with the window negated, and take
    /// `m` back: the score of `m` for the side that plays it.
    fn qs_child(&mut self, m: Move, alpha: i32, beta: i32, ply: usize) -> (r: i32)
        requires
            old(self).wf(),
            node_ok(old(self).position()),
            legal_move(old(self).position(), m.0),
            -INFINITY <= alpha < beta <= INFINITY,
            ply + 1 < MAX_PLY,
        ensures
            final(self).wf(),
            final(self).position() == old(self).position(),
            old(self).is_stopped() ==> final(self).is_stopped(),
            final(self).pv_first() == old(self).pv_first(),
            final(self).exclusions() == old(self).exclusions(),
            -INFINITY < r < INFINITY,
            -MATE + ply + 1 <= r <= MATE - ply - 1,
        decreases MAX_PLY - ply, 0nat,
    {
        let ghost v = self.pos@;
        proof {
            self.pos.lemma_wf();
            crate::position::lemma_unmake_make(v, m.0);
        }
        self.pos.make_move(m);
        let score = self.qsearch(-beta, -alpha, ply + 1);
        self.pos.unmake_move(m);
        -score
    }

    /// Quiescence search: stand pat on the evaluation, then play out captures and
    /// promotions (every move when in check) until the position is quiet.
    pub fn qsearch(&mut self, alpha: i32, beta: i32, ply: usize) -> (r: i32)
        requires
            old(self).wf(),
            -INFINITY <= alpha < beta <= INFINITY,
            ply < MAX_PLY,
        ensures
            final(self).wf(),
            final(self).position() == old(self).position(),
            old(self).is_stopped() ==> final(self).is_stopped(),
            ply > 0 ==> final(self).pv_first() == old(self).pv_first(),
            ply == 0 ==> final(self).pv_first() == old(self).pv_first() || legal_move(
                old(self).position(),
                final(self).pv_first().0,
            ),
            final(self).exclusions() == old(self).exclusions(),
            -INFINITY < r < INFINITY,
            -MATE + ply <= r <= MATE - ply,
            !final(self).is_stopped() && node_ok(old(self).position()) && ply + 1 < MAX_PLY && (crate::position::repeats(
                old(self).position(),
            ) || crate::position::insufficient(old(self).position().board)) ==> -1 <= r <= 2 && r == draw_value(
                final(self).node_count(),
            ),
            !final(self).is_stopped() && node_ok(old(self).position()) && ply + 1 < MAX_PLY && !drawn_by_rule(
                old(self).position(),
            ) && old(self).table_miss(old(self).position().key) && mated(old(self).position()) ==> r == -MATE + ply,
            !final(self).is_stopped() && node_ok(old(self).position()) && ply + 1 < MAX_PLY && drawn_by_rule(
                old(self).position(),
            ) ==> r == draw_value(final(self).node_count()),
        decreases MAX_PLY - ply, 1nat,
    {
        let mut alpha = alpha;
        self.tick();
        if self.stopped {
            return 0;
        }
        self.pv_len.set(ply, 0);
        if (ply as u32) > self.seldepth {
            self.seldepth = ply as u32;
        }
        if !playable(&self.pos) {
            return 0;
        }
        if ply >= MAX_PLY - 1 {
            return static_value(&self.pos);
        }
        if drawn_now(&self.pos) {
            return draw_score(self.nodes);
        }
        let in_check = self.pos.in_check();
        let key = self.pos.key();
        let mut tt_move = Move(0);
        let mut tt_eval: Option<i32> = None;
        match self.tt.probe(key) {
            Some(h) => {
                tt_move = h.mv;
                if !in_check {
                    tt_eval = Some(h.eval);
                }
                let tt_score = score_from_tt(h.score, ply as i32);
                match h.bound {
                    Bound::Exact => {
                        return tt_score;
                    },
                    Bound::Lower => {
                        if tt_score >= beta {
                            return tt_score;
                        }
                    },
                    Bound::Upper => {
                        if tt_score <= alpha {
                            return tt_score;
                        }
                    },
                }
            },
            None => {},
        }
        let raw_eval: i32;
        let mut best: i32;
        if in_check {
            raw_eval = -INFINITY;
            best = -INFINITY;
        } else {
            raw_eval = match tt_eval {
                Some(e) => e,
                None => static_value(&self.pos),
            };
            let c = self.correction();
            let v = raw_eval + c;
            best = if v < -MATE_IN_MAX + 1 {
                -MATE_IN_MAX + 1
            } else if v > MATE_IN_MAX - 1 {
                MATE_IN_MAX - 1
            } else {
                v
            };
            if best >= beta {
                return best;
            }
            if best > alpha {
                alpha = best;
            }
        }
        let mut list = MoveList::new();
        if in_check {
            generate_legal(&self.pos, &mut list);
        } else {
            generate_captures(&self.pos, &mut list);
        }
        self.score_moves_qs(&mut list, tt_move);
        let ghost v = self.pos@;
        proof {
            assert forall|x: Move| #[trigger] list@.contains(x) implies legal_move(v, x.0) by {
                let j = choose|j: int| 0 <= j < list@.len() && list@[j] == x;
                assert(legal_move(v, list@[j].0));
            }
        }
        proof {
            if list@.len() > 0 {
                assert(legal_move(v, list@[0].0));
            }
        }
        let ghost stop0 = old(self).stopped;
        let ghost ex0 = self.exclusions();
        let mut any = false;
        let mut best_move = Move(0);
        let mut i: usize = 0;
        while i < list.len()
            invariant_except_break
                alpha < beta,
            invariant
                self.wf(),
                self.pos@ == v,
                v == old(self).position(),
                node_ok(v),
                ply + 1 < MAX_PLY,
                list.wf(),
                i <= list@.len(),
                forall|m: Move| #[trigger] list@.contains(m) ==> legal_move(v, m.0),
                -INFINITY <= alpha <= INFINITY,
                -INFINITY < beta <= INFINITY,
                -INFINITY <= best < INFINITY,
                best == -INFINITY || (-MATE + ply <= best <= MATE - ply),
                !in_check ==> best > -INFINITY,
                in_check && any ==> best > -INFINITY,
                any ==> list@.len() > 0,
                mated(v) && in_check ==> list@.len() == 0,
                in_check && i > 0 ==> any,
                -INFINITY <= raw_eval <= INFINITY,
                !self.stopped,
                stop0 ==> self.stopped,
                self.exclusions() == ex0,
                ply > 0 ==> self.pv_first() == old(self).pv_first(),
                ply == 0 ==> self.pv_first() == old(self).pv_first() || legal_move(v, self.pv_first().0),
                ex0 == old(self).exclusions(),
            decreases list@.len() - i,
        {
            let ghost before = list@;
            let m = list.pick_best(i);
            proof {
                assert forall|x: Move| #[trigger] list@.contains(x) implies legal_move(v, x.0) by {
                    let j = choose|j: int| 0 <= j < list@.len() && list@[j] == x;
                    assert(before.contains(list@[j]));
                }
                assert(list@.contains(list@[i as int]));
            }
            any = true;
            if !in_check && !m.is_promotion() && !see_ge(&self.pos, m, 0) {
                i = i + 1;
                continue;
            }
            let score = self.qs_child(m, alpha, beta, ply);
            if self.stopped {
                return 0;
            }
            if score > best {
                best = score;
                best_move = m;
                if score > alpha {
                    alpha = score;
                    self.update_pv(ply, m);
                    if alpha >= beta {
                        break;
                    }
                }
            }
            i = i + 1;
        }
        if in_check && !any {
            return -MATE + ply as i32;
        }
        let bound = if best >= beta {
            Bound::Lower
        } else {
            Bound::Upper
        };
        self.store_tt(key, best_move, best, raw_eval, 0, bound, ply);
        best
    }
}


/// Depth as a termination measure: none left at or below zero.
pub open spec fn depth_left(depth: i32) -> nat {
    if depth > 0 {
        depth as nat
    } else {
        0
    }
}

/// The side to move is in check, as far as it has a king.
fn in_check_now(pos: &Position) -> (r: bool)
    requires
        pos.wf(),
    ensures
        has_king(pos@.board, pos@.side) ==> r == checked(pos@),
{
    let k = pos.pieces(pos.side_to_move(), PieceType::King);
    proof {
        lemma_nonzero_iff(k.0);
        if has_king(pos@.board, pos@.side) {
            let s = choose|s: int| 0 <= s < 64 && crate::position::holds(pos@.board, s, pos@.side, PieceType::King);
            assert(mem(k.0, s));
        }
    }
    if k.any() {
        pos.in_check()
    } else {
        false
    }
}

impl Search {
    /// Record the move made at `ply` and the piece code that made it.
    fn set_current(&mut self, ply: usize, m: Move, moving: usize)
        requires
            old(self).wf(),
            ply < MAX_PLY,
            moving < 12,
        ensures
            final(self).wf(),
            final(self).position() == old(self).position(),
            final(self).is_stopped() == old(self).is_stopped(),
            final(self).node_count() == old(self).node_count(),
            final(self).exclusions() == old(self).exclusions(),
            final(self).pv_first() == old(self).pv_first(),
    {
        let mut se = self.stack[ply];
        se.current_move = m;
        se.moved_piece = moving as u8;
        self.stack.set(ply, se);
        proof {
            assert(self.exclusions() =~= old(self).exclusions());
        }
    }

    /// Record the static evaluation at `ply`.
    fn set_eval(&mut self, ply: usize, e: i32)
        requires
            old(self).wf(),
            ply < MAX_PLY,
            -INFINITY <= e <= INFINITY,
        ensures
            final(self).wf(),
            final(self).position() == old(self).position(),
            final(self).is_stopped() == old(self).is_stopped(),
            final(self).node_count() == old(self).node_count(),
            final(self).exclusions() == old(self).exclusions(),
            final(self).pv_first() == old(self).pv_first(),
            final(self).eval_at(ply as int) == e,
    {
        let mut se = self.stack[ply];
        se.eval = e;
        self.stack.set(ply, se);
        proof {
            assert(self.exclusions() =~= old(self).exclusions());
        }
    }

    /// Set the move left out at `ply`.
    fn set_excluded(&mut self, ply: usize, m: Move)
        requires
            old(self).wf(),
            0 < ply < MAX_PLY,
        ensures
            final(self).wf(),
            final(self).position() == old(self).position(),
            final(self).is_stopped() == old(self).is_stopped(),
            final(self).node_count() == old(self).node_count(),
            final(self).exclusions() == old(self).exclusions().update(ply as int, m),
            final(self).pv_first() == old(self).pv_first(),
    {
        let mut se = self.stack[ply];
        se.excluded = m;
        self.stack.set(ply, se);
        proof {
            assert(self.exclusions() =~= old(self).exclusions().update(ply as int, m));
        }
    }
}

impl Search {
    /// Make the null move, search the reply with a null window at `beta`, and
    /// take it back: the score for the side that passed.
    #[verifier::rlimit(100)]
    fn null_child(&mut self, depth: i32, beta: i32, ply: usize) -> (r: i32)
        requires
            old(self).wf(),
            node_ok(old(self).position()),
            -INFINITY < beta <= INFINITY,
            ply + 1 < MAX_PLY,
            -1000 <= depth < 1000,
        ensures
            final(self).wf(),
            final(self).position() == old(self).position(),
            old(self).is_stopped() ==> final(self).is_stopped(),
            final(self).exclusions() == old(self).exclusions(),
            final(self).pv_first() == old(self).pv_first(),
            -INFINITY < r < INFINITY,
            r <= MATE - ply - 1,
            r >= -MATE + ply + 1 || r >= beta,
        decreases MAX_PLY - ply, 0nat, 0nat,
    {
        let ghost v = self.pos@;
        proof {
            self.pos.lemma_wf();
            crate::position::lemma_unnull_null(v);
        }
        self.pos.make_null_move();
        let s = self.negamax(depth, -beta, -beta + 1, ply + 1, false);
        self.pos.unmake_null_move();
        -s
    }

    /// Play a capture, confirm in quiescence and then at `depth` that it beats
    /// `pb`, and take it back.
    #[verifier::rlimit(100)]
    fn probcut_child(&mut self, m: Move, depth: i32, pb: i32, ply: usize) -> (r: i32)
        requires
            old(self).wf(),
            node_ok(old(self).position()),
            legal_move(old(self).position(), m.0),
            -INFINITY < pb < INFINITY,
            ply + 1 < MAX_PLY,
            -1000 <= depth < 1000,
        ensures
            final(self).wf(),
            final(self).position() == old(self).position(),
            old(self).is_stopped() ==> final(self).is_stopped(),
            final(self).exclusions() == old(self).exclusions(),
            final(self).pv_first() == old(self).pv_first(),
            -INFINITY < r < INFINITY,
            r <= MATE - ply - 1,
        decreases MAX_PLY - ply, 0nat, 0nat,
    {
        let ghost v = self.pos@;
        proof {
            self.pos.lemma_wf();
            crate::position::lemma_unmake_make(v, m.0);
        }
        self.pos.make_move(m);
        let mut s = -self.qsearch(-pb, -pb + 1, ply + 1);
        if s >= pb {
            s = -self.negamax(depth, -pb, -pb + 1, ply + 1, false);
        }
        self.pos.unmake_move(m);
        s
    }

    /// Play `m` and search it: the first move with the full window, the others
    /// with a null window, reduced late quiet moves first, widening on a
    /// fail-high; then take it back.
    #[verifier::rlimit(100)]
    fn pvs_child(
        &mut self,
        m: Move,
        depth: i32,
        alpha: i32,
        beta: i32,
        ply: usize,
        is_pv: bool,
        move_count: i32,
        is_quiet: bool,
        improving: bool,
        sing_ext: i32,
    ) -> (r: i32)
        requires
            old(self).wf(),
            node_ok(old(self).position()),
            legal_move(old(self).position(), m.0),
            -INFINITY <= alpha < beta <= INFINITY,
            ply + 1 < MAX_PLY,
            1 <= depth < 1000,
            1 <= move_count,
            0 <= sing_ext <= 1,
        ensures
            final(self).wf(),
            final(self).position() == old(self).position(),
            old(self).is_stopped() ==> final(self).is_stopped(),
            final(self).exclusions() == old(self).exclusions(),
            final(self).pv_first() == old(self).pv_first(),
            -INFINITY < r < INFINITY,
            r <= MATE - ply - 1,
            r >= -MATE + ply + 1 || r >= beta,
            !final(self).is_stopped() && move_count == 1 && is_pv && mates_into(old(self).position(), m.0) && alpha
                < MATE - ply - 1 && beta > MATE - ply - 1 && ply + 2 < MAX_PLY ==> r == MATE - ply - 1,
        decreases MAX_PLY - ply, 0nat, 0nat,
    {
        proof {
            reveal(mates_into);
        }
        let ghost v = self.pos@;
        proof {
            self.pos.lemma_wf();
            crate::position::lemma_unmake_make(v, m.0);
        }
        self.pos.make_move(m);
        let gives_check = in_check_now(&self.pos);
        let ext: i32 = if gives_check {
            1
        } else {
            sing_ext
        };
        let new_depth = depth - 1 + ext;
        let score;
        if move_count == 1 {
            score = -self.negamax(new_depth, -beta, -alpha, ply + 1, is_pv);
        } else {
            let mut r: i32 = 0;
            if depth >= 3 && is_quiet && !gives_check {
                let d: usize = if depth < 63 {
                    depth as usize
                } else {
                    63
                };
                let c: usize = if move_count < 63 {
                    move_count as usize
                } else {
                    63
                };
                r = self.lmr[d * 64 + c];
                if is_pv {
                    r = r - 1;
                }
                if improving {
                    r = r - 1;
                }
                let hi = if new_depth > 1 {
                    new_depth - 1
                } else {
                    0
                };
                r = if r < 0 {
                    0
                } else if r > hi {
                    hi
                } else {
                    r
                };
            }
            let mut s = -self.negamax(new_depth - r, -alpha - 1, -alpha, ply + 1, false);
            if s > alpha && r > 0 {
                s = -self.negamax(new_depth, -alpha - 1, -alpha, ply + 1, false);
            }
            if s > alpha && s < beta {
                s = -self.negamax(new_depth, -beta, -alpha, ply + 1, true);
            }
            score = s;
        }
        self.pos.unmake_move(m);
        score
    }
}

impl Search {
    /// Whole-node pruning before the move loop (not on principal-variation
    /// nodes, not in check): reverse futility, razoring, the null move with its
    /// verification at high depth, and probcut. `Some` holds the node's score
    /// when one of them decides it.
    #[verifier::rlimit(100)]
    fn prune_node(
        &mut self,
        depth: i32,
        alpha: i32,
        beta: i32,
        ply: usize,
        static_eval: i32,
        raw_eval: i32,
        tt_move: Move,
        tt_hit: Option<crate::tt::TtHit>,
        key: u64,
    ) -> (r: Option<i32>)
        requires
            old(self).wf(),
            node_ok(old(self).position()),
            -INFINITY <= alpha < beta <= INFINITY,
            -MATE_IN_MAX < beta < MATE_IN_MAX,
            ply + 1 < MAX_PLY,
            1 <= depth < 1000,
            -MATE_IN_MAX < static_eval < MATE_IN_MAX,
            -INFINITY <= raw_eval <= INFINITY,
            tt_hit matches Some(h) ==> -MATE <= h.score <= MATE && -1000 <= h.depth <= 1000,
        ensures
            final(self).wf(),
            final(self).position() == old(self).position(),
            old(self).is_stopped() ==> final(self).is_stopped(),
            final(self).exclusions() == old(self).exclusions(),
            ply > 0 ==> final(self).pv_first() == old(self).pv_first(),
            ply == 0 ==> final(self).pv_first() == old(self).pv_first() || legal_move(
                old(self).position(),
                final(self).pv_first().0,
            ),
            r matches Some(x) ==> -INFINITY < x < INFINITY,
            r matches Some(x) ==> x <= MATE - ply && (x >= -MATE + ply || x >= beta),
        decreases MAX_PLY - ply, depth_left(depth), 0nat,
    {
        let ghost v = self.pos@;
        let p = ply as i32;
        // Reverse futility.
        if depth <= 8 && static_eval - 80 * depth >= beta {
            return Some(static_eval);
        }
        // Razoring.
        if depth <= 3 && static_eval + 200 * depth < alpha {
            let q = self.qsearch(alpha, beta, ply);
            if q < alpha {
                return Some(q);
            }
        }
        // Null move.
        let prev = if ply >= 1 {
            ply - 1
        } else {
            0
        };
        if depth >= 3 && static_eval >= beta && self.pos.has_non_pawn_material(self.pos.side_to_move()) && (
        self.nmp_min_ply == 0 || p >= self.nmp_min_ply) && self.stack[prev].current_move.0 != 0 {
            let gap = (static_eval - beta) / 200;
            let r = 3 + depth / 3 + if gap < 3 {
                gap
            } else {
                3
            };
            self.set_current(ply, Move(0), 0);
            let score = self.null_child(depth - 1 - r, beta, ply);
            if self.stopped {
                return Some(0);
            }
            if score >= beta {
                let score = if score >= MATE_IN_MAX {
                    beta
                } else {
                    score
                };
                if depth < 10 || self.nmp_min_ply != 0 {
                    return Some(score);
                }
                self.nmp_min_ply = p + 3 * (depth - r) / 4;
                let w = self.negamax(depth - 1 - r, beta - 1, beta, ply, false);
                self.nmp_min_ply = 0;
                if self.stopped {
                    return Some(0);
                }
                if w >= beta {
                    return Some(score);
                }
            }
        }
        // Probcut.
        let probcut_beta = beta + 200;
        let tt_blocks = match tt_hit {
            Some(h) => h.depth >= depth - 3 && score_from_tt(h.score, p) < probcut_beta,
            None => false,
        };
        if depth >= 6 && !tt_blocks {
            let mut clist = MoveList::new();
            generate_captures(&self.pos, &mut clist);
            self.score_moves_qs(&mut clist, tt_move);
            proof {
                assert forall|x: Move| #[trigger] clist@.contains(x) implies legal_move(v, x.0) by {
                    let j = choose|j: int| 0 <= j < clist@.len() && clist@[j] == x;
                    assert(legal_move(v, clist@[j].0));
                }
            }
            let mut i: usize = 0;
            while i < clist.len()
                invariant
                    self.wf(),
                    self.pos@ == v,
                    v == old(self).position(),
                    node_ok(v),
                    ply + 1 < MAX_PLY,
                    clist.wf(),
                    i <= clist@.len(),
                    forall|x: Move| #[trigger] clist@.contains(x) ==> legal_move(v, x.0),
                    probcut_beta == beta + 200,
                    -INFINITY <= beta,
                    -INFINITY < probcut_beta < INFINITY,
                    -MATE_IN_MAX < static_eval < MATE_IN_MAX,
                    6 <= depth < 1000,
                    -INFINITY <= raw_eval <= INFINITY,
                    old(self).stopped ==> self.stopped,
                    self.exclusions() == old(self).exclusions(),
                    ply > 0 ==> self.pv_first() == old(self).pv_first(),
                    ply == 0 ==> self.pv_first() == old(self).pv_first() || legal_move(v, self.pv_first().0),
                decreases clist@.len() - i,
            {
                let ghost before = clist@;
                let m = clist.pick_best(i);
                proof {
                    assert forall|x: Move| #[trigger] clist@.contains(x) implies legal_move(v, x.0) by {
                        let j = choose|j: int| 0 <= j < clist@.len() && clist@[j] == x;
                        assert(before.contains(clist@[j]));
                    }
                    assert(clist@.contains(clist@[i as int]));
                }
                if !see_ge(&self.pos, m, probcut_beta - static_eval) {
                    i = i + 1;
                    continue;
                }
                let moving = piece_code_or_zero(&self.pos, m.from());
                self.set_current(ply, m, moving);
                let s = self.probcut_child(m, depth - 4, probcut_beta, ply);
                if self.stopped {
                    return Some(0);
                }
                if s >= probcut_beta {
                    self.store_tt(key, m, s, raw_eval, depth - 3, Bound::Lower, ply);
                    return Some(s);
                }
                i = i + 1;
            }
        }
        None
    }
}

impl Search {
    /// Alpha-beta search of the position to `depth` plies at `ply` plies from the
    /// root, with principal-variation search, the table, null-move, futility,
    /// late-move and probcut pruning, singular extensions and late-move
    /// reductions. Scores are centipawns for the side to move; a stopped search
    /// returns 0 from its nodes.
    #[verifier::rlimit(100)]
    pub fn negamax(&mut self, depth: i32, alpha: i32, beta: i32, ply: usize, is_pv: bool) -> (r: i32)
        requires
            old(self).wf(),
            -INFINITY <= alpha < beta <= INFINITY,
            ply < MAX_PLY,
            -1000 <= depth < 1000,
        ensures
            final(self).wf(),
            final(self).position() == old(self).position(),
            old(self).is_stopped() ==> final(self).is_stopped(),
            final(self).exclusions() == old(self).exclusions(),
            ply > 0 ==> final(self).pv_first() == old(self).pv_first(),
            ply == 0 ==> final(self).pv_first() == old(self).pv_first() || legal_move(
                old(self).position(),
                final(self).pv_first().0,
            ),
            -INFINITY < r < INFINITY,
            r <= MATE - ply || r <= alpha,
            r >= -MATE + ply || (ply == 0 && r >= beta),
            !final(self).is_stopped() && node_ok(old(self).position()) && depth > 0 && 0 < ply && ply + 1 < MAX_PLY && (
            crate::position::repeats(old(self).position()) || crate::position::insufficient(old(self).position().board))
                ==> -1 <= r <= 2 && r == draw_value(final(self).node_count()),
            !final(self).is_stopped() && node_ok(old(self).position()) && depth > 0 && ply + 1 < MAX_PLY && (ply == 0 || (
            !drawn_by_rule(old(self).position()) && window_open(alpha as int, beta as int, ply as int))) && mated(
                old(self).position(),
            ) && (is_pv || old(self).table_miss(old(self).position().key)) ==> r == -MATE + ply,
            !final(self).is_stopped() && ply == 0 && is_pv && depth > 0 && node_ok(old(self).position()) && mates_all(
                old(self).position(),
            ) && alpha < MATE - 1 && beta > MATE - 1 ==> r == MATE - 1,
            !final(self).is_stopped() && node_ok(old(self).position()) && depth > 0 && 0 < ply && ply + 1 < MAX_PLY
                && drawn_by_rule(old(self).position()) ==> r == draw_value(final(self).node_count()),
            !final(self).is_stopped() && node_ok(old(self).position()) && depth > 0 && ply + 1 < MAX_PLY && is_pv
                && old(self).exclusions()[ply as int].0 == 0 && (ply == 0 || (!drawn_by_rule(old(self).position())
                && (if alpha > -MATE + ply { alpha as int } else { -MATE + ply }) < (if beta < MATE - ply - 1 {
                beta as int
            } else {
                MATE - ply - 1
            }))) && no_moves(old(self).position()) ==> r == (if checked(old(self).position()) {
                -MATE + ply
            } else {
                draw_value(final(self).node_count())
            }),
        decreases MAX_PLY - ply, depth_left(depth), 1nat,
    {
        let mut depth = depth;
        let mut alpha = alpha;
        let mut beta = beta;
        let ghost v = self.pos@;
        self.pv_len.set(ply, 0);
        if depth <= 0 {
            return self.qsearch(alpha, beta, ply);
        }
        self.tick();
        if self.stopped {
            return 0;
        }
        if !playable(&self.pos) {
            return 0;
        }
        if ply >= MAX_PLY - 1 {
            return static_value(&self.pos);
        }
        if (ply as u32) > self.seldepth {
            self.seldepth = ply as u32;
        }
        let root = ply == 0;
        let in_check = self.pos.in_check();
        let p = ply as i32;
        if !root {
            if drawn_now(&self.pos) {
                return draw_score(self.nodes);
            }
            // Mate-distance pruning.
            if alpha < -MATE + p {
                alpha = -MATE + p;
            }
            if beta > MATE - p - 1 {
                beta = MATE - p - 1;
            }
            if alpha >= beta {
                return alpha;
            }
        }
        let ghost nodes0 = self.nodes;
        let excluded = self.stack[ply].excluded;
        let key = self.pos.key();
        let tt_hit = self.tt.probe(key);
        let mut tt_move = Move(0);
        let mut tt_eval: Option<i32> = None;
        match tt_hit {
            Some(h) => {
                tt_move = h.mv;
                tt_eval = Some(h.eval);
                let tt_score = score_from_tt(h.score, p);
                if !is_pv && excluded.0 == 0 && h.depth >= depth {
                    match h.bound {
                        Bound::Exact => {
                            return tt_score;
                        },
                        Bound::Lower => {
                            if tt_score >= beta {
                                return tt_score;
                            }
                        },
                        Bound::Upper => {
                            if tt_score <= alpha {
                                return tt_score;
                            }
                        },
                    }
                }
            },
            None => {},
        }
        // Static evaluation, corrected for the pawn structure (none in check).
        let raw_eval: i32 = if in_check {
            -INFINITY
        } else {
            match tt_eval {
                Some(e) => e,
                None => static_value(&self.pos),
            }
        };
        let static_eval: i32 = if in_check {
            raw_eval
        } else {
            let c = self.correction();
            let w = raw_eval + c;
            if w < -MATE_IN_MAX + 1 {
                -MATE_IN_MAX + 1
            } else if w > MATE_IN_MAX - 1 {
                MATE_IN_MAX - 1
            } else {
                w
            }
        };
        self.set_eval(ply, static_eval);
        let improving = !in_check && ply >= 2 && static_eval > self.stack[ply - 2].eval;
        if !is_pv && !in_check && excluded.0 == 0 && -MATE_IN_MAX < beta && beta < MATE_IN_MAX {
            match self.prune_node(depth, alpha, beta, ply, static_eval, raw_eval, tt_move, tt_hit, key) {
                Some(x) => {
                    return x;
                },
                None => {},
            }
        }
        // Internal iterative reduction.
        if depth >= 4 && tt_move.0 == 0 {
            depth = depth - 1;
        }
        let mut list = MoveList::new();
        generate_legal(&self.pos, &mut list);
        if list.is_empty() {
            proof {
                lemma_node_single_king(v);
                if mates_all(v) {
                    let m = choose|m: u16| #[trigger] legal_move(v, m);
                    assert(crate::movegen::listed(list@, m));
                }
            }
            return if in_check {
                -MATE + p
            } else {
                draw_score(self.nodes)
            };
        }
        self.score_moves(&mut list, tt_move, ply);
        proof {
            assert(legal_move(v, list@[0].0));
        }
        self.move_loop(
            list,
            depth,
            alpha,
            beta,
            ply,
            is_pv,
            in_check,
            excluded,
            tt_move,
            tt_hit,
            static_eval,
            raw_eval,
            improving,
            key,
        )
    }
}

impl Search {
    /// The move loop of a full-width node: search the ordered moves, prune and
    /// extend, keep the best, update the heuristics and the table.
    #[verifier::rlimit(100)]
    fn move_loop(
        &mut self,
        list: MoveList,
        depth: i32,
        alpha: i32,
        beta: i32,
        ply: usize,
        is_pv: bool,
        in_check: bool,
        excluded: Move,
        tt_move: Move,
        tt_hit: Option<crate::tt::TtHit>,
        static_eval: i32,
        raw_eval: i32,
        improving: bool,
        key: u64,
    ) -> (r: i32)
        requires
            old(self).wf(),
            node_ok(old(self).position()),
            list.wf(),
            list@.len() > 0,
            forall|j: int| 0 <= j < list@.len() ==> legal_move(old(self).position(), #[trigger] list@[j].0),
            -INFINITY <= alpha < beta <= INFINITY,
            ply + 1 < MAX_PLY,
            1 <= depth < 1000,
            excluded == old(self).exclusions()[ply as int],
            ply == 0 ==> excluded.0 == 0,
            ply > 0 ==> alpha >= -MATE + ply,
            ply == 0 ==> alpha > -INFINITY || excluded.0 == 0,
            alpha > -INFINITY || excluded.0 == 0,
            tt_hit matches Some(h) ==> -MATE <= h.score <= MATE && -1000 <= h.depth <= 1000,
            -INFINITY <= static_eval <= INFINITY,
            in_check ==> static_eval == -INFINITY,
            !in_check ==> -MATE_IN_MAX < static_eval < MATE_IN_MAX,
            -INFINITY <= raw_eval <= INFINITY,
        ensures
            final(self).wf(),
            final(self).position() == old(self).position(),
            old(self).is_stopped() ==> final(self).is_stopped(),
            final(self).exclusions() == old(self).exclusions(),
            ply > 0 ==> final(self).pv_first() == old(self).pv_first(),
            ply == 0 ==> final(self).pv_first() == old(self).pv_first() || legal_move(
                old(self).position(),
                final(self).pv_first().0,
            ),
            -INFINITY < r < INFINITY,
            r <= MATE - ply || r <= alpha,
            r >= -MATE + ply || r >= beta,
            !final(self).is_stopped() && is_pv && excluded.0 == 0 && every_move_mates(old(self).position()) && alpha
                < MATE - ply - 1 && beta > MATE - ply - 1 && ply + 2 < MAX_PLY ==> r == MATE - ply - 1,
        decreases MAX_PLY - ply, depth_left(depth), 0nat,
    {
        let mut list = list;
        let alpha0 = alpha;
        let mut alpha = alpha;
        let ghost v0 = self.pos@;
        let ghost hyp = is_pv && excluded.0 == 0 && every_move_mates(v0) && alpha0 < MATE - ply - 1 && beta > MATE
            - ply - 1 && ply + 2 < MAX_PLY;
        let see_margin: i32 = -90 * depth;
        let ghost v = self.pos@;
        let root = ply == 0;
        let p = ply as i32;
        let orig_alpha = alpha;
        let mut best: i32 = -INFINITY;
        let mut best_move = Move(0);
        let mut move_count: i32 = 0;
        let mut quiets: Vec<Move> = Vec::new();
        let mut caps: Vec<Move> = Vec::new();
        let prev1 = self.context(ply, 1);
        let prev2 = self.context(ply, 2);
        proof {
            assert forall|x: Move| #[trigger] list@.contains(x) implies legal_move(v, x.0) by {
                let j = choose|j: int| 0 <= j < list@.len() && list@[j] == x;
            }
        }
        let n = list.len();
        let mut i: usize = 0;
        while i < n
            invariant_except_break
                alpha < beta,
                excluded.0 == 0 ==> move_count > 0 || i == 0,
            invariant
                self.wf(),
                self.pos@ == v,
                v == old(self).position(),
                node_ok(v),
                ply + 1 < MAX_PLY,
                list.wf(),
                n == list@.len(),
                i <= n,
                forall|x: Move| #[trigger] list@.contains(x) ==> legal_move(v, x.0),
                -INFINITY <= alpha <= INFINITY,
                -INFINITY < beta <= INFINITY,
                alpha >= orig_alpha,
                -INFINITY <= best < INFINITY,
                hyp == (is_pv && excluded.0 == 0 && every_move_mates(v) && alpha0 < MATE - ply - 1 && beta > MATE - ply
                    - 1 && ply + 2 < MAX_PLY),
                hyp && !self.stopped && move_count > 0 ==> best == MATE - ply - 1 && alpha == MATE - ply - 1,
                move_count == 0 ==> alpha == alpha0,
                best <= MATE - ply - 1,
                move_count > 0 ==> best >= -MATE + ply + 1 || best >= beta,
                move_count > 0 ==> best > -INFINITY,
                n > 0,
                best > -INFINITY ==> move_count > 0,
                0 <= move_count,
                1 <= depth < 1000,
                see_margin == -90 * depth,
                p == ply,
                root == (ply == 0),
                quiets@.len() <= 64,
                caps@.len() <= 32,
                context_ok(prev1),
                context_ok(prev2),
                old(self).stopped ==> self.stopped,
                excluded == old(self).exclusions()[ply as int],
                self.exclusions() == old(self).exclusions(),
                ply > 0 ==> self.pv_first() == old(self).pv_first(),
                ply == 0 ==> self.pv_first() == old(self).pv_first() || legal_move(v, self.pv_first().0),
                tt_hit matches Some(h) ==> -MATE <= h.score <= MATE && -1000 <= h.depth <= 1000,
                -INFINITY <= static_eval <= INFINITY,
                !in_check ==> -MATE_IN_MAX < static_eval < MATE_IN_MAX,
                ply < MAX_PLY,
            ensures
                excluded.0 == 0 ==> move_count > 0,
                move_count == 0 ==> alpha < beta,
                -INFINITY <= alpha <= INFINITY,
            decreases n - i,
        {
            let ghost before = list@;
            let m = list.pick_best(i);
            proof {
                assert forall|x: Move| #[trigger] list@.contains(x) implies legal_move(v, x.0) by {
                    let j = choose|j: int| 0 <= j < list@.len() && list@[j] == x;
                    assert(before.contains(list@[j]));
                }
                assert(list@.contains(list@[i as int]));
            }
            if m.0 == excluded.0 && excluded.0 != 0 {
                i = i + 1;
                continue;
            }
            let is_quiet = !m.is_capture() && !m.is_promotion();
            if move_count < i32::MAX {
                move_count = move_count + 1;
            }
            // Late-move and futility pruning of quiet moves; losing captures.
            if !root && !is_pv && !in_check && best > -MATE_IN_MAX {
                if is_quiet {
                    assert(0 <= depth * depth < 1_000_000) by (nonlinear_arith)
                        requires
                            1 <= depth < 1000;
                    let lmp = if improving {
                        4 + depth * depth
                    } else {
                        (4 + depth * depth) / 2
                    };
                    if depth <= 8 && move_count >= lmp {
                        i = i + 1;
                        continue;
                    }
                    if depth <= 6 && static_eval + 100 + 90 * depth <= alpha {
                        i = i + 1;
                        continue;
                    }
                } else if depth <= 6 && !see_ge(&self.pos, m, see_margin) {
                    i = i + 1;
                    continue;
                }
            }
            // Singular extension.
            let mut sing_ext: i32 = 0;
            if !root && depth >= 8 && m.0 == tt_move.0 && excluded.0 == 0 {
                match tt_hit {
                    Some(h) => {
                        assert(p == ply);
                        let tt_score = score_from_tt(h.score, p);
                        let abs_tt = if tt_score < 0 {
                            -tt_score
                        } else {
                            tt_score
                        };
                        let lower_or_exact = match h.bound {
                            Bound::Lower => true,
                            Bound::Exact => true,
                            Bound::Upper => false,
                        };
                        if h.depth >= depth - 3 && lower_or_exact && abs_tt < MATE_IN_MAX {
                            let sing_beta = tt_score - 2 * depth;
                            self.set_excluded(ply, m);
                            let s = self.negamax((depth - 1) / 2, sing_beta - 1, sing_beta, ply, false);
                            self.set_excluded(ply, Move(0));
                            proof {
                                assert(self.exclusions() =~= old(self).exclusions());
                            }
                            if self.stopped {
                                return 0;
                            }
                            if s < sing_beta {
                                sing_ext = 1;
                            } else if sing_beta >= beta {
                                return sing_beta;
                            }
                        }
                    },
                    None => {},
                }
            }
            let moving = piece_code_or_zero(&self.pos, m.from());
            self.set_current(ply, m, moving);
            let nodes_before = self.nodes;
            proof {
                if hyp {
                    assert(mates_into(v, m.0)) by {
                        reveal(every_move_mates);
                    }
                }
            }
            let score = self.pvs_child(m, depth, alpha, beta, ply, is_pv, move_count, is_quiet, improving, sing_ext);
            if root {
                let ri = m.from().0 as usize * 64 + m.to().0 as usize;
                let spent = if self.nodes >= nodes_before {
                    self.nodes - nodes_before
                } else {
                    0
                };
                let cur = self.root_nodes[ri];
                self.root_nodes.set(ri, cur.saturating_add(spent));
            }
            if self.stopped {
                return 0;
            }
            if score > best {
                best = score;
                best_move = m;
                if score > alpha {
                    alpha = score;
                    self.update_pv(ply, m);
                    if alpha >= beta {
                        if is_quiet {
                            self.heur.update_quiet_stats(&self.pos, m, depth, ply, prev1, prev2, quiets.as_slice());
                        }
                        self.heur.update_capture_stats(&self.pos, m, depth, caps.as_slice());
                        break;
                    }
                }
            }
            if is_quiet && quiets.len() < 64 {
                quiets.push(m);
            } else if m.is_capture() && caps.len() < 32 {
                caps.push(m);
            }
            i = i + 1;
        }
        if move_count == 0 {
            return alpha;
        }
        let bound = if best >= beta {
            Bound::Lower
        } else if best > orig_alpha {
            Bound::Exact
        } else {
            Bound::Upper
        };
        let abs_best = if best < 0 {
            -best
        } else {
            best
        };
        if !in_check && excluded.0 == 0 && abs_best < MATE_IN_MAX && (best_move.0 == 0 || (!best_move.is_capture()
            && !best_move.is_promotion())) && !(bound == Bound::Lower && best <= static_eval) && !(bound == Bound::Upper
            && best >= static_eval) {
            let stm = self.pos.side_to_move().index();
            let k = pawn_key(&self.pos);
            self.heur.update_correction(stm, k, depth, best - raw_eval);
        }
        if excluded.0 == 0 {
            self.store_tt(key, best_move, best, raw_eval, depth, bound, ply);
        }
        best
    }
}


impl Search {
    /// Search the root to `depth` in a window around the previous score,
    /// widening it after each fail until the score falls inside.
    fn aspiration(&mut self, depth: i32, prev: i32) -> (r: i32)
        requires
            old(self).wf(),
            1 <= depth < MAX_PLY,
            -INFINITY < prev < INFINITY,
        ensures
            final(self).wf(),
            final(self).position() == old(self).position(),
            old(self).is_stopped() ==> final(self).is_stopped(),
            final(self).exclusions() == old(self).exclusions(),
            final(self).pv_first() == old(self).pv_first() || legal_move(old(self).position(), final(self).pv_first().0),
            -INFINITY < r < INFINITY,
    {
        if depth <= 4 {
            return self.negamax(depth, -INFINITY, INFINITY, 0, true);
        }
        let ghost v = self.pos@;
        let mut delta: i32 = 18;
        let mut alpha: i32 = if prev - delta > -INFINITY {
            prev - delta
        } else {
            -INFINITY
        };
        let mut beta: i32 = if prev + delta < INFINITY {
            prev + delta
        } else {
            INFINITY
        };
        loop
            invariant
                self.wf(),
                self.pos@ == v,
                v == old(self).position(),
                old(self).stopped ==> self.stopped,
                self.exclusions() == old(self).exclusions(),
                self.pv_first() == old(self).pv_first() || legal_move(v, self.pv_first().0),
                -INFINITY <= alpha < beta <= INFINITY,
                18 <= delta <= 100_000,
                5 <= depth < MAX_PLY,
            decreases 100_000 - delta, 2 * (if alpha > -INFINITY { 1int } else { 0 }) + (if beta < INFINITY {
                1int
            } else {
                0
            }),
        {
            let score = self.negamax(depth, alpha, beta, 0, true);
            if self.stopped {
                return score;
            }
            if score <= alpha {
                self.iter_fail_low = true;
                beta = (alpha + beta) / 2;
                alpha = if score - delta > -INFINITY {
                    score - delta
                } else {
                    -INFINITY
                };
            } else if score >= beta {
                beta = if score + delta < INFINITY {
                    score + delta
                } else {
                    INFINITY
                };
            } else {
                return score;
            }
            if delta < 100_000 {
                delta = delta + delta / 2;
                if delta > 100_000 {
                    delta = 100_000;
                }
            }
        }
    }
}

/// Share of the soft time budget (percent) by how many iterations in a row
/// kept the best move.
pub open spec fn stability_pct(s: int) -> int {
    if s <= 0 {
        140
    } else if s == 1 {
        120
    } else if s == 2 {
        110
    } else if s == 3 {
        100
    } else if s == 4 {
        95
    } else if s == 5 {
        90
    } else if s == 6 {
        85
    } else if s == 7 {
        82
    } else {
        80
    }
}

fn stability_percent(s: u32) -> (r: u64)
    ensures
        r == stability_pct(s as int),
{
    if s == 0 {
        140
    } else if s == 1 {
        120
    } else if s == 2 {
        110
    } else if s == 3 {
        100
    } else if s == 4 {
        95
    } else if s == 5 {
        90
    } else if s == 6 {
        85
    } else if s == 7 {
        82
    } else {
        80
    }
}

impl Search {
    /// Record the report of a completed iteration.
    fn report(&mut self, depth: u32, score: i32)
        requires
            old(self).wf(),
        ensures
            final(self).wf(),
            final(self).position() == old(self).position(),
            final(self).is_stopped() == old(self).is_stopped(),
            final(self).exclusions() == old(self).exclusions(),
            final(self).pv_first() == old(self).pv_first(),
    {
        let mut pv: Vec<Move> = Vec::new();
        let n = self.pv_len[0];
        let mut i: usize = 0;
        while i < n
            invariant
                self.wf(),
                n == self.pv_len@[0],
                n <= MAX_PLY,
                i <= n,
            decreases n - i,
        {
            pv.push(self.pv_table[i]);
            i = i + 1;
        }
        if pv.len() == 0 {
            pv.push(self.root_best);
        }
        let info = SearchInfo {
            depth,
            seldepth: self.seldepth,
            score,
            nodes: self.nodes,
            time_ms: self.tm.elapsed_ms(),
            pv,
            hashfull: self.tt.hashfull() as usize,
        };
        self.infos.push(info);
    }

    /// The reports of the iterations completed so far, handed over.
    pub fn take_infos(&mut self) -> (r: Vec<SearchInfo>)
        requires
            old(self).wf(),
        ensures
            final(self).wf(),
            final(self).position() == old(self).position(),
    {
        let mut out: Vec<SearchInfo> = Vec::new();
        std::mem::swap(&mut out, &mut self.infos);
        out
    }

    /// Iterative deepening from depth one up to the depth limit (at most 127),
    /// until the stop flag, the time or node budget, or a found mate ends it.
    /// Returns the best move of the last completed iteration, the first
    /// generated move when none completed, or the null move when there is no
    /// legal move.
    #[verifier::rlimit(100)]
    pub fn think(&mut self) -> (m: Move)
        requires
            old(self).wf(),
            has_king(old(self).position().board, old(self).position().side),
            pawns_on_board(old(self).position().board),
        ensures
            final(self).wf(),
            final(self).position() == old(self).position(),
            m.0 != 0 ==> legal_move(old(self).position(), m.0),
            crate::movegen::single_king(old(self).position().board, old(self).position().side) ==> ((m.0 == 0)
                == no_moves(old(self).position())),
            final(self).root_move().0 != 0 ==> m == final(self).root_move(),
    {
        let ghost v = self.pos@;
        self.root_best = Move(0);
        self.tt.new_generation();
        let mut fallback = MoveList::new();
        generate_legal(&self.pos, &mut fallback);
        if fallback.is_empty() {
            proof {
                if crate::movegen::single_king(v.board, v.side) {
                    assert forall|x: u16| !#[trigger] legal_move(v, x) by {
                        if legal_move(v, x) {
                            assert(crate::movegen::listed(fallback@, x));
                        }
                    }
                }
            }
            return Move(0);
        }
        let first = fallback.get(0);
        proof {
            assert(legal_move(v, first.0));
        }
        // The root's principal variation starts afresh.
        self.pv_table.set(0, Move(0));
        let mut best_move = first;
        let mut last_root = Move(0);
        let single_reply = fallback.len() == 1;
        let max_depth: u32 = match self.limits.depth {
            Some(d) => if d < 127 {
                d
            } else {
                127
            },
            None => 127,
        };
        let mut last_score: i32 = 0;
        let mut stability: u32 = 0;
        let mut depth: u32 = 1;
        while depth <= max_depth
            invariant
                self.wf(),
                self.pos@ == v,
                v == old(self).position(),
                max_depth <= 127,
                1 <= depth <= max_depth + 1,
                self.pv_first().0 == 0 || legal_move(v, self.pv_first().0),
                best_move.0 != 0 ==> legal_move(v, best_move.0),
                last_root == best_move || (last_root.0 == 0 && best_move == first),
                legal_move(v, first.0),
                first.0 != 0,
                -INFINITY < last_score < INFINITY,
                stability <= 8,
            decreases max_depth + 1 - depth,
        {
            self.iter_fail_low = false;
            let score = self.aspiration(depth as i32, last_score);
            if self.stopped {
                break;
            }
            let prev_score = last_score;
            last_score = score;
            let prev_best = best_move;
            best_move = self.pv_table[0];
            self.root_best = best_move;
            last_root = best_move;
            self.root_score = score;
            self.report(depth, score);
            // A forced move needs no deepening on a clock.
            if single_reply && self.tm.has_clock() {
                break;
            }
            if best_move.0 == prev_best.0 {
                stability = if stability + 1 < 8 {
                    stability + 1
                } else {
                    8
                };
            } else {
                stability = 0;
            }
            let mut budget_pct: u64 = stability_percent(stability);
            if depth >= 8 && self.nodes > 0 {
                let bi = best_move.from().0 as usize * 64 + best_move.to().0 as usize;
                let bn = self.root_nodes[bi];
                let effort = (100u128 * bn as u128) / (self.nodes as u128);
                let effort_pct: u64 = if effort < 100 {
                    effort as u64
                } else {
                    100
                };
                let raw = 130 - effort_pct * 6 / 10;
                let node_pct: u64 = if raw < 75 {
                    75
                } else {
                    raw
                };
                assert(budget_pct * node_pct <= 140 * 130) by (nonlinear_arith)
                    requires
                        budget_pct <= 140,
                        node_pct <= 130;
                budget_pct = budget_pct * node_pct / 100;
            }
            assert(budget_pct <= 182);
            if depth >= 6 && score < prev_score {
                let d = prev_score - score;
                let drop: u64 = if d < 50 {
                    d as u64
                } else {
                    50
                };
                assert(budget_pct * (100 + drop) <= 182 * 150) by (nonlinear_arith)
                    requires
                        budget_pct <= 182,
                        drop <= 50;
                budget_pct = budget_pct * (100 + drop) / 100;
            }
            assert(budget_pct <= 273);
            if self.iter_fail_low {
                budget_pct = budget_pct * 130 / 100;
            }
            budget_pct = if budget_pct < 40 {
                40
            } else if budget_pct > 300 {
                300
            } else {
                budget_pct
            };
            if self.tm.soft_expired_scaled(budget_pct) {
                break;
            }
            let abs_score = if score < 0 {
                -score
            } else {
                score
            };
            if abs_score >= MATE_IN_MAX && depth >= 4 {
                break;
            }
            match self.limits.nodes {
                Some(n) => {
                    if self.nodes >= n {
                        break;
                    }
                },
                None => {},
            }
            depth = depth + 1;
        }
        self.root_best = last_root;
        if best_move.0 == 0 {
            best_move = first;
        }
        best_move
    }
}


impl Search {
    /// Adopt the move-ordering tables of an earlier search of the same game.
    pub fn set_heuristics(&mut self, heur: Heuristics)
        requires
            old(self).wf(),
            heur_ok(heur@),
        ensures
            final(self).wf(),
            final(self).position() == old(self).position(),
            final(self).heuristics() == heur@,
    {
        self.heur = heur;
    }

    /// Reset the move-ordering tables (a new game).
    pub fn clear_heuristics(&mut self)
        requires
            old(self).wf(),
        ensures
            final(self).wf(),
            final(self).position() == old(self).position(),
    {
        self.heur.clear();
    }

    /// The move-ordering tables.
    pub closed spec fn heuristics(&self) -> HeurView {
        self.heur@
    }

    /// The slots of the transposition table.
    pub closed spec fn table(&self) -> Seq<crate::tt::TtEntry> {
        self.tt.slots()
    }

    /// Hand back the position, the table and the move-ordering tables, for the
    /// next search of the game.
    pub fn into_parts(self) -> (r: (Position, Tt, Heuristics))
        requires
            self.wf(),
        ensures
            r.0.wf(),
            r.0@ == self.position(),
            r.1.wf(),
            r.1.slots() == self.table(),
            heur_ok(r.2@),
            r.2@ == self.heuristics(),
    {
        (self.pos, self.tt, self.heur)
    }
}

} // verus!
