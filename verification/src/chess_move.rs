//! Packed 16-bit move encoding.
//!
//! Layout: bits `0..6` = from square, `6..12` = to square, `12..16` = flags.
//! The high bit of the flag marks promotions and the next bit marks captures.
use vstd::prelude::*;
use crate::text::{all_ascii, ascii_string, chars_of};
use crate::types::{PieceType, Square, file_of, rank_of};

verus! {

#[derive(Clone, Copy, PartialEq, Eq, Structural, Debug, Hash)]
pub struct Move(pub u16);

/// Move flag values (4 bits).
#[derive(Clone, Copy, PartialEq, Eq, Structural, Debug)]
pub enum MoveFlag {
    Quiet,
    DoublePush,
    KingCastle,
    QueenCastle,
    Capture,
    EnPassant,
    PromoKnight,
    PromoBishop,
    PromoRook,
    PromoQueen,
    PromoKnightCapture,
    PromoBishopCapture,
    PromoRookCapture,
    PromoQueenCapture,
}

pub open spec fn flag_num(f: MoveFlag) -> int {
    match f {
        MoveFlag::Quiet => 0,
        MoveFlag::DoublePush => 1,
        MoveFlag::KingCastle => 2,
        MoveFlag::QueenCastle => 3,
        MoveFlag::Capture => 4,
        MoveFlag::EnPassant => 5,
        MoveFlag::PromoKnight => 8,
        MoveFlag::PromoBishop => 9,
        MoveFlag::PromoRook => 10,
        MoveFlag::PromoQueen => 11,
        MoveFlag::PromoKnightCapture => 12,
        MoveFlag::PromoBishopCapture => 13,
        MoveFlag::PromoRookCapture => 14,
        MoveFlag::PromoQueenCapture => 15,
    }
}

pub const FLAG_QUIET: u16 = 0;
pub const FLAG_DOUBLE: u16 = 1;
pub const FLAG_KCASTLE: u16 = 2;
pub const FLAG_QCASTLE: u16 = 3;
pub const FLAG_CAPTURE: u16 = 4;
pub const FLAG_EP: u16 = 5;
pub const FLAG_PROMO: u16 = 8;
pub const FLAG_PROMO_CAPTURE: u16 = 12;

impl MoveFlag {
    pub fn value(self) -> (r: u16)
        ensures
            r == flag_num(self),
    {
        match self {
            MoveFlag::Quiet => 0,
            MoveFlag::DoublePush => 1,
            MoveFlag::KingCastle => 2,
            MoveFlag::QueenCastle => 3,
            MoveFlag::Capture => 4,
            MoveFlag::EnPassant => 5,
            MoveFlag::PromoKnight => 8,
            MoveFlag::PromoBishop => 9,
            MoveFlag::PromoRook => 10,
            MoveFlag::PromoQueen => 11,
            MoveFlag::PromoKnightCapture => 12,
            MoveFlag::PromoBishopCapture => 13,
            MoveFlag::PromoRookCapture => 14,
            MoveFlag::PromoQueenCapture => 15,
        }
    }
}

/// Origin square of an encoded move.
pub open spec fn mv_from(m: u16) -> int {
    (m % 64) as int
}

/// Destination square of an encoded move.
pub open spec fn mv_to(m: u16) -> int {
    ((m / 64) % 64) as int
}

/// Flag of an encoded move.
pub open spec fn mv_flag(m: u16) -> int {
    (m / 4096) as int
}

/// Encoding of `(from, to, flag)`.
pub open spec fn mv_enc(from: int, to: int, flag: int) -> int {
    from + 64 * to + 4096 * flag
}

pub open spec fn flag_is_capture(f: int) -> bool {
    f == 4 || f == 5 || f == 6 || f == 7 || f >= 12
}

pub open spec fn flag_is_promotion(f: int) -> bool {
    f >= 8
}

/// Piece type a promotion flag selects.
pub open spec fn promo_type(f: int) -> PieceType {
    if f % 4 == 0 {
        PieceType::Knight
    } else if f % 4 == 1 {
        PieceType::Bishop
    } else if f % 4 == 2 {
        PieceType::Rook
    } else {
        PieceType::Queen
    }
}

/// UCI letter of a promotion piece.
pub open spec fn promo_letter(f: int) -> u8 {
    if f % 4 == 0 {
        110u8
    } else if f % 4 == 1 {
        98u8
    } else if f % 4 == 2 {
        114u8
    } else {
        113u8
    }
}

/// UCI long-algebraic text of an encoded move.
pub open spec fn uci_bytes(m: u16) -> Seq<u8> {
    if m == 0 {
        seq![48u8, 48u8, 48u8, 48u8]
    } else {
        let base = seq![
            (97 + file_of(mv_from(m))) as u8,
            (49 + rank_of(mv_from(m))) as u8,
            (97 + file_of(mv_to(m))) as u8,
            (49 + rank_of(mv_to(m))) as u8,
        ];
        if flag_is_promotion(mv_flag(m)) {
            base.push(promo_letter(mv_flag(m)))
        } else {
            base
        }
    }
}

proof fn lemma_decode(x: u16)
    ensures
        x & 0x3f == x % 64,
        (x >> 6) & 0x3f == (x / 64) % 64,
        x >> 12 == x / 4096,
{
    assert(x & 0x3f == x % 64 && (x >> 6) & 0x3f == (x / 64) % 64 && x >> 12 == x / 4096)
        by (bit_vector);
}

/// A move is determined by its origin, its target and its flag.
pub proof fn lemma_mv_fields(a: u16, b: u16)
    requires
        mv_from(a) == mv_from(b),
        mv_to(a) == mv_to(b),
        mv_flag(a) == mv_flag(b),
    ensures
        a == b,
{
    assert(a % 64 == b % 64 && (a / 64) % 64 == (b / 64) % 64 && a / 4096 == b / 4096 ==> a == b)
        by (bit_vector);
}

impl Move {
    pub const NULL: u16 = 0;

    pub fn new(from: Square, to: Square, flag: MoveFlag) -> (r: Move)
        requires
            from.0 < 64,
            to.0 < 64,
        ensures
            r.0 == mv_enc(from.0 as int, to.0 as int, flag_num(flag)),
            mv_from(r.0) == from.0,
            mv_to(r.0) == to.0,
            mv_flag(r.0) == flag_num(flag),
    {
        Move::from_raw_flag(from, to, flag.value())
    }

    pub fn from_raw_flag(from: Square, to: Square, flag: u16) -> (r: Move)
        requires
            from.0 < 64,
            to.0 < 64,
            flag < 16,
        ensures
            r.0 == mv_enc(from.0 as int, to.0 as int, flag as int),
            mv_from(r.0) == from.0,
            mv_to(r.0) == to.0,
            mv_flag(r.0) == flag,
    {
        let f = from.0 as u16;
        let t = to.0 as u16;
        proof {
            assert(f < 64 && t < 64 && flag < 16 ==> (f | (t << 6u16) | (flag << 12u16)) == f + 64
                * t + 4096 * flag) by (bit_vector);
        }
        Move(f | (t << 6) | (flag << 12))
    }

    pub fn from(self) -> (r: Square)
        ensures
            r.0 == mv_from(self.0),
            r.0 < 64,
    {
        proof {
            lemma_decode(self.0);
        }
        Square((self.0 & 0x3f) as u8)
    }

    pub fn to(self) -> (r: Square)
        ensures
            r.0 == mv_to(self.0),
            r.0 < 64,
    {
        proof {
            lemma_decode(self.0);
        }
        Square(((self.0 >> 6) & 0x3f) as u8)
    }

    pub fn flag_bits(self) -> (r: u16)
        ensures
            r == mv_flag(self.0),
            r < 16,
    {
        proof {
            lemma_decode(self.0);
        }
        self.0 >> 12
    }

    pub fn is_null(self) -> (r: bool)
        ensures
            r == (self.0 == 0),
    {
        self.0 == 0
    }

    pub fn is_capture(self) -> (r: bool)
        ensures
            r == flag_is_capture(mv_flag(self.0)),
    {
        let f = self.flag_bits();
        proof {
            assert(f < 16 ==> ((f & 4 != 0) == (f == 4 || f == 5 || f == 6 || f == 7 || f >= 12)))
                by (bit_vector);
        }
        f & 4 != 0
    }

    pub fn is_promotion(self) -> (r: bool)
        ensures
            r == flag_is_promotion(mv_flag(self.0)),
    {
        let f = self.flag_bits();
        proof {
            assert(f < 16 ==> ((f & 8 != 0) == (f >= 8))) by (bit_vector);
        }
        f & 8 != 0
    }

    pub fn is_en_passant(self) -> (r: bool)
        ensures
            r == (mv_flag(self.0) == 5),
    {
        self.flag_bits() == 5
    }

    pub fn is_double_push(self) -> (r: bool)
        ensures
            r == (mv_flag(self.0) == 1),
    {
        self.flag_bits() == 1
    }

    pub fn is_king_castle(self) -> (r: bool)
        ensures
            r == (mv_flag(self.0) == 2),
    {
        self.flag_bits() == 2
    }

    pub fn is_queen_castle(self) -> (r: bool)
        ensures
            r == (mv_flag(self.0) == 3),
    {
        self.flag_bits() == 3
    }

    pub fn is_castle(self) -> (r: bool)
        ensures
            r == (mv_flag(self.0) == 2 || mv_flag(self.0) == 3),
    {
        self.is_king_castle() || self.is_queen_castle()
    }

    /// The promotion target piece type, if this is a promotion.
    pub fn promotion(self) -> (r: Option<PieceType>)
        ensures
            r == (if flag_is_promotion(mv_flag(self.0)) {
                Some(promo_type(mv_flag(self.0)))
            } else {
                None
            }),
    {
        if !self.is_promotion() {
            return None;
        }
        let f = self.flag_bits();
        proof {
            assert(f & 3 == f % 4) by (bit_vector);
        }
        Some(
            match f & 3 {
                0 => PieceType::Knight,
                1 => PieceType::Bishop,
                2 => PieceType::Rook,
                _ => PieceType::Queen,
            },
        )
    }

    /// UCI long-algebraic text as bytes, e.g. `e2e4`, `e7e8q`; `0000` for the null move.
    pub fn uci_bytes(self) -> (r: Vec<u8>)
        ensures
            r@ == uci_bytes(self.0),
            all_ascii(r@),
    {
        if self.is_null() {
            let v: Vec<u8> = vec![48, 48, 48, 48];
            assert(v@ == seq![48u8, 48u8, 48u8, 48u8]);
            return v;
        }
        let from = self.from();
        let to = self.to();
        let (a, b) = from.name_bytes();
        let (c, d) = to.name_bytes();
        let mut v: Vec<u8> = Vec::new();
        v.push(a);
        v.push(b);
        v.push(c);
        v.push(d);
        if self.is_promotion() {
            let f = self.flag_bits();
            proof {
                assert(f & 3 == f % 4) by (bit_vector);
            }
            let l: u8 = match f & 3 {
                0 => 110,
                1 => 98,
                2 => 114,
                _ => 113,
            };
            v.push(l);
        }
        v
    }

    /// UCI long-algebraic string, e.g. `e2e4`, `e7e8q`.
    pub fn to_uci(self) -> (r: String)
        ensures
            r@ == chars_of(uci_bytes(self.0)),
    {
        ascii_string(self.uci_bytes())
    }
}

/// A growable move list with one ordering score per move.
pub struct MoveList {
    moves: Vec<Move>,
    scores: Vec<i32>,
}

impl View for MoveList {
    type V = Seq<Move>;

    closed spec fn view(&self) -> Seq<Move> {
        self.moves@
    }
}

/// Number of score slots a list always has.
pub open spec fn score_slots(n: int) -> int {
    if n > 256 {
        n
    } else {
        256
    }
}

impl MoveList {
    /// There are 256 score slots, one per possible move, and more when the list
    /// outgrows them.
    pub open spec fn wf(&self) -> bool {
        self.score_seq().len() == score_slots(self@.len() as int)
    }

    /// The ordering scores by slot; slot `i` belongs to the move at index `i`.
    pub closed spec fn score_seq(&self) -> Seq<i32> {
        self.scores@
    }

    pub fn new() -> (r: MoveList)
        ensures
            r.wf(),
            r@ == Seq::<Move>::empty(),
            r.score_seq() == Seq::new(256, |i: int| 0i32),
    {
        let mut scores: Vec<i32> = Vec::new();
        let mut i: usize = 0;
        while i < 256
            invariant
                i <= 256,
                scores@ == Seq::new(i as nat, |k: int| 0i32),
            decreases 256 - i,
        {
            scores.push(0);
            i = i + 1;
        }
        MoveList { moves: Vec::new(), scores }
    }

    pub fn len(&self) -> (r: usize)
        ensures
            r == self@.len(),
    {
        self.moves.len()
    }

    pub fn is_empty(&self) -> (r: bool)
        ensures
            r == (self@.len() == 0),
    {
        self.moves.len() == 0
    }

    /// Append a move; the scores of the 256 slots stay as they are.
    pub fn push(&mut self, m: Move)
        requires
            old(self).wf(),
        ensures
            final(self).wf(),
            final(self)@ == old(self)@.push(m),
            old(self)@.len() < 256 ==> final(self).score_seq() == old(self).score_seq(),
            old(self)@.len() >= 256 ==> final(self).score_seq() == old(self).score_seq().push(0),
    {
        if self.moves.len() >= self.scores.len() {
            self.scores.push(0);
        }
        self.moves.push(m);
    }

    pub fn get(&self, i: usize) -> (r: Move)
        requires
            i < self@.len(),
        ensures
            r == self@[i as int],
    {
        self.moves[i]
    }

    /// The score in slot `i`.
    pub fn score(&self, i: usize) -> (r: i32)
        requires
            self.wf(),
            i < 256 || i < self@.len(),
        ensures
            r == self.score_seq()[i as int],
    {
        self.scores[i]
    }

    /// Set the score in slot `i`.
    pub fn set_score(&mut self, i: usize, s: i32)
        requires
            old(self).wf(),
            i < 256 || i < old(self)@.len(),
        ensures
            final(self).wf(),
            final(self)@ == old(self)@,
            final(self).score_seq() == old(self).score_seq().update(i as int, s),
    {
        self.scores.set(i, s);
    }

    pub fn as_slice(&self) -> (r: &[Move])
        ensures
            r@ == self@,
    {
        self.moves.as_slice()
    }

    /// Bring the first highest-scored move at or after `idx` to `idx` (swapping it
    /// with the move there) and return it.
    pub fn pick_best(&mut self, idx: usize) -> (r: Move)
        requires
            old(self).wf(),
            idx < old(self)@.len(),
        ensures
            final(self).wf(),
            exists|b: int|
                #![trigger old(self).score_seq()[b]]
                idx <= b < old(self)@.len() && (forall|j: int|
                    idx <= j < old(self)@.len() ==> old(self).score_seq()[j] <= #[trigger] old(
                        self,
                    ).score_seq()[b]) && (forall|j: int|
                    idx <= j < b ==> #[trigger] old(self).score_seq()[j] < old(
                        self,
                    ).score_seq()[b]) && final(self)@ == old(self)@.update(idx as int, old(self)@[b]).update(
                    b,
                    old(self)@[idx as int],
                ) && final(self).score_seq() == old(self).score_seq().update(
                    idx as int,
                    old(self).score_seq()[b],
                ).update(b, old(self).score_seq()[idx as int]),
            r == final(self)@[idx as int],
            final(self)@.len() == old(self)@.len(),
            forall|j: int| 0 <= j < final(self)@.len() ==> old(self)@.contains(#[trigger] final(self)@[j]),
    {
        let ghost s0 = self.scores@;
        let ghost m0 = self.moves@;
        let n = self.moves.len();
        let mut best = idx;
        let mut best_score = self.scores[idx];
        let mut j = idx + 1;
        while j < n
            invariant
                idx < n,
                n == m0.len(),
                n <= s0.len(),
                self.scores@ == s0,
                self.moves@ == m0,
                idx <= best < j <= n,
                best_score == s0[best as int],
                forall|k: int| idx <= k < j ==> s0[k] <= best_score,
                forall|k: int| idx <= k < best ==> s0[k] < best_score,
            decreases n - j,
        {
            if self.scores[j] > best_score {
                best = j;
                best_score = self.scores[j];
            }
            j = j + 1;
        }
        if best != idx {
            let mi = self.moves[idx];
            let mb = self.moves[best];
            self.moves.set(idx, mb);
            self.moves.set(best, mi);
            let si = self.scores[idx];
            let sb = self.scores[best];
            self.scores.set(idx, sb);
            self.scores.set(best, si);
        }
        proof {
            let b = best as int;
            assert(s0[b] == best_score);
            assert forall|j: int| 0 <= j < self.moves@.len() implies m0.contains(#[trigger] self.moves@[j]) by {
                if j == idx as int {
                    assert(m0[b] == self.moves@[j]);
                } else if j == b {
                    assert(m0[idx as int] == self.moves@[j]);
                } else {
                    assert(m0[j] == self.moves@[j]);
                }
            }
            if best == idx {
                assert(m0.update(idx as int, m0[b]).update(b, m0[idx as int]) == m0);
                assert(s0.update(idx as int, s0[b]).update(b, s0[idx as int]) == s0);
            }
        }
        self.moves[idx]
    }

    pub fn contains(&self, m: Move) -> (r: bool)
        ensures
            r == self@.contains(m),
    {
        let mut i: usize = 0;
        while i < self.moves.len()
            invariant
                0 <= i <= self.moves@.len(),
                forall|k: int| 0 <= k < i ==> self.moves@[k] != m,
            decreases self.moves@.len() - i,
        {
            if self.moves[i] == m {
                proof {
                    assert(self@[i as int] == m);
                }
                return true;
            }
            i = i + 1;
        }
        false
    }
}

impl Default for MoveList {
    fn default() -> (r: MoveList)
        ensures
            r.wf(),
            r@ == Seq::<Move>::empty(),
    {
        MoveList::new()
    }
}

} // verus!
