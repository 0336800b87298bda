//! Efficiently updatable neural-network evaluation.
//!
//! The structure of an NNUE evaluation: HalfKP-style features, a
//! two-perspective accumulator with incremental add/remove, clipped-ReLU and an
//! integer dot-product output, and loading from a flat byte layout. No trained
//! network ships with the library; the feature layout is self-consistent, not
//! compatible with other engines' nets.
use vstd::prelude::*;
use vstd::wrapping::i16_specs;
use crate::eval::sum_to;
use crate::position::{Position, holds, has_king};
use crate::types::{Color, PieceType, code_color, code_type, pt_idx, pt_of, piece_code, color_idx};

verus! {

broadcast use crate::bitboard::group_bits;

pub const HIDDEN: usize = 128;
/// Ten non-king (color, type) classes times 64 squares, bucketed by king square.
pub const FEATURES_PER_BUCKET: usize = 640;
pub const INPUT: usize = 40960;

/// Clipped-ReLU ceiling of the accumulator.
pub const QA: i32 = 255;
/// Output scaling to centipawns.
pub const SCALE: i32 = 400;
/// Fixed-point shift of the output weights.
pub const OUTPUT_SHIFT: i32 = 6;

/// Quantized network parameters.
pub struct Network {
    /// `INPUT x HIDDEN` feature weights, one column of `HIDDEN` per feature.
    pub feature_weights: Vec<i16>,
    pub feature_bias: Vec<i16>,
    /// `2 x HIDDEN` output weights (side to move's perspective first).
    pub output_weights: Vec<i16>,
    pub output_bias: i32,
}

impl Network {
    /// Every table has its size.
    pub open spec fn wf(&self) -> bool {
        &&& self.feature_weights@.len() == 40960 * 128
        &&& self.feature_bias@.len() == 128
        &&& self.output_weights@.len() == 256
    }
}

/// Two-perspective accumulator, updated incrementally on make/unmake.
#[derive(Clone, Debug)]
pub struct Accumulator {
    pub v: [[i16; 128]; 2],
}

impl Default for Accumulator {
    fn default() -> (r: Accumulator)
        ensures
            forall|p: int, i: int| 0 <= p < 2 && 0 <= i < 128 ==> #[trigger] r.v[p][i] == 0,
    {
        Accumulator { v: [[0i16; 128]; 2] }
    }
}

// -- features ---------------------------------------------------------------------

/// Square `s` seen from perspective `p` (Black sees the board flipped).
pub open spec fn orient_sq(p: Color, s: int) -> int {
    if p == Color::White {
        s
    } else {
        (7 - s / 8) * 8 + s % 8
    }
}

fn orient(perspective: Color, sq: usize) -> (r: usize)
    requires
        sq < 64,
    ensures
        r == orient_sq(perspective, sq as int),
        r < 64,
{
    if perspective == Color::White {
        sq
    } else {
        proof {
            crate::types::lemma_flip_bits(sq);
        }
        sq ^ 56
    }
}

/// Feature of a piece of `color` and type `pt` on `s`, seen by `p` whose king is on
/// `k`; kings have none (they pick the bucket).
pub open spec fn feature_of(p: Color, k: int, color: Color, pt: PieceType, s: int) -> Option<int> {
    if pt == PieceType::King {
        None
    } else {
        Some(orient_sq(p, k) * 640 + ((if color != p { 1int } else { 0int }) * 5 + pt_idx(pt)) * 64
            + orient_sq(p, s))
    }
}

/// HalfKP-style feature index of `pt` of `color` on `sq`, from the point of view of
/// `perspective` whose king is on `king_sq`.
pub fn feature_index(
    perspective: Color,
    king_sq: usize,
    color: Color,
    pt: PieceType,
    sq: usize,
) -> (r: Option<usize>)
    requires
        king_sq < 64,
        sq < 64,
    ensures
        r == (match feature_of(perspective, king_sq as int, color, pt, sq as int) {
            Some(f) => Some(f as usize),
            None => None,
        }),
        r matches Some(f) ==> f < 40960,
{
    if pt == PieceType::King {
        return None;
    }
    let rel_color: usize = if color != perspective {
        1
    } else {
        0
    };
    let p = rel_color * 5 + pt.index();
    let oksq = orient(perspective, king_sq);
    let osq = orient(perspective, sq);
    Some(oksq * FEATURES_PER_BUCKET + p * 64 + osq)
}

/// Cropping a value already in range leaves it.
proof fn lemma_crop_id(x: int)
    requires
        -32768 <= x <= 32767,
    ensures
        vstd::wrapping::i16_specs::signed_crop(x) == x,
{
    if x < 0 {
        vstd::arithmetic::div_mod::lemma_fundamental_div_mod(x, 65536);
        assert(x % 65536 == x + 65536);
    }
}

/// Cropping only depends on the value modulo 2^16.
proof fn lemma_crop_shift(x: int, q: int)
    ensures
        vstd::wrapping::i16_specs::signed_crop(x + 65536 * q) == vstd::wrapping::i16_specs::signed_crop(x),
{
    vstd::arithmetic::div_mod::lemma_mod_multiples_vanish(q, x, 65536);
    assert(65536 * q + x == x + 65536 * q);
}

/// Adding wrapped is adding then cropping.
proof fn lemma_crop_add(s: int, w: int)
    requires
        -32768 <= w <= 32767,
    ensures
        vstd::wrapping::i16_specs::wrapping_add(vstd::wrapping::i16_specs::signed_crop(s), w as i16)
            == vstd::wrapping::i16_specs::signed_crop(s + w),
{
    let c = vstd::wrapping::i16_specs::signed_crop(s);
    vstd::arithmetic::div_mod::lemma_fundamental_div_mod(s, 65536);
    let q = s / 65536;
    assert(s == 65536 * q + s % 65536);
    let r = s % 65536;
    if r > 32767 {
        assert(c == r - 65536);
        lemma_crop_shift(c + w, q + 1);
        assert(c + w + 65536 * (q + 1) == s + w) by (nonlinear_arith)
            requires c == r - 65536, s == 65536 * q + r;
    } else {
        assert(c == r);
        lemma_crop_shift(c + w, q);
        assert(c + w + 65536 * q == s + w) by (nonlinear_arith)
            requires c == r, s == 65536 * q + r;
    }
    let z = c + w;
    if z > 32767 {
        lemma_crop_shift(z - 65536, 1);
        lemma_crop_id(z - 65536);
    } else if z < -32768 {
        lemma_crop_shift(z + 65536, -1);
        lemma_crop_id(z + 65536);
    } else {
        lemma_crop_id(z);
    }
}


/// Subtracting wrapped is subtracting then cropping.
proof fn lemma_crop_sub(s: int, w: int)
    requires
        -32768 <= w <= 32767,
    ensures
        i16_specs::wrapping_sub(i16_specs::signed_crop(s), w as i16) == i16_specs::signed_crop(s - w),
{
    let c = i16_specs::signed_crop(s);
    vstd::arithmetic::div_mod::lemma_fundamental_div_mod(s, 65536);
    let q = s / 65536;
    let r = s % 65536;
    if r > 32767 {
        lemma_crop_shift(c - w, q + 1);
        assert(c - w + 65536 * (q + 1) == s - w) by (nonlinear_arith)
            requires
                c == r - 65536,
                s == 65536 * q + r,
        ;
    } else {
        lemma_crop_shift(c - w, q);
        assert(c - w + 65536 * q == s - w) by (nonlinear_arith)
            requires
                c == r,
                s == 65536 * q + r,
        ;
    }
    let z = c - w;
    if z > 32767 {
        lemma_crop_shift(z - 65536, 1);
        lemma_crop_id(z - 65536);
    } else if z < -32768 {
        lemma_crop_shift(z + 65536, -1);
        lemma_crop_id(z + 65536);
    } else {
        lemma_crop_id(z);
    }
}

/// Add the weight column starting at `off` to an accumulator half.
fn add_col(acc: &mut [i16; 128], w: &Vec<i16>, off: usize)
    requires
        off + 128 <= w.len(),
    ensures
        forall|i: int| 0 <= i < 128 ==> #[trigger] final(acc)@[i] == i16_specs::wrapping_add(old(acc)@[i], w@[off + i]),
{
    let mut i: usize = 0;
    while i < 128
        invariant
            0 <= i <= 128,
            off + 128 <= w.len(),
            forall|j: int| 0 <= j < i ==> #[trigger] acc@[j] == i16_specs::wrapping_add(old(acc)@[j], w@[off + j]),
            forall|j: int| i <= j < 128 ==> #[trigger] acc@[j] == old(acc)@[j],
        decreases 128 - i,
    {
        acc[i] = acc[i].wrapping_add(w[off + i]);
        i = i + 1;
    }
}

/// Subtract the weight column starting at `off` from an accumulator half.
fn sub_col(acc: &mut [i16; 128], w: &Vec<i16>, off: usize)
    requires
        off + 128 <= w.len(),
    ensures
        forall|i: int| 0 <= i < 128 ==> #[trigger] final(acc)@[i] == i16_specs::wrapping_sub(old(acc)@[i], w@[off + i]),
{
    let mut i: usize = 0;
    while i < 128
        invariant
            0 <= i <= 128,
            off + 128 <= w.len(),
            forall|j: int| 0 <= j < i ==> #[trigger] acc@[j] == i16_specs::wrapping_sub(old(acc)@[j], w@[off + j]),
            forall|j: int| i <= j < 128 ==> #[trigger] acc@[j] == old(acc)@[j],
        decreases 128 - i,
    {
        acc[i] = acc[i].wrapping_sub(w[off + i]);
        i = i + 1;
    }
}

// -- the accumulator model --------------------------------------------------------------

/// Weight that the piece of code `code` on square `s` brings to hidden unit `i`,
/// seen by `p` whose king is on `k` (nothing when `s` holds another code).
pub open spec fn code_weight(w: Seq<i16>, b: Seq<u8>, p: Color, k: int, i: int, code: int) -> spec_fn(int) -> int {
    |s: int|
        if 0 <= s < 64 && b[s] == code {
            match feature_of(p, k, code_color(code), code_type(code), s) {
                Some(f) => w[f * 128 + i] as int,
                None => 0,
            }
        } else {
            0
        }
}

/// Sum of the weights of every piece of the first `n` codes for hidden unit `i`.
pub open spec fn codes_sum(w: Seq<i16>, b: Seq<u8>, p: Color, k: int, i: int, n: int) -> int {
    sum_to(|code: int| sum_to(code_weight(w, b, p, k, i, code), 64), n)
}

/// Hidden unit `i` of perspective `p` (king on `k`) for board `b`: the bias plus the
/// weights of every piece, wrapped to 16 bits.
pub open spec fn acc_unit(net: &Network, b: Seq<u8>, p: Color, k: int, i: int) -> i16 {
    i16_specs::signed_crop(net.feature_bias@[i] + codes_sum(net.feature_weights@, b, p, k, i, 12))
}

/// The lowest square holding a king of color `c`.
pub open spec fn king_at(b: Seq<u8>, c: Color) -> int {
    choose|k: int|
        0 <= k < 64 && holds(b, k, c, PieceType::King) && forall|j: int|
            0 <= j < k ==> !holds(b, j, c, PieceType::King)
}

/// The lowest king square is the one `king_at` names.
proof fn lemma_king_at(b: Seq<u8>, c: Color, k: int)
    requires
        0 <= k < 64,
        holds(b, k, c, PieceType::King),
        forall|j: int| 0 <= j < k ==> !holds(b, j, c, PieceType::King),
    ensures
        king_at(b, c) == k,
{
    let k2 = king_at(b, c);
    assert(0 <= k2 < 64 && holds(b, k2, c, PieceType::King) && forall|j: int|
        0 <= j < k2 ==> !holds(b, j, c, PieceType::King));
    if k2 < k {
        assert(!holds(b, k2, c, PieceType::King));
    } else if k2 > k {
        assert(!holds(b, k, c, PieceType::King));
    }
}

/// Weights of the codes before `code` plus those of `code` below square `q`.
pub open spec fn part_sum(w: Seq<i16>, b: Seq<u8>, p: Color, k: int, i: int, code: int, q: int) -> int {
    codes_sum(w, b, p, k, i, code) + sum_to(code_weight(w, b, p, k, i, code), q)
}

/// The half of perspective `p` holds the bias plus the partial sums, wrapped.
pub open spec fn half_is(half: [i16; 128], net: &Network, b: Seq<u8>, p: Color, k: int, code: int, q: int) -> bool {
    forall|i: int| 0 <= i < 128 ==> #[trigger] half[i] == i16_specs::signed_crop(
        net.feature_bias@[i] + part_sum(net.feature_weights@, b, p, k, i, code, q),
    )
}

/// Feature numbers stay below the input size.
proof fn lemma_feature_range(p: Color, k: int, color: Color, pt: PieceType, s: int)
    requires
        0 <= k < 64,
        0 <= s < 64,
    ensures
        feature_of(p, k, color, pt, s) matches Some(f) ==> 0 <= f < 40960,
{
    assert(0 <= orient_sq(p, k) < 64);
    assert(0 <= orient_sq(p, s) < 64);
}

/// Add the column of feature `f` (if any) to a half; the partial sums move past `x`.
fn add_feature(
    half: &mut [i16; 128],
    net: &Network,
    f: Option<usize>,
    Ghost(b): Ghost<Seq<u8>>,
    Ghost(p): Ghost<Color>,
    Ghost(k): Ghost<int>,
    Ghost(code): Ghost<int>,
    Ghost(q): Ghost<int>,
    Ghost(x): Ghost<int>,
)
    requires
        net.wf(),
        b.len() == 64,
        0 <= code < 12,
        0 <= k < 64,
        0 <= q <= x < 64,
        b[x] == code,
        forall|y: int| q <= y < x ==> b[y] != code,
        f == (match feature_of(p, k, code_color(code), code_type(code), x) {
            Some(g) => Some(g as usize),
            None => None,
        }),
        f matches Some(g) ==> g < 40960,
        half_is(*old(half), net, b, p, k, code, q),
    ensures
        half_is(*final(half), net, b, p, k, code, x + 1),
{
    let ghost w = net.feature_weights@;
    proof {
        lemma_feature_range(p, k, code_color(code), code_type(code), x);
        assert forall|i: int| 0 <= i < 128 implies sum_to(code_weight(w, b, p, k, i, code), x) == sum_to(
            code_weight(w, b, p, k, i, code),
            q,
        ) by {
            assert forall|y: int| q <= y < x implies #[trigger] code_weight(w, b, p, k, i, code)(y) == 0 by {}
            crate::eval::lemma_sum_flat(code_weight(w, b, p, k, i, code), q, x);
        }
    }
    match f {
        Some(g) => {
            add_col(half, &net.feature_weights, g * 128);
            proof {
                assert forall|i: int| 0 <= i < 128 implies #[trigger] half[i] == i16_specs::signed_crop(
                    net.feature_bias@[i] + part_sum(w, b, p, k, i, code, x + 1),
                ) by {
                    let s = net.feature_bias@[i] + part_sum(w, b, p, k, i, code, q);
                    lemma_crop_add(s, w[g * 128 + i] as int);
                    assert(code_weight(w, b, p, k, i, code)(x) == w[g * 128 + i] as int);
                    assert(sum_to(code_weight(w, b, p, k, i, code), x + 1) == sum_to(code_weight(w, b, p, k, i, code), x)
                        + code_weight(w, b, p, k, i, code)(x));
                }
            }
        },
        None => {
            proof {
                assert forall|i: int| 0 <= i < 128 implies #[trigger] half[i] == i16_specs::signed_crop(
                    net.feature_bias@[i] + part_sum(w, b, p, k, i, code, x + 1),
                ) by {
                    assert(code_weight(w, b, p, k, i, code)(x) == 0);
                    assert(sum_to(code_weight(w, b, p, k, i, code), x + 1) == sum_to(code_weight(w, b, p, k, i, code), x)
                        + code_weight(w, b, p, k, i, code)(x));
                }
            }
        },
    }
}

impl Network {
    /// Recompute both perspectives from scratch.
    pub fn refresh(&self, pos: &Position, acc: &mut Accumulator)
        requires
            self.wf(),
            pos.wf(),
            has_king(pos@.board, Color::White),
            has_king(pos@.board, Color::Black),
        ensures
            forall|i: int| 0 <= i < 128 ==> #[trigger] final(acc).v[0][i] == acc_unit(
                self,
                pos@.board,
                Color::White,
                king_at(pos@.board, Color::White),
                i,
            ) && final(acc).v[1][i] == acc_unit(self, pos@.board, Color::Black, king_at(pos@.board, Color::Black), i),
    {
        let ghost b = pos@.board;
        proof {
            pos.lemma_wf();
        }
        let mut wh: [i16; 128] = [0i16; 128];
        let mut i: usize = 0;
        while i < 128
            invariant
                self.wf(),
                0 <= i <= 128,
                forall|j: int| 0 <= j < i ==> #[trigger] wh[j] == self.feature_bias@[j],
            decreases 128 - i,
        {
            wh[i] = self.feature_bias[i];
            i = i + 1;
        }
        let mut bh = wh;
        let wk = pos.king_square(Color::White);
        let bk = pos.king_square(Color::Black);
        let ghost kw = wk.0 as int;
        let ghost kb = bk.0 as int;
        proof {
            lemma_king_at(b, Color::White, kw);
            lemma_king_at(b, Color::Black, kb);
            assert forall|j: int| 0 <= j < 128 implies #[trigger] wh[j] == i16_specs::signed_crop(
                self.feature_bias@[j] + part_sum(self.feature_weights@, b, Color::White, kw, j, 0, 0),
            ) by {
                lemma_crop_id(self.feature_bias@[j] as int);
            }
        }
        let mut ci: usize = 0;
        while ci < 2
            invariant
                self.wf(),
                pos.wf(),
                b == pos@.board,
                b.len() == 64,
                wk.0 == kw,
                bk.0 == kb,
                wk.0 < 64,
                bk.0 < 64,
                0 <= ci <= 2,
                half_is(wh, self, b, Color::White, kw, 6 * ci, 0),
                half_is(bh, self, b, Color::Black, kb, 6 * ci, 0),
            decreases 2 - ci,
        {
            let color = Color::from_index(ci);
            let mut pti: usize = 0;
            while pti < 6
                invariant
                    self.wf(),
                    pos.wf(),
                    b == pos@.board,
                    b.len() == 64,
                    wk.0 == kw,
                    bk.0 == kb,
                    wk.0 < 64,
                    bk.0 < 64,
                    0 <= ci < 2,
                    color == (if ci == 0 { Color::White } else { Color::Black }),
                    0 <= pti <= 6,
                    half_is(wh, self, b, Color::White, kw, 6 * ci + pti, 0),
                    half_is(bh, self, b, Color::Black, kb, 6 * ci + pti, 0),
                decreases 6 - pti,
            {
                let pt = PieceType::from_index(pti);
                let ghost code = 6 * ci + pti;
                proof {
                    crate::position::lemma_code_parts(color, pt);
                    assert(piece_code(color, pt) == code);
                }
                let mut bb = pos.pieces(color, pt);
                let ghost mut q: int = 0;
                while bb.any()
                    invariant
                        self.wf(),
                        pos.wf(),
                        b == pos@.board,
                        b.len() == 64,
                        wk.0 == kw,
                        bk.0 == kb,
                        wk.0 < 64,
                        bk.0 < 64,
                        0 <= code < 12,
                        code_color(code) == color,
                        code_type(code) == pt,
                        0 <= q <= 64,
                        forall|s: int| #[trigger] crate::bitboard::mem(bb.0, s) == (0 <= s < 64 && b[s] == code && s >= q),
                        half_is(wh, self, b, Color::White, kw, code, q),
                        half_is(bh, self, b, Color::Black, kb, code, q),
                    decreases crate::bitboard::popcount(bb.0),
                {
                    proof {
                        crate::bitboard::lemma_popcount_zero_iff(bb.0);
                    }
                    let sq = bb.pop_lsb();
                    proof {
                        crate::bitboard::lemma_popcount_zero_iff(bb.0);
                        assert forall|y: int| q <= y < sq implies b[y] != code by {
                            assert(!crate::bitboard::mem(bb.0, y));
                        }
                    }
                    let fw = feature_index(Color::White, wk.0 as usize, color, pt, sq as usize);
                    add_feature(&mut wh, self, fw, Ghost(b), Ghost(Color::White), Ghost(kw), Ghost(code), Ghost(q), Ghost(sq as int));
                    let fb = feature_index(Color::Black, bk.0 as usize, color, pt, sq as usize);
                    add_feature(&mut bh, self, fb, Ghost(b), Ghost(Color::Black), Ghost(kb), Ghost(code), Ghost(q), Ghost(sq as int));
                    proof {
                        q = sq + 1;
                    }
                }
                proof {
                    let w = self.feature_weights@;
                    assert forall|i: int| 0 <= i < 128 implies sum_to(code_weight(w, b, Color::White, kw, i, code), 64)
                        == sum_to(code_weight(w, b, Color::White, kw, i, code), q) && sum_to(
                        code_weight(w, b, Color::Black, kb, i, code),
                        64,
                    ) == sum_to(code_weight(w, b, Color::Black, kb, i, code), q) by {
                        assert forall|y: int| q <= y < 64 implies #[trigger] code_weight(w, b, Color::White, kw, i, code)(y) == 0 by {
                            assert(!crate::bitboard::mem(bb.0, y));
                        }
                        assert forall|y: int| q <= y < 64 implies #[trigger] code_weight(w, b, Color::Black, kb, i, code)(y) == 0 by {
                            assert(!crate::bitboard::mem(bb.0, y));
                        }
                        crate::eval::lemma_sum_flat(code_weight(w, b, Color::White, kw, i, code), q, 64);
                        crate::eval::lemma_sum_flat(code_weight(w, b, Color::Black, kb, i, code), q, 64);
                    }
                    assert forall|i: int| 0 <= i < 128 implies #[trigger] wh[i] == i16_specs::signed_crop(
                        self.feature_bias@[i] + part_sum(w, b, Color::White, kw, i, code + 1, 0),
                    ) by {
                        assert(part_sum(w, b, Color::White, kw, i, code + 1, 0) == part_sum(w, b, Color::White, kw, i, code, q));
                    }
                    assert forall|i: int| 0 <= i < 128 implies #[trigger] bh[i] == i16_specs::signed_crop(
                        self.feature_bias@[i] + part_sum(w, b, Color::Black, kb, i, code + 1, 0),
                    ) by {
                        assert(part_sum(w, b, Color::Black, kb, i, code + 1, 0) == part_sum(w, b, Color::Black, kb, i, code, q));
                    }
                }
                pti = pti + 1;
            }
            ci = ci + 1;
        }
        acc.v = [wh, bh];
    }
}

/// Unit `i` of a half after adding (or, with `add` false, removing) feature `f`.
pub open spec fn updated_unit(v: i16, w: Seq<i16>, f: Option<int>, i: int, add: bool) -> i16 {
    match f {
        Some(g) => if add {
            i16_specs::wrapping_add(v, w[g * 128 + i])
        } else {
            i16_specs::wrapping_sub(v, w[g * 128 + i])
        },
        None => v,
    }
}

impl Network {
    /// Add (or, with `add` false, remove) a piece's features to both perspectives.
    fn update_piece(
        &self,
        acc: &mut Accumulator,
        wk: usize,
        bk: usize,
        color: Color,
        pt: PieceType,
        sq: usize,
        add: bool,
    )
        requires
            self.wf(),
            wk < 64,
            bk < 64,
            sq < 64,
        ensures
            forall|i: int| 0 <= i < 128 ==> #[trigger] final(acc).v[0][i] == updated_unit(
                old(acc).v[0][i],
                self.feature_weights@,
                feature_of(Color::White, wk as int, color, pt, sq as int),
                i,
                add,
            ),
            forall|i: int| 0 <= i < 128 ==> #[trigger] final(acc).v[1][i] == updated_unit(
                old(acc).v[1][i],
                self.feature_weights@,
                feature_of(Color::Black, bk as int, color, pt, sq as int),
                i,
                add,
            ),
    {
        let mut h0 = acc.v[0];
        let mut h1 = acc.v[1];
        proof {
            lemma_feature_range(Color::White, wk as int, color, pt, sq as int);
            lemma_feature_range(Color::Black, bk as int, color, pt, sq as int);
        }
        if let Some(i) = feature_index(Color::White, wk, color, pt, sq) {
            if add {
                add_col(&mut h0, &self.feature_weights, i * 128);
            } else {
                sub_col(&mut h0, &self.feature_weights, i * 128);
            }
        }
        if let Some(i) = feature_index(Color::Black, bk, color, pt, sq) {
            if add {
                add_col(&mut h1, &self.feature_weights, i * 128);
            } else {
                sub_col(&mut h1, &self.feature_weights, i * 128);
            }
        }
        acc.v = [h0, h1];
    }

    /// Incrementally add a piece's contribution to both perspectives.
    pub fn add_piece(&self, acc: &mut Accumulator, wk: usize, bk: usize, color: Color, pt: PieceType, sq: usize)
        requires
            self.wf(),
            wk < 64,
            bk < 64,
            sq < 64,
        ensures
            forall|i: int| 0 <= i < 128 ==> #[trigger] final(acc).v[0][i] == updated_unit(
                old(acc).v[0][i],
                self.feature_weights@,
                feature_of(Color::White, wk as int, color, pt, sq as int),
                i,
                true,
            ),
            forall|i: int| 0 <= i < 128 ==> #[trigger] final(acc).v[1][i] == updated_unit(
                old(acc).v[1][i],
                self.feature_weights@,
                feature_of(Color::Black, bk as int, color, pt, sq as int),
                i,
                true,
            ),
    {
        self.update_piece(acc, wk, bk, color, pt, sq, true);
    }

    /// Incrementally remove a piece's contribution from both perspectives.
    pub fn remove_piece(&self, acc: &mut Accumulator, wk: usize, bk: usize, color: Color, pt: PieceType, sq: usize)
        requires
            self.wf(),
            wk < 64,
            bk < 64,
            sq < 64,
        ensures
            forall|i: int| 0 <= i < 128 ==> #[trigger] final(acc).v[0][i] == updated_unit(
                old(acc).v[0][i],
                self.feature_weights@,
                feature_of(Color::White, wk as int, color, pt, sq as int),
                i,
                false,
            ),
            forall|i: int| 0 <= i < 128 ==> #[trigger] final(acc).v[1][i] == updated_unit(
                old(acc).v[1][i],
                self.feature_weights@,
                feature_of(Color::Black, bk as int, color, pt, sq as int),
                i,
                false,
            ),
    {
        self.update_piece(acc, wk, bk, color, pt, sq, false);
    }
}

// -- incremental updates agree with a refresh ------------------------------------------------

/// Changing a function at two points changes its sum by the differences there.
proof fn lemma_sum_points(f: spec_fn(int) -> int, g: spec_fn(int) -> int, a: int, c: int, n: int)
    requires
        a != c,
        forall|s: int| s != a && s != c ==> #[trigger] f(s) == g(s),
    ensures
        sum_to(g, n) == sum_to(f, n) + (if 0 <= a < n { g(a) - f(a) } else { 0 }) + (if 0 <= c < n {
            g(c) - f(c)
        } else {
            0
        }),
    decreases n,
{
    if n > 0 {
        lemma_sum_points(f, g, a, c, n - 1);
    }
}

/// A king of color `c` exists on some square, so a lowest one does.
proof fn lemma_lowest_king(b: Seq<u8>, c: Color, s: int)
    requires
        0 <= s < 64,
        holds(b, s, c, PieceType::King),
    ensures
        0 <= king_at(b, c) < 64,
        holds(b, king_at(b, c), c, PieceType::King),
        forall|j: int| 0 <= j < king_at(b, c) ==> !holds(b, j, c, PieceType::King),
    decreases s,
{
    if exists|j: int| 0 <= j < s && holds(b, j, c, PieceType::King) {
        let j = choose|j: int| 0 <= j < s && holds(b, j, c, PieceType::King);
        lemma_lowest_king(b, c, j);
    } else {
        lemma_king_at(b, c, s);
    }
}

/// Unit `i` after removing feature `fx` and adding feature `fy`.
pub open spec fn moved_unit(v: i16, w: Seq<i16>, fx: Option<int>, fy: Option<int>, i: int) -> i16 {
    updated_unit(updated_unit(v, w, fx, i, false), w, fy, i, true)
}

/// Moving a piece other than a king onto an empty square keeps both king squares,
/// and removing the piece's old features then adding its new ones turns every
/// hidden unit of the old board into that unit of the new board: the incremental
/// update agrees with a refresh.
pub proof fn lemma_incremental_matches_refresh(net: &Network, b: Seq<u8>, x: int, y: int, p: Color, i: int)
    requires
        net.wf(),
        b.len() == 64,
        0 <= x < 64,
        0 <= y < 64,
        x != y,
        b[x] < 12,
        code_type(b[x] as int) != PieceType::King,
        b[y] == 12,
        has_king(b, p),
        0 <= i < 128,
    ensures
        king_at(b.update(x, 12u8).update(y, b[x]), p) == king_at(b, p),
        acc_unit(net, b.update(x, 12u8).update(y, b[x]), p, king_at(b, p), i) == moved_unit(
            acc_unit(net, b, p, king_at(b, p), i),
            net.feature_weights@,
            feature_of(p, king_at(b, p), code_color(b[x] as int), code_type(b[x] as int), x),
            feature_of(p, king_at(b, p), code_color(b[x] as int), code_type(b[x] as int), y),
            i,
        ),
{
    let b2 = b.update(x, 12u8).update(y, b[x]);
    let ks = choose|s: int| 0 <= s < 64 && holds(b, s, p, PieceType::King);
    lemma_lowest_king(b, p, ks);
    let k = king_at(b, p);
    assert forall|s: int| 0 <= s < 64 implies holds(b2, s, p, PieceType::King) == holds(b, s, p, PieceType::King) by {
        if s == x || s == y {
            crate::position::lemma_code_parts(p, PieceType::King);
            crate::position::lemma_code_split(b[x] as int);
        }
    }
    lemma_king_at(b2, p, k);
    let w = net.feature_weights@;
    let q0 = b[x] as int;
    let c0 = code_color(q0);
    let t0 = code_type(q0);
    lemma_feature_range(p, k, c0, t0, x);
    lemma_feature_range(p, k, c0, t0, y);
    let fx = feature_of(p, k, c0, t0, x)->Some_0;
    let fy = feature_of(p, k, c0, t0, y)->Some_0;
    // The inner sum of the moved piece's code changes at its two squares.
    let f = code_weight(w, b, p, k, i, q0);
    let g = code_weight(w, b2, p, k, i, q0);
    assert forall|s: int| s != x && s != y implies #[trigger] f(s) == g(s) by {}
    lemma_sum_points(f, g, x, y, 64);
    assert(f(x) == w[fx * 128 + i] as int);
    assert(g(x) == 0);
    assert(f(y) == 0);
    assert(g(y) == w[fy * 128 + i] as int);
    // Every other code keeps its inner sum.
    let outer_f = |code: int| sum_to(code_weight(w, b, p, k, i, code), 64);
    let outer_g = |code: int| sum_to(code_weight(w, b2, p, k, i, code), 64);
    assert forall|code: int| code != q0 && code != 12 implies #[trigger] outer_f(code) == outer_g(code) by {
        assert(code_weight(w, b, p, k, i, code) =~= code_weight(w, b2, p, k, i, code));
    }
    lemma_sum_points(outer_f, outer_g, q0, 12, 12);
    let s1 = net.feature_bias@[i] + codes_sum(w, b, p, k, i, 12);
    assert(codes_sum(w, b2, p, k, i, 12) == codes_sum(w, b, p, k, i, 12) - w[fx * 128 + i] + w[fy * 128 + i]);
    lemma_crop_sub(s1, w[fx * 128 + i] as int);
    lemma_crop_add(s1 - w[fx * 128 + i], w[fy * 128 + i] as int);
}

// -- output ------------------------------------------------------------------------------

/// Clipped ReLU: `x` clamped to `0..=QA`.
pub open spec fn crelu_spec(x: int) -> int {
    if x < 0 {
        0
    } else if x > 255 {
        255
    } else {
        x
    }
}

fn crelu(x: i16) -> (r: i32)
    ensures
        r == crelu_spec(x as int),
{
    let v = x as i32;
    if v < 0 {
        0
    } else if v > QA {
        QA
    } else {
        v
    }
}

/// Dot product of the clipped first `n` units of both halves with the output weights.
pub open spec fn out_sum(net: &Network, acc: Accumulator, us: int, them: int, n: int) -> int
    decreases n,
{
    if n <= 0 {
        0
    } else {
        out_sum(net, acc, us, them, n - 1) + crelu_spec(acc.v[us][n - 1] as int) * net.output_weights@[n - 1]
            + crelu_spec(acc.v[them][n - 1] as int) * net.output_weights@[128 + n - 1]
    }
}

/// Rust's division of integers, rounding toward zero.
pub open spec fn tdiv(a: int, d: int) -> int {
    if a >= 0 {
        a / d
    } else {
        -((-a) / d)
    }
}

/// The output arithmetic after the dot product `sum` stays within `i32`.
pub open spec fn output_fits(sum: int, bias: int) -> bool {
    &&& i32::MIN <= sum / 64 + bias <= i32::MAX
    &&& i32::MIN <= (sum / 64 + bias) * 400 <= i32::MAX
}

/// Centipawn score of a dot product `sum` with output bias `bias`.
pub open spec fn output_score(sum: int, bias: int) -> int {
    tdiv((sum / 64 + bias) * 400, 16320)
}

proof fn lemma_out_sum_bound(net: &Network, acc: Accumulator, us: int, them: int, n: int)
    requires
        net.wf(),
        0 <= n <= 128,
    ensures
        -16_711_680 * n <= out_sum(net, acc, us, them, n) <= 16_711_680 * n,
    decreases n,
{
    if n > 0 {
        lemma_out_sum_bound(net, acc, us, them, n - 1);
        let a = crelu_spec(acc.v[us][n - 1] as int);
        let b = crelu_spec(acc.v[them][n - 1] as int);
        let wa = net.output_weights@[n - 1] as int;
        let wb = net.output_weights@[128 + n - 1] as int;
        assert(-8_355_840 <= a * wa <= 8_355_840) by (nonlinear_arith)
            requires
                0 <= a <= 255,
                -32768 <= wa <= 32767;
        assert(-8_355_840 <= b * wb <= 8_355_840) by (nonlinear_arith)
            requires
                0 <= b <= 255,
                -32768 <= wb <= 32767;
    }
}

proof fn lemma_shift_div(x: i32)
    ensures
        (x >> 6i32) as int == (x as int) / 64,
{
    let y = x >> 6i32;
    assert((y as i64) * 64 <= x as i64 && (x as i64) < (y as i64) * 64 + 64) by (bit_vector)
        requires
            y == x >> 6i32;
    vstd::arithmetic::div_mod::lemma_fundamental_div_mod(x as int, 64);
    let q = (x as int) / 64;
    let r = (x as int) % 64;
    assert(q == y as int) by (nonlinear_arith)
        requires
            (y as int) * 64 <= x as int,
            (x as int) < (y as int) * 64 + 64,
            x as int == 64 * q + r,
            0 <= r < 64;
}

impl Network {
    /// Forward pass to a centipawn score from `stm`'s point of view.
    pub fn forward(&self, acc: &Accumulator, stm: Color) -> (r: i32)
        requires
            self.wf(),
            output_fits(
                out_sum(self, *acc, color_idx(stm), 1 - color_idx(stm), 128),
                self.output_bias as int,
            ),
        ensures
            r == output_score(out_sum(self, *acc, color_idx(stm), 1 - color_idx(stm), 128), self.output_bias as int),
    {
        let us = stm.index();
        let them = stm.flip().index();
        let mut sum: i32 = 0;
        let mut i: usize = 0;
        while i < HIDDEN
            invariant
                self.wf(),
                0 <= i <= 128,
                us == color_idx(stm),
                them == 1 - color_idx(stm),
                sum == out_sum(self, *acc, us as int, them as int, i as int),
            decreases 128 - i,
        {
            proof {
                lemma_out_sum_bound(self, *acc, us as int, them as int, i + 1);
                lemma_out_sum_bound(self, *acc, us as int, them as int, i as int);
            }
            let a = crelu(acc.v[us][i]);
            let wa = self.output_weights[i] as i32;
            let b = crelu(acc.v[them][i]);
            let wb = self.output_weights[HIDDEN + i] as i32;
            proof {
                assert(-8_355_840 <= a * wa <= 8_355_840) by (nonlinear_arith)
                    requires
                        0 <= a <= 255,
                        -32768 <= wa <= 32767;
                assert(-8_355_840 <= b * wb <= 8_355_840) by (nonlinear_arith)
                    requires
                        0 <= b <= 255,
                        -32768 <= wb <= 32767;
            }
            sum = sum + a * wa;
            sum = sum + b * wb;
            i = i + 1;
        }
        proof {
            lemma_shift_div(sum);
        }
        ((sum >> OUTPUT_SHIFT) + self.output_bias) * SCALE / (QA * 64)
    }
}

// -- loading -------------------------------------------------------------------------------

/// Little-endian 16-bit value at byte `o`.
pub open spec fn le16(b: Seq<u8>, o: int) -> i16 {
    (b[o] + 256 * b[o + 1]) as i16
}

/// Little-endian 32-bit value at byte `o`.
pub open spec fn le32(b: Seq<u8>, o: int) -> i32 {
    (b[o] + 256 * b[o + 1] + 65536 * b[o + 2] + 16777216 * b[o + 3]) as i32
}

/// Byte length of a network file: the three weight tables as 16-bit values,
/// then the 32-bit output bias.
pub open spec fn net_file_len() -> int {
    (40960int * 128 + 128 + 256) * 2 + 4
}

/// The network holds the tables laid out in `b`:
/// `feature_weights | feature_bias | output_weights | output_bias`.
pub open spec fn decodes(n: Network, b: Seq<u8>) -> bool {
    &&& forall|j: int| 0 <= j < 40960 * 128 ==> #[trigger] n.feature_weights@[j] == le16(b, 2 * j)
    &&& forall|j: int| 0 <= j < 128 ==> #[trigger] n.feature_bias@[j] == le16(b, 2 * (40960 * 128 + j))
    &&& forall|j: int| 0 <= j < 256 ==> #[trigger] n.output_weights@[j] == le16(b, 2 * (40960 * 128 + 128 + j))
    &&& n.output_bias == le32(b, 2 * (40960int * 128 + 384))
}

fn read_i16(b: &[u8], o: usize) -> (r: i16)
    requires
        o + 1 < b@.len(),
    ensures
        r == le16(b@, o as int),
{
    let lo = b[o] as u16;
    let hi = b[o + 1] as u16;
    assert(lo < 256 && hi < 256 ==> lo | (hi << 8u16) == lo + 256 * hi) by (bit_vector);
    (lo | (hi << 8)) as i16
}

fn read_i32(b: &[u8], o: usize) -> (r: i32)
    requires
        o + 3 < b@.len(),
    ensures
        r == le32(b@, o as int),
{
    let b0 = b[o] as u32;
    let b1 = b[o + 1] as u32;
    let b2 = b[o + 2] as u32;
    let b3 = b[o + 3] as u32;
    assert(b0 < 256 && b1 < 256 && b2 < 256 && b3 < 256 ==> b0 | (b1 << 8u32) | (b2 << 16u32) | (b3
        << 24u32) == b0 + 256 * b1 + 65536 * b2 + 16777216 * b3) by (bit_vector);
    (b0 | (b1 << 8) | (b2 << 16) | (b3 << 24)) as i32
}

/// `n` little-endian 16-bit values starting at byte `start`.
fn read_block(b: &[u8], start: usize, n: usize) -> (r: Vec<i16>)
    requires
        start + 2 * n <= b.len(),
    ensures
        r@.len() == n,
        forall|j: int| 0 <= j < n ==> #[trigger] r@[j] == le16(b@, start + 2 * j),
{
    let mut v: Vec<i16> = Vec::new();
    let mut j: usize = 0;
    while j < n
        invariant
            start + 2 * n <= b.len(),
            0 <= j <= n,
            v@.len() == j,
            forall|i: int| 0 <= i < j ==> #[trigger] v@[i] == le16(b@, start + 2 * i),
        decreases n - j,
    {
        v.push(read_i16(b, start + 2 * j));
        j = j + 1;
    }
    v
}

impl Network {
    /// A network from its flat little-endian layout, or `None` when the size is wrong.
    pub fn from_bytes(bytes: &[u8]) -> (r: Option<Network>)
        ensures
            r is Some <==> bytes@.len() == net_file_len(),
            r matches Some(n) ==> n.wf() && decodes(n, bytes@),
    {
        let n_fw = INPUT * HIDDEN;
        let n_fb = HIDDEN;
        let n_ow = 2 * HIDDEN;
        let expected = (n_fw + n_fb + n_ow) * 2 + 4;
        if bytes.len() != expected {
            return None;
        }
        let feature_weights = read_block(bytes, 0, n_fw);
        let feature_bias = read_block(bytes, 2 * n_fw, n_fb);
        let output_weights = read_block(bytes, 2 * (n_fw + n_fb), n_ow);
        let output_bias = read_i32(bytes, 2 * (n_fw + n_fb + n_ow));
        Some(Network { feature_weights, feature_bias, output_weights, output_bias })
    }
}


/// The output sum over the first `n` hidden units does not look at the half of
/// an accumulator whose output weights there are zero: two accumulators that
/// agree on the other half give the same sum.
proof fn lemma_out_sum_halves(net: &Network, a1: Accumulator, a2: Accumulator, us: int, them: int, n: int)
    requires
        0 <= us < 2,
        0 <= them < 2,
        0 <= n <= 128,
        net.output_weights@.len() == 256,
        (forall|i: int| 0 <= i < n ==> #[trigger] net.output_weights@[128 + i] == 0) && (forall|i: int|
            0 <= i < n ==> a1.v[us][i] == a2.v[us][i]) || (forall|i: int| 0 <= i < n ==> #[trigger] net.output_weights@[i]
            == 0) && (forall|i: int| 0 <= i < n ==> a1.v[them][i] == a2.v[them][i]),
    ensures
        out_sum(net, a1, us, them, n) == out_sum(net, a2, us, them, n),
    decreases n,
{
    if n > 0 {
        lemma_out_sum_halves(net, a1, a2, us, them, n - 1);
        assert(net.output_weights@[128 + (n - 1)] == 0 || net.output_weights@[n - 1] == 0);
    }
}

/// The forward pass scores from the side to move's point of view: the side to
/// move's half of the accumulator meets the first 128 output weights and the
/// other side's half the last 128. So where the last 128 weights are zero the
/// score depends only on the side to move's half, and where the first 128 are
/// zero only on the other half.
pub proof fn lemma_forward_perspective(net: &Network, a1: Accumulator, a2: Accumulator, stm: Color)
    requires
        net.wf(),
    ensures
        (forall|i: int| 128 <= i < 256 ==> #[trigger] net.output_weights@[i] == 0) && a1.v[color_idx(stm) as int]
            == a2.v[color_idx(stm) as int] ==> out_sum(net, a1, color_idx(stm) as int, 1 - color_idx(stm), 128)
            == out_sum(net, a2, color_idx(stm) as int, 1 - color_idx(stm), 128),
        (forall|i: int| 0 <= i < 128 ==> #[trigger] net.output_weights@[i] == 0) && a1.v[1 - color_idx(stm)]
            == a2.v[1 - color_idx(stm)] ==> out_sum(net, a1, color_idx(stm) as int, 1 - color_idx(stm), 128)
            == out_sum(net, a2, color_idx(stm) as int, 1 - color_idx(stm), 128),
{
    let us = color_idx(stm) as int;
    let them = 1 - color_idx(stm);
    if (forall|i: int| 128 <= i < 256 ==> #[trigger] net.output_weights@[i] == 0) && a1.v[us] == a2.v[us] {
        assert forall|i: int| 0 <= i < 128 implies #[trigger] net.output_weights@[128 + i] == 0 by {
            assert(net.output_weights@[128 + i] == 0);
        }
        lemma_out_sum_halves(net, a1, a2, us, them, 128);
    }
    if (forall|i: int| 0 <= i < 128 ==> #[trigger] net.output_weights@[i] == 0) && a1.v[them] == a2.v[them] {
        lemma_out_sum_halves(net, a1, a2, us, them, 128);
    }
}

} // verus!
