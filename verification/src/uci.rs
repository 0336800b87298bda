//! The UCI command lines that carry data: `go` limits and `position` setups.
use vstd::prelude::*;
use crate::fen::{all_digits, digits_value, is_ws, split_words, words};
use crate::chess_move::Move;
use crate::eval::tdiv;
use crate::game::{after_moves, moves_text, play_moves, plays_words, refuses_word};
use crate::search::{MATE, MATE_IN_MAX, SearchInfo};
use crate::position::{Position, PosView, fen_error, fen_result, loaded, start_board};
use crate::text::{bytes_eq, dec, int_bytes, int_text, push_all, push_decimal};
use crate::timeman::Limits;
use crate::types::Color;
use vstd::string::StringSliceAdditionalSpecFns;

verus! {

/// An unsigned decimal number no larger than `max`, with an optional leading `+`.
pub open spec fn uint_field(t: Seq<u8>, max: int) -> Option<int> {
    let lo = if t.len() > 0 && t[0] == 43 { 1int } else { 0int };
    if t.len() > lo && all_digits(t, lo) && digits_value(t, lo, t.len() as int) <= max {
        Some(digits_value(t, lo, t.len() as int))
    } else {
        None
    }
}

proof fn lemma_digits_grow(t: Seq<u8>, lo: int, n: int, m: int)
    requires
        lo <= n <= m <= t.len(),
        all_digits(t, lo),
    ensures
        0 <= digits_value(t, lo, n) <= digits_value(t, lo, m),
    decreases m - n,
{
    if n < m {
        lemma_digits_grow(t, lo, n, m - 1);
    } else {
        lemma_digits_base(t, lo, n);
    }
}

proof fn lemma_digits_base(t: Seq<u8>, lo: int, n: int)
    requires
        lo <= n <= t.len(),
        all_digits(t, lo),
    ensures
        0 <= digits_value(t, lo, n),
    decreases n - lo,
{
    if n > lo {
        lemma_digits_base(t, lo, n - 1);
    }
}

/// Parse an unsigned decimal number no larger than `max`.
pub fn parse_uint(t: &[u8], max: u64) -> (r: Option<u64>)
    ensures
        r == (match uint_field(t@, max as int) {
            Some(x) => Some(x as u64),
            None => None,
        }),
        r matches Some(x) ==> x <= max && uint_field(t@, max as int) == Some(x as int),
{
    let lo: usize = if t.len() > 0 && t[0] == 43 {
        1
    } else {
        0
    };
    if t.len() <= lo {
        return None;
    }
    let mut v: u128 = 0;
    let mut i: usize = lo;
    while i < t.len()
        invariant
            lo <= i <= t@.len(),
            lo == (if t@.len() > 0 && t@[0] == 43 { 1int } else { 0int }),
            forall|k: int| lo <= k < i ==> 48 <= #[trigger] t@[k] <= 57,
            v == digits_value(t@, lo as int, i as int),
            v <= max,
        decreases t@.len() - i,
    {
        let c = t[i];
        if c < 48 || c > 57 {
            return None;
        }
        let nv = v * 10 + (c - 48) as u128;
        if nv > max as u128 {
            proof {
                if all_digits(t@, lo as int) {
                    lemma_digits_grow(t@, lo as int, i + 1, t@.len() as int);
                }
            }
            return None;
        }
        v = nv;
        i = i + 1;
    }
    Some(v as u64)
}

// -- go ------------------------------------------------------------------------------

/// Which `go` parameter a word names (0 for none).
pub open spec fn go_keyword(t: Seq<u8>) -> int {
    if t == seq![100u8, 101u8, 112u8, 116u8, 104u8] {
        1
    } else if t == seq![110u8, 111u8, 100u8, 101u8, 115u8] {
        2
    } else if t == seq![109u8, 111u8, 118u8, 101u8, 116u8, 105u8, 109u8, 101u8] {
        3
    } else if t == seq![119u8, 116u8, 105u8, 109u8, 101u8] {
        4
    } else if t == seq![98u8, 116u8, 105u8, 109u8, 101u8] {
        5
    } else if t == seq![119u8, 105u8, 110u8, 99u8] {
        6
    } else if t == seq![98u8, 105u8, 110u8, 99u8] {
        7
    } else if t == seq![109u8, 111u8, 118u8, 101u8, 115u8, 116u8, 111u8, 103u8, 111u8] {
        8
    } else if t == seq![105u8, 110u8, 102u8, 105u8, 110u8, 105u8, 116u8, 101u8] {
        9
    } else {
        0
    }
}

fn go_keyword_of(t: &[u8]) -> (r: u8)
    ensures
        r == go_keyword(t@),
{
    if bytes_eq(t, &[100u8, 101u8, 112u8, 116u8, 104u8]) {
        proof {
            assert(&[100u8, 101u8, 112u8, 116u8, 104u8]@ == seq![100u8, 101u8, 112u8, 116u8, 104u8]);
        }
        1
    } else if bytes_eq(t, &[110u8, 111u8, 100u8, 101u8, 115u8]) {
        proof {
            assert(&[110u8, 111u8, 100u8, 101u8, 115u8]@ == seq![110u8, 111u8, 100u8, 101u8, 115u8]);
        }
        2
    } else if bytes_eq(t, &[109u8, 111u8, 118u8, 101u8, 116u8, 105u8, 109u8, 101u8]) {
        proof {
            assert(&[109u8, 111u8, 118u8, 101u8, 116u8, 105u8, 109u8, 101u8]@ == seq![109u8, 111u8, 118u8, 101u8, 116u8, 105u8, 109u8, 101u8]);
        }
        3
    } else if bytes_eq(t, &[119u8, 116u8, 105u8, 109u8, 101u8]) {
        proof {
            assert(&[119u8, 116u8, 105u8, 109u8, 101u8]@ == seq![119u8, 116u8, 105u8, 109u8, 101u8]);
        }
        4
    } else if bytes_eq(t, &[98u8, 116u8, 105u8, 109u8, 101u8]) {
        proof {
            assert(&[98u8, 116u8, 105u8, 109u8, 101u8]@ == seq![98u8, 116u8, 105u8, 109u8, 101u8]);
        }
        5
    } else if bytes_eq(t, &[119u8, 105u8, 110u8, 99u8]) {
        proof {
            assert(&[119u8, 105u8, 110u8, 99u8]@ == seq![119u8, 105u8, 110u8, 99u8]);
        }
        6
    } else if bytes_eq(t, &[98u8, 105u8, 110u8, 99u8]) {
        proof {
            assert(&[98u8, 105u8, 110u8, 99u8]@ == seq![98u8, 105u8, 110u8, 99u8]);
        }
        7
    } else if bytes_eq(t, &[109u8, 111u8, 118u8, 101u8, 115u8, 116u8, 111u8, 103u8, 111u8]) {
        proof {
            assert(&[109u8, 111u8, 118u8, 101u8, 115u8, 116u8, 111u8, 103u8, 111u8]@ == seq![109u8, 111u8, 118u8, 101u8, 115u8, 116u8, 111u8, 103u8, 111u8]);
        }
        8
    } else if bytes_eq(t, &[105u8, 110u8, 102u8, 105u8, 110u8, 105u8, 116u8, 101u8]) {
        proof {
            assert(&[105u8, 110u8, 102u8, 105u8, 110u8, 105u8, 116u8, 101u8]@ == seq![105u8, 110u8, 102u8, 105u8, 110u8, 105u8, 116u8, 101u8]);
        }
        9
    } else {
        assert(&[100u8, 101u8, 112u8, 116u8, 104u8]@ == seq![100u8, 101u8, 112u8, 116u8, 104u8]);
        assert(&[110u8, 111u8, 100u8, 101u8, 115u8]@ == seq![110u8, 111u8, 100u8, 101u8, 115u8]);
        assert(&[109u8, 111u8, 118u8, 101u8, 116u8, 105u8, 109u8, 101u8]@ == seq![109u8, 111u8, 118u8, 101u8, 116u8, 105u8, 109u8, 101u8]);
        assert(&[119u8, 116u8, 105u8, 109u8, 101u8]@ == seq![119u8, 116u8, 105u8, 109u8, 101u8]);
        assert(&[98u8, 116u8, 105u8, 109u8, 101u8]@ == seq![98u8, 116u8, 105u8, 109u8, 101u8]);
        assert(&[119u8, 105u8, 110u8, 99u8]@ == seq![119u8, 105u8, 110u8, 99u8]);
        assert(&[98u8, 105u8, 110u8, 99u8]@ == seq![98u8, 105u8, 110u8, 99u8]);
        assert(&[109u8, 111u8, 118u8, 101u8, 115u8, 116u8, 111u8, 103u8, 111u8]@ == seq![109u8, 111u8, 118u8, 101u8, 115u8, 116u8, 111u8, 103u8, 111u8]);
        assert(&[105u8, 110u8, 102u8, 105u8, 110u8, 105u8, 116u8, 101u8]@ == seq![105u8, 110u8, 102u8, 105u8, 110u8, 105u8, 116u8, 101u8]);
        0
    }
}

/// The limits a `go` line starts from.
pub open spec fn default_limits() -> Limits {
    Limits {
        depth: None,
        nodes: None,
        movetime: None,
        wtime: None,
        btime: None,
        winc: None,
        binc: None,
        movestogo: None,
        infinite: false,
        move_overhead_ms: 30,
    }
}

/// Value of the word after position `i`, as a number no larger than `max`.
pub open spec fn value_after(w: Seq<Seq<u8>>, i: int, max: int) -> Option<int> {
    if i + 1 < w.len() {
        uint_field(w[i + 1], max)
    } else {
        None
    }
}

pub open spec fn as_u64(x: Option<int>) -> Option<u64> {
    match x {
        Some(v) => Some(v as u64),
        None => None,
    }
}

pub open spec fn as_u32(x: Option<int>) -> Option<u32> {
    match x {
        Some(v) => Some(v as u32),
        None => None,
    }
}

/// The limits after reading the words of a `go` line from position `i` on: a
/// parameter takes the next word as its value (none when it is missing or not a
/// number in range) and that word is skipped; other words are ignored.
pub open spec fn go_from(w: Seq<Seq<u8>>, i: int, l: Limits) -> Limits
    decreases w.len() - i,
{
    if i < 0 || i >= w.len() {
        l
    } else {
        let k = go_keyword(w[i]);
        let skip = if i + 2 <= w.len() { i + 2 } else { w.len() as int };
        let n64 = as_u64(value_after(w, i, 0xFFFF_FFFF_FFFF_FFFF));
        let n32 = as_u32(value_after(w, i, 0xFFFF_FFFF));
        if k == 1 {
            go_from(w, skip, Limits { depth: n32, ..l })
        } else if k == 2 {
            go_from(w, skip, Limits { nodes: n64, ..l })
        } else if k == 3 {
            go_from(w, skip, Limits { movetime: n64, ..l })
        } else if k == 4 {
            go_from(w, skip, Limits { wtime: n64, ..l })
        } else if k == 5 {
            go_from(w, skip, Limits { btime: n64, ..l })
        } else if k == 6 {
            go_from(w, skip, Limits { winc: n64, ..l })
        } else if k == 7 {
            go_from(w, skip, Limits { binc: n64, ..l })
        } else if k == 8 {
            go_from(w, skip, Limits { movestogo: n32, ..l })
        } else if k == 9 {
            go_from(w, i + 1, Limits { infinite: true, ..l })
        } else {
            go_from(w, i + 1, l)
        }
    }
}

/// The limits of a `go` line (its first word is the command itself).
pub open spec fn go_limits(line: Seq<u8>) -> Limits {
    go_from(words(line), 1, default_limits())
}

/// Parse the parameters of a `go` command line.
pub fn parse_go(line: &str) -> (r: Limits)
    ensures
        r == go_limits(line.spec_bytes()),
{
    let b = line.as_bytes();
    let w = split_words(b);
    let ghost ws = words(b@);
    let mut l = Limits::default();
    let mut i: usize = 1;
    while i < w.len()
        invariant
            w@.len() == ws.len(),
            forall|k: int| 0 <= k < w@.len() ==> #[trigger] w@[k]@ == ws[k],
            ws == words(line.spec_bytes()),
            i >= 1,
            go_from(ws, i as int, l) == go_limits(line.spec_bytes()),
        decreases w@.len() - i,
    {
        let k = go_keyword_of(w[i].as_slice());
        let (n64, n32) = if i + 1 < w.len() {
            let t = w[i + 1].as_slice();
            (parse_uint(t, 0xFFFF_FFFF_FFFF_FFFF), parse_uint(t, 0xFFFF_FFFF))
        } else {
            (None, None)
        };
        let n32v: Option<u32> = match n32 {
            Some(x) => Some(x as u32),
            None => None,
        };
        proof {
            if let Some(x) = n32 {
                assert(x <= 0xFFFF_FFFF);
            }
            assert(n64 == as_u64(value_after(ws, i as int, 0xFFFF_FFFF_FFFF_FFFF)));
            assert(n32v == as_u32(value_after(ws, i as int, 0xFFFF_FFFF)));
        }
        if k == 1 {
            l.depth = n32v;
        } else if k == 2 {
            l.nodes = n64;
        } else if k == 3 {
            l.movetime = n64;
        } else if k == 4 {
            l.wtime = n64;
        } else if k == 5 {
            l.btime = n64;
        } else if k == 6 {
            l.winc = n64;
        } else if k == 7 {
            l.binc = n64;
        } else if k == 8 {
            l.movestogo = n32v;
        } else if k == 9 {
            l.infinite = true;
        }
        // A parameter's value word is consumed with it.
        let step: usize = if 1 <= k && k <= 8 {
            2
        } else {
            1
        };
        if w.len() - i > step {
            i = i + step;
        } else {
            i = w.len();
        }
    }
    l
}

// -- position ----------------------------------------------------------------------------

/// `p` occurs in `b` at `i`, ending by `hi`.
pub open spec fn has_at(b: Seq<u8>, i: int, hi: int, p: Seq<u8>) -> bool {
    0 <= i && i + p.len() <= hi && hi <= b.len() && b.subrange(i, i + p.len()) == p
}

/// First index at or after `i` (before `hi`) that is not whitespace.
pub open spec fn trim_lo(b: Seq<u8>, i: int, hi: int) -> int
    decreases hi - i,
{
    if i < hi && is_ws(b[i]) {
        trim_lo(b, i + 1, hi)
    } else {
        i
    }
}

/// End of `b[lo..hi]` once trailing whitespace is dropped.
pub open spec fn trim_hi(b: Seq<u8>, lo: int, hi: int) -> int
    decreases hi - lo,
{
    if lo < hi && is_ws(b[hi - 1]) {
        trim_hi(b, lo, hi - 1)
    } else {
        hi
    }
}

/// Index after every leading repetition of `position` from `i` on.
pub open spec fn past_command(b: Seq<u8>, i: int) -> int
    decreases b.len() - i,
{
    if has_at(b, i, b.len() as int, seq![112u8, 111u8, 115u8, 105u8, 116u8, 105u8, 111u8, 110u8]) {
        past_command(b, i + 8)
    } else {
        i
    }
}

/// First index from `i` on where ` moves ` starts inside `b[..hi]`.
pub open spec fn find_moves(b: Seq<u8>, i: int, hi: int) -> Option<int>
    decreases hi - i,
{
    if i < 0 || i + 7 > hi {
        None
    } else if has_at(b, i, hi, seq![32u8, 109u8, 111u8, 118u8, 101u8, 115u8, 32u8]) {
        Some(i)
    } else {
        find_moves(b, i + 1, hi)
    }
}

/// The parts of a `position` line: the FEN range (none for the start position)
/// and the range of the move list that follows.
pub open spec fn position_parts(b: Seq<u8>) -> (Option<(int, int)>, (int, int)) {
    let n = b.len() as int;
    let lo = trim_lo(b, past_command(b, 0), n);
    let hi = trim_hi(b, lo, n);
    if has_at(b, lo, hi, seq![115u8, 116u8, 97u8, 114u8, 116u8, 112u8, 111u8, 115u8]) {
        let mlo = trim_lo(b, lo + 8, hi);
        (None, (mlo, trim_hi(b, mlo, hi)))
    } else if has_at(b, lo, hi, seq![102u8, 101u8, 110u8]) {
        let alo = trim_lo(b, lo + 3, hi);
        let ahi = trim_hi(b, alo, hi);
        match find_moves(b, alo, ahi) {
            Some(idx) => {
                let flo = trim_lo(b, alo, idx);
                (Some((flo, trim_hi(b, flo, idx))), (idx + 7, ahi))
            },
            None => (Some((alo, ahi)), (ahi, ahi)),
        }
    } else {
        (None, (hi, hi))
    }
}

/// The move words of a move range: after trimming, a leading `moves` is dropped.
pub open spec fn move_list_range(b: Seq<u8>, lo: int, hi: int) -> (int, int) {
    let tlo = trim_lo(b, lo, hi);
    let thi = trim_hi(b, tlo, hi);
    if has_at(b, tlo, thi, seq![109u8, 111u8, 118u8, 101u8, 115u8]) {
        let l2 = trim_lo(b, tlo + 5, thi);
        (l2, trim_hi(b, l2, thi))
    } else {
        (tlo, thi)
    }
}

fn skip_spaces(b: &[u8], i: usize, hi: usize) -> (r: usize)
    requires
        i <= hi <= b@.len(),
    ensures
        r == trim_lo(b@, i as int, hi as int),
        i <= r <= hi,
    decreases hi - i,
{
    if i < hi && (b[i] == 32 || (9 <= b[i] && b[i] <= 13)) {
        skip_spaces(b, i + 1, hi)
    } else {
        i
    }
}

fn drop_spaces(b: &[u8], lo: usize, hi: usize) -> (r: usize)
    requires
        lo <= hi <= b@.len(),
    ensures
        r == trim_hi(b@, lo as int, hi as int),
        lo <= r <= hi,
    decreases hi - lo,
{
    if lo < hi && (b[hi - 1] == 32 || (9 <= b[hi - 1] && b[hi - 1] <= 13)) {
        drop_spaces(b, lo, hi - 1)
    } else {
        hi
    }
}

/// Does `p` occur in `b` at `i`, ending by `hi`?
fn occurs_at(b: &[u8], i: usize, hi: usize, p: &[u8]) -> (r: bool)
    requires
        hi <= b@.len(),
    ensures
        r == has_at(b@, i as int, hi as int, p@),
{
    if p.len() > hi || i > hi - p.len() {
        return false;
    }
    let mut k: usize = 0;
    while k < p.len()
        invariant
            i + p@.len() <= hi <= b@.len(),
            0 <= k <= p@.len(),
            forall|j: int| 0 <= j < k ==> b@[i + j] == p@[j],
        decreases p@.len() - k,
    {
        if b[i + k] != p[k] {
            proof {
                assert(b@.subrange(i as int, i + p@.len())[k as int] != p@[k as int]);
            }
            return false;
        }
        k = k + 1;
    }
    proof {
        assert(b@.subrange(i as int, i + p@.len()) =~= p@);
    }
    true
}

fn past_command_exec(b: &[u8], i: usize) -> (r: usize)
    requires
        i <= b@.len(),
    ensures
        r == past_command(b@, i as int),
        i <= r <= b@.len(),
    decreases b@.len() - i,
{
    if occurs_at(b, i, b.len(), &[112u8, 111u8, 115u8, 105u8, 116u8, 105u8, 111u8, 110u8]) {
        proof {
            assert(&[112u8, 111u8, 115u8, 105u8, 116u8, 105u8, 111u8, 110u8]@ == seq![112u8, 111u8, 115u8, 105u8, 116u8, 105u8, 111u8, 110u8]);
        }
        past_command_exec(b, i + 8)
    } else {
        proof {
            assert(&[112u8, 111u8, 115u8, 105u8, 116u8, 105u8, 111u8, 110u8]@ == seq![112u8, 111u8, 115u8, 105u8, 116u8, 105u8, 111u8, 110u8]);
        }
        i
    }
}

fn find_moves_exec(b: &[u8], i: usize, hi: usize) -> (r: Option<usize>)
    requires
        hi <= b@.len(),
    ensures
        r matches Some(x) ==> find_moves(b@, i as int, hi as int) == Some(x as int) && i <= x
            && x + 7 <= hi,
        r is None ==> find_moves(b@, i as int, hi as int) is None,
    decreases hi - i,
{
    if hi < 7 || i > hi - 7 {
        return None;
    }
    proof {
        assert(&[32u8, 109u8, 111u8, 118u8, 101u8, 115u8, 32u8]@ == seq![32u8, 109u8, 111u8, 118u8, 101u8, 115u8, 32u8]);
    }
    if occurs_at(b, i, hi, &[32u8, 109u8, 111u8, 118u8, 101u8, 115u8, 32u8]) {
        Some(i)
    } else {
        find_moves_exec(b, i + 1, hi)
    }
}

/// Split a `position` command line into its FEN (none for `startpos` or an
/// unrecognized setup, which both mean the start position) and its move words.
pub fn position_command(line: &str) -> (r: (Option<Vec<u8>>, Vec<u8>))
    ensures
        match position_parts(line.spec_bytes()).0 {
            Some((a, z)) => r.0 matches Some(f) && f@ == line.spec_bytes().subrange(a, z),
            None => r.0 is None,
        },
        r.1@ == line.spec_bytes().subrange(
            move_list_range(line.spec_bytes(), position_parts(line.spec_bytes()).1.0, position_parts(line.spec_bytes()).1.1).0,
            move_list_range(line.spec_bytes(), position_parts(line.spec_bytes()).1.0, position_parts(line.spec_bytes()).1.1).1,
        ),
{
    let b = line.as_bytes();
    let ghost bs = line.spec_bytes();
    let n = b.len();
    let p0 = past_command_exec(b, 0);
    let lo = skip_spaces(b, p0, n);
    let hi = drop_spaces(b, lo, n);
    proof {
        assert(&[115u8, 116u8, 97u8, 114u8, 116u8, 112u8, 111u8, 115u8]@ == seq![115u8, 116u8, 97u8, 114u8, 116u8, 112u8, 111u8, 115u8]);
        assert(&[102u8, 101u8, 110u8]@ == seq![102u8, 101u8, 110u8]);
    }
    let (fen, mlo, mhi): (Option<(usize, usize)>, usize, usize) = if occurs_at(b, lo, hi, &[115u8, 116u8, 97u8, 114u8, 116u8, 112u8, 111u8, 115u8]) {
        let mlo = skip_spaces(b, lo + 8, hi);
        let mhi = drop_spaces(b, mlo, hi);
        proof {
            assert(has_at(bs, lo as int, hi as int, seq![115u8, 116u8, 97u8, 114u8, 116u8, 112u8, 111u8, 115u8]));
            assert(position_parts(bs) == (None::<(int, int)>, (mlo as int, mhi as int)));
        }
        (None, mlo, mhi)
    } else if occurs_at(b, lo, hi, &[102u8, 101u8, 110u8]) {
        let alo = skip_spaces(b, lo + 3, hi);
        let ahi = drop_spaces(b, alo, hi);
        match find_moves_exec(b, alo, ahi) {
            Some(idx) => {
                let flo = skip_spaces(b, alo, idx);
                let fhi = drop_spaces(b, flo, idx);
                proof {
                    assert(!has_at(bs, lo as int, hi as int, seq![115u8, 116u8, 97u8, 114u8, 116u8, 112u8, 111u8, 115u8]));
                    assert(has_at(bs, lo as int, hi as int, seq![102u8, 101u8, 110u8]));
                    assert(find_moves(bs, alo as int, ahi as int) == Some(idx as int));
                    assert(position_parts(bs) == (Some((flo as int, fhi as int)), (idx + 7, ahi as int)));
                }
                (Some((flo, fhi)), idx + 7, ahi)
            },
            None => {
                proof {
                    assert(!has_at(bs, lo as int, hi as int, seq![115u8, 116u8, 97u8, 114u8, 116u8, 112u8, 111u8, 115u8]));
                    assert(position_parts(bs) == (Some((alo as int, ahi as int)), (ahi as int, ahi as int)));
                }
                (Some((alo, ahi)), ahi, ahi)
            },
        }
    } else {
        proof {
            assert(position_parts(bs) == (None::<(int, int)>, (hi as int, hi as int)));
        }
        (None, hi, hi)
    };
    proof {
        assert(b@ == bs);
        assert(p0 == past_command(bs, 0));
        assert(lo == trim_lo(bs, p0 as int, n as int));
        assert(hi == trim_hi(bs, lo as int, n as int));
        let parts = position_parts(bs);
        assert(parts.1 == (mlo as int, mhi as int));
        match parts.0 {
            Some((a, z)) => {
                assert(fen matches Some((x, y)) && x == a && y == z);
            },
            None => {
                assert(fen is None);
            },
        }
    }
    // The move words: trimmed, without a leading `moves`.
    let tlo = skip_spaces(b, mlo, mhi);
    let thi = drop_spaces(b, tlo, mhi);
    proof {
        assert(&[109u8, 111u8, 118u8, 101u8, 115u8]@ == seq![109u8, 111u8, 118u8, 101u8, 115u8]);
    }
    let (wlo, whi) = if occurs_at(b, tlo, thi, &[109u8, 111u8, 118u8, 101u8, 115u8]) {
        let l2 = skip_spaces(b, tlo + 5, thi);
        (l2, drop_spaces(b, l2, thi))
    } else {
        (tlo, thi)
    };
    proof {
        assert(move_list_range(bs, mlo as int, mhi as int) == (wlo as int, whi as int));
    }
    let moves = slice_bytes(b, wlo, whi);
    let fen_bytes = match fen {
        Some((a, z)) => Some(slice_bytes(b, a, z)),
        None => None,
    };
    (fen_bytes, moves)
}

/// The move words of a `position` line.
pub open spec fn position_moves(b: Seq<u8>) -> Seq<u8> {
    let (lo, hi) = position_parts(b).1;
    let (wlo, whi) = move_list_range(b, lo, hi);
    b.subrange(wlo, whi)
}

/// The position a `position` line starts from, before its moves: the start
/// position, or that of its FEN (none when the FEN cannot be read).
pub open spec fn position_setup(b: Seq<u8>) -> Option<PosView> {
    match position_parts(b).0 {
        Some((lo, hi)) => fen_result(b.subrange(lo, hi)),
        None => Some(loaded(start_board(), Color::White, 15, None, 0, 1)),
    }
}

/// Set up the position of a `position` command line: its start position or FEN,
/// then its move words played in turn up to the first one that names no legal
/// move. Returns the position and the number of words played, or the FEN error.
pub fn position_from_command(line: &str) -> (r: Result<(Position, usize), String>)
    ensures
        match position_setup(line.spec_bytes()) {
            None => r matches Err(e) && (position_parts(line.spec_bytes()).0 matches Some((lo, hi)) && (
            crate::text::all_ascii(fen_error(line.spec_bytes().subrange(lo, hi))) ==> e@ == crate::text::chars_of(
                fen_error(line.spec_bytes().subrange(lo, hi)),
            ))),
            Some(v) => r matches Ok((p, n)) && p.wf() && n <= words(position_moves(line.spec_bytes())).len()
                && (exists|ms: Seq<u16>|
                #![trigger after_moves(v, ms)]
                ms.len() == n && plays_words(v, ms, words(position_moves(line.spec_bytes())))
                    && p@ == after_moves(v, ms)) && (n < words(position_moves(line.spec_bytes())).len()
                ==> refuses_word(p@, words(position_moves(line.spec_bytes()))[n as int])),
        },
{
    let (fen, moves) = position_command(line);
    let mut pos = match fen {
        Some(f) => match Position::from_fen_bytes(f.as_slice()) {
            Ok(p) => p,
            Err(e) => {
                return Err(e);
            },
        },
        None => Position::startpos(),
    };
    let n = play_moves(&mut pos, moves.as_slice());
    Ok((pos, n))
}

// -- commands ------------------------------------------------------------------------------

/// A UCI command line, by its first word.
#[derive(Clone, Copy, PartialEq, Eq, Structural, Debug)]
pub enum UciCommand {
    Empty,
    Uci,
    IsReady,
    NewGame,
    SetOption,
    Position,
    Go,
    Stop,
    PonderHit,
    Display,
    Eval,
    /// `perft` with its depth (5 when missing or unreadable).
    Perft(u32),
    /// `bench` with its depth (11 when missing or unreadable).
    Bench(u32),
    Quit,
    Unknown,
}

/// The number in the second word, or `default`.
pub open spec fn depth_arg(w: Seq<Seq<u8>>, default: u32) -> u32 {
    if w.len() > 1 {
        match uint_field(w[1], u32::MAX as int) {
            Some(x) => x as u32,
            None => default,
        }
    } else {
        default
    }
}

/// The command a line holds.
pub open spec fn command_of(b: Seq<u8>) -> UciCommand {
    let w = words(b);
    if w.len() == 0 {
        UciCommand::Empty
    } else {
        let c = w[0];
        if c == seq![117u8, 99u8, 105u8] {
            UciCommand::Uci
        } else if c == seq![105u8, 115u8, 114u8, 101u8, 97u8, 100u8, 121u8] {
            UciCommand::IsReady
        } else if c == seq![117u8, 99u8, 105u8, 110u8, 101u8, 119u8, 103u8, 97u8, 109u8, 101u8] {
            UciCommand::NewGame
        } else if c == seq![115u8, 101u8, 116u8, 111u8, 112u8, 116u8, 105u8, 111u8, 110u8] {
            UciCommand::SetOption
        } else if c == seq![112u8, 111u8, 115u8, 105u8, 116u8, 105u8, 111u8, 110u8] {
            UciCommand::Position
        } else if c == seq![103u8, 111u8] {
            UciCommand::Go
        } else if c == seq![115u8, 116u8, 111u8, 112u8] {
            UciCommand::Stop
        } else if c == seq![112u8, 111u8, 110u8, 100u8, 101u8, 114u8, 104u8, 105u8, 116u8] {
            UciCommand::PonderHit
        } else if c == seq![100u8] {
            UciCommand::Display
        } else if c == seq![100u8, 105u8, 115u8, 112u8, 108u8, 97u8, 121u8] {
            UciCommand::Display
        } else if c == seq![101u8, 118u8, 97u8, 108u8] {
            UciCommand::Eval
        } else if c == seq![113u8, 117u8, 105u8, 116u8] {
            UciCommand::Quit
        } else if c == seq![112u8, 101u8, 114u8, 102u8, 116u8] {
            UciCommand::Perft(depth_arg(w, 5))
        } else if c == seq![98u8, 101u8, 110u8, 99u8, 104u8] {
            UciCommand::Bench(depth_arg(w, 11))
        } else {
            UciCommand::Unknown
        }
    }
}

/// Read the command of a UCI input line.
pub fn parse_command(line: &str) -> (r: UciCommand)
    ensures
        r == command_of(line.spec_bytes()),
{
    let w = split_words(line.as_bytes());
    if w.len() == 0 {
        return UciCommand::Empty;
    }
    let c = w[0].as_slice();
    proof {
        assert(&[117u8, 99u8, 105u8]@ == seq![117u8, 99u8, 105u8]);
        assert(&[105u8, 115u8, 114u8, 101u8, 97u8, 100u8, 121u8]@ == seq![105u8, 115u8, 114u8, 101u8, 97u8, 100u8, 121u8]);
        assert(&[117u8, 99u8, 105u8, 110u8, 101u8, 119u8, 103u8, 97u8, 109u8, 101u8]@ == seq![117u8, 99u8, 105u8, 110u8, 101u8, 119u8, 103u8, 97u8, 109u8, 101u8]);
        assert(&[115u8, 101u8, 116u8, 111u8, 112u8, 116u8, 105u8, 111u8, 110u8]@ == seq![115u8, 101u8, 116u8, 111u8, 112u8, 116u8, 105u8, 111u8, 110u8]);
        assert(&[112u8, 111u8, 115u8, 105u8, 116u8, 105u8, 111u8, 110u8]@ == seq![112u8, 111u8, 115u8, 105u8, 116u8, 105u8, 111u8, 110u8]);
        assert(&[103u8, 111u8]@ == seq![103u8, 111u8]);
        assert(&[115u8, 116u8, 111u8, 112u8]@ == seq![115u8, 116u8, 111u8, 112u8]);
        assert(&[112u8, 111u8, 110u8, 100u8, 101u8, 114u8, 104u8, 105u8, 116u8]@ == seq![112u8, 111u8, 110u8, 100u8, 101u8, 114u8, 104u8, 105u8, 116u8]);
        assert(&[100u8]@ == seq![100u8]);
        assert(&[100u8, 105u8, 115u8, 112u8, 108u8, 97u8, 121u8]@ == seq![100u8, 105u8, 115u8, 112u8, 108u8, 97u8, 121u8]);
        assert(&[101u8, 118u8, 97u8, 108u8]@ == seq![101u8, 118u8, 97u8, 108u8]);
        assert(&[113u8, 117u8, 105u8, 116u8]@ == seq![113u8, 117u8, 105u8, 116u8]);
        assert(&[112u8, 101u8, 114u8, 102u8, 116u8]@ == seq![112u8, 101u8, 114u8, 102u8, 116u8]);
        assert(&[98u8, 101u8, 110u8, 99u8, 104u8]@ == seq![98u8, 101u8, 110u8, 99u8, 104u8]);
    }
    if bytes_eq(c, &[117u8, 99u8, 105u8]) {
        UciCommand::Uci
    } else if bytes_eq(c, &[105u8, 115u8, 114u8, 101u8, 97u8, 100u8, 121u8]) {
        UciCommand::IsReady
    } else if bytes_eq(c, &[117u8, 99u8, 105u8, 110u8, 101u8, 119u8, 103u8, 97u8, 109u8, 101u8]) {
        UciCommand::NewGame
    } else if bytes_eq(c, &[115u8, 101u8, 116u8, 111u8, 112u8, 116u8, 105u8, 111u8, 110u8]) {
        UciCommand::SetOption
    } else if bytes_eq(c, &[112u8, 111u8, 115u8, 105u8, 116u8, 105u8, 111u8, 110u8]) {
        UciCommand::Position
    } else if bytes_eq(c, &[103u8, 111u8]) {
        UciCommand::Go
    } else if bytes_eq(c, &[115u8, 116u8, 111u8, 112u8]) {
        UciCommand::Stop
    } else if bytes_eq(c, &[112u8, 111u8, 110u8, 100u8, 101u8, 114u8, 104u8, 105u8, 116u8]) {
        UciCommand::PonderHit
    } else if bytes_eq(c, &[100u8]) {
        UciCommand::Display
    } else if bytes_eq(c, &[100u8, 105u8, 115u8, 112u8, 108u8, 97u8, 121u8]) {
        UciCommand::Display
    } else if bytes_eq(c, &[101u8, 118u8, 97u8, 108u8]) {
        UciCommand::Eval
    } else if bytes_eq(c, &[113u8, 117u8, 105u8, 116u8]) {
        UciCommand::Quit
    } else if bytes_eq(c, &[112u8, 101u8, 114u8, 102u8, 116u8]) {
        UciCommand::Perft(depth_word(&w, 5))
    } else if bytes_eq(c, &[98u8, 101u8, 110u8, 99u8, 104u8]) {
        UciCommand::Bench(depth_word(&w, 11))
    } else {
        UciCommand::Unknown
    }
}

fn depth_word(w: &Vec<Vec<u8>>, default: u32) -> (r: u32)
    ensures
        r == depth_arg(w@.map_values(|x: Vec<u8>| x@), default),
{
    proof {
        assert(w@.map_values(|x: Vec<u8>| x@).len() == w@.len());
    }
    if w.len() > 1 {
        match parse_uint(w[1].as_slice(), 0xFFFF_FFFF) {
            Some(x) => x as u32,
            None => default,
        }
    } else {
        default
    }
}

// -- search reports ------------------------------------------------------------------------

/// The UCI text of a score: `mate n` (negative when being mated) near the mate
/// bounds, else `cp` and the centipawns.
pub open spec fn score_text(score: int) -> Seq<u8> {
    if score >= MATE_IN_MAX {
        seq![109u8, 97u8, 116u8, 101u8, 32u8] + int_text(tdiv(MATE - score + 1, 2))
    } else if score <= -MATE_IN_MAX {
        seq![109u8, 97u8, 116u8, 101u8, 32u8] + int_text(-tdiv(MATE + score + 1, 2))
    } else {
        seq![99u8, 112u8, 32u8] + int_text(score)
    }
}

/// Format a score for an `info` line.
pub fn format_score(score: i32) -> (r: Vec<u8>)
    ensures
        r@ == score_text(score as int),
{
    let mut v: Vec<u8> = Vec::new();
    proof {
        assert(&[109u8, 97u8, 116u8, 101u8, 32u8]@ == seq![109u8, 97u8, 116u8, 101u8, 32u8]);
        assert(&[99u8, 112u8, 32u8]@ == seq![99u8, 112u8, 32u8]);
    }
    if score >= MATE_IN_MAX {
        push_all(&mut v, &[109u8, 97u8, 116u8, 101u8, 32u8]);
        let n = int_bytes(((MATE - score + 1) / 2) as i64);
        push_all(&mut v, n.as_slice());
    } else if score <= -MATE_IN_MAX {
        push_all(&mut v, &[109u8, 97u8, 116u8, 101u8, 32u8]);
        let n = int_bytes((-((MATE + score + 1) / 2)) as i64);
        push_all(&mut v, n.as_slice());
    } else {
        push_all(&mut v, &[99u8, 112u8, 32u8]);
        let n = int_bytes(score as i64);
        push_all(&mut v, n.as_slice());
    }
    v
}

/// Nodes per second: nodes over elapsed milliseconds, scaled; the node count
/// itself when no time has elapsed.
pub open spec fn nps_of(nodes: int, time_ms: int) -> int {
    if time_ms == 0 {
        nodes
    } else {
        (nodes * 1000) / time_ms
    }
}

/// The `info` line reporting a completed iteration.
pub open spec fn info_text(depth: u32, seldepth: u32, score: i32, nodes: u64, time_ms: u64, hashfull: usize, pv: Seq<Move>) -> Seq<u8> {
    seq![105u8, 110u8, 102u8, 111u8, 32u8, 100u8, 101u8, 112u8, 116u8, 104u8, 32u8] + dec(depth as nat) + seq![32u8, 115u8, 101u8, 108u8, 100u8, 101u8, 112u8, 116u8, 104u8, 32u8] + dec(seldepth as nat) + seq![32u8, 115u8, 99u8, 111u8, 114u8, 101u8, 32u8] + score_text(score as int) + seq![32u8, 110u8, 111u8, 100u8, 101u8, 115u8, 32u8]
        + dec(nodes as nat) + seq![32u8, 110u8, 112u8, 115u8, 32u8] + dec(nps_of(nodes as int, time_ms as int) as nat) + seq![32u8, 116u8, 105u8, 109u8, 101u8, 32u8] + dec(time_ms as nat)
        + seq![32u8, 104u8, 97u8, 115u8, 104u8, 102u8, 117u8, 108u8, 108u8, 32u8] + dec(hashfull as nat) + seq![32u8, 112u8, 118u8, 32u8] + moves_text(pv)
}

/// The `info` line for a search report.
pub fn info_line(info: &SearchInfo) -> (r: Vec<u8>)
    requires
        info.nodes * 1000 <= u64::MAX,
    ensures
        r@ == info_text(info.depth, info.seldepth, info.score, info.nodes, info.time_ms, info.hashfull, info.pv@),
{
    let nps: u64 = if info.time_ms == 0 {
        info.nodes
    } else {
        (info.nodes * 1000) / info.time_ms
    };
    let mut v: Vec<u8> = Vec::new();
    proof {
        assert(&[105u8, 110u8, 102u8, 111u8, 32u8, 100u8, 101u8, 112u8, 116u8, 104u8, 32u8]@ == seq![105u8, 110u8, 102u8, 111u8, 32u8, 100u8, 101u8, 112u8, 116u8, 104u8, 32u8]);
        assert(&[32u8, 115u8, 101u8, 108u8, 100u8, 101u8, 112u8, 116u8, 104u8, 32u8]@ == seq![32u8, 115u8, 101u8, 108u8, 100u8, 101u8, 112u8, 116u8, 104u8, 32u8]);
        assert(&[32u8, 115u8, 99u8, 111u8, 114u8, 101u8, 32u8]@ == seq![32u8, 115u8, 99u8, 111u8, 114u8, 101u8, 32u8]);
        assert(&[32u8, 110u8, 111u8, 100u8, 101u8, 115u8, 32u8]@ == seq![32u8, 110u8, 111u8, 100u8, 101u8, 115u8, 32u8]);
        assert(&[32u8, 110u8, 112u8, 115u8, 32u8]@ == seq![32u8, 110u8, 112u8, 115u8, 32u8]);
        assert(&[32u8, 116u8, 105u8, 109u8, 101u8, 32u8]@ == seq![32u8, 116u8, 105u8, 109u8, 101u8, 32u8]);
        assert(&[32u8, 104u8, 97u8, 115u8, 104u8, 102u8, 117u8, 108u8, 108u8, 32u8]@ == seq![32u8, 104u8, 97u8, 115u8, 104u8, 102u8, 117u8, 108u8, 108u8, 32u8]);
        assert(&[32u8, 112u8, 118u8, 32u8]@ == seq![32u8, 112u8, 118u8, 32u8]);
    }
    push_all(&mut v, &[105u8, 110u8, 102u8, 111u8, 32u8, 100u8, 101u8, 112u8, 116u8, 104u8, 32u8]);
    push_decimal(&mut v, info.depth as u64);
    push_all(&mut v, &[32u8, 115u8, 101u8, 108u8, 100u8, 101u8, 112u8, 116u8, 104u8, 32u8]);
    push_decimal(&mut v, info.seldepth as u64);
    push_all(&mut v, &[32u8, 115u8, 99u8, 111u8, 114u8, 101u8, 32u8]);
    let s = format_score(info.score);
    push_all(&mut v, s.as_slice());
    push_all(&mut v, &[32u8, 110u8, 111u8, 100u8, 101u8, 115u8, 32u8]);
    push_decimal(&mut v, info.nodes);
    push_all(&mut v, &[32u8, 110u8, 112u8, 115u8, 32u8]);
    push_decimal(&mut v, nps);
    push_all(&mut v, &[32u8, 116u8, 105u8, 109u8, 101u8, 32u8]);
    push_decimal(&mut v, info.time_ms);
    push_all(&mut v, &[32u8, 104u8, 97u8, 115u8, 104u8, 102u8, 117u8, 108u8, 108u8, 32u8]);
    push_decimal(&mut v, info.hashfull as u64);
    push_all(&mut v, &[32u8, 112u8, 118u8, 32u8]);
    let ghost head = v@;
    let t = pv_bytes(&info.pv);
    push_all(&mut v, t.as_slice());
    proof {
        assert(v@ =~= info_text(info.depth, info.seldepth, info.score, info.nodes, info.time_ms, info.hashfull, info.pv@));
    }
    v
}

/// The UCI texts of the moves of `pv`, separated by single spaces.
fn pv_bytes(pv: &Vec<Move>) -> (r: Vec<u8>)
    ensures
        r@ == moves_text(pv@),
{
    let mut out: Vec<u8> = Vec::new();
    let mut i: usize = 0;
    while i < pv.len()
        invariant
            0 <= i <= pv@.len(),
            out@ == moves_text(pv@.subrange(0, i as int)),
        decreases pv@.len() - i,
    {
        let u = pv[i].uci_bytes();
        let ghost before = out@;
        if i > 0 {
            out.push(32);
        }
        push_all(&mut out, u.as_slice());
        proof {
            let s = pv@.subrange(0, i + 1);
            assert(s.drop_last() =~= pv@.subrange(0, i as int));
            if i > 0 {
                assert(out@ =~= before + seq![32u8] + u@);
            } else {
                assert(out@ =~= u@);
            }
        }
        i = i + 1;
    }
    proof {
        assert(pv@.subrange(0, pv@.len() as int) =~= pv@);
    }
    out
}

// -- options -------------------------------------------------------------------------------

/// First index from `i` on where `p` occurs in `b`.
pub open spec fn find_from(b: Seq<u8>, p: Seq<u8>, i: int) -> Option<int>
    decreases b.len() - i,
{
    if i < 0 || i + p.len() > b.len() {
        None
    } else if b.subrange(i, i + p.len()) == p {
        Some(i)
    } else if i >= b.len() {
        None
    } else {
        find_from(b, p, i + 1)
    }
}

/// ASCII upper-case letters lowered; other bytes kept.
pub open spec fn lower_byte(c: u8) -> u8 {
    if 65 <= c <= 90 {
        (c + 32) as u8
    } else {
        c
    }
}

pub open spec fn lowered(b: Seq<u8>) -> Seq<u8> {
    b.map_values(|c: u8| lower_byte(c))
}

/// `b[lo..hi]` without surrounding whitespace.
pub open spec fn trimmed(b: Seq<u8>, lo: int, hi: int) -> Seq<u8> {
    let l = trim_lo(b, lo, hi);
    b.subrange(l, trim_hi(b, l, hi))
}

/// The option name of a lowered `setoption` line: the text between the first
/// `name` and the next `value`, trimmed; empty when there is no `name`.
pub open spec fn option_name(l: Seq<u8>) -> Seq<u8> {
    match find_from(l, seq![110u8, 97u8, 109u8, 101u8], 0) {
        Some(i) => {
            let e = match find_from(l, seq![118u8, 97u8, 108u8, 117u8, 101u8], i + 4) {
                Some(j) => j,
                None => l.len() as int,
            };
            trimmed(l, i + 4, e)
        },
        None => Seq::empty(),
    }
}

/// The option value of a lowered `setoption` line: the text after the first
/// `value`, trimmed; empty when there is none.
pub open spec fn option_value(l: Seq<u8>) -> Seq<u8> {
    match find_from(l, seq![118u8, 97u8, 108u8, 117u8, 101u8], 0) {
        Some(j) => trimmed(l, j + 5, l.len() as int),
        None => Seq::empty(),
    }
}

/// The engine's settings that `setoption` changes.
pub struct EngineOptions {
    pub hash_mb: usize,
    pub threads: usize,
    pub move_overhead_ms: u64,
}

/// What a `setoption` line changed.
#[derive(Clone, Copy, PartialEq, Eq, Structural, Debug)]
pub enum OptionChange {
    /// The hash size was set: the table is rebuilt.
    Hash,
    /// The number of search threads was set.
    Threads,
    /// The table is to be cleared.
    ClearHash,
    /// The move overhead was set.
    MoveOverhead,
    /// Nothing changed: unknown option or unreadable value.
    Ignored,
}

pub open spec fn clamp(x: int, lo: int, hi: int) -> int {
    if x < lo {
        lo
    } else if x > hi {
        hi
    } else {
        x
    }
}

/// The settings and change after a `setoption` line `b`.
pub open spec fn option_effect(o: EngineOptions, b: Seq<u8>) -> (EngineOptions, OptionChange) {
    let l = lowered(b);
    let name = option_name(l);
    let value = option_value(l);
    if name == seq![104u8, 97u8, 115u8, 104u8] {
        match uint_field(value, usize::MAX as int) {
            Some(x) => (EngineOptions { hash_mb: clamp(x, 1, 65536) as usize, ..o }, OptionChange::Hash),
            None => (o, OptionChange::Ignored),
        }
    } else if name == seq![116u8, 104u8, 114u8, 101u8, 97u8, 100u8, 115u8] {
        match uint_field(value, usize::MAX as int) {
            Some(x) => (EngineOptions { threads: clamp(x, 1, 256) as usize, ..o }, OptionChange::Threads),
            None => (o, OptionChange::Ignored),
        }
    } else if name == seq![99u8, 108u8, 101u8, 97u8, 114u8, 32u8, 104u8, 97u8, 115u8, 104u8] {
        (o, OptionChange::ClearHash)
    } else if name == seq![109u8, 111u8, 118u8, 101u8, 32u8, 111u8, 118u8, 101u8, 114u8, 104u8, 101u8, 97u8, 100u8] {
        match uint_field(value, u64::MAX as int) {
            Some(x) => (EngineOptions { move_overhead_ms: clamp(x, 0, 5000) as u64, ..o }, OptionChange::MoveOverhead),
            None => (o, OptionChange::Ignored),
        }
    } else {
        (o, OptionChange::Ignored)
    }
}

impl EngineOptions {
    /// The settings an engine starts with: 16 MB of hash, one thread, 30 ms overhead.
    pub fn new() -> (r: EngineOptions)
        ensures
            r.hash_mb == 16 && r.threads == 1 && r.move_overhead_ms == 30,
    {
        EngineOptions { hash_mb: 16, threads: 1, move_overhead_ms: 30 }
    }

    /// Apply a `setoption name <Name> [value <Value>]` line. Names are matched
    /// without regard to ASCII case; values out of range are clamped.
    pub fn set_option(&mut self, line: &str) -> (r: OptionChange)
        ensures
            (EngineOptions { ..*final(self) }, r) == option_effect(
                EngineOptions { ..*old(self) },
                line.spec_bytes(),
            ),
    {
        let b = line.as_bytes();
        let l = lower_bytes(b);
        let name = option_name_exec(l.as_slice());
        let value = option_value_exec(l.as_slice());
        proof {
            assert(&[104u8, 97u8, 115u8, 104u8]@ == seq![104u8, 97u8, 115u8, 104u8]);
            assert(&[116u8, 104u8, 114u8, 101u8, 97u8, 100u8, 115u8]@ == seq![116u8, 104u8, 114u8, 101u8, 97u8, 100u8, 115u8]);
            assert(&[99u8, 108u8, 101u8, 97u8, 114u8, 32u8, 104u8, 97u8, 115u8, 104u8]@ == seq![99u8, 108u8, 101u8, 97u8, 114u8, 32u8, 104u8, 97u8, 115u8, 104u8]);
            assert(&[109u8, 111u8, 118u8, 101u8, 32u8, 111u8, 118u8, 101u8, 114u8, 104u8, 101u8, 97u8, 100u8]@ == seq![109u8, 111u8, 118u8, 101u8, 32u8, 111u8, 118u8, 101u8, 114u8, 104u8, 101u8, 97u8, 100u8]);
        }
        if bytes_eq(name.as_slice(), &[104u8, 97u8, 115u8, 104u8]) {
            match parse_uint(value.as_slice(), usize::MAX as u64) {
                Some(x) => {
                    self.hash_mb = if x < 1 {
                        1
                    } else if x > 65536 {
                        65536
                    } else {
                        x as usize
                    };
                    OptionChange::Hash
                },
                None => OptionChange::Ignored,
            }
        } else if bytes_eq(name.as_slice(), &[116u8, 104u8, 114u8, 101u8, 97u8, 100u8, 115u8]) {
            match parse_uint(value.as_slice(), usize::MAX as u64) {
                Some(x) => {
                    self.threads = if x < 1 {
                        1
                    } else if x > 256 {
                        256
                    } else {
                        x as usize
                    };
                    OptionChange::Threads
                },
                None => OptionChange::Ignored,
            }
        } else if bytes_eq(name.as_slice(), &[99u8, 108u8, 101u8, 97u8, 114u8, 32u8, 104u8, 97u8, 115u8, 104u8]) {
            OptionChange::ClearHash
        } else if bytes_eq(name.as_slice(), &[109u8, 111u8, 118u8, 101u8, 32u8, 111u8, 118u8, 101u8, 114u8, 104u8, 101u8, 97u8, 100u8]) {
            match parse_uint(value.as_slice(), u64::MAX) {
                Some(x) => {
                    self.move_overhead_ms = if x > 5000 {
                        5000
                    } else {
                        x
                    };
                    OptionChange::MoveOverhead
                },
                None => OptionChange::Ignored,
            }
        } else {
            OptionChange::Ignored
        }
    }
}

/// A lowered copy of `b`.
fn lower_bytes(b: &[u8]) -> (r: Vec<u8>)
    ensures
        r@ == lowered(b@),
{
    let mut v: Vec<u8> = Vec::new();
    let mut i: usize = 0;
    while i < b.len()
        invariant
            0 <= i <= b@.len(),
            v@ == lowered(b@).subrange(0, i as int),
        decreases b@.len() - i,
    {
        let c = b[i];
        let d: u8 = if 65 <= c && c <= 90 {
            c + 32
        } else {
            c
        };
        v.push(d);
        i = i + 1;
        proof {
            assert(v@ =~= lowered(b@).subrange(0, i as int));
        }
    }
    proof {
        assert(lowered(b@).subrange(0, b@.len() as int) =~= lowered(b@));
    }
    v
}

pub(crate) fn find_from_exec(b: &[u8], p: &[u8], i: usize) -> (r: Option<usize>)
    ensures
        r matches Some(x) ==> find_from(b@, p@, i as int) == Some(x as int) && i <= x && x + p@.len()
            <= b@.len(),
        r is None ==> find_from(b@, p@, i as int) is None,
    decreases b@.len() - i,
{
    if p.len() > b.len() || i > b.len() - p.len() {
        return None;
    }
    if occurs_at(b, i, b.len(), p) {
        Some(i)
    } else if i >= b.len() {
        None
    } else {
        find_from_exec(b, p, i + 1)
    }
}

pub(crate) fn trimmed_exec(b: &[u8], lo: usize, hi: usize) -> (r: Vec<u8>)
    requires
        lo <= hi <= b@.len(),
    ensures
        r@ == trimmed(b@, lo as int, hi as int),
{
    let l = skip_spaces(b, lo, hi);
    let h = drop_spaces(b, l, hi);
    slice_bytes(b, l, h)
}

fn option_name_exec(l: &[u8]) -> (r: Vec<u8>)
    ensures
        r@ == option_name(l@),
{
    let name_pat: &[u8] = &[110u8, 97u8, 109u8, 101u8];
    let value_pat: &[u8] = &[118u8, 97u8, 108u8, 117u8, 101u8];
    proof {
        assert(name_pat@ == seq![110u8, 97u8, 109u8, 101u8]);
        assert(value_pat@ == seq![118u8, 97u8, 108u8, 117u8, 101u8]);
    }
    match find_from_exec(l, name_pat, 0) {
        Some(i) => {
            let n = l.len();
            assert(i + 4 <= n);
            let e = match find_from_exec(l, value_pat, i + 4) {
                Some(j) => j,
                None => l.len(),
            };
            trimmed_exec(l, i + 4, e)
        },
        None => Vec::new(),
    }
}

fn option_value_exec(l: &[u8]) -> (r: Vec<u8>)
    ensures
        r@ == option_value(l@),
{
    let value_pat: &[u8] = &[118u8, 97u8, 108u8, 117u8, 101u8];
    proof {
        assert(value_pat@ == seq![118u8, 97u8, 108u8, 117u8, 101u8]);
    }
    match find_from_exec(l, value_pat, 0) {
        Some(j) => {
            let n = l.len();
            assert(j + 5 <= n);
            trimmed_exec(l, j + 5, n)
        },
        None => Vec::new(),
    }
}

/// A copy of `b[lo..hi]`.
pub(crate) fn slice_bytes(b: &[u8], lo: usize, hi: usize) -> (r: Vec<u8>)
    requires
        lo <= hi <= b@.len(),
    ensures
        r@ == b@.subrange(lo as int, hi as int),
{
    let mut v: Vec<u8> = Vec::new();
    let mut i = lo;
    while i < hi
        invariant
            lo <= i <= hi <= b@.len(),
            v@ == b@.subrange(lo as int, i as int),
        decreases hi - i,
    {
        v.push(b[i]);
        i = i + 1;
        proof {
            assert(v@ =~= b@.subrange(lo as int, i as int));
        }
    }
    v
}

} // verus!
