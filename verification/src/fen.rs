//! The FEN text format: fields, the piece-placement field, castling field and counters.
use vstd::prelude::*;
use crate::types::{NO_PIECE, char_code};

verus! {

/// ASCII whitespace (space, tab, line feed, vertical tab, form feed, carriage return).
pub open spec fn is_ws(c: u8) -> bool {
    c == 32 || (9 <= c && c <= 13)
}

/// First index at or after `i` that is not whitespace (or the end).
pub open spec fn skip_ws(b: Seq<u8>, i: int) -> int
    decreases b.len() - i,
{
    if i >= b.len() || i < 0 {
        i
    } else if is_ws(b[i]) {
        skip_ws(b, i + 1)
    } else {
        i
    }
}

/// First index at or after `i` that is whitespace (or the end).
pub open spec fn word_end(b: Seq<u8>, i: int) -> int
    decreases b.len() - i,
{
    if i >= b.len() || i < 0 {
        i
    } else if is_ws(b[i]) {
        i
    } else {
        word_end(b, i + 1)
    }
}

/// The whitespace-separated words of `b` from index `i` on.
pub open spec fn words_from(b: Seq<u8>, i: int) -> Seq<Seq<u8>>
    decreases b.len() - i,
{
    if i < 0 || i >= b.len() {
        Seq::empty()
    } else {
        let j = skip_ws(b, i);
        if j >= b.len() {
            Seq::empty()
        } else {
            let e = word_end(b, j);
            proof {
                lemma_skip_ws(b, i);
                lemma_word_end(b, j);
            }
            if e <= j {
                Seq::empty()
            } else {
                seq![b.subrange(j, e)] + words_from(b, e)
            }
        }
    }
}

/// The whitespace-separated words of `b`.
pub open spec fn words(b: Seq<u8>) -> Seq<Seq<u8>> {
    words_from(b, 0)
}

pub proof fn lemma_skip_ws(b: Seq<u8>, i: int)
    requires
        0 <= i <= b.len(),
    ensures
        i <= skip_ws(b, i) <= b.len(),
        skip_ws(b, i) < b.len() ==> !is_ws(b[skip_ws(b, i)]),
    decreases b.len() - i,
{
    if i < b.len() && is_ws(b[i]) {
        lemma_skip_ws(b, i + 1);
    }
}

pub proof fn lemma_word_end(b: Seq<u8>, i: int)
    requires
        0 <= i <= b.len(),
    ensures
        i <= word_end(b, i) <= b.len(),
    decreases b.len() - i,
{
    if i < b.len() && !is_ws(b[i]) {
        lemma_word_end(b, i + 1);
    }
}

/// Split `b` into its whitespace-separated words.
pub fn split_words(b: &[u8]) -> (r: Vec<Vec<u8>>)
    ensures
        r@.len() == words(b@).len(),
        forall|k: int| 0 <= k < r@.len() ==> #[trigger] r@[k]@ == words(b@)[k],
{
    let n = b.len();
    let mut r: Vec<Vec<u8>> = Vec::new();
    let mut i: usize = 0;
    while i < n
        invariant
            0 <= i <= n,
            n == b@.len(),
            words(b@) == r@.map_values(|w: Vec<u8>| w@) + words_from(b@, i as int),
        decreases n - i,
    {
        let ghost i0 = i as int;
        let ghost j0 = skip_ws(b@, i0);
        proof {
            lemma_skip_ws(b@, i0);
        }
        while i < n && (b[i] == 32 || (9 <= b[i] && b[i] <= 13))
            invariant
                i0 <= i <= n,
                n == b@.len(),
                skip_ws(b@, i as int) == j0,
            decreases n - i,
        {
            i = i + 1;
        }
        if i < n {
            let start = i;
            proof {
                lemma_word_end(b@, start as int);
            }
            let mut w: Vec<u8> = Vec::new();
            while i < n && !(b[i] == 32 || (9 <= b[i] && b[i] <= 13))
                invariant
                    start <= i <= n,
                    n == b@.len(),
                    word_end(b@, i as int) == word_end(b@, start as int),
                    w@ == b@.subrange(start as int, i as int),
                decreases n - i,
            {
                w.push(b[i]);
                i = i + 1;
                proof {
                    assert(w@ == b@.subrange(start as int, i as int));
                }
            }
            proof {
                let ghost old_r = r@.map_values(|w: Vec<u8>| w@);
                assert(words_from(b@, i0) == seq![b@.subrange(start as int, i as int)] + words_from(
                    b@,
                    i as int,
                ));
            }
            let ghost pre = r@.map_values(|w: Vec<u8>| w@);
            r.push(w);
            proof {
                assert(r@.map_values(|w: Vec<u8>| w@) == pre.push(b@.subrange(
                    start as int,
                    i as int,
                )));
                assert(pre.push(b@.subrange(start as int, i as int)) + words_from(b@, i as int)
                    == pre + (seq![b@.subrange(start as int, i as int)] + words_from(
                    b@,
                    i as int,
                )));
            }
        } else {
            proof {
                assert(words_from(b@, i0) == Seq::<Seq<u8>>::empty());
                assert(words_from(b@, i as int) == Seq::<Seq<u8>>::empty());
            }
        }
    }
    proof {
        assert(words_from(b@, n as int) == Seq::<Seq<u8>>::empty());
        assert(words(b@) == r@.map_values(|w: Vec<u8>| w@));
        assert forall|k: int| 0 <= k < r@.len() implies #[trigger] r@[k]@ == words(b@)[k] by {}
    }
    r
}

// -- piece placement ----------------------------------------------------------------

/// Scanner state over the placement field: rank, file and the board so far.
pub struct Scan {
    pub rank: int,
    pub file: int,
    pub board: Seq<u8>,
}

pub open spec fn empty_board() -> Seq<u8> {
    Seq::new(64, |i: int| NO_PIECE)
}

/// One character of the placement field.
pub open spec fn scan_step(st: Scan, c: u8) -> Option<Scan> {
    if c == 47 {
        if st.file != 8 {
            None
        } else {
            Some(Scan { rank: st.rank - 1, file: 0, board: st.board })
        }
    } else if 49 <= c <= 56 {
        if st.file + (c - 48) > 8 {
            None
        } else {
            Some(Scan { file: st.file + (c - 48), ..st })
        }
    } else {
        match char_code(c as char) {
            None => None,
            Some(p) => if 0 <= st.file < 8 && 0 <= st.rank < 8 {
                Some(
                    Scan {
                        file: st.file + 1,
                        board: st.board.update(st.rank * 8 + st.file, p as u8),
                        ..st
                    },
                )
            } else {
                None
            },
        }
    }
}

/// Scanner state after the first `n` characters.
pub open spec fn scan(t: Seq<u8>, n: int) -> Option<Scan>
    decreases n,
{
    if n <= 0 {
        Some(Scan { rank: 7, file: 0, board: empty_board() })
    } else {
        match scan(t, n - 1) {
            None => None,
            Some(st) => scan_step(st, t[n - 1]),
        }
    }
}

/// The board described by a placement field, if it describes eight full ranks.
pub open spec fn placement(t: Seq<u8>) -> Option<Seq<u8>> {
    match scan(t, t.len() as int) {
        Some(st) => if st.rank == 0 && st.file == 8 {
            Some(st.board)
        } else {
            None
        },
        None => None,
    }
}

/// The bytes of `FEN: missing board`.
pub open spec fn msg_missing() -> Seq<u8> {
    seq![70u8, 69u8, 78u8, 58u8, 32u8, 109u8, 105u8, 115u8, 115u8, 105u8, 110u8, 103u8, 32u8, 98u8, 111u8, 97u8, 114u8, 100u8]
}

/// The bytes of `FEN: rank `.
pub open spec fn msg_rank_pre() -> Seq<u8> {
    seq![70u8, 69u8, 78u8, 58u8, 32u8, 114u8, 97u8, 110u8, 107u8, 32u8]
}

/// The bytes of ` wrong length`.
pub open spec fn msg_rank_suf() -> Seq<u8> {
    seq![32u8, 119u8, 114u8, 111u8, 110u8, 103u8, 32u8, 108u8, 101u8, 110u8, 103u8, 116u8, 104u8]
}

/// The bytes of `FEN: board not 8x8`.
pub open spec fn msg_not_8x8() -> Seq<u8> {
    seq![70u8, 69u8, 78u8, 58u8, 32u8, 98u8, 111u8, 97u8, 114u8, 100u8, 32u8, 110u8, 111u8, 116u8, 32u8, 56u8, 120u8, 56u8]
}

/// The bytes of `FEN: file overflow`.
pub open spec fn msg_file_over() -> Seq<u8> {
    seq![70u8, 69u8, 78u8, 58u8, 32u8, 102u8, 105u8, 108u8, 101u8, 32u8, 111u8, 118u8, 101u8, 114u8, 102u8, 108u8, 111u8, 119u8]
}

/// The bytes of `FEN: bad piece '`.
pub open spec fn msg_bad_piece() -> Seq<u8> {
    seq![70u8, 69u8, 78u8, 58u8, 32u8, 98u8, 97u8, 100u8, 32u8, 112u8, 105u8, 101u8, 99u8, 101u8, 32u8, 39u8]
}

/// The bytes of `'`.
pub open spec fn msg_quote() -> Seq<u8> {
    seq![39u8]
}

/// The bytes of `FEN: piece out of board`.
pub open spec fn msg_out() -> Seq<u8> {
    seq![70u8, 69u8, 78u8, 58u8, 32u8, 112u8, 105u8, 101u8, 99u8, 101u8, 32u8, 111u8, 117u8, 116u8, 32u8, 111u8, 102u8, 32u8, 98u8, 111u8, 97u8, 114u8, 100u8]
}

/// The bytes of `FEN: bad side to move`.
pub open spec fn msg_side() -> Seq<u8> {
    seq![70u8, 69u8, 78u8, 58u8, 32u8, 98u8, 97u8, 100u8, 32u8, 115u8, 105u8, 100u8, 101u8, 32u8, 116u8, 111u8, 32u8, 109u8, 111u8, 118u8, 101u8]
}

/// The bytes of `FEN: bad castling '`.
pub open spec fn msg_castle() -> Seq<u8> {
    seq![70u8, 69u8, 78u8, 58u8, 32u8, 98u8, 97u8, 100u8, 32u8, 99u8, 97u8, 115u8, 116u8, 108u8, 105u8, 110u8, 103u8, 32u8, 39u8]
}

/// The bytes of `FEN: bad ep square`.
pub open spec fn msg_ep() -> Seq<u8> {
    seq![70u8, 69u8, 78u8, 58u8, 32u8, 98u8, 97u8, 100u8, 32u8, 101u8, 112u8, 32u8, 115u8, 113u8, 117u8, 97u8, 114u8, 101u8]
}

/// The bytes of `FEN: must have exactly one king per side`.
pub open spec fn msg_kings() -> Seq<u8> {
    seq![70u8, 69u8, 78u8, 58u8, 32u8, 109u8, 117u8, 115u8, 116u8, 32u8, 104u8, 97u8, 118u8, 101u8, 32u8, 101u8, 120u8, 97u8, 99u8, 116u8, 108u8, 121u8, 32u8, 111u8, 110u8, 101u8, 32u8, 107u8, 105u8, 110u8, 103u8, 32u8, 112u8, 101u8, 114u8, 32u8, 115u8, 105u8, 100u8, 101u8]
}

/// The bytes of `FEN: side not to move is in check`.
pub open spec fn msg_check() -> Seq<u8> {
    seq![70u8, 69u8, 78u8, 58u8, 32u8, 115u8, 105u8, 100u8, 101u8, 32u8, 110u8, 111u8, 116u8, 32u8, 116u8, 111u8, 32u8, 109u8, 111u8, 118u8, 101u8, 32u8, 105u8, 115u8, 32u8, 105u8, 110u8, 32u8, 99u8, 104u8, 101u8, 99u8, 107u8]
}

pub fn bytes_missing() -> (r: Vec<u8>)
    ensures
        r@ == msg_missing(),
{
    let v: Vec<u8> = vec![70u8, 69u8, 78u8, 58u8, 32u8, 109u8, 105u8, 115u8, 115u8, 105u8, 110u8, 103u8, 32u8, 98u8, 111u8, 97u8, 114u8, 100u8];
    proof {
        assert(v@ =~= msg_missing());
    }
    v
}

pub fn bytes_rank_pre() -> (r: Vec<u8>)
    ensures
        r@ == msg_rank_pre(),
{
    let v: Vec<u8> = vec![70u8, 69u8, 78u8, 58u8, 32u8, 114u8, 97u8, 110u8, 107u8, 32u8];
    proof {
        assert(v@ =~= msg_rank_pre());
    }
    v
}

pub fn bytes_rank_suf() -> (r: Vec<u8>)
    ensures
        r@ == msg_rank_suf(),
{
    let v: Vec<u8> = vec![32u8, 119u8, 114u8, 111u8, 110u8, 103u8, 32u8, 108u8, 101u8, 110u8, 103u8, 116u8, 104u8];
    proof {
        assert(v@ =~= msg_rank_suf());
    }
    v
}

pub fn bytes_not_8x8() -> (r: Vec<u8>)
    ensures
        r@ == msg_not_8x8(),
{
    let v: Vec<u8> = vec![70u8, 69u8, 78u8, 58u8, 32u8, 98u8, 111u8, 97u8, 114u8, 100u8, 32u8, 110u8, 111u8, 116u8, 32u8, 56u8, 120u8, 56u8];
    proof {
        assert(v@ =~= msg_not_8x8());
    }
    v
}

pub fn bytes_file_over() -> (r: Vec<u8>)
    ensures
        r@ == msg_file_over(),
{
    let v: Vec<u8> = vec![70u8, 69u8, 78u8, 58u8, 32u8, 102u8, 105u8, 108u8, 101u8, 32u8, 111u8, 118u8, 101u8, 114u8, 102u8, 108u8, 111u8, 119u8];
    proof {
        assert(v@ =~= msg_file_over());
    }
    v
}

pub fn bytes_bad_piece() -> (r: Vec<u8>)
    ensures
        r@ == msg_bad_piece(),
{
    let v: Vec<u8> = vec![70u8, 69u8, 78u8, 58u8, 32u8, 98u8, 97u8, 100u8, 32u8, 112u8, 105u8, 101u8, 99u8, 101u8, 32u8, 39u8];
    proof {
        assert(v@ =~= msg_bad_piece());
    }
    v
}

pub fn bytes_quote() -> (r: Vec<u8>)
    ensures
        r@ == msg_quote(),
{
    let v: Vec<u8> = vec![39u8];
    proof {
        assert(v@ =~= msg_quote());
    }
    v
}

pub fn bytes_out() -> (r: Vec<u8>)
    ensures
        r@ == msg_out(),
{
    let v: Vec<u8> = vec![70u8, 69u8, 78u8, 58u8, 32u8, 112u8, 105u8, 101u8, 99u8, 101u8, 32u8, 111u8, 117u8, 116u8, 32u8, 111u8, 102u8, 32u8, 98u8, 111u8, 97u8, 114u8, 100u8];
    proof {
        assert(v@ =~= msg_out());
    }
    v
}

pub fn bytes_side() -> (r: Vec<u8>)
    ensures
        r@ == msg_side(),
{
    let v: Vec<u8> = vec![70u8, 69u8, 78u8, 58u8, 32u8, 98u8, 97u8, 100u8, 32u8, 115u8, 105u8, 100u8, 101u8, 32u8, 116u8, 111u8, 32u8, 109u8, 111u8, 118u8, 101u8];
    proof {
        assert(v@ =~= msg_side());
    }
    v
}

pub fn bytes_castle() -> (r: Vec<u8>)
    ensures
        r@ == msg_castle(),
{
    let v: Vec<u8> = vec![70u8, 69u8, 78u8, 58u8, 32u8, 98u8, 97u8, 100u8, 32u8, 99u8, 97u8, 115u8, 116u8, 108u8, 105u8, 110u8, 103u8, 32u8, 39u8];
    proof {
        assert(v@ =~= msg_castle());
    }
    v
}

pub fn bytes_ep() -> (r: Vec<u8>)
    ensures
        r@ == msg_ep(),
{
    let v: Vec<u8> = vec![70u8, 69u8, 78u8, 58u8, 32u8, 98u8, 97u8, 100u8, 32u8, 101u8, 112u8, 32u8, 115u8, 113u8, 117u8, 97u8, 114u8, 101u8];
    proof {
        assert(v@ =~= msg_ep());
    }
    v
}

pub fn bytes_kings() -> (r: Vec<u8>)
    ensures
        r@ == msg_kings(),
{
    let v: Vec<u8> = vec![70u8, 69u8, 78u8, 58u8, 32u8, 109u8, 117u8, 115u8, 116u8, 32u8, 104u8, 97u8, 118u8, 101u8, 32u8, 101u8, 120u8, 97u8, 99u8, 116u8, 108u8, 121u8, 32u8, 111u8, 110u8, 101u8, 32u8, 107u8, 105u8, 110u8, 103u8, 32u8, 112u8, 101u8, 114u8, 32u8, 115u8, 105u8, 100u8, 101u8];
    proof {
        assert(v@ =~= msg_kings());
    }
    v
}

pub fn bytes_check() -> (r: Vec<u8>)
    ensures
        r@ == msg_check(),
{
    let v: Vec<u8> = vec![70u8, 69u8, 78u8, 58u8, 32u8, 115u8, 105u8, 100u8, 101u8, 32u8, 110u8, 111u8, 116u8, 32u8, 116u8, 111u8, 32u8, 109u8, 111u8, 118u8, 101u8, 32u8, 105u8, 115u8, 32u8, 105u8, 110u8, 32u8, 99u8, 104u8, 101u8, 99u8, 107u8];
    proof {
        assert(v@ =~= msg_check());
    }
    v
}

/// A rank number as it is written in a message (never below the least `i64`).
pub open spec fn rank_shown(r: int) -> int {
    if r < i64::MIN {
        i64::MIN as int
    } else {
        r
    }
}

/// The message (its bytes) with which loading stops on a placement field, read
/// from its character `i` on with the scanner in state `st`: the first
/// character that breaks the field, or the shape of the whole when none does;
/// none for a well-formed field.
pub open spec fn board_error_from(t: Seq<u8>, i: int, st: Scan) -> Option<Seq<u8>>
    decreases t.len() - i,
{
    if i < 0 || i >= t.len() {
        if st.rank != 0 || st.file != 8 {
            Some(msg_not_8x8())
        } else {
            None
        }
    } else {
        let c = t[i];
        if c == 47 && st.file != 8 {
            Some(msg_rank_pre() + crate::text::int_text(rank_shown(st.rank)) + msg_rank_suf())
        } else if 49 <= c <= 56 && st.file + (c - 48) > 8 {
            Some(msg_file_over())
        } else if c != 47 && !(49 <= c <= 56) && char_code(c as char) is None {
            Some(msg_bad_piece() + crate::text::char_at(t, i) + msg_quote())
        } else if c != 47 && !(49 <= c <= 56) && !(0 <= st.file < 8 && 0 <= st.rank < 8) {
            Some(msg_out())
        } else {
            match scan_step(st, c) {
                Some(n) => board_error_from(t, i + 1, n),
                None => Some(msg_out()),
            }
        }
    }
}

/// The message with which loading stops on placement field `t`, if it does.
pub open spec fn board_error(t: Seq<u8>) -> Option<Seq<u8>> {
    board_error_from(t, 0, Scan { rank: 7, file: 0, board: empty_board() })
}

/// Squares not yet reached by the scanner are empty.
pub open spec fn scan_inv(st: Scan) -> bool {
    &&& st.board.len() == 64
    &&& 0 <= st.file <= 8
    &&& st.rank <= 7
    &&& forall|s: int| 0 <= s < 64 ==> #[trigger] st.board[s] <= 12
    &&& forall|s: int|
        0 <= s < 64 && (s / 8 < st.rank || (s / 8 == st.rank && s % 8 >= st.file)) ==> #[trigger] st.board[s]
            == NO_PIECE
}

/// The scanner never fails and recovers, and its rank never grows.
pub proof fn lemma_scan_tail(t: Seq<u8>, n: int, m: int)
    requires
        0 <= n <= m <= t.len(),
    ensures
        scan(t, n) is None ==> scan(t, m) is None,
        scan(t, n) matches Some(a) ==> (scan(t, m) matches Some(b) ==> b.rank <= a.rank),
    decreases m - n,
{
    if n < m {
        lemma_scan_tail(t, n, m - 1);
    }
}

pub proof fn lemma_scan_inv(t: Seq<u8>, n: int)
    requires
        0 <= n <= t.len(),
    ensures
        scan(t, n) matches Some(st) ==> scan_inv(st),
    decreases n,
{
    if n > 0 {
        lemma_scan_inv(t, n - 1);
    }
}

// -- castling field -----------------------------------------------------------------

/// Castling bits of the letters in `t[..n]`, if they are all among `KQkq`.
pub open spec fn castle_letters(t: Seq<u8>, n: int) -> Option<u8>
    decreases n,
{
    if n <= 0 {
        Some(0u8)
    } else {
        match castle_letters(t, n - 1) {
            None => None,
            Some(r) => {
                let c = t[n - 1];
                if c == 75 {
                    Some(r | 1)
                } else if c == 81 {
                    Some(r | 2)
                } else if c == 107 {
                    Some(r | 4)
                } else if c == 113 {
                    Some(r | 8)
                } else {
                    None
                }
            },
        }
    }
}

/// Rights named by a castling field: `-` names none.
pub open spec fn castle_field(t: Seq<u8>) -> Option<u8> {
    if t == seq![45u8] {
        Some(0u8)
    } else {
        castle_letters(t, t.len() as int)
    }
}

/// A castling letter: `K`, `Q`, `k` or `q`.
pub open spec fn castle_letter(c: u8) -> bool {
    c == 75 || c == 81 || c == 107 || c == 113
}

/// Index of the first character at or after `j` of `t` that is no castling
/// letter (the length of `t` when there is none).
pub open spec fn first_non_castle(t: Seq<u8>, j: int) -> int
    decreases t.len() - j,
{
    if j < 0 || j >= t.len() {
        t.len() as int
    } else if castle_letter(t[j]) {
        first_non_castle(t, j + 1)
    } else {
        j
    }
}

/// The index of the first character of `t` that is no castling letter.
pub fn find_non_castle(t: &[u8]) -> (r: usize)
    ensures
        r == first_non_castle(t@, 0),
        r <= t@.len(),
{
    let mut j: usize = 0;
    while j < t.len()
        invariant
            j <= t@.len(),
            first_non_castle(t@, 0) == first_non_castle(t@, j as int),
        decreases t@.len() - j,
    {
        let c = t[j];
        if !(c == 75 || c == 81 || c == 107 || c == 113) {
            return j;
        }
        j = j + 1;
    }
    j
}

pub fn parse_castling(t: &[u8]) -> (r: Option<u8>)
    ensures
        r == castle_field(t@),
        r matches Some(x) ==> x < 16,
{
    if t.len() == 1 && t[0] == 45 {
        assert(t@ == seq![45u8]);
        return Some(0);
    }
    assert(t@ != seq![45u8]) by {
        if t@ == seq![45u8] {
            assert(t@.len() == 1 && t@[0] == 45);
        }
    }
    let mut acc: u8 = 0;
    let mut i: usize = 0;
    while i < t.len()
        invariant
            0 <= i <= t@.len(),
            t@ != seq![45u8],
            castle_letters(t@, i as int) == Some(acc),
            acc < 16,
        decreases t@.len() - i,
    {
        let c = t[i];
        let bit: u8 = if c == 75 {
            1
        } else if c == 81 {
            2
        } else if c == 107 {
            4
        } else if c == 113 {
            8
        } else {
            proof {
                assert(castle_letters(t@, i + 1) is None);
                lemma_letters_none(t@, i + 1, t@.len() as int);
            }
            return None;
        };
        proof {
            assert(acc < 16 && (bit == 1 || bit == 2 || bit == 4 || bit == 8) ==> acc | bit < 16) by (bit_vector);
        }
        acc = acc | bit;
        i = i + 1;
    }
    Some(acc)
}

proof fn lemma_letters_none(t: Seq<u8>, n: int, m: int)
    requires
        0 <= n <= m,
        castle_letters(t, n) is None,
    ensures
        castle_letters(t, m) is None,
    decreases m - n,
{
    if n < m {
        lemma_letters_none(t, n, m - 1);
    }
}

// -- counters -------------------------------------------------------------------------

/// Value of the decimal digits `t[lo..n]`.
pub open spec fn digits_value(t: Seq<u8>, lo: int, n: int) -> int
    decreases n - lo,
{
    if n <= lo {
        0
    } else {
        digits_value(t, lo, n - 1) * 10 + (t[n - 1] - 48)
    }
}

pub open spec fn all_digits(t: Seq<u8>, lo: int) -> bool {
    forall|i: int| lo <= i < t.len() ==> 48 <= #[trigger] t[i] <= 57
}

/// A 16-bit unsigned number in decimal, with an optional leading `+`.
pub open spec fn u16_field(t: Seq<u8>) -> Option<u16> {
    let lo = if t.len() > 0 && t[0] == 43 { 1int } else { 0int };
    if t.len() > lo && all_digits(t, lo) && digits_value(t, lo, t.len() as int) <= 0xFFFF {
        Some(digits_value(t, lo, t.len() as int) as u16)
    } else {
        None
    }
}

proof fn lemma_digits_mono(t: Seq<u8>, lo: int, n: int, m: int)
    requires
        lo <= n <= m <= t.len(),
        all_digits(t, lo),
    ensures
        0 <= digits_value(t, lo, n) <= digits_value(t, lo, m),
    decreases m - n,
{
    if n < m {
        lemma_digits_mono(t, lo, n, m - 1);
        lemma_digits_nonneg(t, lo, m - 1);
    } else {
        lemma_digits_nonneg(t, lo, n);
    }
}

proof fn lemma_digits_nonneg(t: Seq<u8>, lo: int, n: int)
    requires
        lo <= n <= t.len(),
        all_digits(t, lo),
    ensures
        0 <= digits_value(t, lo, n),
    decreases n - lo,
{
    if n > lo {
        lemma_digits_nonneg(t, lo, n - 1);
    }
}

pub fn parse_u16(t: &[u8]) -> (r: Option<u16>)
    ensures
        r == u16_field(t@),
{
    let lo: usize = if t.len() > 0 && t[0] == 43 { 1 } else { 0 };
    if t.len() <= lo {
        return None;
    }
    let mut v: u32 = 0;
    let mut i: usize = lo;
    while i < t.len()
        invariant
            lo <= i <= t@.len(),
            lo == (if t@.len() > 0 && t@[0] == 43 { 1int } else { 0int }),
            forall|k: int| lo <= k < i ==> 48 <= #[trigger] t@[k] <= 57,
            v == digits_value(t@, lo as int, i as int),
            v <= 0xFFFF,
        decreases t@.len() - i,
    {
        let c = t[i];
        if c < 48 || c > 57 {
            return None;
        }
        let nv = v * 10 + (c - 48) as u32;
        if nv > 0xFFFF {
            proof {
                if all_digits(t@, lo as int) {
                    lemma_digits_mono(t@, lo as int, i + 1, t@.len() as int);
                }
            }
            return None;
        }
        v = nv;
        i = i + 1;
    }
    Some(v as u16)
}

} // verus!
