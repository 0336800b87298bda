//! Reading back what FEN output writes: the text of a position parses to that
//! position again.
use vstd::prelude::*;
use crate::fen::{
    Scan, all_digits, castle_field, castle_letters, digits_value, empty_board, is_ws, placement, scan,
    scan_step, skip_ws, u16_field, word_end, words, words_from,
};
use crate::position::{
    PosView, board_text, castle_fix, ep_capturers, ep_text, fen_castle, fen_counter, fen_ep,
    ep_fits, fen_ep_word_ok, fen_result, fen_side, fen_text, loaded, opponent_in_check, piece_letter,
    rank_text, sq_count, view_ok, word_is,
};
use crate::text::dec;
use crate::types::{Color, NO_PIECE, Square, castling_field, char_code, square_from_name};

verus! {

/// No byte of `x` is whitespace.
pub open spec fn no_ws(x: Seq<u8>) -> bool {
    forall|i: int| 0 <= i < x.len() ==> !is_ws(#[trigger] x[i])
}

proof fn lemma_skip_ws_shift(p: Seq<u8>, y: Seq<u8>, i: int)
    requires
        0 <= i,
    ensures
        skip_ws(p + y, p.len() + i) == p.len() + skip_ws(y, i),
    decreases y.len() - i,
{
    if i < y.len() {
        assert((p + y)[p.len() + i] == y[i]);
        if is_ws(y[i]) {
            lemma_skip_ws_shift(p, y, i + 1);
        }
    }
}

proof fn lemma_word_end_shift(p: Seq<u8>, y: Seq<u8>, i: int)
    requires
        0 <= i,
    ensures
        word_end(p + y, p.len() + i) == p.len() + word_end(y, i),
    decreases y.len() - i,
{
    if i < y.len() {
        assert((p + y)[p.len() + i] == y[i]);
        if !is_ws(y[i]) {
            lemma_word_end_shift(p, y, i + 1);
        }
    }
}

/// The words of `p + y` after `p` are those of `y`.
proof fn lemma_words_shift(p: Seq<u8>, y: Seq<u8>, i: int)
    requires
        0 <= i,
    ensures
        words_from(p + y, p.len() + i) == words_from(y, i),
    decreases y.len() - i,
{
    let b = p + y;
    if i < y.len() {
        lemma_skip_ws_shift(p, y, i);
        crate::fen::lemma_skip_ws(y, i);
        let j = skip_ws(y, i);
        if j < y.len() {
            lemma_word_end_shift(p, y, j);
            crate::fen::lemma_word_end(y, j);
            let e = word_end(y, j);
            assert(b.subrange(p.len() + j, p.len() + e) =~= y.subrange(j, e));
            if e > j {
                lemma_words_shift(p, y, e);
            }
        }
    }
}

/// A word with no whitespace ends where the text does or at the next whitespace.
proof fn lemma_word_end_at(b: Seq<u8>, n: int, i: int)
    requires
        0 <= i <= n <= b.len(),
        forall|k: int| i <= k < n ==> !is_ws(#[trigger] b[k]),
        n == b.len() || is_ws(b[n]),
    ensures
        word_end(b, i) == n,
    decreases n - i,
{
    if i < n {
        lemma_word_end_at(b, n, i + 1);
    }
}

/// A leading word, a space, then the rest.
pub proof fn lemma_words_cons(x: Seq<u8>, y: Seq<u8>)
    requires
        x.len() > 0,
        no_ws(x),
    ensures
        words(x + seq![32u8] + y) == seq![x] + words(y),
{
    let p = x + seq![32u8];
    let b = p + y;
    assert(b[0] == x[0]);
    assert(b[x.len() as int] == 32u8);
    assert forall|k: int| 0 <= k < x.len() implies !is_ws(#[trigger] b[k]) by {
        assert(b[k] == x[k]);
    }
    lemma_word_end_at(b, x.len() as int, 0);
    assert(skip_ws(b, 0) == 0);
    assert(b.subrange(0, x.len() as int) =~= x);
    // The space is skipped, and what follows it are the words of `y`.
    lemma_words_shift(p, y, 0);
    if y.len() == 0 {
        assert(b =~= p);
        assert(skip_ws(b, x.len() as int) == skip_ws(b, x.len() + 1int));
    } else {
        assert(skip_ws(b, x.len() as int) == skip_ws(b, x.len() + 1int));
    }
    assert(words_from(b, x.len() as int) == words_from(b, p.len() as int));
}

/// A single word.
pub proof fn lemma_words_single(x: Seq<u8>)
    requires
        x.len() > 0,
        no_ws(x),
    ensures
        words(x) == seq![x],
{
    lemma_word_end_at(x, x.len() as int, 0);
    assert(x.subrange(0, x.len() as int) =~= x);
    assert(words_from(x, x.len() as int) == Seq::<Seq<u8>>::empty());
    assert(seq![x] + Seq::<Seq<u8>>::empty() =~= seq![x]);
}

// -- the placement field ---------------------------------------------------------------

/// The scanner run over the first `n` bytes of `t` from state `st`.
pub open spec fn run_scan(st: Option<Scan>, t: Seq<u8>, n: int) -> Option<Scan>
    decreases n,
{
    if n <= 0 {
        st
    } else {
        match run_scan(st, t, n - 1) {
            None => None,
            Some(s) => scan_step(s, t[n - 1]),
        }
    }
}

proof fn lemma_scan_is_run(t: Seq<u8>, n: int)
    requires
        0 <= n,
    ensures
        scan(t, n) == run_scan(Some(Scan { rank: 7, file: 0, board: empty_board() }), t, n),
    decreases n,
{
    if n > 0 {
        lemma_scan_is_run(t, n - 1);
    }
}

/// The scanner only reads the bytes it has passed.
proof fn lemma_run_prefix(st: Option<Scan>, t1: Seq<u8>, t2: Seq<u8>, n: int)
    requires
        0 <= n <= t1.len(),
        n <= t2.len(),
        forall|k: int| 0 <= k < n ==> t1[k] == t2[k],
    ensures
        run_scan(st, t1, n) == run_scan(st, t2, n),
    decreases n,
{
    if n > 0 {
        lemma_run_prefix(st, t1, t2, n - 1);
    }
}

/// Scanning `a + b` is scanning `a`, then `b`.
proof fn lemma_run_concat(st: Option<Scan>, a: Seq<u8>, b: Seq<u8>, k: int)
    requires
        0 <= k <= b.len(),
    ensures
        run_scan(st, a + b, a.len() + k) == run_scan(run_scan(st, a, a.len() as int), b, k),
    decreases k,
{
    if k == 0 {
        lemma_run_prefix(st, a + b, a, a.len() as int);
    } else {
        lemma_run_concat(st, a, b, k - 1);
        assert((a + b)[a.len() + k - 1] == b[k - 1]);
    }
}

/// The board scanned so far: ranks above `r` and the first `f` files of rank `r`
/// as in `b`, the rest empty.
pub open spec fn partial(b: Seq<u8>, r: int, f: int) -> Seq<u8> {
    Seq::new(64, |s: int| if s / 8 > r || (s / 8 == r && s % 8 < f) { b[s] } else { NO_PIECE })
}

pub open spec fn codes_ok(b: Seq<u8>) -> bool {
    b.len() == 64 && forall|s: int| 0 <= s < 64 ==> #[trigger] b[s] <= 12
}

proof fn lemma_letter_code(p: int)
    requires
        0 <= p < 12,
    ensures
        char_code(piece_letter(p) as char) == Some(p),
        piece_letter(p) != 47,
        !(49 <= piece_letter(p) <= 56),
        !is_ws(piece_letter(p)),
{
    let l = seq![80u8, 78u8, 66u8, 82u8, 81u8, 75u8, 112u8, 110u8, 98u8, 114u8, 113u8, 107u8];
    assert(piece_letter(p) == l[p]);
    assert(80u8 as char == 'P' && 78u8 as char == 'N' && 66u8 as char == 'B' && 82u8 as char == 'R'
        && 81u8 as char == 'Q' && 75u8 as char == 'K' && 112u8 as char == 'p' && 110u8 as char == 'n'
        && 98u8 as char == 'b' && 114u8 as char == 'r' && 113u8 as char == 'q' && 107u8 as char == 'k');
}

/// Scanning the text of rank `r` from file `file`, after `run` empty squares,
/// fills in the rest of the rank.
proof fn lemma_rank_scan(b: Seq<u8>, r: int, file: int, run: int)
    requires
        codes_ok(b),
        0 <= r < 8,
        0 <= run <= file <= 8,
        forall|f: int| file - run <= f < file ==> #[trigger] b[r * 8 + f] == NO_PIECE,
    ensures
        run_scan(
            Some(Scan { rank: r, file: file - run, board: partial(b, r, file - run) }),
            rank_text(b, r, file, run),
            rank_text(b, r, file, run).len() as int,
        ) == Some(Scan { rank: r, file: 8, board: partial(b, r, 8) }),
    decreases 8 - file,
{
    let st = Scan { rank: r, file: file - run, board: partial(b, r, file - run) };
    let t = rank_text(b, r, file, run);
    // A run of empty squares leaves the board as it was.
    assert(partial(b, r, file - run) =~= partial(b, r, file)) by {
        assert forall|s: int| 0 <= s < 64 implies #[trigger] partial(b, r, file - run)[s] == partial(b, r, file)[s] by {
            if s / 8 == r && file - run <= s % 8 < file {
                assert(s == r * 8 + s % 8);
            }
        }
    }
    let digit: Seq<u8> = if run > 0 { seq![(48 + run) as u8] } else { Seq::empty() };
    let after_run = Scan { rank: r, file: file, board: partial(b, r, file) };
    assert(run_scan(Some(st), digit, digit.len() as int) == Some(after_run)) by {
        reveal_with_fuel(run_scan, 2);
        if run > 0 {
            assert(digit[0] == (48 + run) as u8);
        }
    }
    if file >= 8 {
        assert(t =~= digit);
    } else if b[r * 8 + file] < 12 {
        let p = b[r * 8 + file] as int;
        let letter = seq![piece_letter(p)];
        let rest = rank_text(b, r, file + 1, 0);
        assert(t =~= digit + letter + rest);
        lemma_letter_code(p);
        let after_piece = Scan { rank: r, file: file + 1, board: partial(b, r, file + 1) };
        assert(partial(b, r, file).update(r * 8 + file, p as u8) =~= partial(b, r, file + 1)) by {
            assert forall|s: int| 0 <= s < 64 implies #[trigger] partial(b, r, file).update(r * 8 + file, p as u8)[s]
                == partial(b, r, file + 1)[s] by {
                if s == r * 8 + file {
                    assert(s / 8 == r && s % 8 == file);
                } else if s / 8 == r && s % 8 == file {
                    assert(s == r * 8 + file);
                }
            }
        }
        assert(run_scan(Some(after_run), letter, 1) == Some(after_piece)) by {
            reveal_with_fuel(run_scan, 2);
            assert(letter[0] == piece_letter(p));
        }
        lemma_rank_scan(b, r, file + 1, 0);
        lemma_run_concat(Some(st), digit, letter, 1);
        lemma_run_concat(Some(st), digit + letter, rest, rest.len() as int);
    } else {
        assert(b[r * 8 + file] == NO_PIECE);
        lemma_rank_scan(b, r, file + 1, run + 1);
    }
}

/// Scanning the text of ranks `r` down to the first fills in the board.
proof fn lemma_board_scan(b: Seq<u8>, r: int)
    requires
        codes_ok(b),
        0 <= r < 8,
    ensures
        run_scan(
            Some(Scan { rank: r, file: 0, board: partial(b, r, 0) }),
            board_text(b, r),
            board_text(b, r).len() as int,
        ) == Some(Scan { rank: 0, file: 8, board: b }),
    decreases r,
{
    let st = Some(Scan { rank: r, file: 0, board: partial(b, r, 0) });
    let rt = rank_text(b, r, 0, 0);
    lemma_rank_scan(b, r, 0, 0);
    if r == 0 {
        assert(partial(b, 0, 8) =~= b);
    } else {
        let rest = board_text(b, r - 1);
        let slash = seq![47u8];
        assert(board_text(b, r) =~= rt + slash + rest);
        assert(partial(b, r, 8) =~= partial(b, r - 1, 0));
        assert(run_scan(Some(Scan { rank: r, file: 8, board: partial(b, r, 8) }), slash, 1)
            == Some(Scan { rank: r - 1, file: 0, board: partial(b, r - 1, 0) })) by {
            reveal_with_fuel(run_scan, 2);
            assert(slash[0] == 47u8);
        }
        lemma_board_scan(b, r - 1);
        lemma_run_concat(st, rt, slash, 1);
        lemma_run_concat(st, rt + slash, rest, rest.len() as int);
    }
}

/// The placement text of a board reads back as that board.
pub proof fn lemma_placement_round_trip(b: Seq<u8>)
    requires
        codes_ok(b),
    ensures
        placement(board_text(b, 7)) == Some(b),
{
    let t = board_text(b, 7);
    lemma_scan_is_run(t, t.len() as int);
    assert(partial(b, 7, 0) =~= empty_board());
    lemma_board_scan(b, 7);
}

// -- the other fields ------------------------------------------------------------------

proof fn lemma_rank_text_chars(b: Seq<u8>, r: int, file: int, run: int)
    requires
        codes_ok(b),
        0 <= r < 8,
        0 <= run <= file <= 8,
    ensures
        no_ws(rank_text(b, r, file, run)),
        (run > 0 || file < 8) ==> rank_text(b, r, file, run).len() > 0,
    decreases 8 - file,
{
    let digit: Seq<u8> = if run > 0 { seq![(48 + run) as u8] } else { Seq::empty() };
    assert(no_ws(digit));
    if file >= 8 {
        assert(rank_text(b, r, file, run) =~= digit);
    } else if b[r * 8 + file] < 12 {
        let p = b[r * 8 + file] as int;
        lemma_letter_code(p);
        lemma_rank_text_chars(b, r, file + 1, 0);
        let t = digit + seq![piece_letter(p)] + rank_text(b, r, file + 1, 0);
        assert(rank_text(b, r, file, run) =~= t);
        assert forall|i: int| 0 <= i < t.len() implies !is_ws(#[trigger] t[i]) by {
            if i >= digit.len() + 1 {
                assert(t[i] == rank_text(b, r, file + 1, 0)[i - digit.len() - 1]);
            }
        }
    } else {
        lemma_rank_text_chars(b, r, file + 1, run + 1);
    }
}

proof fn lemma_board_text_chars(b: Seq<u8>, r: int)
    requires
        codes_ok(b),
        0 <= r < 8,
    ensures
        no_ws(board_text(b, r)),
        board_text(b, r).len() > 0,
    decreases r,
{
    lemma_rank_text_chars(b, r, 0, 0);
    if r > 0 {
        lemma_board_text_chars(b, r - 1);
        let a = rank_text(b, r, 0, 0);
        let t = a + seq![47u8] + board_text(b, r - 1);
        assert(board_text(b, r) == t);
        assert forall|i: int| 0 <= i < t.len() implies !is_ws(#[trigger] t[i]) by {
            if i < a.len() {
                assert(t[i] == a[i]);
            } else if i > a.len() {
                assert(t[i] == board_text(b, r - 1)[i - a.len() - 1]);
            }
        }
    }
}

proof fn lemma_castle_bits(c: u8)
    by (bit_vector)
    requires
        c < 16,
    ensures
        (c & 1 != 0) == (c % 2 == 1),
        (c & 2 != 0) == ((c / 2) % 2 == 1),
        (c & 4 != 0) == ((c / 4) % 2 == 1),
        (c & 8 != 0) == (c / 8 == 1),
        c % 2 == 0 ==> c & 0xFE == c,
        (c / 2) % 2 == 0 ==> c & 0xFD == c,
        (c / 4) % 2 == 0 ==> c & 0xFB == c,
        c / 8 == 0 ==> c & 0xF7 == c,
        forall|x: u8| #![trigger x | 1u8] x < 1 ==> x | 1 == x + 1,
        forall|x: u8| #![trigger x | 2u8] x < 2 ==> x | 2 == x + 2,
        forall|x: u8| #![trigger x | 4u8] x < 4 ==> x | 4 == x + 4,
        forall|x: u8| #![trigger x | 8u8] x < 8 ==> x | 8 == x + 8,
{
}

proof fn lemma_letters_prefix(t1: Seq<u8>, t2: Seq<u8>, n: int)
    requires
        0 <= n <= t1.len(),
        n <= t2.len(),
        forall|k: int| 0 <= k < n ==> t1[k] == t2[k],
    ensures
        castle_letters(t1, n) == castle_letters(t2, n),
    decreases n,
{
    if n > 0 {
        lemma_letters_prefix(t1, t2, n - 1);
    }
}

/// One more letter of a castling field.
proof fn lemma_letters_push(t: Seq<u8>, x: u8)
    ensures
        castle_letters(t.push(x), t.len() + 1int) == (match castle_letters(t, t.len() as int) {
            None => None,
            Some(r) => if x == 75 {
                Some(r | 1)
            } else if x == 81 {
                Some(r | 2)
            } else if x == 107 {
                Some(r | 4)
            } else if x == 113 {
                Some(r | 8)
            } else {
                None
            },
        }),
{
    lemma_letters_prefix(t.push(x), t, t.len() as int);
    assert(t.push(x)[t.len() as int] == x);
}

/// The castling field reads back as the rights it was written from.
proof fn lemma_castle_round_trip(c: u8)
    requires
        c < 16,
    ensures
        castle_field(castling_field(c)) == Some(c),
        castling_field(c).len() > 0,
        no_ws(castling_field(c)),
{
    lemma_castle_bits(c);
    let e = Seq::<u8>::empty();
    let k = if c & 1 != 0 { seq![75u8] } else { e };
    let q = if c & 2 != 0 { seq![81u8] } else { e };
    let k2 = if c & 4 != 0 { seq![107u8] } else { e };
    let q2 = if c & 8 != 0 { seq![113u8] } else { e };
    if c == 0 {
        assert(castling_field(c) == seq![45u8]);
        assert(no_ws(seq![45u8]));
    } else {
        let t1 = e + k;
        let t2 = t1 + q;
        let t3 = t2 + k2;
        let t4 = t3 + q2;
        assert(castling_field(c) =~= t4);
        let a1: u8 = (c % 2) as u8;
        let a2: u8 = (a1 + 2 * ((c / 2) % 2)) as u8;
        let a3: u8 = (a2 + 4 * ((c / 4) % 2)) as u8;
        assert(castle_letters(e, 0) == Some(0u8));
        if c & 1 != 0 {
            assert(t1 =~= e.push(75u8));
            lemma_letters_push(e, 75u8);
        } else {
            assert(t1 =~= e);
        }
        assert(castle_letters(t1, t1.len() as int) == Some(a1));
        if c & 2 != 0 {
            assert(t2 =~= t1.push(81u8));
            lemma_letters_push(t1, 81u8);
        } else {
            assert(t2 =~= t1);
        }
        assert(castle_letters(t2, t2.len() as int) == Some(a2));
        if c & 4 != 0 {
            assert(t3 =~= t2.push(107u8));
            lemma_letters_push(t2, 107u8);
        } else {
            assert(t3 =~= t2);
        }
        assert(castle_letters(t3, t3.len() as int) == Some(a3));
        if c & 8 != 0 {
            assert(t4 =~= t3.push(113u8));
            lemma_letters_push(t3, 113u8);
        } else {
            assert(t4 =~= t3);
        }
        assert(castle_letters(t4, t4.len() as int) == Some(c));
        assert(t4 != seq![45u8]) by {
            if t4 == seq![45u8] {
                assert(t4[0] == 45u8);
            }
        }
        assert(t4.len() > 0);
        assert forall|i: int| 0 <= i < t4.len() implies !is_ws(#[trigger] t4[i]) by {
            assert(t4[i] == 75 || t4[i] == 81 || t4[i] == 107 || t4[i] == 113);
        }
    }
}

proof fn lemma_digits_prefix(t1: Seq<u8>, t2: Seq<u8>, n: int)
    requires
        0 <= n <= t1.len(),
        n <= t2.len(),
        forall|k: int| 0 <= k < n ==> t1[k] == t2[k],
    ensures
        digits_value(t1, 0, n) == digits_value(t2, 0, n),
    decreases n,
{
    if n > 0 {
        lemma_digits_prefix(t1, t2, n - 1);
    }
}

/// Decimal text reads back as its number.
proof fn lemma_dec_round_trip(n: nat)
    ensures
        dec(n).len() > 0,
        all_digits(dec(n), 0),
        digits_value(dec(n), 0, dec(n).len() as int) == n,
        no_ws(dec(n)),
        dec(n)[0] != 43,
    decreases n,
{
    if n >= 10 {
        lemma_dec_round_trip(n / 10);
        let t = dec(n / 10);
        let d = (48 + n % 10) as u8;
        assert(dec(n) == t.push(d));
        lemma_digits_prefix(t.push(d), t, t.len() as int);
        assert(t.push(d)[t.len() as int] == d);
        assert(digits_value(dec(n), 0, dec(n).len() as int) == (n / 10) * 10 + n % 10);
        assert forall|i: int| 0 <= i < dec(n).len() implies 48 <= #[trigger] dec(n)[i] <= 57 by {
            if i < t.len() {
                assert(dec(n)[i] == t[i]);
            }
        }
        assert(dec(n)[0] == t[0]);
    } else {
        assert(digits_value(dec(n), 0, 0) == 0);
    }
}

proof fn lemma_counter_round_trip(x: u16)
    ensures
        u16_field(dec(x as nat)) == Some(x),
{
    lemma_dec_round_trip(x as nat);
}

/// The en-passant field reads back as its square.
proof fn lemma_ep_round_trip(ep: Option<Square>)
    requires
        ep matches Some(s) ==> s.0 < 64,
    ensures
        ep_text(ep).len() > 0,
        no_ws(ep_text(ep)),
        ep is None ==> word_is(ep_text(ep), 45),
        ep matches Some(s) ==> !word_is(ep_text(ep), 45) && square_from_name(ep_text(ep)) == Some(s),
{
    match ep {
        Some(s) => {
            let t = ep_text(ep);
            assert(t.len() == 2);
            assert(t[0] == (97 + s.0 % 8) as u8 && t[1] == (49 + s.0 / 8) as u8);
            assert(((t[1] - 49) * 8 + (t[0] - 97)) == s.0);
            assert(!word_is(t, 45)) by {
                if t == seq![45u8] {
                    assert(t.len() == 1);
                }
            }
        },
        None => {
            assert(no_ws(seq![45u8]));
        },
    }
}

// -- the whole text --------------------------------------------------------------------

/// Loading keeps the castling rights of a position whose rights all have their
/// king and rook at home.
proof fn lemma_castle_fix_keeps(v: PosView)
    requires
        view_ok(v),
    ensures
        castle_fix(v.castling, v.board) == v.castling,
{
    lemma_castle_bits(v.castling);
}

/// The six fields of the FEN text of `v`.
pub open spec fn fen_words_of(v: PosView) -> Seq<Seq<u8>> {
    seq![
        board_text(v.board, 7),
        seq![if v.side == Color::White { 119u8 } else { 98u8 }],
        castling_field(v.castling),
        ep_text(v.ep),
        dec(v.halfmove as nat),
        dec(v.fullmove as nat),
    ]
}

/// Six words joined by single spaces split back into those words.
proof fn lemma_six_words(w0: Seq<u8>, w1: Seq<u8>, w2: Seq<u8>, w3: Seq<u8>, w4: Seq<u8>, w5: Seq<u8>)
    requires
        w0.len() > 0 && no_ws(w0),
        w1.len() > 0 && no_ws(w1),
        w2.len() > 0 && no_ws(w2),
        w3.len() > 0 && no_ws(w3),
        w4.len() > 0 && no_ws(w4),
        w5.len() > 0 && no_ws(w5),
    ensures
        words(w0 + (seq![32u8] + (w1 + (seq![32u8] + (w2 + (seq![32u8] + (w3 + (seq![32u8] + (w4 + (
        seq![32u8] + w5)))))))))) == seq![w0, w1, w2, w3, w4, w5],
{
    let sp = seq![32u8];
    let r4 = w4 + (sp + w5);
    let r3 = w3 + (sp + r4);
    let r2 = w2 + (sp + r3);
    let r1 = w1 + (sp + r2);
    assert(w4 + sp + w5 =~= r4);
    assert(w3 + sp + r4 =~= r3);
    assert(w2 + sp + r3 =~= r2);
    assert(w1 + sp + r2 =~= r1);
    assert(w0 + sp + r1 =~= w0 + (sp + r1));
    lemma_words_single(w5);
    lemma_words_cons(w4, w5);
    lemma_words_cons(w3, r4);
    lemma_words_cons(w2, r3);
    lemma_words_cons(w1, r2);
    lemma_words_cons(w0, r1);
    assert(seq![w0] + (seq![w1] + (seq![w2] + (seq![w3] + (seq![w4] + seq![w5]))))
        =~= seq![w0, w1, w2, w3, w4, w5]);
}

proof fn lemma_fen_words(v: PosView)
    requires
        codes_ok(v.board),
        v.castling < 16,
        v.ep matches Some(s) ==> s.0 < 64,
    ensures
        words(fen_text(v)) == fen_words_of(v),
{
    let w = fen_words_of(v);
    let sp = seq![32u8];
    assert(fen_text(v) =~= w[0] + (sp + (w[1] + (sp + (w[2] + (sp + (w[3] + (sp + (w[4] + (sp
        + w[5]))))))))));
    lemma_board_text_chars(v.board, 7);
    lemma_castle_round_trip(v.castling);
    lemma_ep_round_trip(v.ep);
    lemma_dec_round_trip(v.halfmove as nat);
    lemma_dec_round_trip(v.fullmove as nat);
    assert(no_ws(w[1]));
    lemma_six_words(w[0], w[1], w[2], w[3], w[4], w[5]);
    assert(seq![w[0], w[1], w[2], w[3], w[4], w[5]] =~= w);
}

/// Each field of the FEN text of `v` reads back as the part of `v` it was written from.
proof fn lemma_fen_fields(v: PosView)
    requires
        codes_ok(v.board),
        v.castling < 16,
        v.ep matches Some(e) ==> e.0 < 64 && ep_capturers(v.board, v.side, e.0 as int) && ep_fits(
            v.board,
            v.side,
            e.0 as int,
        ),
    ensures
        placement(fen_words_of(v)[0]) == Some(v.board),
        fen_side(fen_words_of(v)) == Some(v.side),
        fen_castle(fen_words_of(v)) == Some(v.castling),
        fen_counter(fen_words_of(v), 4, 0) == v.halfmove,
        fen_counter(fen_words_of(v), 5, 1) == v.fullmove,
        fen_ep(fen_words_of(v), v.board, v.side) == v.ep,
        fen_ep_word_ok(fen_words_of(v)),
{
    let ws = fen_words_of(v);
    lemma_placement_round_trip(v.board);
    lemma_castle_round_trip(v.castling);
    lemma_ep_round_trip(v.ep);
    lemma_counter_round_trip(v.halfmove);
    lemma_counter_round_trip(v.fullmove);
    assert(ws[1] == seq![if v.side == Color::White { 119u8 } else { 98u8 }]);
    if v.side == Color::Black {
        assert(!word_is(ws[1], 119)) by {
            if ws[1] == seq![119u8] {
                assert(ws[1][0] == 98u8);
            }
        }
    }
}

/// The FEN text of a position reads back as that position: the same board,
/// side to move, castling rights, en-passant square and move counters, and so
/// the same key. This holds of every position that loading accepts: one king
/// of each color, the side not to move not in check, and an en-passant square
/// only where a pawn could capture on it.
pub proof fn lemma_fen_round_trip(v: PosView)
    requires
        view_ok(v),
        sq_count(v.board, 5, 5, 64) == 1,
        sq_count(v.board, 11, 11, 64) == 1,
        !opponent_in_check(v),
        v.ep matches Some(e) ==> ep_capturers(v.board, v.side, e.0 as int),
    ensures
        fen_result(fen_text(v)) matches Some(w) && w.board == v.board && w.side == v.side && w.castling
            == v.castling && w.ep == v.ep && w.halfmove == v.halfmove && w.fullmove == v.fullmove && w.key
            == v.key,
{
    lemma_fen_words(v);
    lemma_fen_fields(v);
    lemma_castle_fix_keeps(v);
    let lv = loaded(v.board, v.side, v.castling, v.ep, v.halfmove, v.fullmove);
    assert(opponent_in_check(lv) == opponent_in_check(v));
}

} // verus!
