//! Move-path enumeration (perft), the correctness driver of the move generator.
use vstd::prelude::*;
use crate::bitboard::{lemma_nonzero_iff, mem};
use crate::chess_move::{Move, MoveList, mv_flag, mv_from, mv_to, promo_type};
use crate::movegen::{
    castle_bit, generate_legal, legal_list, legal_move, listed, pawn_ranks_valid, pawns_on_board,
    pseudo_legal, single_king,
};
use crate::position::{
    PosView, Position, has_king, holds, lemma_unmake_make, make_board, rook_home, spec_make, view_ok,
};
use crate::types::{Color, PieceType, piece_code};

verus! {

/// Does the side to move have a king?
fn side_has_king(pos: &Position) -> (r: bool)
    requires
        pos.wf(),
    ensures
        r == has_king(pos@.board, pos@.side),
{
    let k = pos.pieces(pos.side_to_move(), PieceType::King);
    proof {
        lemma_nonzero_iff(k.0);
        if has_king(pos@.board, pos@.side) {
            let s = choose|s: int| 0 <= s < 64 && crate::position::holds(pos@.board, s, pos@.side, PieceType::King);
            assert(mem(k.0, s));
        }
    }
    k.any()
}

/// The position after the move `m`: `spec_make`, under a name of its own so that
/// sums over moves need not look inside.
#[verifier::opaque]
pub open spec fn next_view(v: PosView, m: u16) -> PosView {
    spec_make(v, m)
}

/// Number of move paths of length `depth` from `v`: one path of length zero;
/// none when the side to move has no king or a pawn stands on its far rank;
/// otherwise, over the legal moves, the paths from the position each leads to.
pub open spec fn paths(v: PosView, depth: nat) -> int
    decreases depth, 65537int,
{
    if depth == 0 {
        1
    } else if !(has_king(v.board, v.side) && pawns_on_board(v.board)) {
        0
    } else {
        paths_from(v, depth, 0)
    }
}

/// `m` is a legal move of `v`. Sums over the move numbers speak of it by this
/// name, so that proofs about them need not look inside.
#[verifier::opaque]
pub open spec fn legal_at(v: PosView, m: u16) -> bool {
    legal_move(v, m)
}

/// Paths of length `depth` that start with a legal move numbered `m` or more.
pub open spec fn paths_from(v: PosView, depth: nat, m: int) -> int
    decreases depth, 65536 - m,
{
    if depth == 0 || m >= 65536 || m < 0 {
        0
    } else {
        (if legal_at(v, m as u16) {
            paths(next_view(v, m as u16), (depth - 1) as nat)
        } else {
            0
        }) + paths_from(v, depth, m + 1)
    }
}

/// Paths of length `d` after the moves of `l` numbered `lo` or more, each move
/// counted as often as it occurs.
spec fn list_paths(v: PosView, l: Seq<Move>, d: nat, lo: int) -> int
    decreases l.len(),
{
    if l.len() == 0 {
        0
    } else {
        list_paths(v, l.drop_last(), d, lo) + (if l.last().0 >= lo {
            paths(next_view(v, l.last().0), d)
        } else {
            0
        })
    }
}

/// Paths of length `d` after the occurrences of move `m` in `l`.
spec fn list_paths_at(v: PosView, l: Seq<Move>, d: nat, m: int) -> int
    decreases l.len(),
{
    if l.len() == 0 {
        0
    } else {
        list_paths_at(v, l.drop_last(), d, m) + (if l.last().0 == m {
            paths(next_view(v, l.last().0), d)
        } else {
            0
        })
    }
}

proof fn lemma_list_split(v: PosView, l: Seq<Move>, d: nat, lo: int)
    ensures
        list_paths(v, l, d, lo) == list_paths(v, l, d, lo + 1) + list_paths_at(v, l, d, lo),
    decreases l.len(),
{
    if l.len() > 0 {
        lemma_list_split(v, l.drop_last(), d, lo);
    }
}

proof fn lemma_list_at_once(v: PosView, l: Seq<Move>, d: nat, m: int)
    requires
        forall|i: int, j: int| 0 <= i < j < l.len() ==> #[trigger] l[i].0 != #[trigger] l[j].0,
    ensures
        list_paths_at(v, l, d, m) == if listed(l, m as u16) && 0 <= m < 65536 {
            paths(next_view(v, m as u16), d)
        } else {
            0
        },
    decreases l.len(),
{
    if l.len() > 0 {
        let r = l.drop_last();
        assert forall|i: int, j: int| 0 <= i < j < r.len() implies #[trigger] r[i].0 != #[trigger] r[j].0 by {
            assert(r[i] == l[i] && r[j] == l[j]);
        }
        lemma_list_at_once(v, r, d, m);
        if l.last().0 == m {
            assert forall|i: int| 0 <= i < r.len() implies #[trigger] r[i].0 != m by {
                assert(r[i] == l[i]);
                assert(l[i].0 != l[l.len() - 1].0);
            }
            assert(l[l.len() - 1].0 == m);
        } else {
            if listed(l, m as u16) && 0 <= m < 65536 {
                let i = choose|i: int| 0 <= i < l.len() && #[trigger] l[i].0 == m as u16;
                assert(i != l.len() - 1);
                assert(r[i] == l[i]);
            }
            if listed(r, m as u16) {
                let i = choose|i: int| 0 <= i < r.len() && #[trigger] r[i].0 == m as u16;
                assert(l[i] == r[i]);
            }
        }
    }
}

proof fn lemma_list_none_above(v: PosView, l: Seq<Move>, d: nat)
    ensures
        list_paths(v, l, d, 65536) == 0,
    decreases l.len(),
{
    if l.len() > 0 {
        lemma_list_none_above(v, l.drop_last(), d);
    }
}

/// Summing the paths over a list of every legal move, each once, counts the paths
/// through the legal moves numbered `lo` or more.
/// One step of the sum over move numbers.
proof fn lemma_paths_from_step(v: PosView, d: nat, lo: int)
    requires
        0 <= lo < 65536,
    ensures
        paths_from(v, d + 1, lo) == (if legal_at(v, lo as u16) {
            paths(next_view(v, lo as u16), d)
        } else {
            0
        }) + paths_from(v, d + 1, lo + 1),
{
    let n = (d + 1) as nat;
    assert(n != 0);
    assert(paths_from(v, n, lo) == (if legal_at(v, lo as u16) {
        paths(next_view(v, lo as u16), (n - 1) as nat)
    } else {
        0
    }) + paths_from(v, n, lo + 1));
    assert((n - 1) as nat == d);
}

/// The sum over move numbers ends past the last one.
proof fn lemma_paths_from_end(v: PosView, d: nat)
    ensures
        paths_from(v, d + 1, 65536) == 0,
{
}

/// Summing the paths over a list of every legal move, each once, counts the paths
/// through the legal moves numbered `lo` or more.
proof fn lemma_list_paths(v: PosView, l: Seq<Move>, d: nat, lo: int)
    requires
        forall|i: int, j: int| 0 <= i < j < l.len() ==> #[trigger] l[i].0 != #[trigger] l[j].0,
        forall|m: u16| #[trigger] listed(l, m) == legal_at(v, m),
        0 <= lo <= 65536,
    ensures
        list_paths(v, l, d, lo) == paths_from(v, d + 1, lo),
    decreases 65536 - lo,
{
    if lo == 65536 {
        lemma_list_none_above(v, l, d);
        lemma_paths_from_end(v, d);
    } else {
        lemma_list_paths(v, l, d, lo + 1);
        lemma_list_split(v, l, d, lo);
        lemma_list_at_once(v, l, d, lo);
        lemma_paths_from_step(v, d, lo);
        assert(listed(l, lo as u16) == legal_at(v, lo as u16));
    }
}

/// After a legal move, a king of either side stands only where a king of that
/// side stood before, or on the target square of the king that moved.
proof fn lemma_kings_after(v: PosView, m: u16, c: Color, s: int)
    requires
        view_ok(v),
        pseudo_legal(v, m),
        0 <= s < 64,
        holds(make_board(v, m), s, c, PieceType::King),
    ensures
        (holds(v.board, s, c, PieceType::King) && s != mv_from(m)) || (s == mv_to(m) && holds(
            v.board,
            mv_from(m),
            c,
            PieceType::King,
        )),
{
    let f = mv_from(m);
    let t = mv_to(m);
    let fl = mv_flag(m);
    crate::position::lemma_code_parts(c, PieceType::King);
    crate::position::lemma_code_parts(v.side, promo_type(fl));
    crate::position::lemma_code_parts(v.side, PieceType::Rook);
    if fl == 2 || fl == 3 {
        let ks = fl == 2;
        let rf = rook_home(v.side, ks);
        assert(v.castling & castle_bit(v.side, ks) != 0);
        assert(v.board[rf] == piece_code(v.side, PieceType::Rook));
    }
}

/// Each side keeps at most one king through a legal move.
proof fn lemma_single_king_kept(v: PosView, m: u16)
    requires
        view_ok(v),
        pseudo_legal(v, m),
        single_king(v.board, Color::White),
        single_king(v.board, Color::Black),
    ensures
        single_king(make_board(v, m), Color::White),
        single_king(make_board(v, m), Color::Black),
{
    let b = make_board(v, m);
    assert forall|i: int, j: int|
        0 <= i < 64 && 0 <= j < 64 && #[trigger] holds(b, i, Color::White, PieceType::King) && #[trigger] holds(
            b,
            j,
            Color::White,
            PieceType::King,
        ) implies i == j by {
        lemma_kings_after(v, m, Color::White, i);
        lemma_kings_after(v, m, Color::White, j);
    }
    assert forall|i: int, j: int|
        0 <= i < 64 && 0 <= j < 64 && #[trigger] holds(b, i, Color::Black, PieceType::King) && #[trigger] holds(
            b,
            j,
            Color::Black,
            PieceType::King,
        ) implies i == j by {
        lemma_kings_after(v, m, Color::Black, i);
        lemma_kings_after(v, m, Color::Black, j);
    }
}

/// Number of move paths of length `depth` from the position (leaves counted at
/// depth one straight from the move list). The position is left as it was.
/// A position the generator cannot take (the side to move has no king, or a pawn
/// stands on its far rank) has no paths. When neither side has more than one
/// king, the count is exact (modulo 2^64).
#[verifier::rlimit(40)]
pub fn perft(pos: &mut Position, depth: u32) -> (r: u64)
    requires
        old(pos).wf(),
        old(pos)@.halfmove + depth < 0xFFFF,
        old(pos)@.fullmove + depth < 0xFFFF,
    ensures
        final(pos).wf(),
        final(pos)@ == old(pos)@,
        single_king(old(pos)@.board, Color::White) && single_king(old(pos)@.board, Color::Black) ==> r as int
            == paths(old(pos)@, depth as nat) % 0x1_0000_0000_0000_0000,
    decreases depth,
{
    proof {
        lemma_paths_base(pos@, depth as nat);
    }
    if depth == 0 {
        return 1;
    }
    if !side_has_king(pos) || !pawn_ranks_valid(pos) {
        return 0;
    }
    let mut list = MoveList::new();
    generate_legal(pos, &mut list);
    let ghost v = pos@;
    let ghost kings = single_king(v.board, Color::White) && single_king(v.board, Color::Black);
    proof {
        pos.lemma_wf();
        if kings {
            lemma_perft_total(v, list@, (depth - 1) as nat);
        }
    }
    if depth == 1 {
        proof {
            if kings {
                lemma_list_count(v, list@, 0);
            }
        }
        return list.len() as u64;
    }
    let mut nodes: u64 = 0;
    let mut i: usize = 0;
    while i < list.len()
        invariant
            pos.wf(),
            pos@ == v,
            view_ok(v),
            list.wf(),
            depth >= 2,
            v.halfmove + depth < 0xFFFF,
            v.fullmove + depth < 0xFFFF,
            0 <= i <= list@.len(),
            forall|j: int| 0 <= j < list@.len() ==> pseudo_legal(v, #[trigger] list@[j].0),
            kings == (single_king(v.board, Color::White) && single_king(v.board, Color::Black)),
            kings ==> nodes as int == list_paths(v, list@.take(i as int), (depth - 1) as nat, 0)
                % 0x1_0000_0000_0000_0000,
        decreases list@.len() - i,
    {
        let m = list.get(i);
        proof {
            assert(pseudo_legal(v, list@[i as int].0));
            pos.lemma_wf();
            if kings {
                lemma_single_king_kept(v, m.0);
            }
        }
        pos.make_move(m);
        let sub = perft(pos, depth - 1);
        proof {
            lemma_unmake_make(v, m.0);
        }
        pos.unmake_move(m);
        let ghost before = nodes;
        nodes = nodes.wrapping_add(sub);
        proof {
            if kings {
                assert(next_view(v, m.0) == spec_make(v, m.0)) by {
                    reveal(next_view);
                }
                lemma_paths_step(v, list@, i as int, (depth - 1) as nat, before as int, sub as int);
            }
        }
        i = i + 1;
    }
    proof {
        if kings {
            assert(list@.take(list@.len() as int) =~= list@);
        }
    }
    nodes
}

/// The paths from a position the generator takes, summed over a list of every
/// legal move.
#[verifier::rlimit(40)]
proof fn lemma_perft_total(v: PosView, l: Seq<Move>, d: nat)
    requires
        legal_list(v, l),
        single_king(v.board, Color::White),
        single_king(v.board, Color::Black),
        has_king(v.board, v.side),
        pawns_on_board(v.board),
    ensures
        list_paths(v, l, d, 0) == paths(v, d + 1),
{
    assert(single_king(v.board, v.side));
    assert forall|m: u16| #[trigger] listed(l, m) == legal_at(v, m) by {
        reveal(legal_at);
        if listed(l, m) {
            let i = choose|i: int| 0 <= i < l.len() && #[trigger] l[i].0 == m;
            assert(legal_move(v, l[i].0));
        }
    }
    lemma_list_paths(v, l, d, 0);
}

/// One more move of the list adds its paths to the running total, modulo 2^64.
proof fn lemma_paths_step(v: PosView, l: Seq<Move>, i: int, d: nat, before: int, sub: int)
    requires
        0 <= i < l.len(),
        0 <= before < 0x1_0000_0000_0000_0000,
        before == list_paths(v, l.take(i), d, 0) % 0x1_0000_0000_0000_0000,
        sub == paths(next_view(v, l[i].0), d) % 0x1_0000_0000_0000_0000,
    ensures
        (before + sub) % 0x1_0000_0000_0000_0000 == list_paths(v, l.take(i + 1), d, 0) % 0x1_0000_0000_0000_0000,
{
    assert(l.take(i + 1).drop_last() =~= l.take(i));
    assert(l.take(i + 1).last() == l[i]);
    assert(list_paths(v, l.take(i + 1), d, 0) == list_paths(v, l.take(i), d, 0) + paths(next_view(v, l[i].0), d));
    vstd::arithmetic::div_mod::lemma_add_mod_noop(
        list_paths(v, l.take(i), d, 0),
        paths(next_view(v, l[i].0), d),
        0x1_0000_0000_0000_0000,
    );
}

/// No move is needed for a path of length zero, and none can be made from a
/// position the generator cannot take.
proof fn lemma_paths_base(v: PosView, d: nat)
    ensures
        d == 0 ==> paths(v, d) == 1,
        d > 0 && !(has_king(v.board, v.side) && pawns_on_board(v.board)) ==> paths(v, d) == 0,
{
}

/// The paths of length one after the moves of `l` are as many as its moves.
proof fn lemma_list_count(v: PosView, l: Seq<Move>, lo: int)
    requires
        lo == 0,
    ensures
        list_paths(v, l, 0, lo) == l.len(),
    decreases l.len(),
{
    if l.len() > 0 {
        lemma_list_count(v, l.drop_last(), lo);
        lemma_paths_base(next_view(v, l.last().0), 0);
    }
}

} // verus!
