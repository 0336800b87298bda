//! A game session for front ends that embed the engine: one position, set up,
//! queried and played on through text.
use vstd::prelude::*;
use crate::chess_move::Move;
use crate::fen::words;
use crate::game::{
    GameResult, can_play, can_play_spec, game_result, legal_moves_text, moves_text, play_uci_move,
    result_of, side_in_check,
};
use crate::movegen::{legal_list, legal_move};
use crate::position::{PosView, Position, fen_error, fen_result, fen_text, has_king, loaded, start_board};
use crate::text::{ascii_string, chars_of};
use crate::chess_move::uci_bytes;
use crate::types::Color;
use vstd::string::StringSliceAdditionalSpecFns;

verus! {

/// The start position.
pub open spec fn start_view() -> PosView {
    loaded(start_board(), Color::White, 15, None, 0, 1)
}

/// The word that reports a state of play: empty while play continues.
pub open spec fn result_word(g: GameResult) -> Seq<u8> {
    match g {
        GameResult::Checkmate => seq![99u8, 104u8, 101u8, 99u8, 107u8, 109u8, 97u8, 116u8, 101u8],
        GameResult::Stalemate => seq![115u8, 116u8, 97u8, 108u8, 101u8, 109u8, 97u8, 116u8, 101u8],
        GameResult::Draw => seq![100u8, 114u8, 97u8, 119u8],
        GameResult::Ongoing => Seq::empty(),
    }
}

/// A well-formed position to stand in while the session's own is played on.
fn spare_position() -> (r: Position)
    ensures
        r.wf(),
        r@ == start_view(),
{
    Position::startpos()
}

/// Play a move given in UCI notation when the position can be played on.
fn play_checked(pos: &mut Position, uci: &str) -> (r: bool)
    requires
        old(pos).wf(),
    ensures
        final(pos).wf(),
        r ==> can_play_spec(old(pos)@) && exists|m: u16|
            #![trigger crate::position::spec_make(old(pos)@, m)]
            legal_move(old(pos)@, m) && uci_bytes(m) == uci.spec_bytes() && final(pos)@
                == crate::position::spec_make(old(pos)@, m),
        !r ==> final(pos)@ == old(pos)@,
        can_play_spec(old(pos)@) ==> exists|l: Seq<Move>|
            #[trigger] legal_list(old(pos)@, l) && (!r <==> forall|i: int|
                0 <= i < l.len() ==> uci_bytes(#[trigger] l[i].0) != uci.spec_bytes()),
{
    if !can_play(pos) {
        return false;
    }
    play_uci_move(pos, uci)
}

/// One game: the position and the hash size asked for (1 to 64 MB).
pub struct BelugaEngine {
    pos: Position,
    hash_mb: usize,
}

impl View for BelugaEngine {
    type V = PosView;

    closed spec fn view(&self) -> PosView {
        self.pos@
    }
}

impl BelugaEngine {
    #[verifier::type_invariant]
    spec fn inv(self) -> bool {
        &&& self.pos.wf()
        &&& 1 <= self.hash_mb <= 64
    }

    /// The hash size of the session.
    pub closed spec fn spec_hash_mb(&self) -> int {
        self.hash_mb as int
    }

    /// A session at the start position; the hash size is clamped to 1..=64 MB.
    pub fn new(hash_mb: usize) -> (r: BelugaEngine)
        ensures
            r@ == start_view(),
            r.spec_hash_mb() == (if hash_mb < 1 {
                1
            } else if hash_mb > 64 {
                64
            } else {
                hash_mb as int
            }),
    {
        let mb = if hash_mb < 1 {
            1
        } else if hash_mb > 64 {
            64
        } else {
            hash_mb
        };
        BelugaEngine { pos: Position::startpos(), hash_mb: mb }
    }

    /// The hash size in MB.
    pub fn hash_mb(&self) -> (r: usize)
        ensures
            r == self.spec_hash_mb(),
            1 <= r <= 64,
    {
        proof {
            use_type_invariant(self);
        }
        self.hash_mb
    }

    /// The position of the session.
    pub fn position(&self) -> (r: &Position)
        ensures
            r.wf(),
            r@ == self@,
    {
        proof {
            use_type_invariant(self);
        }
        &self.pos
    }

    /// Lend the position out (to a search): it is handed over and the session
    /// holds the start position until `put_position` gives it back.
    pub fn take_position(&mut self) -> (r: Position)
        ensures
            r.wf(),
            r@ == old(self)@,
            final(self)@ == start_view(),
            final(self).spec_hash_mb() == old(self).spec_hash_mb(),
    {
        proof {
            use_type_invariant(&*self);
        }
        let mut p = spare_position();
        std::mem::swap(&mut p, &mut self.pos);
        p
    }

    /// Give a position back to the session.
    pub fn put_position(&mut self, pos: Position)
        requires
            pos.wf(),
        ensures
            final(self)@ == pos@,
            final(self).spec_hash_mb() == old(self).spec_hash_mb(),
    {
        proof {
            use_type_invariant(&*self);
        }
        self.pos = pos;
    }

    /// Back to the start position.
    pub fn new_game(&mut self)
        ensures
            final(self)@ == start_view(),
            final(self).spec_hash_mb() == old(self).spec_hash_mb(),
    {
        proof {
            use_type_invariant(&*self);
        }
        self.pos = Position::startpos();
    }

    /// Set the position from FEN text; on an unreadable FEN the position stays
    /// and the error is returned.
    pub fn set_fen(&mut self, fen: &str) -> (r: Result<(), String>)
        ensures
            final(self).spec_hash_mb() == old(self).spec_hash_mb(),
            match fen_result(fen.spec_bytes()) {
                Some(v) => r is Ok && final(self)@ == v,
                None => r matches Err(e) && (crate::text::all_ascii(fen_error(fen.spec_bytes())) ==> e@ == chars_of(
                    fen_error(fen.spec_bytes()),
                )) && final(self)@ == old(self)@,
            },
    {
        proof {
            use_type_invariant(&*self);
        }
        match Position::from_fen(fen) {
            Ok(p) => {
                self.pos = p;
                Ok(())
            },
            Err(e) => Err(e),
        }
    }

    /// The FEN text of the position.
    pub fn fen(&self) -> (r: String)
        ensures
            r@ == chars_of(fen_text(self@)),
    {
        proof {
            use_type_invariant(self);
        }
        self.pos.to_fen()
    }

    /// `w` or `b`.
    pub fn side_to_move(&self) -> (r: String)
        ensures
            r@ == chars_of(if self@.side == Color::White {
                seq![119u8]
            } else {
                seq![98u8]
            }),
    {
        let c: u8 = match self.pos.side_to_move() {
            Color::White => 119,
            Color::Black => 98,
        };
        let mut v: Vec<u8> = Vec::new();
        v.push(c);
        proof {
            assert(v@ =~= seq![c]);
        }
        ascii_string(v)
    }

    /// The legal moves in UCI notation, separated by spaces; empty when the
    /// position cannot be played on.
    pub fn legal_moves(&self) -> (r: String)
        ensures
            can_play_spec(self@) ==> exists|l: Seq<Move>|
                #[trigger] legal_list(self@, l) && r@ == chars_of(moves_text(l)),
            !can_play_spec(self@) ==> r@ == Seq::<char>::empty(),
    {
        proof {
            use_type_invariant(self);
        }
        if can_play(&self.pos) {
            legal_moves_text(&self.pos)
        } else {
            let r = ascii_string(Vec::new());
            proof {
                assert(r@ =~= Seq::<char>::empty());
            }
            r
        }
    }

    /// Play a move given in UCI notation; false, with the position unchanged,
    /// when it names no legal move.
    pub fn make_move(&mut self, uci: &str) -> (r: bool)
        ensures
            final(self).spec_hash_mb() == old(self).spec_hash_mb(),
            r ==> can_play_spec(old(self)@) && exists|m: u16|
                #![trigger crate::position::spec_make(old(self)@, m)]
                legal_move(old(self)@, m) && uci_bytes(m) == uci.spec_bytes() && final(self)@
                    == crate::position::spec_make(old(self)@, m),
            !r ==> final(self)@ == old(self)@,
            can_play_spec(old(self)@) ==> exists|l: Seq<Move>|
                #[trigger] legal_list(old(self)@, l) && (!r <==> forall|i: int|
                    0 <= i < l.len() ==> uci_bytes(#[trigger] l[i].0) != uci.spec_bytes()),
    {
        proof {
            use_type_invariant(&*self);
        }
        let ghost v0 = self@;
        let mut p = spare_position();
        std::mem::swap(&mut p, &mut self.pos);
        assert(p@ == v0);
        let ok = play_checked(&mut p, uci);
        let ghost v1 = p@;
        self.pos = p;
        assert(self@ == v1);
        ok
    }

    /// Is the side to move in check?
    pub fn is_check(&self) -> (r: bool)
        ensures
            r == (has_king(self@.board, self@.side) && side_in_check(self@)),
    {
        proof {
            use_type_invariant(self);
        }
        let k = self.pos.pieces(self.pos.side_to_move(), crate::types::PieceType::King);
        proof {
            crate::bitboard::lemma_nonzero_iff(k.0);
            if has_king(self@.board, self@.side) {
                let s = choose|s: int|
                    0 <= s < 64 && crate::position::holds(self@.board, s, self@.side, crate::types::PieceType::King);
                assert(crate::bitboard::mem(k.0, s));
            }
        }
        if k.any() {
            self.pos.in_check()
        } else {
            false
        }
    }

    /// `checkmate`, `stalemate`, `draw`, or empty while play continues (and when
    /// the position cannot be played on).
    pub fn result(&self) -> (r: String)
        ensures
            can_play_spec(self@) ==> exists|l: Seq<Move>|
                #[trigger] legal_list(self@, l) && r@ == chars_of(result_word(result_of(self@, l))),
            !can_play_spec(self@) ==> r@ == Seq::<char>::empty(),
    {
        proof {
            use_type_invariant(self);
        }
        let g = if can_play(&self.pos) {
            game_result(&self.pos)
        } else {
            GameResult::Ongoing
        };
        let mut v: Vec<u8> = Vec::new();
        match g {
            GameResult::Checkmate => {
                crate::text::push_all(&mut v, &[99u8, 104u8, 101u8, 99u8, 107u8, 109u8, 97u8, 116u8, 101u8]);
            },
            GameResult::Stalemate => {
                crate::text::push_all(&mut v, &[115u8, 116u8, 97u8, 108u8, 101u8, 109u8, 97u8, 116u8, 101u8]);
            },
            GameResult::Draw => {
                crate::text::push_all(&mut v, &[100u8, 114u8, 97u8, 119u8]);
            },
            GameResult::Ongoing => {},
        }
        proof {
            assert(&[99u8, 104u8, 101u8, 99u8, 107u8, 109u8, 97u8, 116u8, 101u8]@ == seq![99u8, 104u8, 101u8, 99u8, 107u8, 109u8, 97u8, 116u8, 101u8]);
            assert(&[115u8, 116u8, 97u8, 108u8, 101u8, 109u8, 97u8, 116u8, 101u8]@ == seq![115u8, 116u8, 97u8, 108u8, 101u8, 109u8, 97u8, 116u8, 101u8]);
            assert(&[100u8, 114u8, 97u8, 119u8]@ == seq![100u8, 114u8, 97u8, 119u8]);
            assert(v@ =~= result_word(g));
            assert(crate::text::all_ascii(v@));
        }
        let r = ascii_string(v);
        proof {
            if !can_play_spec(self@) {
                assert(r@ =~= Seq::<char>::empty());
            }
        }
        r
    }

    /// Is the game over (checkmate, stalemate or a draw)?
    pub fn is_game_over(&self) -> (r: bool)
        ensures
            can_play_spec(self@) ==> exists|l: Seq<Move>|
                #[trigger] legal_list(self@, l) && r == (result_of(self@, l) != GameResult::Ongoing),
            !can_play_spec(self@) ==> !r,
    {
        proof {
            use_type_invariant(self);
        }
        if can_play(&self.pos) {
            let g = game_result(&self.pos);
            g != GameResult::Ongoing
        } else {
            false
        }
    }
}

} // verus!
