//! Core enumerations and small value types shared across the engine.
//!
//! Square indexing is Little-Endian Rank-File (LERF): `A1 = 0`, `H1 = 7`,
//! `A8 = 56`, `H8 = 63`. `file = sq & 7`, `rank = sq >> 3`.
use vstd::prelude::*;
use vstd::string::StringSliceAdditionalSpecFns;

verus! {

/// Side to move / piece owner.
#[derive(Clone, Copy, PartialEq, Eq, Structural, Debug, Hash)]
pub enum Color {
    White,
    Black,
}

/// Index of a color: White = 0, Black = 1.
pub open spec fn color_idx(c: Color) -> int {
    match c {
        Color::White => 0,
        Color::Black => 1,
    }
}

/// The opposite color.
pub open spec fn opposite(c: Color) -> Color {
    match c {
        Color::White => Color::Black,
        Color::Black => Color::White,
    }
}

impl Color {
    pub fn flip(self) -> (r: Color)
        ensures
            r == opposite(self),
    {
        match self {
            Color::White => Color::Black,
            Color::Black => Color::White,
        }
    }

    pub fn index(self) -> (r: usize)
        ensures
            r == color_idx(self),
    {
        match self {
            Color::White => 0,
            Color::Black => 1,
        }
    }

    pub fn from_index(i: usize) -> (r: Color)
        ensures
            r == (if i == 0 { Color::White } else { Color::Black }),
    {
        if i == 0 {
            Color::White
        } else {
            Color::Black
        }
    }
}

/// Piece kind, independent of color.
#[derive(Clone, Copy, PartialEq, Eq, Structural, Debug, Hash)]
pub enum PieceType {
    Pawn,
    Knight,
    Bishop,
    Rook,
    Queen,
    King,
}

/// Index of a piece type: Pawn = 0 .. King = 5.
pub open spec fn pt_idx(pt: PieceType) -> int {
    match pt {
        PieceType::Pawn => 0,
        PieceType::Knight => 1,
        PieceType::Bishop => 2,
        PieceType::Rook => 3,
        PieceType::Queen => 4,
        PieceType::King => 5,
    }
}

/// The piece type with index `i`; every index from 5 up names the king.
pub open spec fn pt_of(i: int) -> PieceType {
    if i == 0 {
        PieceType::Pawn
    } else if i == 1 {
        PieceType::Knight
    } else if i == 2 {
        PieceType::Bishop
    } else if i == 3 {
        PieceType::Rook
    } else if i == 4 {
        PieceType::Queen
    } else {
        PieceType::King
    }
}

impl PieceType {
    pub fn index(self) -> (r: usize)
        ensures
            r == pt_idx(self),
            r < 6,
    {
        match self {
            PieceType::Pawn => 0,
            PieceType::Knight => 1,
            PieceType::Bishop => 2,
            PieceType::Rook => 3,
            PieceType::Queen => 4,
            PieceType::King => 5,
        }
    }

    pub fn from_index(i: usize) -> (r: PieceType)
        ensures
            r == pt_of(i as int),
    {
        match i {
            0 => PieceType::Pawn,
            1 => PieceType::Knight,
            2 => PieceType::Bishop,
            3 => PieceType::Rook,
            4 => PieceType::Queen,
            _ => PieceType::King,
        }
    }
}

/// A colored piece, encoded as `color * 6 + piece_type` (0..=11).
#[derive(Clone, Copy, PartialEq, Eq, Structural, Debug, Hash)]
pub struct Piece(pub u8);

/// The mailbox code of the empty square.
pub const NO_PIECE: u8 = 12;

/// Code of the piece of color `c` and type `pt`.
pub open spec fn piece_code(c: Color, pt: PieceType) -> int {
    color_idx(c) * 6 + pt_idx(pt)
}

/// Color encoded in a piece code.
pub open spec fn code_color(p: int) -> Color {
    if p < 6 {
        Color::White
    } else {
        Color::Black
    }
}

/// Piece type encoded in a piece code.
pub open spec fn code_type(p: int) -> PieceType {
    pt_of(p % 6)
}

/// Letter of a piece code in FEN notation (upper case for White).
pub open spec fn code_char(p: int) -> char {
    let lower = match code_type(p) {
        PieceType::Pawn => 'p',
        PieceType::Knight => 'n',
        PieceType::Bishop => 'b',
        PieceType::Rook => 'r',
        PieceType::Queen => 'q',
        PieceType::King => 'k',
    };
    if code_color(p) == Color::White {
        match code_type(p) {
            PieceType::Pawn => 'P',
            PieceType::Knight => 'N',
            PieceType::Bishop => 'B',
            PieceType::Rook => 'R',
            PieceType::Queen => 'Q',
            PieceType::King => 'K',
        }
    } else {
        lower
    }
}

/// Piece code named by a FEN letter, if any.
pub open spec fn char_code(c: char) -> Option<int> {
    if c == 'P' {
        Some(0)
    } else if c == 'N' {
        Some(1)
    } else if c == 'B' {
        Some(2)
    } else if c == 'R' {
        Some(3)
    } else if c == 'Q' {
        Some(4)
    } else if c == 'K' {
        Some(5)
    } else if c == 'p' {
        Some(6)
    } else if c == 'n' {
        Some(7)
    } else if c == 'b' {
        Some(8)
    } else if c == 'r' {
        Some(9)
    } else if c == 'q' {
        Some(10)
    } else if c == 'k' {
        Some(11)
    } else {
        None
    }
}

impl Piece {
    pub const NONE: u8 = 12;

    pub fn new(color: Color, pt: PieceType) -> (r: Piece)
        ensures
            r.0 == piece_code(color, pt),
            r.0 < 12,
    {
        Piece((color.index() as u8) * 6 + pt.index() as u8)
    }

    pub fn color(self) -> (r: Color)
        ensures
            r == code_color(self.0 as int),
    {
        if self.0 < 6 {
            Color::White
        } else {
            Color::Black
        }
    }

    pub fn piece_type(self) -> (r: PieceType)
        ensures
            r == code_type(self.0 as int),
    {
        PieceType::from_index((self.0 % 6) as usize)
    }

    pub fn index(self) -> (r: usize)
        ensures
            r == self.0,
    {
        self.0 as usize
    }

    pub fn from_char(c: char) -> (r: Option<Piece>)
        ensures
            r matches Some(p) ==> char_code(c) == Some(p.0 as int),
            r is None <==> char_code(c) is None,
    {
        let code: u8 = match c {
            'P' => 0,
            'N' => 1,
            'B' => 2,
            'R' => 3,
            'Q' => 4,
            'K' => 5,
            'p' => 6,
            'n' => 7,
            'b' => 8,
            'r' => 9,
            'q' => 10,
            'k' => 11,
            _ => 12,
        };
        if code == 12 {
            None
        } else {
            Some(Piece(code))
        }
    }

    pub fn to_char(self) -> (r: char)
        ensures
            r == code_char(self.0 as int),
    {
        let white = self.0 < 6;
        match self.piece_type() {
            PieceType::Pawn => if white { 'P' } else { 'p' },
            PieceType::Knight => if white { 'N' } else { 'n' },
            PieceType::Bishop => if white { 'B' } else { 'b' },
            PieceType::Rook => if white { 'R' } else { 'r' },
            PieceType::Queen => if white { 'Q' } else { 'q' },
            PieceType::King => if white { 'K' } else { 'k' },
        }
    }
}

/// File and rank of a square index by bit operations.
pub proof fn lemma_square_bits(s: u8)
    by (bit_vector)
    ensures
        s & 7 == s % 8,
        s >> 3 == s / 8,
        s < 64 ==> (s ^ 56) == (7 - s / 8) * 8 + s % 8,
{
}

/// Flipping the rank of a square index (usize form).
pub proof fn lemma_flip_bits(s: usize)
    by (bit_vector)
    ensures
        s < 64 ==> s ^ 56 == (7 - s / 8) * 8 + s % 8,
{
}

/// A board square in `0..64`.
#[derive(Clone, Copy, PartialEq, Eq, Structural, PartialOrd, Ord, Hash, Debug)]
pub struct Square(pub u8);

/// File (column) of a square index.
pub open spec fn file_of(s: int) -> int {
    s % 8
}

/// Rank (row) of a square index.
pub open spec fn rank_of(s: int) -> int {
    s / 8
}

impl Square {
    pub fn new(index: u8) -> (r: Square)
        ensures
            r.0 == index,
    {
        Square(index)
    }

    pub fn from_file_rank(file: u8, rank: u8) -> (r: Square)
        requires
            rank * 8 + file <= 255,
        ensures
            r.0 == rank * 8 + file,
    {
        Square(rank * 8 + file)
    }

    pub fn index(self) -> (r: usize)
        ensures
            r == self.0,
    {
        self.0 as usize
    }

    pub fn file(self) -> (r: u8)
        ensures
            r == file_of(self.0 as int),
    {
        let s = self.0;
        proof {
            lemma_square_bits(s);
        }
        s & 7
    }

    pub fn rank(self) -> (r: u8)
        ensures
            r == rank_of(self.0 as int),
    {
        let s = self.0;
        proof {
            lemma_square_bits(s);
        }
        s >> 3
    }

    /// Vertical flip (used for color-mirrored PSTs and Black perspective).
    pub fn flip_vertical(self) -> (r: Square)
        ensures
            r.0 == self.0 ^ 56,
            self.0 < 64 ==> r.0 == (7 - rank_of(self.0 as int)) * 8 + file_of(self.0 as int),
    {
        let s = self.0;
        proof {
            lemma_square_bits(s);
        }
        Square(s ^ 56)
    }

    pub fn from_uci(s: &str) -> (r: Option<Square>)
        ensures
            r == square_from_name(s.spec_bytes()),
    {
        Square::from_name_bytes(s.as_bytes())
    }

    /// The square named by two bytes such as `e3`.
    pub fn from_name_bytes(b: &[u8]) -> (r: Option<Square>)
        ensures
            r == square_from_name(b@),
    {
        if b.len() != 2 {
            return None;
        }
        let file = b[0].wrapping_sub(97);
        let rank = b[1].wrapping_sub(49);
        if file > 7 || rank > 7 {
            return None;
        }
        Some(Square::from_file_rank(file, rank))
    }

    /// Algebraic name of the square (`a1` .. `h8`) as two ASCII bytes.
    pub fn name_bytes(self) -> (r: (u8, u8))
        requires
            self.0 < 64,
        ensures
            r.0 == 97 + file_of(self.0 as int),
            r.1 == 49 + rank_of(self.0 as int),
    {
        (97 + self.file(), 49 + self.rank())
    }
}

/// The square named by two bytes `<file letter><rank digit>`, if the name is valid.
pub open spec fn square_from_name(b: Seq<u8>) -> Option<Square> {
    if b.len() == 2 && 97 <= b[0] <= 104 && 49 <= b[1] <= 56 {
        Some(Square(((b[1] - 49) * 8 + (b[0] - 97)) as u8))
    } else {
        None
    }
}

/// Castling rights as a 4-bit mask.
#[derive(Clone, Copy, PartialEq, Eq, Structural, Debug, Hash)]
pub struct CastlingRights(pub u8);

pub const WHITE_KING: u8 = 1;
pub const WHITE_QUEEN: u8 = 2;
pub const BLACK_KING: u8 = 4;
pub const BLACK_QUEEN: u8 = 8;
pub const ALL_RIGHTS: u8 = 15;

impl CastlingRights {
    pub fn empty() -> (r: CastlingRights)
        ensures
            r.0 == 0,
    {
        CastlingRights(0)
    }

    pub fn has(self, flag: u8) -> (r: bool)
        ensures
            r == (self.0 & flag != 0),
    {
        self.0 & flag != 0
    }

    pub fn add(&mut self, flag: u8)
        ensures
            final(self).0 == old(self).0 | flag,
    {
        self.0 = self.0 | flag;
    }

    /// Apply the AND-mask for a square touched by a move (king/rook move or
    /// rook capture).
    pub fn apply_mask(&mut self, mask: u8)
        ensures
            final(self).0 == old(self).0 & mask,
    {
        self.0 = self.0 & mask;
    }

    /// FEN field of the rights: `-` or a subset of `KQkq` in that order.
    pub fn to_fen_bytes(self) -> (r: Vec<u8>)
        ensures
            r@ == castling_field(self.0),
    {
        let mut v: Vec<u8> = Vec::new();
        if self.0 == 0 {
            v.push(45);
            return v;
        }
        if self.has(WHITE_KING) {
            v.push(75);
        }
        if self.has(WHITE_QUEEN) {
            v.push(81);
        }
        if self.has(BLACK_KING) {
            v.push(107);
        }
        if self.has(BLACK_QUEEN) {
            v.push(113);
        }
        v
    }
}

/// The FEN castling field of a rights mask.
pub open spec fn castling_field(r: u8) -> Seq<u8> {
    if r == 0 {
        seq![45u8]
    } else {
        (if r & 1 != 0 { seq![75u8] } else { Seq::empty() })
        + (if r & 2 != 0 { seq![81u8] } else { Seq::empty() })
        + (if r & 4 != 0 { seq![107u8] } else { Seq::empty() })
        + (if r & 8 != 0 { seq![113u8] } else { Seq::empty() })
    }
}

} // verus!
