//! Squares, directions, bitboards, pieces and colours.
use vstd::prelude::*;

use crate::bits::{
    bits, board_squares, lemma_bit_file_mask, lemma_bit_rank_mask, lemma_bit_shl,
    lemma_bit_shr, lemma_bits_and, lemma_bits_not, lemma_bits_single,
};

verus! {

/// Rank (row, `0` for rank 1) of a square index.
pub open spec fn rank_of(s: int) -> int {
    s / 8
}

/// File (column, `0` for file a) of a square index.
pub open spec fn file_of(s: int) -> int {
    s % 8
}

pub open spec fn min_int(a: int, b: int) -> int {
    if a < b {
        a
    } else {
        b
    }
}

/// The squares of file `f`.
pub open spec fn file_squares(f: int) -> Set<int> {
    Set::new(|i: int| 0 <= i < 64 && file_of(i) == f)
}

/// The squares of rank `r`.
pub open spec fn rank_squares(r: int) -> Set<int> {
    Set::new(|i: int| 0 <= i < 64 && rank_of(i) == r)
}

/// A set of squares held in one 64-bit word: bit `rank * 8 + file` stands for that square,
/// bit 0 for a1.
#[derive(Clone, Copy, PartialEq, Eq, Structural, Debug, Hash, Default)]
pub struct Bitboard(pub u64);

impl View for Bitboard {
    type V = Set<int>;

    open spec fn view(&self) -> Set<int> {
        bits(self.0)
    }
}

/// Wraps a raw word as a bitboard.
#[allow(non_snake_case)]
pub fn BB(b: u64) -> (r: Bitboard)
    ensures
        r.0 == b,
{
    Bitboard(b)
}

/// A board square `0..64` (a1 = 0, h8 = 63), or the index `64` for "no square".
#[derive(Clone, Copy, PartialEq, Eq, Debug, Hash)]
pub struct Square(u8);

impl View for Square {
    type V = int;

    closed spec fn view(&self) -> int {
        self.0 as int
    }
}

impl Square {
    #[verifier::type_invariant]
    spec fn inv(self) -> bool {
        self.0 <= 64
    }

    /// The square with index `i`; `64` gives the "no square" value.
    pub fn from_index(i: u8) -> (r: Square)
        requires
            i <= 64,
        ensures
            r@ == i,
    {
        Square(i)
    }

    /// The "no square" value.
    pub fn none() -> (r: Square)
        ensures
            r@ == 64,
    {
        Square(64)
    }

    pub fn from_rank_file(rank: u8, file: u8) -> (r: Square)
        requires
            rank < 8,
            file < 8,
        ensures
            r@ == rank * 8 + file,
            rank_of(r@) == rank,
            file_of(r@) == file,
    {
        Square(rank * 8 + file)
    }

    pub fn as_int(self) -> (r: u8)
        ensures
            r == self@,
            r <= 64,
    {
        proof {
            use_type_invariant(&self);
        }
        self.0
    }

    /// The bitboard holding this square alone.
    pub fn to_bitboard(self) -> (r: Bitboard)
        requires
            self@ < 64,
        ensures
            r@ == set![self@],
    {
        proof {
            lemma_bits_single(self.0 as u64);
        }
        BB(1u64 << self.0)
    }

    pub fn rank(self) -> (r: u8)
        ensures
            r == rank_of(self@),
    {
        proof {
            use_type_invariant(&self);
        }
        self.0 / 8
    }

    pub fn file(self) -> (r: u8)
        ensures
            r == file_of(self@),
    {
        self.0 % 8
    }

    /// How many steps in direction `d` stay on the board from this square.
    pub fn distance_from_edge(self, d: Direction) -> (r: u8)
        requires
            self@ < 64,
        ensures
            r == edge_distance(self@, d),
            d != Direction::Stay ==> r <= 7,
    {
        let rank = self.rank();
        let file = self.file();
        match d {
            Direction::North => 7 - rank,
            Direction::NorthNorth => (7 - rank) / 2,
            Direction::South => rank,
            Direction::SouthSouth => rank / 2,
            Direction::East => 7 - file,
            Direction::EastEast => (7 - file) / 2,
            Direction::West => file,
            Direction::WestWest => file / 2,
            Direction::NorthEast => crate::utils::mini8((7 - rank) as i8, (7 - file) as i8) as u8,
            Direction::SouthEast => crate::utils::mini8(rank as i8, (7 - file) as i8) as u8,
            Direction::NorthWest => crate::utils::mini8((7 - rank) as i8, file as i8) as u8,
            Direction::SouthWest => crate::utils::mini8(rank as i8, file as i8) as u8,
            Direction::Stay => 255,
        }
    }
}

/// A step on the board. The double steps serve pawn pushes.
#[derive(Clone, Copy, PartialEq, Eq, Structural, Debug, Hash)]
pub enum Direction {
    North,
    NorthNorth,
    South,
    SouthSouth,
    East,
    EastEast,
    West,
    WestWest,
    NorthEast,
    SouthEast,
    NorthWest,
    SouthWest,
    Stay,
}

impl Direction {
    /// Change of rank made by one step.
    pub open spec fn dr(self) -> int {
        match self {
            Direction::North => 1,
            Direction::NorthNorth => 2,
            Direction::South => -1,
            Direction::SouthSouth => -2,
            Direction::NorthEast => 1,
            Direction::NorthWest => 1,
            Direction::SouthEast => -1,
            Direction::SouthWest => -1,
            _ => 0,
        }
    }

    /// Change of file made by one step.
    pub open spec fn df(self) -> int {
        match self {
            Direction::East => 1,
            Direction::EastEast => 2,
            Direction::West => -1,
            Direction::WestWest => -2,
            Direction::NorthEast => 1,
            Direction::SouthEast => 1,
            Direction::NorthWest => -1,
            Direction::SouthWest => -1,
            _ => 0,
        }
    }

    /// Change of square index made by one step.
    pub open spec fn offset(self) -> int {
        8 * self.dr() + self.df()
    }

    pub fn as_int(self) -> (r: i8)
        ensures
            r == self.offset(),
    {
        match self {
            Direction::North => 8,
            Direction::NorthNorth => 16,
            Direction::South => -8,
            Direction::SouthSouth => -16,
            Direction::East => 1,
            Direction::EastEast => 2,
            Direction::West => -1,
            Direction::WestWest => -2,
            Direction::NorthEast => 9,
            Direction::SouthEast => -7,
            Direction::NorthWest => 7,
            Direction::SouthWest => -9,
            Direction::Stay => 0,
        }
    }

    /// Whether a step goes to a higher square index.
    pub fn is_increasing(self) -> (r: bool)
        ensures
            r == (self.offset() > 0),
    {
        self.as_int() > 0
    }
}

/// Whether one step in direction `d` from square `s` stays on the board.
pub open spec fn step_ok(s: int, d: Direction) -> bool {
    &&& 0 <= rank_of(s) + d.dr() < 8
    &&& 0 <= file_of(s) + d.df() < 8
}

/// How many steps in direction `d` stay on the board from square `s`.
pub open spec fn edge_distance(s: int, d: Direction) -> int {
    let r = rank_of(s);
    let f = file_of(s);
    match d {
        Direction::North => 7 - r,
        Direction::NorthNorth => (7 - r) / 2,
        Direction::South => r,
        Direction::SouthSouth => r / 2,
        Direction::East => 7 - f,
        Direction::EastEast => (7 - f) / 2,
        Direction::West => f,
        Direction::WestWest => f / 2,
        Direction::NorthEast => min_int(7 - r, 7 - f),
        Direction::SouthEast => min_int(r, 7 - f),
        Direction::NorthWest => min_int(7 - r, f),
        Direction::SouthWest => min_int(r, f),
        Direction::Stay => 255,
    }
}

/// `src` moved one step in direction `d`; squares that would leave the board are dropped.
pub open spec fn shift_set(src: Set<int>, d: Direction) -> Set<int> {
    Set::new(
        |j: int|
            0 <= j - d.offset() < 64 && step_ok(j - d.offset(), d) && src.contains(j - d.offset()),
    )
}


/// A file of the board, `0` for file a.
#[derive(Clone, Copy, PartialEq, Eq, Structural, Debug, Hash, Default)]
pub struct File(pub usize);

/// A rank of the board, `0` for rank 1.
#[derive(Clone, Copy, PartialEq, Eq, Structural, Debug, Hash, Default)]
pub struct Rank(pub usize);

impl File {
    /// The squares of this file.
    pub fn mask(self) -> (r: Bitboard)
        requires
            self.0 < 8,
        ensures
            r@ == file_squares(self.0 as int),
    {
        let m = 0x0101_0101_0101_0101u64 << (self.0 as u64);
        proof {
            assert forall|j: int| #[trigger] bits(m).contains(j) == file_squares(
                self.0 as int,
            ).contains(j) by {
                if 0 <= j < 64 {
                    lemma_bit_file_mask(self.0 as u64, j as u64);
                }
            }
            assert(bits(m) =~= file_squares(self.0 as int));
        }
        BB(m)
    }

    /// The squares outside this file.
    pub fn clear(self) -> (r: Bitboard)
        requires
            self.0 < 8,
        ensures
            r@ == board_squares().difference(file_squares(self.0 as int)),
    {
        let m = self.mask();
        proof {
            lemma_bits_not(m.0);
        }
        BB(!m.0)
    }
}

impl Rank {
    /// The squares of this rank.
    pub fn mask(self) -> (r: Bitboard)
        requires
            self.0 < 8,
        ensures
            r@ == rank_squares(self.0 as int),
    {
        let m = 0xffu64 << (8 * self.0 as u64);
        proof {
            assert forall|j: int| #[trigger] bits(m).contains(j) == rank_squares(
                self.0 as int,
            ).contains(j) by {
                if 0 <= j < 64 {
                    lemma_bit_rank_mask(self.0 as u64, j as u64);
                }
            }
            assert(bits(m) =~= rank_squares(self.0 as int));
        }
        BB(m)
    }

    /// The squares outside this rank.
    pub fn clear(self) -> (r: Bitboard)
        requires
            self.0 < 8,
        ensures
            r@ == board_squares().difference(rank_squares(self.0 as int)),
    {
        let m = self.mask();
        proof {
            lemma_bits_not(m.0);
        }
        BB(!m.0)
    }
}

/// `x` moved `k` squares up the index order.
fn shl_word(x: u64, k: u64) -> (r: u64)
    requires
        k < 64,
    ensures
        bits(r) == Set::new(|j: int| 0 <= j < 64 && j >= k && bits(x).contains(j - k)),
{
    let r = x << k;
    proof {
        assert forall|j: int| #[trigger] bits(r).contains(j) == (0 <= j < 64 && j >= k && bits(
            x,
        ).contains(j - k)) by {
            if 0 <= j < 64 {
                lemma_bit_shl(x, k, j as u64);
            }
        }
        assert(bits(r) =~= Set::new(|j: int| 0 <= j < 64 && j >= k && bits(x).contains(j - k)));
    }
    r
}

/// `x` moved `k` squares down the index order.
fn shr_word(x: u64, k: u64) -> (r: u64)
    requires
        k < 64,
    ensures
        bits(r) == Set::new(|j: int| 0 <= j < 64 && j + k < 64 && bits(x).contains(j + k)),
{
    let r = x >> k;
    proof {
        assert forall|j: int| #[trigger] bits(r).contains(j) == (0 <= j < 64 && j + k < 64 && bits(
            x,
        ).contains(j + k)) by {
            if 0 <= j < 64 {
                lemma_bit_shr(x, k, j as u64);
            }
        }
        assert(bits(r) =~= Set::new(
            |j: int| 0 <= j < 64 && j + k < 64 && bits(x).contains(j + k),
        ));
    }
    r
}

/// Where a step lands, in rank and file, when it stays on the board.
pub proof fn lemma_step_coords(s: int, dr: int, df: int)
    requires
        0 <= s < 64,
        0 <= rank_of(s) + dr < 8,
        0 <= file_of(s) + df < 8,
    ensures
        0 <= s + 8 * dr + df < 64,
        rank_of(s + 8 * dr + df) == rank_of(s) + dr,
        file_of(s + 8 * dr + df) == file_of(s) + df,
{
}

/// Two steps that never turn back make one step of their sum.
pub proof fn lemma_shift_compose(src: Set<int>, a: Direction, b: Direction, c: Direction)
    requires
        src.subset_of(board_squares()),
        c.dr() == a.dr() + b.dr(),
        c.df() == a.df() + b.df(),
        (a.dr() >= 0 && b.dr() >= 0) || (a.dr() <= 0 && b.dr() <= 0),
        (a.df() >= 0 && b.df() >= 0) || (a.df() <= 0 && b.df() <= 0),
    ensures
        shift_set(shift_set(src, a), b) == shift_set(src, c),
{
    assert forall|j: int| #[trigger]
        shift_set(shift_set(src, a), b).contains(j) == shift_set(src, c).contains(j) by {
        let t = j - b.offset();
        let s = t - a.offset();
        assert(s == j - c.offset());
        if 0 <= s < 64 && step_ok(s, a) {
            lemma_step_coords(s, a.dr(), a.df());
        }
        if 0 <= s < 64 && step_ok(s, c) {
            lemma_step_coords(s, c.dr(), c.df());
            assert(step_ok(s, a));
            lemma_step_coords(s, a.dr(), a.df());
        }
    }
    assert(shift_set(shift_set(src, a), b) =~= shift_set(src, c));
}

fn north_word(x: u64) -> (r: u64)
    ensures
        bits(r) == shift_set(bits(x), Direction::North),
{
    let r = shl_word(x, 8);
    proof {
        assert(bits(r) =~= shift_set(bits(x), Direction::North));
    }
    r
}

fn south_word(x: u64) -> (r: u64)
    ensures
        bits(r) == shift_set(bits(x), Direction::South),
{
    let r = shr_word(x, 8);
    proof {
        assert(bits(r) =~= shift_set(bits(x), Direction::South));
    }
    r
}

fn east_word(x: u64) -> (r: u64)
    ensures
        bits(r) == shift_set(bits(x), Direction::East),
{
    let keep = File(7).clear();
    proof {
        lemma_bits_and(x, keep.0);
    }
    let r = shl_word(x & keep.0, 1);
    proof {
        assert(bits(r) =~= shift_set(bits(x), Direction::East));
    }
    r
}

fn west_word(x: u64) -> (r: u64)
    ensures
        bits(r) == shift_set(bits(x), Direction::West),
{
    let keep = File(0).clear();
    proof {
        lemma_bits_and(x, keep.0);
    }
    let r = shr_word(x & keep.0, 1);
    proof {
        assert(bits(r) =~= shift_set(bits(x), Direction::West));
    }
    r
}

impl Bitboard {
    /// Every square moved one step in direction `d`; squares that would leave the board,
    /// over an edge or round to the other side, are dropped.
    pub fn shift_by_direction(self, d: Direction) -> (r: Bitboard)
        ensures
            r@ == shift_set(self@, d),
    {
        let x = self.0;
        let r = match d {
            Direction::North => north_word(x),
            Direction::NorthNorth => north_word(north_word(x)),
            Direction::South => south_word(x),
            Direction::SouthSouth => south_word(south_word(x)),
            Direction::East => east_word(x),
            Direction::EastEast => east_word(east_word(x)),
            Direction::West => west_word(x),
            Direction::WestWest => west_word(west_word(x)),
            Direction::NorthEast => east_word(north_word(x)),
            Direction::SouthEast => east_word(south_word(x)),
            Direction::NorthWest => west_word(north_word(x)),
            Direction::SouthWest => west_word(south_word(x)),
            Direction::Stay => x,
        };
        proof {
            let s = bits(x);
            match d {
                Direction::NorthNorth => lemma_shift_compose(
                    s,
                    Direction::North,
                    Direction::North,
                    d,
                ),
                Direction::SouthSouth => lemma_shift_compose(
                    s,
                    Direction::South,
                    Direction::South,
                    d,
                ),
                Direction::EastEast => lemma_shift_compose(s, Direction::East, Direction::East, d),
                Direction::WestWest => lemma_shift_compose(s, Direction::West, Direction::West, d),
                Direction::NorthEast => lemma_shift_compose(
                    s,
                    Direction::North,
                    Direction::East,
                    d,
                ),
                Direction::SouthEast => lemma_shift_compose(
                    s,
                    Direction::South,
                    Direction::East,
                    d,
                ),
                Direction::NorthWest => lemma_shift_compose(
                    s,
                    Direction::North,
                    Direction::West,
                    d,
                ),
                Direction::SouthWest => lemma_shift_compose(
                    s,
                    Direction::South,
                    Direction::West,
                    d,
                ),
                Direction::Stay => {
                    assert(shift_set(s, d) =~= s);
                },
                _ => {},
            }
        }
        Bitboard(r)
    }
}

/// The distance to the edge is exact: `k` steps in a direction stay on the board exactly
/// when `k` is at most `edge_distance`.
pub proof fn lemma_edge_distance_exact(s: int, d: Direction, k: int)
    requires
        0 <= s < 64,
        d != Direction::Stay,
        k >= 0,
    ensures
        (0 <= rank_of(s) + k * d.dr() < 8 && 0 <= file_of(s) + k * d.df() < 8) <==> k
            <= edge_distance(s, d),
{
    match d {
        Direction::North => {
            assert(k * d.dr() == k);
            assert(k * d.df() == 0);
        },
        Direction::NorthNorth => {
            assert(k * d.dr() == 2 * k);
            assert(k * d.df() == 0);
        },
        Direction::South => {
            assert(k * d.dr() == -k);
            assert(k * d.df() == 0);
        },
        Direction::SouthSouth => {
            assert(d.dr() == -2);
            assert(k * d.dr() == -2 * k) by (nonlinear_arith)
                requires
                    d.dr() == -2,
            ;
            assert(k * d.df() == 0);
        },
        Direction::East => {
            assert(k * d.dr() == 0);
            assert(k * d.df() == k);
        },
        Direction::EastEast => {
            assert(k * d.dr() == 0);
            assert(k * d.df() == 2 * k);
        },
        Direction::West => {
            assert(k * d.dr() == 0);
            assert(k * d.df() == -k);
        },
        Direction::WestWest => {
            assert(k * d.dr() == 0);
            assert(d.df() == -2);
            assert(k * d.df() == -2 * k) by (nonlinear_arith)
                requires
                    d.df() == -2,
            ;
        },
        Direction::NorthEast => {
            assert(k * d.dr() == k);
            assert(k * d.df() == k);
        },
        Direction::SouthEast => {
            assert(k * d.dr() == -k);
            assert(k * d.df() == k);
        },
        Direction::NorthWest => {
            assert(k * d.dr() == k);
            assert(k * d.df() == -k);
        },
        Direction::SouthWest => {
            assert(k * d.dr() == -k);
            assert(k * d.df() == -k);
        },
        Direction::Stay => {},
    }
}

/// A shift never wraps round the board: one square moved one step is the square `offset`
/// further, on the rank and file one step away, when the square is not on the edge it
/// moves toward; on that edge (an h-file square moved east, an a-file square moved west, a
/// rank-8 square moved north, a rank-1 square moved south, and so on) nothing is left.
pub proof fn lemma_shift_never_wraps(s: int, d: Direction)
    requires
        0 <= s < 64,
        d != Direction::Stay,
    ensures
        edge_distance(s, d) == 0 ==> shift_set(set![s], d) == Set::<int>::empty(),
        edge_distance(s, d) >= 1 ==> shift_set(set![s], d) == set![s + d.offset()],
        edge_distance(s, d) >= 1 ==> rank_of(s + d.offset()) == rank_of(s) + d.dr() && file_of(
            s + d.offset(),
        ) == file_of(s) + d.df(),
{
    lemma_edge_distance_exact(s, d, 1);
    if step_ok(s, d) {
        lemma_step_coords(s, d.dr(), d.df());
        assert(shift_set(set![s], d) =~= set![s + d.offset()]);
    } else {
        assert(shift_set(set![s], d) =~= Set::<int>::empty());
    }
}

/// A side: `false` for white, `true` for black.
#[derive(Clone, Copy, PartialEq, Eq, Structural, Debug, Hash, Default)]
pub struct Color(pub bool);

impl Color {
    pub fn white() -> (r: Color)
        ensures
            !r.0,
    {
        Color(false)
    }

    pub fn black() -> (r: Color)
        ensures
            r.0,
    {
        Color(true)
    }

    /// The other side.
    pub fn opposite(self) -> (r: Color)
        ensures
            r.0 == !self.0,
    {
        Color(!self.0)
    }
}

/// A piece, or no piece. White pieces have the values `1..=6` (pawn to king), black ones
/// their negatives, and the empty square `0`.
#[derive(Clone, Copy, PartialEq, Eq, Structural, Debug, Hash, Default)]
pub enum Piece {
    WPawn,
    WKnight,
    WBishop,
    WRook,
    WQueen,
    WKing,
    BPawn,
    BKnight,
    BBishop,
    BRook,
    BQueen,
    BKing,
    #[default]
    Empty,
}

pub const N_PIECES: usize = 12;

impl Piece {
    /// The signed value of the piece: its sign is its colour, its magnitude its kind.
    pub open spec fn value(self) -> int {
        match self {
            Piece::WPawn => 1,
            Piece::WKnight => 2,
            Piece::WBishop => 3,
            Piece::WRook => 4,
            Piece::WQueen => 5,
            Piece::WKing => 6,
            Piece::BPawn => -1,
            Piece::BKnight => -2,
            Piece::BBishop => -3,
            Piece::BRook => -4,
            Piece::BQueen => -5,
            Piece::BKing => -6,
            Piece::Empty => 0,
        }
    }

    /// The kind of the piece, `0` for no piece.
    pub open spec fn kind(self) -> int {
        if self.value() < 0 {
            -self.value()
        } else {
            self.value()
        }
    }

    /// The slot of the piece in per-piece tables: white pieces `0..6`, black ones `6..12`.
    pub open spec fn slot(self) -> int {
        if self.value() < 0 {
            self.kind() + 5
        } else {
            self.kind() - 1
        }
    }

    /// The letter of the piece in board notation: upper case for white.
    pub open spec fn symbol(self) -> char {
        match self {
            Piece::WPawn => 'P',
            Piece::WKnight => 'N',
            Piece::WBishop => 'B',
            Piece::WRook => 'R',
            Piece::WQueen => 'Q',
            Piece::WKing => 'K',
            Piece::BPawn => 'p',
            Piece::BKnight => 'n',
            Piece::BBishop => 'b',
            Piece::BRook => 'r',
            Piece::BQueen => 'q',
            Piece::BKing => 'k',
            Piece::Empty => ' ',
        }
    }

    pub fn as_int(self) -> (r: i8)
        ensures
            r == self.value(),
    {
        match self {
            Piece::WPawn => 1,
            Piece::WKnight => 2,
            Piece::WBishop => 3,
            Piece::WRook => 4,
            Piece::WQueen => 5,
            Piece::WKing => 6,
            Piece::BPawn => -1,
            Piece::BKnight => -2,
            Piece::BBishop => -3,
            Piece::BRook => -4,
            Piece::BQueen => -5,
            Piece::BKing => -6,
            Piece::Empty => 0,
        }
    }

    pub fn is_white(self) -> (r: bool)
        ensures
            r == (self.value() > 0),
    {
        self.as_int() > 0
    }

    pub fn is_black(self) -> (r: bool)
        ensures
            r == (self.value() < 0),
    {
        self.as_int() < 0
    }

    /// The piece that a letter of board notation names, `Empty` for any other character.
    pub fn from_char(c: char) -> (r: Piece)
        ensures
            r == letter_piece(c),
            r != Piece::Empty ==> r.symbol() == c,
            r == Piece::Empty ==> forall|p: Piece| p != Piece::Empty ==> p.symbol() != c,
    {
        match c {
            'P' => Piece::WPawn,
            'N' => Piece::WKnight,
            'B' => Piece::WBishop,
            'R' => Piece::WRook,
            'Q' => Piece::WQueen,
            'K' => Piece::WKing,
            'p' => Piece::BPawn,
            'n' => Piece::BKnight,
            'b' => Piece::BBishop,
            'r' => Piece::BRook,
            'q' => Piece::BQueen,
            'k' => Piece::BKing,
            _ => Piece::Empty,
        }
    }

    /// The letter of the piece in board notation; a space for no piece.
    pub fn to_char(self) -> (r: char)
        ensures
            r == self.symbol(),
    {
        match self {
            Piece::WPawn => 'P',
            Piece::WKnight => 'N',
            Piece::WBishop => 'B',
            Piece::WRook => 'R',
            Piece::WQueen => 'Q',
            Piece::WKing => 'K',
            Piece::BPawn => 'p',
            Piece::BKnight => 'n',
            Piece::BBishop => 'b',
            Piece::BRook => 'r',
            Piece::BQueen => 'q',
            Piece::BKing => 'k',
            Piece::Empty => ' ',
        }
    }

    /// The kind of the piece: `1` (pawn) to `6` (king), `0` for no piece.
    pub fn type_of(self) -> (r: u8)
        ensures
            r == self.kind(),
    {
        let v = self.as_int();
        if v < 0 {
            (-v) as u8
        } else {
            v as u8
        }
    }

    /// The side of the piece; no piece counts as white.
    pub fn color(self) -> (r: Color)
        ensures
            r.0 == (self.value() < 0),
    {
        Color(self.as_int() < 0)
    }

    /// The white piece of the same kind; `Empty` stays `Empty`.
    pub fn type_of_to_piece(self) -> (r: Piece)
        ensures
            r.value() == self.kind(),
    {
        match self {
            Piece::WPawn | Piece::BPawn => Piece::WPawn,
            Piece::WKnight | Piece::BKnight => Piece::WKnight,
            Piece::WBishop | Piece::BBishop => Piece::WBishop,
            Piece::WRook | Piece::BRook => Piece::WRook,
            Piece::WQueen | Piece::BQueen => Piece::WQueen,
            Piece::WKing | Piece::BKing => Piece::WKing,
            Piece::Empty => Piece::Empty,
        }
    }

    /// The slot of a piece in per-piece tables.
    pub fn as_index(self) -> (r: usize)
        requires
            self != Piece::Empty,
        ensures
            r == self.slot(),
            r < N_PIECES,
    {
        let x = self.as_int() as i16;
        let k: i16 = if x < 0 {
            -x
        } else {
            x
        };
        (k - 1 + if x < 0 {
            6i16
        } else {
            0i16
        }) as usize
    }

    /// The piece held in a slot of per-piece tables.
    pub fn from_index(i: usize) -> (r: Piece)
        requires
            i < N_PIECES,
        ensures
            r == piece_of_slot(i as int),
            r != Piece::Empty,
            r.slot() == i,
            (i < 6) == (r.value() > 0),
    {
        match i {
            0 => Piece::WPawn,
            1 => Piece::WKnight,
            2 => Piece::WBishop,
            3 => Piece::WRook,
            4 => Piece::WQueen,
            5 => Piece::WKing,
            6 => Piece::BPawn,
            7 => Piece::BKnight,
            8 => Piece::BBishop,
            9 => Piece::BRook,
            10 => Piece::BQueen,
            _ => Piece::BKing,
        }
    }
}

/// The piece held in slot `i` of per-piece tables.
pub open spec fn piece_of_slot(i: int) -> Piece {
    if i == 0 {
        Piece::WPawn
    } else if i == 1 {
        Piece::WKnight
    } else if i == 2 {
        Piece::WBishop
    } else if i == 3 {
        Piece::WRook
    } else if i == 4 {
        Piece::WQueen
    } else if i == 5 {
        Piece::WKing
    } else if i == 6 {
        Piece::BPawn
    } else if i == 7 {
        Piece::BKnight
    } else if i == 8 {
        Piece::BBishop
    } else if i == 9 {
        Piece::BRook
    } else if i == 10 {
        Piece::BQueen
    } else {
        Piece::BKing
    }
}

/// The piece that a letter of board notation names, `Empty` for any other character.
pub open spec fn letter_piece(c: char) -> Piece {
    if c == 'P' {
        Piece::WPawn
    } else if c == 'N' {
        Piece::WKnight
    } else if c == 'B' {
        Piece::WBishop
    } else if c == 'R' {
        Piece::WRook
    } else if c == 'Q' {
        Piece::WQueen
    } else if c == 'K' {
        Piece::WKing
    } else if c == 'p' {
        Piece::BPawn
    } else if c == 'n' {
        Piece::BKnight
    } else if c == 'b' {
        Piece::BBishop
    } else if c == 'r' {
        Piece::BRook
    } else if c == 'q' {
        Piece::BQueen
    } else if c == 'k' {
        Piece::BKing
    } else {
        Piece::Empty
    }
}

/// An ASCII letter in lower case; other bytes unchanged.
pub open spec fn ascii_lower(c: u8) -> u8 {
    if 65 <= c <= 90 {
        (c + 32) as u8
    } else {
        c
    }
}

/// Whether two bytes name a square: a file letter `a..h` (either case) and a rank digit
/// `1..8`.
pub open spec fn is_square_name(s: Seq<u8>) -> bool {
    s.len() == 2 && 97 <= ascii_lower(s[0]) <= 104 && 49 <= s[1] <= 56
}

fn to_lower(c: u8) -> (r: u8)
    ensures
        r == ascii_lower(c),
{
    if c >= 65 && c <= 90 {
        c + 32
    } else {
        c
    }
}

impl Square {
    /// The square that an algebraic name such as `e4` names.
    pub fn from_algebraic(s: &[u8]) -> (r: Option<Square>)
        ensures
            r is Some <==> is_square_name(s@),
            r matches Some(q) ==> q@ == (s@[1] - 49) * 8 + (ascii_lower(s@[0]) - 97),
    {
        if s.len() != 2 {
            return None;
        }
        let f = to_lower(s[0]);
        let r = s[1];
        if !(f >= 97 && f <= 104) || !(r >= 49 && r <= 56) {
            return None;
        }
        Some(Square::from_rank_file(r - 49, f - 97))
    }
}

impl std::str::FromStr for Square {
    type Err = ();

    fn from_str(s: &str) -> Result<Square, ()> {
        match Square::from_algebraic(s.as_bytes()) {
            Some(q) => Ok(q),
            None => Err(()),
        }
    }
}

impl std::ops::Not for Bitboard {
    type Output = Bitboard;

    /// The squares not in the set.
    fn not(self) -> Bitboard {
        Bitboard(!self.0)
    }
}

impl std::ops::BitAnd for Bitboard {
    type Output = Bitboard;

    /// The squares in both sets.
    fn bitand(self, rhs: Bitboard) -> Bitboard {
        Bitboard(self.0 & rhs.0)
    }
}

impl std::ops::BitOr for Bitboard {
    type Output = Bitboard;

    /// The squares in either set.
    fn bitor(self, rhs: Bitboard) -> Bitboard {
        Bitboard(self.0 | rhs.0)
    }
}

impl std::ops::BitXor for Bitboard {
    type Output = Bitboard;

    /// The squares in exactly one of the sets.
    fn bitxor(self, rhs: Bitboard) -> Bitboard {
        Bitboard(self.0 ^ rhs.0)
    }
}

impl std::ops::Not for Color {
    type Output = Color;

    /// The other side.
    fn not(self) -> Color {
        Color(!self.0)
    }
}

impl vstd::std_specs::ops::NotSpecImpl for Bitboard {
    open spec fn obeys_not_spec() -> bool {
        true
    }

    open spec fn not_req(self) -> bool {
        true
    }

    open spec fn not_spec(self) -> Bitboard {
        Bitboard(!self.0)
    }
}

impl vstd::std_specs::ops::BitAndSpecImpl for Bitboard {
    open spec fn obeys_bitand_spec() -> bool {
        true
    }

    open spec fn bitand_req(self, rhs: Bitboard) -> bool {
        true
    }

    open spec fn bitand_spec(self, rhs: Bitboard) -> Bitboard {
        Bitboard(self.0 & rhs.0)
    }
}

impl vstd::std_specs::ops::BitOrSpecImpl for Bitboard {
    open spec fn obeys_bitor_spec() -> bool {
        true
    }

    open spec fn bitor_req(self, rhs: Bitboard) -> bool {
        true
    }

    open spec fn bitor_spec(self, rhs: Bitboard) -> Bitboard {
        Bitboard(self.0 | rhs.0)
    }
}

impl vstd::std_specs::ops::BitXorSpecImpl for Bitboard {
    open spec fn obeys_bitxor_spec() -> bool {
        true
    }

    open spec fn bitxor_req(self, rhs: Bitboard) -> bool {
        true
    }

    open spec fn bitxor_spec(self, rhs: Bitboard) -> Bitboard {
        Bitboard(self.0 ^ rhs.0)
    }
}

impl vstd::std_specs::ops::NotSpecImpl for Color {
    open spec fn obeys_not_spec() -> bool {
        true
    }

    open spec fn not_req(self) -> bool {
        true
    }

    open spec fn not_spec(self) -> Color {
        Color(!self.0)
    }
}

impl From<Square> for Bitboard {
    /// The bitboard holding the square alone; the empty one for "no square".
    fn from(v: Square) -> (r: Bitboard) {
        let i = v.as_int();
        if i < 64 {
            Bitboard(1u64 << i)
        } else {
            Bitboard(0)
        }
    }
}

impl vstd::std_specs::convert::FromSpecImpl<Square> for Bitboard {
    open spec fn obeys_from_spec() -> bool {
        true
    }

    open spec fn from_spec(v: Square) -> Bitboard {
        if v@ < 64 {
            Bitboard(1u64 << (v@ as u64))
        } else {
            Bitboard(0)
        }
    }
}

impl From<char> for Color {
    /// The side that a side-to-move letter names: black for `b` or `B`, white otherwise.
    fn from(v: char) -> (r: Color) {
        Color(v == 'b' || v == 'B')
    }
}

impl vstd::std_specs::convert::FromSpecImpl<char> for Color {
    open spec fn obeys_from_spec() -> bool {
        true
    }

    open spec fn from_spec(v: char) -> Color {
        Color(v == 'b' || v == 'B')
    }
}

} // verus!
