//! Loading a position from Forsyth-Edwards notation.
use vstd::prelude::*;

use vstd::string::StringSliceAdditionalSpecFns;

use crate::board::{Board, BLACK_OO, BLACK_OOO, WHITE_OO, WHITE_OOO};
use crate::types::{letter_piece, Bitboard, Color, Piece, Square};

verus! {

/// Why a position text was refused. Byte payloads are the offending character.
#[derive(Clone, Copy, PartialEq, Eq, Structural, Debug)]
pub enum FenError {
    TooFewRanks,
    TooManyRanks,
    TooManySquaresOnRank,
    NotEnoughSquaresOnRank,
    InvalidCharacter(u8),
    InvalidSideToMove(u8),
    InvalidCastlingRights(u8),
    InvalidEnPassantSquare,
    UnexpectedCharacter(u8),
    InvalidHalfmoveClock,
    InvalidFullmoveNumber,
    TooManyFields,
}

/// Where reading a position text stands: the field being read (`phase`, counted by
/// spaces), the rank (`8` down to `1`) and file (`1` up to `9`, one past the last square)
/// of the next square, and what has been read so far.
pub struct FenProgress {
    pub phase: int,
    pub rank: int,
    pub file: int,
    pub mailbox: Seq<Piece>,
    pub black: bool,
    pub castling: u8,
    pub ep: int,
    pub rule50: int,
}

/// Before the first character: rank 8, file a, an empty board, white to move.
pub open spec fn fen_start() -> FenProgress {
    FenProgress {
        phase: 0,
        rank: 8,
        file: 1,
        mailbox: Seq::new(64, |i: int| Piece::Empty),
        black: false,
        castling: 0,
        ep: 64,
        rule50: 0,
    }
}

pub open spec fn is_digit(c: u8) -> bool {
    48 <= c <= 57
}

/// The castling right that a letter names; none for `-`.
pub open spec fn castling_bit(c: u8) -> u8 {
    if c == 75 {
        WHITE_OO
    } else if c == 81 {
        WHITE_OOO
    } else if c == 107 {
        BLACK_OO
    } else if c == 113 {
        BLACK_OOO
    } else {
        0
    }
}

/// One character of the piece placement: a piece letter fills the next square, a digit
/// `1..=8` skips that many squares, `/` starts the next rank down.
pub open spec fn placement_step(st: FenProgress, c: u8) -> Result<FenProgress, FenError> {
    let p = letter_piece(c as char);
    if p != Piece::Empty {
        if st.file > 8 {
            Err(FenError::TooManySquaresOnRank)
        } else {
            Ok(
                FenProgress {
                    mailbox: st.mailbox.update((st.rank - 1) * 8 + st.file - 1, p),
                    file: st.file + 1,
                    ..st
                },
            )
        }
    } else if 49 <= c <= 56 {
        if st.file + (c - 48) > 9 {
            Err(FenError::TooManySquaresOnRank)
        } else {
            Ok(FenProgress { file: st.file + (c - 48), ..st })
        }
    } else if c == 47 {
        if st.file != 9 {
            Err(FenError::NotEnoughSquaresOnRank)
        } else if st.rank == 1 {
            Err(FenError::TooManyRanks)
        } else {
            Ok(FenProgress { rank: st.rank - 1, file: 1, ..st })
        }
    } else {
        Err(FenError::InvalidCharacter(c))
    }
}

/// Reads the character at `i`: the progress after it and where reading goes on.
pub open spec fn fen_step(s: Seq<u8>, i: int, st: FenProgress) -> Result<(FenProgress, int), FenError> {
    let c = s[i];
    if c == 32 {
        Ok((FenProgress { phase: st.phase + 1, ..st }, i + 1))
    } else if st.phase == 0 {
        match placement_step(st, c) {
            Ok(n) => Ok((n, i + 1)),
            Err(e) => Err(e),
        }
    } else if st.phase == 1 {
        if st.rank != 1 {
            Err(FenError::TooFewRanks)
        } else if st.file != 9 {
            Err(FenError::NotEnoughSquaresOnRank)
        } else if c == 119 || c == 87 {
            Ok((FenProgress { black: false, ..st }, i + 1))
        } else if c == 98 || c == 66 {
            Ok((FenProgress { black: true, ..st }, i + 1))
        } else {
            Err(FenError::InvalidSideToMove(c))
        }
    } else if st.phase == 2 {
        if c == 75 || c == 81 || c == 107 || c == 113 || c == 45 {
            Ok((FenProgress { castling: st.castling | castling_bit(c), ..st }, i + 1))
        } else {
            Err(FenError::InvalidCastlingRights(c))
        }
    } else if st.phase == 3 {
        if c == 45 {
            Ok((st, i + 1))
        } else if 97 <= c <= 104 {
            if i + 1 < s.len() && 49 <= s[i + 1] <= 56 {
                Ok((FenProgress { ep: (s[i + 1] - 49) * 8 + (c - 97), ..st }, i + 2))
            } else {
                Err(FenError::InvalidEnPassantSquare)
            }
        } else {
            Err(FenError::UnexpectedCharacter(c))
        }
    } else if st.phase == 4 {
        if is_digit(c) && st.rule50 * 10 + (c - 48) <= 255 {
            Ok((FenProgress { rule50: st.rule50 * 10 + (c - 48), ..st }, i + 1))
        } else {
            Err(FenError::InvalidHalfmoveClock)
        }
    } else if st.phase == 5 {
        if is_digit(c) {
            Ok((st, i + 1))
        } else {
            Err(FenError::InvalidFullmoveNumber)
        }
    } else {
        Err(FenError::TooManyFields)
    }
}

/// The end of the text: the layout must have been read in full, eight ranks of eight
/// squares.
pub open spec fn fen_end(st: FenProgress) -> Result<FenProgress, FenError> {
    if st.rank != 1 {
        Err(FenError::TooFewRanks)
    } else if st.file != 9 {
        Err(FenError::NotEnoughSquaresOnRank)
    } else {
        Ok(st)
    }
}

/// Reads the text from position `i` to its end.
pub open spec fn fen_run(s: Seq<u8>, i: int, st: FenProgress) -> Result<FenProgress, FenError>
    decreases s.len() - i,
{
    if i < 0 || i >= s.len() {
        fen_end(st)
    } else {
        match fen_step(s, i, st) {
            Ok((n, j)) => if j > i {
                fen_run(s, j, n)
            } else {
                fen_end(n)
            },
            Err(e) => Err(e),
        }
    }
}

/// A text read to its end with success had a complete layout: the last square read was
/// h1, after eight ranks of eight squares.
pub proof fn lemma_run_complete(s: Seq<u8>, i: int, st: FenProgress)
    ensures
        fen_run(s, i, st) matches Ok(f) ==> f.rank == 1 && f.file == 9,
    decreases s.len() - i,
{
    if 0 <= i < s.len() {
        if let Ok((n, j)) = fen_step(s, i, st) {
            if j > i {
                lemma_run_complete(s, j, n);
            }
        }
    }
}

/// A board holds what has been read, and nothing derived yet.
pub open spec fn holds_progress(b: Board, st: FenProgress) -> bool {
    &&& b.wf()
    &&& b.mailbox@ == st.mailbox
    &&& b.side_to_move.0 == st.black
    &&& b.state.castling_rights == st.castling
    &&& b.state.ep_square@ == st.ep
    &&& b.state.rule_50 == st.rule50
    &&& b.state.attacks@ == seq![Bitboard(0), Bitboard(0)]
    &&& b.state.checkers == Bitboard(0)
    &&& b.state.king_blockers@ == seq![Bitboard(0), Bitboard(0)]
    &&& b.state.pinners@ == seq![Bitboard(0), Bitboard(0)]
}

/// The squares not yet reached while reading the placement: those below rank `rank`, and
/// those of rank `rank` from file `file` on.
pub open spec fn unvisited(rank: int, file: int, sq: int) -> bool {
    sq / 8 < rank - 1 || (sq / 8 == rank - 1 && sq % 8 >= file - 1)
}

/// Reads a position from the bytes of its Forsyth-Edwards text: piece placement, side to
/// move, castling rights, en-passant square, halfmove clock and fullmove number, separated
/// by spaces. The layout must be complete, eight ranks of eight squares; the fields after it
/// may be left out at the end.
pub fn parse_fen(s: &[u8]) -> (r: Result<Board, FenError>)
    ensures
        match fen_run(s@, 0, fen_start()) {
            Ok(st) => r matches Ok(b) && holds_progress(b, st) && st.rank == 1 && st.file == 9,
            Err(e) => r == Err::<Board, FenError>(e),
        },
{
    proof {
        lemma_run_complete(s@, 0, fen_start());
    }
    let mut b = Board::new_empty();
    let mut i: usize = 0;
    let mut rank: usize = 8;
    let mut file: usize = 1;
    let mut phase: usize = 0;
    let ghost mut st = fen_start();
    proof {
        assert(b.mailbox@ =~= st.mailbox);
    }
    while i < s.len()
        invariant
            fen_run(s@, 0, fen_start()) == fen_run(s@, i as int, st),
            i <= s.len(),
            phase <= i,
            st.phase == phase,
            st.rank == rank,
            st.file == file,
            1 <= rank <= 8,
            1 <= file <= 9,
            0 <= st.rule50 <= 255,
            holds_progress(b, st),
            forall|sq: int| 0 <= sq < 64 && unvisited(rank as int, file as int, sq) ==> #[trigger] st.mailbox[sq] == Piece::Empty,
        decreases s.len() - i,
    {
        let c = s[i];
        if c == 32 {
            phase = phase + 1;
            proof {
                st = FenProgress { phase: st.phase + 1, ..st };
            }
            i = i + 1;
        } else if phase == 0 {
            let p = Piece::from_char(c as char);
            if p != Piece::Empty {
                if file > 8 {
                    return Err(FenError::TooManySquaresOnRank);
                }
                let sq = (rank - 1) * 8 + file - 1;
                proof {
                    assert(unvisited(rank as int, file as int, sq as int));
                }
                b.put_piece(sq, p);
                proof {
                    st = FenProgress {
                        mailbox: st.mailbox.update((st.rank - 1) * 8 + st.file - 1, p),
                        file: st.file + 1,
                        ..st
                    };
                    assert forall|q: int| 0 <= q < 64 && unvisited(rank as int, file + 1, q) implies #[trigger] st.mailbox[q] == Piece::Empty by {
                        assert(q != sq);
                        assert(unvisited(rank as int, file as int, q));
                    }
                }
                file = file + 1;
            } else if c >= 49 && c <= 56 {
                let n = (c - 48) as usize;
                if file + n > 9 {
                    return Err(FenError::TooManySquaresOnRank);
                }
                proof {
                    st = FenProgress { file: st.file + (c - 48), ..st };
                    assert forall|q: int| 0 <= q < 64 && unvisited(rank as int, file + n, q) implies #[trigger] st.mailbox[q] == Piece::Empty by {
                        assert(unvisited(rank as int, file as int, q));
                    }
                }
                file = file + n;
            } else if c == 47 {
                if file != 9 {
                    return Err(FenError::NotEnoughSquaresOnRank);
                }
                if rank == 1 {
                    return Err(FenError::TooManyRanks);
                }
                proof {
                    st = FenProgress { rank: st.rank - 1, file: 1, ..st };
                    assert forall|q: int| 0 <= q < 64 && unvisited(rank - 1, 1, q) implies #[trigger] st.mailbox[q] == Piece::Empty by {
                        assert(unvisited(rank as int, file as int, q));
                    }
                }
                rank = rank - 1;
                file = 1;
            } else {
                return Err(FenError::InvalidCharacter(c));
            }
            i = i + 1;
        } else if phase == 1 {
            if rank != 1 {
                return Err(FenError::TooFewRanks);
            }
            if file != 9 {
                return Err(FenError::NotEnoughSquaresOnRank);
            }
            if c == 119 || c == 87 {
                b.side_to_move = Color(false);
            } else if c == 98 || c == 66 {
                b.side_to_move = Color(true);
            } else {
                return Err(FenError::InvalidSideToMove(c));
            }
            proof {
                st = FenProgress { black: c == 98 || c == 66, ..st };
            }
            i = i + 1;
        } else if phase == 2 {
            if !(c == 75 || c == 81 || c == 107 || c == 113 || c == 45) {
                return Err(FenError::InvalidCastlingRights(c));
            }
            let bit: u8 = if c == 75 {
                WHITE_OO
            } else if c == 81 {
                WHITE_OOO
            } else if c == 107 {
                BLACK_OO
            } else if c == 113 {
                BLACK_OOO
            } else {
                0
            };
            b.state.castling_rights = b.state.castling_rights | bit;
            proof {
                st = FenProgress { castling: st.castling | castling_bit(c), ..st };
            }
            i = i + 1;
        } else if phase == 3 {
            if c == 45 {
                i = i + 1;
            } else if c >= 97 && c <= 104 {
                if i + 1 >= s.len() || !(s[i + 1] >= 49 && s[i + 1] <= 56) {
                    return Err(FenError::InvalidEnPassantSquare);
                }
                b.state.ep_square = Square::from_rank_file(s[i + 1] - 49, c - 97);
                proof {
                    st = FenProgress { ep: (s[i + 1] - 49) * 8 + (c - 97), ..st };
                }
                i = i + 2;
            } else {
                return Err(FenError::UnexpectedCharacter(c));
            }
        } else if phase == 4 {
            if !(c >= 48 && c <= 57) {
                return Err(FenError::InvalidHalfmoveClock);
            }
            let v: u32 = b.state.rule_50 as u32 * 10 + (c - 48) as u32;
            if v > 255 {
                return Err(FenError::InvalidHalfmoveClock);
            }
            b.state.rule_50 = v as u8;
            proof {
                st = FenProgress { rule50: st.rule50 * 10 + (c - 48), ..st };
            }
            i = i + 1;
        } else if phase == 5 {
            if !(c >= 48 && c <= 57) {
                return Err(FenError::InvalidFullmoveNumber);
            }
            i = i + 1;
        } else {
            return Err(FenError::TooManyFields);
        }
    }
    if rank != 1 {
        return Err(FenError::TooFewRanks);
    }
    if file != 9 {
        return Err(FenError::NotEnoughSquaresOnRank);
    }
    Ok(b)
}

impl Board {
    /// Reads a position from its Forsyth-Edwards text; see [`parse_fen`].
    pub fn from_fen(s: &str) -> (r: Result<Board, FenError>)
        ensures
            match fen_run(s.spec_bytes(), 0, fen_start()) {
                Ok(st) => r matches Ok(b) && holds_progress(b, st) && st.rank == 1 && st.file == 9,
                Err(e) => r == Err::<Board, FenError>(e),
            },
    {
        parse_fen(s.as_bytes())
    }
}

impl std::str::FromStr for Board {
    type Err = FenError;

    fn from_str(s: &str) -> Result<Board, FenError> {
        Board::from_fen(s)
    }
}

/// The rights named by the first `n` letters of `s`, together.
pub open spec fn castling_fold(s: Seq<u8>, n: nat) -> u8
    decreases n,
{
    if n == 0 {
        0
    } else {
        castling_fold(s, (n - 1) as nat) | castling_bit(s[n - 1])
    }
}

pub open spec fn is_castling_letter(c: u8) -> bool {
    c == 75 || c == 81 || c == 107 || c == 113
}

/// The castling rights that a text made of the letters `K`, `Q`, `k`, `q` names; `None`
/// for a text with any other character.
pub fn parse_castling_rights(s: &[u8]) -> (r: Option<u8>)
    ensures
        r is Some <==> forall|i: int| 0 <= i < s@.len() ==> is_castling_letter(#[trigger] s@[i]),
        r matches Some(v) ==> v == castling_fold(s@, s@.len()),
{
    let mut acc: u8 = 0;
    let mut i: usize = 0;
    while i < s.len()
        invariant
            i <= s@.len(),
            acc == castling_fold(s@, i as nat),
            forall|k: int| 0 <= k < i ==> is_castling_letter(#[trigger] s@[k]),
        decreases s.len() - i,
    {
        let c = s[i];
        let bit: u8 = if c == 75 {
            WHITE_OO
        } else if c == 81 {
            WHITE_OOO
        } else if c == 107 {
            BLACK_OO
        } else if c == 113 {
            BLACK_OOO
        } else {
            return None;
        };
        acc = acc | bit;
        i = i + 1;
    }
    Some(acc)
}

} // verus!
