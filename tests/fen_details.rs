use bitchess::board::{Board, ALL_CASTLING, BLACK_OO, WHITE_OO, WHITE_OOO};
use std::str::FromStr;

use bitchess::fen::{parse_castling_rights, parse_fen, FenError};
use bitchess::types::{Piece, Square};

fn err_of(fen: &str) -> FenError {
    match Board::from_fen(fen) {
        Ok(_) => panic!("should fail: {fen}"),
        Err(e) => e,
    }
}

#[test]
fn custom_position_fields() {
    let b = Board::from_fen("r1bqkbnr/pppppppp/n7/8/8/8/PPPPPPPP/RNBQKBNR b KQ - 12 34").unwrap();
    assert!(b.side_to_move.0);
    assert_eq!(b.state.castling_rights, WHITE_OO | WHITE_OOO);
    assert_eq!(b.state.rule_50, 12);
    assert_eq!(b.mailbox[40], Piece::BKnight);
    assert_eq!(b.mailbox[57], Piece::Empty);
    assert_eq!(b.mailbox[56], Piece::BRook);
    assert_eq!(b.piece_count[7], 2);
    assert_eq!(b.piece_bb[7].0, (1u64 << 40) | (1u64 << 62));
}

#[test]
fn starting_position_fields() {
    let b = Board::new_starting();
    assert_eq!(b.state.castling_rights, ALL_CASTLING);
    assert_eq!(b.piece_bb[0].0, 0xff00);
    assert_eq!(b.piece_bb[5].0, 0x10);
    assert_eq!(b.piece_bb[11].0, 0x1000_0000_0000_0000);
    assert_eq!(b.color_bb[0].0, 0xffff);
    assert_eq!(b.color_bb[1].0, 0xffff_0000_0000_0000);
    assert_eq!(b.piece_count, [8, 2, 2, 2, 1, 1, 8, 2, 2, 2, 1, 1]);
    assert_eq!(b.state.ep_square, Square::none());
}

#[test]
fn en_passant_square_is_read() {
    let b = Board::from_fen("rnbqkbnr/pppp1ppp/8/4p3/8/8/PPPPPPPP/RNBQKBNR w KQkq e6 0 2").unwrap();
    assert_eq!(b.state.ep_square.as_int(), 44);
}

#[test]
fn castling_letters_accumulate() {
    let b = Board::from_fen("8/8/8/8/8/8/8/8 w Kk - 0 1").unwrap();
    assert_eq!(b.state.castling_rights, WHITE_OO | BLACK_OO);
}

#[test]
fn each_error_has_its_input() {
    assert_eq!(err_of("8/8/8/8/8/8/8 w - - 0 1"), FenError::TooFewRanks);
    assert_eq!(err_of("8/8/8/8/8/8/8/8/8 w - - 0 1"), FenError::TooManyRanks);
    assert_eq!(err_of("8/8/8/8/8/8/8/72 w - - 0 1"), FenError::TooManySquaresOnRank);
    assert_eq!(err_of("8/8/8/8/8/8/8/8p w - - 0 1"), FenError::TooManySquaresOnRank);
    assert_eq!(err_of("7/8/8/8/8/8/8/8 w - - 0 1"), FenError::NotEnoughSquaresOnRank);
    assert_eq!(err_of("8/8/8/8/8/8/8/7 w - - 0 1"), FenError::NotEnoughSquaresOnRank);
    assert_eq!(err_of("8/8/8/8/8/8/8/X7 w - - 0 1"), FenError::InvalidCharacter(b'X'));
    assert_eq!(err_of("8/8/8/8/8/8/8/8 x - - 0 1"), FenError::InvalidSideToMove(b'x'));
    assert_eq!(err_of("8/8/8/8/8/8/8/8 w KQa - 0 1"), FenError::InvalidCastlingRights(b'a'));
    assert_eq!(err_of("8/8/8/8/8/8/8/8 w - i3 0 1"), FenError::UnexpectedCharacter(b'i'));
    assert_eq!(err_of("8/8/8/8/8/8/8/8 w - a 0 1"), FenError::InvalidEnPassantSquare);
    assert_eq!(err_of("8/8/8/8/8/8/8/8 w - - x 1"), FenError::InvalidHalfmoveClock);
    assert_eq!(err_of("8/8/8/8/8/8/8/8 w - - 256 1"), FenError::InvalidHalfmoveClock);
    assert_eq!(err_of("8/8/8/8/8/8/8/8 w - - 0 y"), FenError::InvalidFullmoveNumber);
    assert_eq!(err_of("8/8/8/8/8/8/8/8 w - - 0 1 EXTRA"), FenError::TooManyFields);
}

#[test]
fn halfmove_clock_limit() {
    let b = Board::from_fen("8/8/8/8/8/8/8/8 w - - 255 1").unwrap();
    assert_eq!(b.state.rule_50, 255);
}

#[test]
fn parse_bytes_directly() {
    let b = parse_fen(b"8/8/8/8/8/8/8/K7 b - - 0 1").unwrap();
    assert_eq!(b.mailbox[0], Piece::WKing);
    assert!(b.side_to_move.0);
}

#[test]
fn castling_text() {
    assert_eq!(parse_castling_rights(b"KQkq"), Some(ALL_CASTLING));
    assert_eq!(parse_castling_rights(b"Kk"), Some(WHITE_OO | BLACK_OO));
    assert_eq!(parse_castling_rights(b""), Some(0));
    assert_eq!(parse_castling_rights(b"-"), None);
    assert_eq!(parse_castling_rights(b"KX"), None);
}

#[test]
fn square_names() {
    assert_eq!(Square::from_str("e4").unwrap().as_int(), 28);
    assert_eq!(Square::from_str("A1").unwrap().as_int(), 0);
    assert_eq!(Square::from_str("h8").unwrap().as_int(), 63);
    assert!(Square::from_str("i1").is_err());
    assert!(Square::from_str("a9").is_err());
    assert!(Square::from_str("e44").is_err());
    assert!(Square::from_algebraic(b"").is_none());
}

#[test]
fn text_ending_inside_layout_is_refused() {
    assert_eq!(err_of(""), FenError::TooFewRanks);
    assert_eq!(err_of("8"), FenError::TooFewRanks);
    assert_eq!(err_of("8/8/8/8/8/8/8"), FenError::TooFewRanks);
    assert_eq!(err_of("8/8/8/8/8/8/8/7"), FenError::NotEnoughSquaresOnRank);
    assert_eq!(err_of("8/8/8/8/8/8/8 "), FenError::TooFewRanks);
    let b = Board::from_fen("8/8/8/8/8/8/8/8").unwrap();
    assert_eq!(b, Board::new_empty());
}
