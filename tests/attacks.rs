use bitchess::attacks::magic::{blockers_size, const_popcnt, Magic};
use bitchess::attacks::non_sliding::safe_step;
use bitchess::attacks::sliding::{
    bishop_moves, relevant_occupancies, rook_directions_list, rook_moves, sliding_attacks,
    sliding_occupancies,
};
use bitchess::attacks::{piece_can_travel_in_sliding_direction, AttackTables};
use bitchess::board::Board;
use bitchess::types::{Bitboard, Color, Direction, File, Piece, Rank, Square, BB};
use bitchess::utils::{maxi8, mini8};

fn sq(i: u8) -> Square {
    Square::from_index(i)
}

const ALL_DIRECTIONS: [Direction; 12] = [
    Direction::North,
    Direction::NorthNorth,
    Direction::South,
    Direction::SouthSouth,
    Direction::East,
    Direction::EastEast,
    Direction::West,
    Direction::WestWest,
    Direction::NorthEast,
    Direction::SouthEast,
    Direction::NorthWest,
    Direction::SouthWest,
];

#[test]
fn shifts_never_wrap() {
    for i in 0..64u8 {
        let s = sq(i);
        let b = s.to_bitboard();
        for d in ALL_DIRECTIONS {
            let r = b.shift_by_direction(d);
            if s.distance_from_edge(d) == 0 {
                assert_eq!(r, BB(0), "square {i} direction {d:?}");
            } else {
                let t = i as i32 + d.as_int() as i32;
                assert_eq!(r, BB(1u64 << t), "square {i} direction {d:?}");
            }
        }
    }
    assert_eq!(sq(7).to_bitboard().shift_by_direction(Direction::East), BB(0));
    assert_eq!(sq(8).to_bitboard().shift_by_direction(Direction::West), BB(0));
    assert_eq!(sq(60).to_bitboard().shift_by_direction(Direction::North), BB(0));
    assert_eq!(sq(3).to_bitboard().shift_by_direction(Direction::South), BB(0));
    assert_eq!(sq(54).to_bitboard().shift_by_direction(Direction::NorthNorth), BB(0));
    assert_eq!(sq(6).to_bitboard().shift_by_direction(Direction::EastEast), BB(0));
    assert_eq!(sq(5).to_bitboard().shift_by_direction(Direction::EastEast), BB(1 << 7));
}

#[test]
fn distances_to_edges() {
    let e4 = sq(28);
    assert_eq!(e4.distance_from_edge(Direction::North), 4);
    assert_eq!(e4.distance_from_edge(Direction::South), 3);
    assert_eq!(e4.distance_from_edge(Direction::East), 3);
    assert_eq!(e4.distance_from_edge(Direction::West), 4);
    assert_eq!(e4.distance_from_edge(Direction::NorthEast), 3);
    assert_eq!(e4.distance_from_edge(Direction::SouthWest), 3);
    assert_eq!(e4.distance_from_edge(Direction::NorthNorth), 2);
    assert_eq!(e4.distance_from_edge(Direction::WestWest), 2);
    assert_eq!(sq(48).distance_from_edge(Direction::NorthNorth), 0);
    assert_eq!(sq(0).distance_from_edge(Direction::Stay), 255);
}

#[test]
fn masks_of_files_and_ranks() {
    assert_eq!(File(0).mask(), BB(0x0101_0101_0101_0101));
    assert_eq!(File(7).clear(), BB(!0x8080_8080_8080_8080u64));
    assert_eq!(Rank(1).mask(), BB(0xff00));
    assert_eq!(Rank(7).clear(), BB(0x00ff_ffff_ffff_ffff));
}

#[test]
fn squares_and_pieces() {
    let s = Square::from_rank_file(3, 4);
    assert_eq!(s.as_int(), 28);
    assert_eq!(s.rank(), 3);
    assert_eq!(s.file(), 4);
    assert_eq!(Piece::from_char('q'), Piece::BQueen);
    assert_eq!(Piece::from_char('x'), Piece::Empty);
    assert_eq!(Piece::WKnight.to_char(), 'N');
    assert_eq!(Piece::BRook.type_of(), 4);
    assert_eq!(Piece::BRook.color(), Color::black());
    assert!(Piece::WPawn.is_white() && !Piece::WPawn.is_black());
    assert!(!Piece::Empty.is_white() && !Piece::Empty.is_black());
    assert_eq!(Piece::BKing.as_index(), 11);
    assert_eq!(Piece::WBishop.as_index(), 2);
    assert_eq!(Piece::from_index(9), Piece::BRook);
    assert_eq!(Piece::BQueen.type_of_to_piece(), Piece::WQueen);
    assert_eq!(maxi8(-3, 2), 2);
    assert_eq!(mini8(-3, 2), -3);
}

#[test]
fn rays_stop_on_blockers() {
    let a1 = sq(0);
    assert_eq!(sliding_attacks(a1, BB(0), Direction::North), BB(0x0101_0101_0101_0100));
    let blocked = sliding_attacks(a1, BB(1 << 24), Direction::North);
    assert_eq!(blocked, BB((1 << 8) | (1 << 16) | (1 << 24)));
    assert_eq!(sliding_attacks(sq(7), BB(0), Direction::East), BB(0));
    assert_eq!(sliding_attacks(sq(9), BB(0), Direction::Stay), BB(1 << 9));
    assert_eq!(sliding_occupancies(a1, Direction::North), BB(0x0001_0101_0101_0100));
    assert_eq!(rook_moves(a1, BB(0)), BB(0x0101_0101_0101_01fe));
    assert_eq!(bishop_moves(sq(27), BB(0)), BB(0x8041_2214_0014_2241));
    let dirs = rook_directions_list();
    assert_eq!(relevant_occupancies(a1, &dirs), BB(0x0001_0101_0101_017e));
}

#[test]
fn non_sliding_steps() {
    assert_eq!(safe_step(sq(0), 17), BB(1 << 17));
    assert_eq!(safe_step(sq(7), 10), BB(0));
    assert_eq!(safe_step(sq(7), 6), BB(1 << 13));
    assert_eq!(safe_step(sq(63), 1), BB(0));
    let t = AttackTables::new();
    assert_eq!(Piece::WKnight.attacks(&t, sq(0), BB(0)), BB(0x20400));
    assert_eq!(Piece::BKing.attacks(&t, sq(0), BB(0)), BB(0x302));
    assert_eq!(Piece::WPawn.attacks(&t, sq(12), BB(0)), BB((1 << 19) | (1 << 21)));
    assert_eq!(Piece::BPawn.attacks(&t, sq(12), BB(0)), BB((1 << 3) | (1 << 5)));
    assert_eq!(Piece::WPawn.attacks(&t, sq(15), BB(0)), BB(1 << 22));
    assert_eq!(Piece::Empty.attacks(&t, sq(15), BB(0)), BB(0));
}

#[test]
fn table_lookups_match_ray_casts() {
    let t = AttackTables::new();
    let occupancies = [
        0u64,
        0xffff_ffff_ffff_ffff,
        0x0000_1020_0408_4000,
        0x8142_2418_1824_4281,
        0x00ff_0000_0000_ff00,
        0x0123_4567_89ab_cdef,
    ];
    for i in 0..64u8 {
        for &o in occupancies.iter() {
            let occ = BB(o);
            assert_eq!(t.rooks.lookup(sq(i), occ), rook_moves(sq(i), occ));
            assert_eq!(t.bishops.lookup(sq(i), occ), bishop_moves(sq(i), occ));
            let q = Piece::WQueen.attacks(&t, sq(i), occ);
            assert_eq!(q.0, rook_moves(sq(i), occ).0 | bishop_moves(sq(i), occ).0);
        }
    }
}

#[test]
fn every_subset_has_its_own_index() {
    let t = AttackTables::new();
    for i in 0..64usize {
        let m: Magic = t.rooks.magics[i];
        let n = blockers_size(m.mask.0);
        assert_eq!(n, 1usize << const_popcnt(m.mask.0));
        assert!(n <= 4096);
        let mut seen = vec![false; n];
        let mut subset = m.mask.0;
        let mut count = 0usize;
        loop {
            let idx = m.index(BB(subset));
            assert!(!seen[idx]);
            seen[idx] = true;
            assert_eq!(t.rooks.attacks[i][idx], rook_moves(sq(i as u8), BB(subset)));
            count += 1;
            subset = subset.wrapping_sub(1) & m.mask.0;
            if subset == m.mask.0 {
                break;
            }
        }
        assert_eq!(count, n);
        assert!(seen.iter().all(|&x| x));
    }
    let b = t.bishops.magics[27];
    assert_eq!(const_popcnt(b.mask.0), 9);
    assert_eq!(t.rooks.attacks[0].len(), 4096);
    assert_eq!(t.bishops.attacks[27].len(), 512);
}

#[test]
fn empty_mask_has_one_subset() {
    let m = Magic::new(BB(0), BB(0), 0);
    assert_eq!(blockers_size(0), 1);
    assert_eq!(m.index(BB(0xffff)), 0);
}

#[test]
fn index_packs_masked_bits() {
    let m = Magic::new(BB(0b1011_0000), BB(0), 0);
    assert_eq!(m.index(BB(0b1001_0000)), 0b101);
    assert_eq!(m.index(BB(0b0010_0000)), 0b010);
    assert_eq!(m.index(BB(0b0100_1111)), 0);
}

#[test]
fn multiplicative_index() {
    let m = Magic::new(BB(0xff), BB(3), 60);
    assert_eq!(m.const_index(BB(0x1f0)), ((0xf0u64 * 3) >> 60) as usize);
    let m = Magic::new(BB(0xffff_ffff_ffff_ffff), BB(0x8000_0000_0000_0001), 1);
    assert_eq!(m.const_index(BB(3)), (3u64.wrapping_mul(0x8000_0000_0000_0001) >> 1) as usize);
}

#[test]
fn sliding_directions_of_pieces() {
    assert!(piece_can_travel_in_sliding_direction(Piece::BRook, Direction::North));
    assert!(!piece_can_travel_in_sliding_direction(Piece::BRook, Direction::NorthEast));
    assert!(piece_can_travel_in_sliding_direction(Piece::WQueen, Direction::SouthWest));
    assert!(piece_can_travel_in_sliding_direction(Piece::WBishop, Direction::SouthWest));
    assert!(!piece_can_travel_in_sliding_direction(Piece::WKnight, Direction::East));
    assert!(!piece_can_travel_in_sliding_direction(Piece::WRook, Direction::NorthNorth));
}

fn populated(fen: &str, t: &AttackTables) -> Board {
    let mut b = Board::from_fen(fen).unwrap();
    b.populate_state(t);
    b
}

#[test]
fn rook_pins_bishop_along_file() {
    let t = AttackTables::new();
    let b = populated("4r3/8/8/8/4B3/8/8/4K3 w - - 0 1", &t);
    assert_eq!(b.state.king_blockers[0], BB(1 << 28));
    assert_eq!(b.state.pinners[0], BB(1 << 60));
    assert_eq!(b.state.king_blockers[1], BB(0));
    assert_eq!(b.state.pinners[1], BB(0));
}

#[test]
fn knight_cannot_pin() {
    let t = AttackTables::new();
    let b = populated("4n3/8/8/8/4B3/8/8/4K3 w - - 0 1", &t);
    assert_eq!(b.state.king_blockers[0], BB(0));
    assert_eq!(b.state.pinners[0], BB(0));
}

#[test]
fn diagonal_pin_of_black_piece() {
    let t = AttackTables::new();
    let b = populated("7k/8/5n2/8/8/8/1B6/K7 b - - 0 1", &t);
    assert_eq!(b.state.king_blockers[1], BB(1 << 45));
    assert_eq!(b.state.pinners[1], BB(1 << 9));
}

#[test]
fn rook_on_open_file_checks() {
    let t = AttackTables::new();
    let b = populated("4k3/8/8/8/8/8/8/4R3 w - - 0 1", &t);
    assert_eq!(b.state.checkers, BB(1 << 4));
    let blocked = populated("4k3/8/8/8/4P3/8/8/4R3 w - - 0 1", &t);
    assert_eq!(blocked.state.checkers, BB(0));
}

#[test]
fn attacks_of_starting_position() {
    let t = AttackTables::new();
    let mut b = Board::new_starting();
    b.populate_state(&t);
    assert_eq!(b.get_attacks::<false>(), BB(0x0000_0000_00ff_ff7e));
    assert_eq!(b.get_attacks::<true>(), BB(0x7eff_ff00_0000_0000));
    assert_eq!(b.state.checkers, BB(0));
    assert_eq!(b.state.pinners, [BB(0), BB(0)]);
    let again = b.clone();
    b.populate_state(&t);
    assert_eq!(b, again);
}

#[test]
fn board_without_kings_has_no_pins() {
    let t = AttackTables::new();
    let b = populated("8/8/8/8/4r3/8/4B3/8 w - - 0 1", &t);
    assert_eq!(b.state.pinners, [BB(0), BB(0)]);
    assert_eq!(b.state.king_blockers, [BB(0), BB(0)]);
    assert_eq!(b.get_attacks::<true>().0 & (1 << 12), 1 << 12);
}

#[test]
fn empty_position_generates_nothing_yet() {
    let b = Board::new_starting();
    let _moves = b.generate_moves();
    let _ = Bitboard(0);
}

#[test]
fn bitboard_operators() {
    let a = BB(0b1100);
    let b = BB(0b1010);
    assert_eq!(a & b, BB(0b1000));
    assert_eq!(a | b, BB(0b1110));
    assert_eq!(a ^ b, BB(0b0110));
    assert_eq!(!BB(0), BB(u64::MAX));
    assert_eq!(Bitboard::from(sq(9)), BB(1 << 9));
    assert_eq!(Bitboard::from(Square::none()), BB(0));
    assert_eq!(!Color::white(), Color::black());
    assert_eq!(Color::from('b'), Color::black());
    assert_eq!(Color::from('W'), Color::white());
}

#[test]
fn table_rows_fit_their_sizes() {
    let t = AttackTables::new();
    for i in 0..64usize {
        assert!(const_popcnt(t.rooks.magics[i].mask.0) <= 12);
        assert!(const_popcnt(t.bishops.magics[i].mask.0) <= 9);
        assert!(t.rooks.attacks[i].len() <= 4096);
        assert!(t.bishops.attacks[i].len() <= 512);
    }
}
