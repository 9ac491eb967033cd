//! Attack sets of every piece, from tables built once.
pub mod magic;
pub mod non_sliding;
pub mod sliding;

use vstd::prelude::*;

use vstd::arithmetic::power2::pow2;

use crate::attacks::magic::{
    blockers_size, is_subset, lemma_halves, lemma_pext_bound, lemma_pext_injective,
    lemma_pext_masked, pext, Magic,
};
use crate::attacks::non_sliding::{
    generate_king_attacks, generate_knight_attacks, generate_pawn_attacks, king_set, knight_set,
    pawn_set,
};
use crate::attacks::sliding::{
    bishop_directions, bishop_directions_list, bishop_set, generate_attacks, lemma_relevant_sizes,
    lemma_slider_relevant,
    relevant_occupancies, relevant_set, rook_directions, rook_directions_list, rook_set,
    slider_directions, slider_entry, slider_set,
};
use crate::bits::{bits, lemma_bits_and, lemma_bits_or, lemma_bits_zero, popcount};
use crate::types::{Bitboard, Direction, Piece, Square, BB};

verus! {

/// The attack table of one slider kind: for each square its relevant occupancy mask and a
/// dense table indexed by the packed occupancy of that mask.
pub struct SliderTable {
    pub is_rook: bool,
    pub magics: Vec<Magic>,
    pub attacks: Vec<Vec<Bitboard>>,
}

impl SliderTable {
    /// Square `s` holds its relevant mask and, at the index of every subset of the mask, what
    /// the slider attacks when that subset is occupied.
    pub open spec fn square_ok(&self, s: int) -> bool {
        let m = self.magics@[s];
        &&& m.mask@ == relevant_set(s, slider_directions(self.is_rook))
        &&& popcount(m.mask.0) <= if self.is_rook {
            12int
        } else {
            9int
        }
        &&& self.attacks@[s]@.len() == pow2(popcount(m.mask.0))
        &&& self.attacks@[s]@.len() <= if self.is_rook {
            4096int
        } else {
            512int
        }
        &&& forall|t: u64|
            is_subset(t, m.mask.0) ==> self.attacks@[s]@[#[trigger] pext(t, m.mask.0) as int]@
                == slider_entry(s, t, self.is_rook)
    }

    pub open spec fn wf(&self) -> bool {
        &&& self.magics@.len() == 64
        &&& self.attacks@.len() == 64
        &&& forall|s: int| 0 <= s < 64 ==> #[trigger] self.square_ok(s)
    }

    /// Builds the table of every square by walking all subsets of each mask.
    pub fn new(is_rook: bool) -> (r: SliderTable)
        ensures
            r.wf(),
            r.is_rook == is_rook,
    {
        let mut magics: Vec<Magic> = Vec::new();
        let mut attacks: Vec<Vec<Bitboard>> = Vec::new();
        let mut sq: u8 = 0;
        while sq < 64
            invariant
                sq <= 64,
                magics@.len() == sq,
                attacks@.len() == sq,
                forall|s: int|
                    0 <= s < sq ==> #[trigger] (SliderTable { is_rook, magics, attacks }).square_ok(
                        s,
                    ),
            decreases 64 - sq,
        {
            let square = Square::from_index(sq);
            let dirs = if is_rook {
                rook_directions_list()
            } else {
                bishop_directions_list()
            };
            let mask = relevant_occupancies(square, &dirs);
            proof {
                lemma_relevant_sizes(sq as int);
                vstd::arithmetic::power2::lemma2_to64();
                let k = popcount(mask.0);
                if is_rook && k < 12 {
                    vstd::arithmetic::power2::lemma_pow2_strictly_increases(k, 12);
                }
                if !is_rook && k < 9 {
                    vstd::arithmetic::power2::lemma_pow2_strictly_increases(k, 9);
                }
            }
            let magic = Magic::new(mask, BB(0), 0);
            let size = blockers_size(mask.0);
            let mut table = vec![BB(0); size];
            generate_attacks(&mut table, square, magic, is_rook);
            let ghost before = SliderTable { is_rook, magics, attacks };
            magics.push(magic);
            attacks.push(table);
            proof {
                let after = SliderTable { is_rook, magics, attacks };
                assert forall|s: int| 0 <= s < sq + 1 implies #[trigger] after.square_ok(s) by {
                    if s < sq {
                        assert(before.square_ok(s));
                        assert(after.magics@[s] == before.magics@[s]);
                        assert(after.attacks@[s] == before.attacks@[s]);
                    }
                }
            }
            sq = sq + 1;
        }
        SliderTable { is_rook, magics, attacks }
    }

    /// What the slider on `square` attacks over `occupied`, read from the table.
    pub fn lookup(&self, square: Square, occupied: Bitboard) -> (r: Bitboard)
        requires
            self.wf(),
            square@ < 64,
        ensures
            r@ == slider_set(square@, occupied@, slider_directions(self.is_rook)),
    {
        let sq = square.as_int() as usize;
        let m = self.magics[sq];
        proof {
            assert(self.square_ok(sq as int));
            vstd::arithmetic::power2::lemma2_to64();
        }
        let idx = m.index(occupied);
        proof {
            let mask = m.mask.0;
            let masked = occupied.0 & mask;
            lemma_pext_masked(occupied.0, mask);
            lemma_halves(occupied.0, mask);
            assert(is_subset(masked, mask));
            assert(self.attacks@[sq as int]@[pext(masked, mask) as int]@ == slider_entry(
                sq as int,
                masked,
                self.is_rook,
            ));
            lemma_bits_and(occupied.0, mask);
            let rel = relevant_set(sq as int, slider_directions(self.is_rook));
            assert(bits(masked).intersect(rel) =~= bits(occupied.0).intersect(rel));
            lemma_slider_relevant(
                sq as int,
                bits(masked),
                bits(occupied.0),
                slider_directions(self.is_rook),
            );
        }
        self.attacks[sq][idx]
    }
}

/// Every entry of a built table is exact: for each square and each subset of its relevant
/// mask, the subset's index lies in the square's row, below 4096 for a rook and 512 for a
/// bishop; two different subsets have different indices; and the entry at the index is
/// what casting the slider's rays over that occupancy gives.
pub proof fn lemma_table_matches_rays(table: &SliderTable, s: int, occ: u64, other: u64)
    requires
        table.wf(),
        0 <= s < 64,
        is_subset(occ, table.magics@[s].mask.0),
        is_subset(other, table.magics@[s].mask.0),
    ensures
        pext(occ, table.magics@[s].mask.0) < table.attacks@[s]@.len(),
        pext(occ, table.magics@[s].mask.0) < if table.is_rook {
            4096int
        } else {
            512int
        },
        occ != other ==> pext(occ, table.magics@[s].mask.0) != pext(
            other,
            table.magics@[s].mask.0,
        ),
        table.attacks@[s]@[pext(occ, table.magics@[s].mask.0) as int]@ == slider_set(
            s,
            bits(occ),
            slider_directions(table.is_rook),
        ),
{
    assert(table.square_ok(s));
    let m = table.magics@[s].mask.0;
    lemma_pext_bound(occ, m);
    if pext(occ, m) == pext(other, m) {
        lemma_pext_injective(occ, other, m);
    }
}

/// All attack tables: pawns of both sides, knights, kings, bishops and rooks.
pub struct AttackTables {
    pub non_sliding: Vec<Vec<Bitboard>>,
    pub bishops: SliderTable,
    pub rooks: SliderTable,
}

/// What a piece on `s` attacks over the occupancy `occ`.
pub open spec fn attack_set(p: Piece, s: int, occ: Set<int>) -> Set<int> {
    let k = p.kind();
    if k == 1 {
        pawn_set(s, p.value() > 0)
    } else if k == 2 {
        knight_set(s)
    } else if k == 3 {
        bishop_set(s, occ)
    } else if k == 4 {
        rook_set(s, occ)
    } else if k == 5 {
        bishop_set(s, occ).union(rook_set(s, occ))
    } else if k == 6 {
        king_set(s)
    } else {
        Set::empty()
    }
}

impl AttackTables {
    pub open spec fn wf(&self) -> bool {
        &&& self.non_sliding@.len() == 4
        &&& forall|v: int| 0 <= v < 4 ==> (#[trigger] self.non_sliding@[v])@.len() == 64
        &&& forall|i: int| 0 <= i < 64 ==> (#[trigger] self.non_sliding@[0]@[i])@ == pawn_set(i, true)
        &&& forall|i: int| 0 <= i < 64 ==> (#[trigger] self.non_sliding@[1]@[i])@ == pawn_set(i, false)
        &&& forall|i: int| 0 <= i < 64 ==> (#[trigger] self.non_sliding@[2]@[i])@ == knight_set(i)
        &&& forall|i: int| 0 <= i < 64 ==> (#[trigger] self.non_sliding@[3]@[i])@ == king_set(i)
        &&& self.bishops.wf()
        &&& !self.bishops.is_rook
        &&& self.rooks.wf()
        &&& self.rooks.is_rook
    }

    /// Builds every table; done once, before any lookup.
    pub fn new() -> (r: AttackTables)
        ensures
            r.wf(),
    {
        let mut white_pawns = vec![BB(0); 64];
        generate_pawn_attacks(&mut white_pawns, true);
        let mut black_pawns = vec![BB(0); 64];
        generate_pawn_attacks(&mut black_pawns, false);
        let mut knights = vec![BB(0); 64];
        let ghost k0 = knights@;
        generate_knight_attacks(&mut knights);
        let mut kings = vec![BB(0); 64];
        let ghost g0 = kings@;
        generate_king_attacks(&mut kings);
        proof {
            lemma_bits_zero();
            assert forall|i: int| 0 <= i < 64 implies (#[trigger] knights@[i])@ == knight_set(i) by {
                assert(k0[i] == Bitboard(0));
                assert(Set::<int>::empty().union(knight_set(i)) =~= knight_set(i));
            }
            assert forall|i: int| 0 <= i < 64 implies (#[trigger] kings@[i])@ == king_set(i) by {
                assert(g0[i] == Bitboard(0));
                assert(Set::<int>::empty().union(king_set(i)) =~= king_set(i));
            }
        }
        let mut non_sliding: Vec<Vec<Bitboard>> = Vec::new();
        non_sliding.push(white_pawns);
        non_sliding.push(black_pawns);
        non_sliding.push(knights);
        non_sliding.push(kings);
        let r = AttackTables {
            non_sliding,
            bishops: SliderTable::new(false),
            rooks: SliderTable::new(true),
        };
        proof {
            assert(r.non_sliding@[0] == white_pawns);
            assert(r.non_sliding@[1] == black_pawns);
            assert(r.non_sliding@[2] == knights);
            assert(r.non_sliding@[3] == kings);
        }
        r
    }
}

impl Piece {
    /// What this piece attacks from `from` over the occupancy `occupied`; nothing for no
    /// piece.
    pub fn attacks(self, tables: &AttackTables, from: Square, occupied: Bitboard) -> (r: Bitboard)
        requires
            tables.wf(),
            from@ < 64,
        ensures
            r@ == attack_set(self, from@, occupied@),
    {
        let sq = from.as_int() as usize;
        let k = self.type_of();
        if k == 1 {
            let side: usize = if self.is_white() {
                0
            } else {
                1
            };
            tables.non_sliding[side][sq]
        } else if k == 2 {
            tables.non_sliding[2][sq]
        } else if k == 3 {
            tables.bishops.lookup(from, occupied)
        } else if k == 4 {
            tables.rooks.lookup(from, occupied)
        } else if k == 5 {
            let b = tables.bishops.lookup(from, occupied);
            let r = tables.rooks.lookup(from, occupied);
            proof {
                lemma_bits_or(b.0, r.0);
            }
            BB(b.0 | r.0)
        } else if k == 6 {
            tables.non_sliding[3][sq]
        } else {
            proof {
                lemma_bits_zero();
            }
            BB(0)
        }
    }
}

/// Whether a piece of this kind slides along direction `d`: rooks and queens along ranks
/// and files, bishops and queens along diagonals.
pub open spec fn slides_along(p: Piece, d: Direction) -> bool {
    let k = p.kind();
    if rook_directions().contains(d) {
        k == 4 || k == 5
    } else if bishop_directions().contains(d) {
        k == 3 || k == 5
    } else {
        false
    }
}

pub fn piece_can_travel_in_sliding_direction(piece: Piece, direction: Direction) -> (r: bool)
    ensures
        r == slides_along(piece, direction),
{
    let piece = piece.type_of_to_piece();
    proof {
        assert(rook_directions()[0] == Direction::North);
        assert(rook_directions()[1] == Direction::South);
        assert(rook_directions()[2] == Direction::East);
        assert(rook_directions()[3] == Direction::West);
        assert(bishop_directions()[0] == Direction::NorthWest);
        assert(bishop_directions()[1] == Direction::SouthWest);
        assert(bishop_directions()[2] == Direction::NorthEast);
        assert(bishop_directions()[3] == Direction::SouthEast);
    }
    match direction {
        Direction::North | Direction::South | Direction::East | Direction::West => {
            matches!(piece, Piece::WRook | Piece::WQueen)
        },
        Direction::NorthEast | Direction::SouthEast | Direction::NorthWest
        | Direction::SouthWest => {
            matches!(piece, Piece::WBishop | Piece::WQueen)
        },
        _ => {
            proof {
                assert(!rook_directions().contains(direction));
                assert(!bishop_directions().contains(direction));
            }
            false
        },
    }
}

} // verus!
