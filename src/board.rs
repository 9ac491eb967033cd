//! The position: piece placement and the state derived from it.
use vstd::prelude::*;

use crate::attacks::sliding::{lemma_ray_meets, ray_hit, sliding_attacks};
use crate::attacks::{
    attack_set, piece_can_travel_in_sliding_direction, slides_along, AttackTables,
};
use crate::bits::{
    bit_of, bits, lemma_bits_and, lemma_bits_empty, lemma_bits_not, lemma_bits_or,
    lemma_bits_single, lemma_bits_zero,
};
use crate::types::{edge_distance, piece_of_slot, Bitboard, Color, Direction, Piece, Square, BB};

verus! {

/// Castling rights, one bit each.
pub const WHITE_OO: u8 = 1;

pub const WHITE_OOO: u8 = 2;

pub const BLACK_OO: u8 = 4;

pub const BLACK_OOO: u8 = 8;

pub const ALL_CASTLING: u8 = 15;

/// State derived from the placement, recomputed after each change of it.
#[derive(Clone, Copy, PartialEq, Eq, Debug, Hash)]
pub struct BoardState {
    pub castling_rights: u8,
    pub rule_50: u8,
    pub ep_square: Square,
    pub attacks: [Bitboard; 2],
    pub checkers: Bitboard,
    pub king_blockers: [Bitboard; 2],
    pub pinners: [Bitboard; 2],
}

impl BoardState {
    /// A state with the given castling rights, a zero clock, no en-passant square and
    /// nothing derived yet.
    pub open spec fn is_fresh(&self, castling: u8) -> bool {
        &&& self.castling_rights == castling
        &&& self.rule_50 == 0
        &&& self.ep_square@ == 64
        &&& self.attacks@ == seq![Bitboard(0), Bitboard(0)]
        &&& self.checkers == Bitboard(0)
        &&& self.king_blockers@ == seq![Bitboard(0), Bitboard(0)]
        &&& self.pinners@ == seq![Bitboard(0), Bitboard(0)]
    }

    /// A state with no castling rights, a zero clock, no en-passant square and nothing
    /// derived yet.
    pub fn new() -> (r: BoardState)
        ensures
            r.is_fresh(0),
    {
        let r = BoardState {
            castling_rights: 0,
            rule_50: 0,
            ep_square: Square::none(),
            attacks: [BB(0), BB(0)],
            checkers: BB(0),
            king_blockers: [BB(0), BB(0)],
            pinners: [BB(0), BB(0)],
        };
        proof {
            assert(r.attacks@ =~= seq![Bitboard(0), Bitboard(0)]);
            assert(r.king_blockers@ =~= seq![Bitboard(0), Bitboard(0)]);
            assert(r.pinners@ =~= seq![Bitboard(0), Bitboard(0)]);
        }
        r
    }

    /// The state of the starting position: every castling right, nothing else.
    pub fn new_starting() -> (r: BoardState)
        ensures
            r.is_fresh(ALL_CASTLING),
    {
        let mut r = BoardState::new();
        r.castling_rights = WHITE_OO | WHITE_OOO | BLACK_OO | BLACK_OOO;
        proof {
            assert(WHITE_OO | WHITE_OOO | BLACK_OO | BLACK_OOO == 15u8) by (bit_vector);
        }
        r
    }
}

/// A position: a mailbox of the 64 squares, a bitboard per piece and per side, the number of
/// each piece, the side to move and the derived state.
#[derive(Clone, PartialEq, Eq, Debug, Hash)]
pub struct Board {
    pub mailbox: [Piece; 64],
    pub piece_bb: [Bitboard; 12],
    pub color_bb: [Bitboard; 2],
    pub piece_count: [u8; 12],
    pub side_to_move: Color,
    pub state: BoardState,
}

/// Number of squares below `n` holding the piece of slot `i`.
pub open spec fn count_slot(m: Seq<Piece>, i: int, n: nat) -> nat
    decreases n,
{
    if n == 0 {
        0
    } else {
        count_slot(m, i, (n - 1) as nat) + if m[n - 1] != Piece::Empty && m[n - 1].slot() == i {
            1nat
        } else {
            0nat
        }
    }
}

proof fn lemma_count_bound(m: Seq<Piece>, i: int, n: nat, k: int)
    requires
        0 <= k < n,
        m[k] == Piece::Empty,
    ensures
        count_slot(m, i, n) < n,
    decreases n,
{
    if n - 1 > k {
        lemma_count_bound(m, i, (n - 1) as nat, k);
    } else {
        lemma_count_le(m, i, (n - 1) as nat);
    }
}

proof fn lemma_count_le(m: Seq<Piece>, i: int, n: nat)
    ensures
        count_slot(m, i, n) <= n,
    decreases n,
{
    if n > 0 {
        lemma_count_le(m, i, (n - 1) as nat);
    }
}

proof fn lemma_count_update(m: Seq<Piece>, i: int, n: nat, k: int, p: Piece)
    requires
        0 <= k < m.len(),
        n <= m.len(),
        m[k] == Piece::Empty,
        p != Piece::Empty,
    ensures
        count_slot(m.update(k, p), i, n) == count_slot(m, i, n) + if k < n && p.slot() == i {
            1nat
        } else {
            0nat
        },
    decreases n,
{
    if n > 0 {
        lemma_count_update(m, i, (n - 1) as nat, k, p);
    }
}

impl Board {
    /// The mailbox, the bitboards and the counts describe the same placement.
    pub open spec fn wf(&self) -> bool {
        &&& forall|s: int, i: int|
            0 <= s < 64 && 0 <= i < 12 ==> (#[trigger] self.piece_bb[i]@.contains(s) <==> (
            self.mailbox[s] != Piece::Empty && self.mailbox[s].slot() == i))
        &&& forall|s: int, c: int|
            0 <= s < 64 && 0 <= c < 2 ==> (#[trigger] self.color_bb[c]@.contains(s) <==> (
            self.mailbox[s] != Piece::Empty && (self.mailbox[s].value() < 0) == (c == 1)))
        &&& forall|i: int|
            0 <= i < 12 ==> #[trigger] self.piece_count[i] == count_slot(self.mailbox@, i, 64)
    }

    /// The empty board, white to move.
    pub fn new_empty() -> (r: Board)
        ensures
            r.wf(),
            forall|s: int| 0 <= s < 64 ==> #[trigger] r.mailbox[s] == Piece::Empty,
            !r.side_to_move.0,
            r.state.is_fresh(0),
    {
        let r = Board {
            mailbox: [Piece::Empty; 64],
            piece_bb: [BB(0); 12],
            color_bb: [BB(0); 2],
            piece_count: [0u8; 12],
            side_to_move: Color::white(),
            state: BoardState::new(),
        };
        proof {
            lemma_bits_zero();
            assert forall|i: int| 0 <= i < 12 implies #[trigger] r.piece_count[i] == count_slot(
                r.mailbox@,
                i,
                64,
            ) by {
                lemma_count_zero(r.mailbox@, i, 64);
            }
        }
        r
    }

    /// The standard starting position, white to move, with every castling right.
    pub fn new_starting() -> (r: Board)
        ensures
            r.wf(),
            r.mailbox@ == starting_layout(),
            !r.side_to_move.0,
            r.state.is_fresh(ALL_CASTLING),
    {
        let layout: [Piece; 64] = [
            Piece::WRook, Piece::WKnight, Piece::WBishop, Piece::WQueen, Piece::WKing, Piece::WBishop, Piece::WKnight, Piece::WRook,
            Piece::WPawn, Piece::WPawn, Piece::WPawn, Piece::WPawn, Piece::WPawn, Piece::WPawn, Piece::WPawn, Piece::WPawn,
            Piece::Empty, Piece::Empty, Piece::Empty, Piece::Empty, Piece::Empty, Piece::Empty, Piece::Empty, Piece::Empty,
            Piece::Empty, Piece::Empty, Piece::Empty, Piece::Empty, Piece::Empty, Piece::Empty, Piece::Empty, Piece::Empty,
            Piece::Empty, Piece::Empty, Piece::Empty, Piece::Empty, Piece::Empty, Piece::Empty, Piece::Empty, Piece::Empty,
            Piece::Empty, Piece::Empty, Piece::Empty, Piece::Empty, Piece::Empty, Piece::Empty, Piece::Empty, Piece::Empty,
            Piece::BPawn, Piece::BPawn, Piece::BPawn, Piece::BPawn, Piece::BPawn, Piece::BPawn, Piece::BPawn, Piece::BPawn,
            Piece::BRook, Piece::BKnight, Piece::BBishop, Piece::BQueen, Piece::BKing, Piece::BBishop, Piece::BKnight, Piece::BRook,
        ];
        proof {
            assert(layout@ =~= starting_layout());
        }
        let mut b = Board::new_empty();
        let mut sq: usize = 0;
        while sq < 64
            invariant
                sq <= 64,
                b.wf(),
                layout@ == starting_layout(),
                !b.side_to_move.0,
                b.state.is_fresh(0),
                forall|k: int| 0 <= k < sq ==> #[trigger] b.mailbox[k] == layout[k],
                forall|k: int| sq <= k < 64 ==> #[trigger] b.mailbox[k] == Piece::Empty,
            decreases 64 - sq,
        {
            let p = layout[sq];
            if p != Piece::Empty {
                b.put_piece(sq, p);
            }
            sq = sq + 1;
        }
        b.state = BoardState::new_starting();
        proof {
            assert(b.mailbox@ =~= starting_layout());
        }
        b
    }

    /// Puts a piece on an empty square, keeping the mailbox, bitboards and counts in step.
    pub fn put_piece(&mut self, sq: usize, p: Piece)
        requires
            old(self).wf(),
            sq < 64,
            p != Piece::Empty,
            old(self).mailbox[sq as int] == Piece::Empty,
        ensures
            final(self).wf(),
            final(self).mailbox@ == old(self).mailbox@.update(sq as int, p),
            final(self).side_to_move == old(self).side_to_move,
            final(self).state == old(self).state,
    {
        let i = p.as_index();
        let c: usize = if p.is_black() {
            1
        } else {
            0
        };
        let ghost m0 = self.mailbox@;
        let ghost b0 = self.piece_bb;
        let ghost c0 = self.color_bb;
        proof {
            lemma_bits_single(sq as u64);
            lemma_bits_or(self.piece_bb[i as int].0, 1u64 << sq);
            lemma_bits_or(self.color_bb[c as int].0, 1u64 << sq);
            lemma_count_bound(m0, i as int, 64, sq as int);
        }
        self.mailbox[sq] = p;
        self.piece_bb[i] = BB(self.piece_bb[i].0 | (1u64 << sq));
        self.color_bb[c] = BB(self.color_bb[c].0 | (1u64 << sq));
        self.piece_count[i] = self.piece_count[i] + 1;
        proof {
            assert(self.mailbox@ == m0.update(sq as int, p));
            assert forall|t: int, j: int| 0 <= t < 64 && 0 <= j < 12 implies (
            #[trigger] self.piece_bb[j]@.contains(t) <==> (self.mailbox[t] != Piece::Empty
                && self.mailbox[t].slot() == j)) by {
                assert(old(self).piece_bb[j]@.contains(t) <==> (m0[t] != Piece::Empty && m0[t].slot()
                    == j));
                if j != i {
                    assert(self.piece_bb[j] == b0[j]);
                }
            }
            assert forall|t: int, k: int| 0 <= t < 64 && 0 <= k < 2 implies (
            #[trigger] self.color_bb[k]@.contains(t) <==> (self.mailbox[t] != Piece::Empty && (
            self.mailbox[t].value() < 0) == (k == 1))) by {
                assert(old(self).color_bb[k]@.contains(t) <==> (m0[t] != Piece::Empty && (
                m0[t].value() < 0) == (k == 1)));
                if k != c {
                    assert(self.color_bb[k] == c0[k]);
                }
            }
            assert forall|j: int| 0 <= j < 12 implies #[trigger] self.piece_count[j] == count_slot(
                self.mailbox@,
                j,
                64,
            ) by {
                lemma_count_update(m0, j, 64, sq as int, p);
            }
        }
    }
}

proof fn lemma_count_zero(m: Seq<Piece>, i: int, n: nat)
    requires
        n <= m.len(),
        forall|s: int| 0 <= s < m.len() ==> #[trigger] m[s] == Piece::Empty,
    ensures
        count_slot(m, i, n) == 0,
    decreases n,
{
    if n > 0 {
        lemma_count_zero(m, i, (n - 1) as nat);
    }
}

/// The mailbox of the starting position, from a1 to h8.
pub open spec fn starting_layout() -> Seq<Piece> {
    seq![
        Piece::WRook, Piece::WKnight, Piece::WBishop, Piece::WQueen, Piece::WKing, Piece::WBishop, Piece::WKnight, Piece::WRook,
        Piece::WPawn, Piece::WPawn, Piece::WPawn, Piece::WPawn, Piece::WPawn, Piece::WPawn, Piece::WPawn, Piece::WPawn,
        Piece::Empty, Piece::Empty, Piece::Empty, Piece::Empty, Piece::Empty, Piece::Empty, Piece::Empty, Piece::Empty,
        Piece::Empty, Piece::Empty, Piece::Empty, Piece::Empty, Piece::Empty, Piece::Empty, Piece::Empty, Piece::Empty,
        Piece::Empty, Piece::Empty, Piece::Empty, Piece::Empty, Piece::Empty, Piece::Empty, Piece::Empty, Piece::Empty,
        Piece::Empty, Piece::Empty, Piece::Empty, Piece::Empty, Piece::Empty, Piece::Empty, Piece::Empty, Piece::Empty,
        Piece::BPawn, Piece::BPawn, Piece::BPawn, Piece::BPawn, Piece::BPawn, Piece::BPawn, Piece::BPawn, Piece::BPawn,
        Piece::BRook, Piece::BKnight, Piece::BBishop, Piece::BQueen, Piece::BKing, Piece::BBishop, Piece::BKnight, Piece::BRook,
    ]
}

/// What a piece `p` standing on each square of `squares` attacks, together.
pub open spec fn attacks_of(p: Piece, squares: Set<int>, occ: Set<int>) -> Set<int> {
    Set::new(|t: int| exists|s: int| squares.contains(s) && #[trigger] attack_set(p, s, occ).contains(t))
}

/// The squares of `squares` from which a piece `p` attacks a square of `king`.
pub open spec fn checkers_of(p: Piece, squares: Set<int>, king: Set<int>, occ: Set<int>) -> Set<int> {
    Set::new(|s: int| squares.contains(s) && !attack_set(p, s, occ).disjoint(king))
}

/// The slot of the king that the pieces of slot `i` attack.
pub open spec fn enemy_king_slot(i: int) -> int {
    if i < 6 {
        11
    } else {
        5
    }
}

/// What the pieces of slots `lo..hi` attack, together.
pub open spec fn slots_attacks(b: Board, lo: int, hi: int, occ: Set<int>) -> Set<int> {
    Set::new(
        |t: int|
            exists|i: int|
                lo <= i < hi && #[trigger] attacks_of(piece_of_slot(i), b.piece_bb[i]@, occ).contains(
                    t,
                ),
    )
}

/// The squares of the pieces of slots `0..hi` that attack the opposing king.
pub open spec fn slots_checkers(b: Board, hi: int, occ: Set<int>) -> Set<int> {
    Set::new(
        |s: int|
            exists|i: int|
                0 <= i < hi && #[trigger] checkers_of(
                    piece_of_slot(i),
                    b.piece_bb[i]@,
                    b.piece_bb[enemy_king_slot(i)]@,
                    occ,
                ).contains(s),
    )
}

impl Board {
    /// Every occupied square.
    pub open spec fn occupied(&self) -> Set<int> {
        self.color_bb[0]@.union(self.color_bb[1]@)
    }

    /// The squares that side `c` (`0` white, `1` black) attacks.
    pub open spec fn side_attacks(&self, c: int) -> Set<int> {
        slots_attacks(*self, 6 * c, 6 * c + 6, self.occupied())
    }

    /// The squares of the pieces, of either side, that attack the opposing king.
    pub open spec fn checkers(&self) -> Set<int> {
        slots_checkers(*self, 12, self.occupied())
    }

    /// The placement and the fields that do not derive from it are those of `other`.
    pub open spec fn same_position(&self, other: Board) -> bool {
        &&& self.mailbox == other.mailbox
        &&& self.piece_bb == other.piece_bb
        &&& self.color_bb == other.color_bb
        &&& self.piece_count == other.piece_count
        &&& self.side_to_move == other.side_to_move
        &&& self.state.castling_rights == other.state.castling_rights
        &&& self.state.rule_50 == other.state.rule_50
        &&& self.state.ep_square == other.state.ep_square
    }

    /// The union of the squares attacked by side `SIDE` (`false` white, `true` black).
    pub fn get_attacks<const SIDE: bool>(&self) -> (r: Bitboard)
        ensures
            r == self.state.attacks[if SIDE {
                1int
            } else {
                0int
            }],
    {
        self.state.attacks[if SIDE {
            1
        } else {
            0
        }]
    }
}

proof fn lemma_attacks_of_insert(p: Piece, done: Set<int>, s: int, occ: Set<int>)
    ensures
        attacks_of(p, done.insert(s), occ) == attacks_of(p, done, occ).union(attack_set(p, s, occ)),
{
    assert forall|t: int| #[trigger] attacks_of(p, done.insert(s), occ).contains(t) == attacks_of(
        p,
        done,
        occ,
    ).union(attack_set(p, s, occ)).contains(t) by {
        if attacks_of(p, done.insert(s), occ).contains(t) {
            let w = choose|w: int| done.insert(s).contains(w) && #[trigger] attack_set(p, w, occ).contains(t);
            if w != s {
                assert(attacks_of(p, done, occ).contains(t));
            }
        }
        if attacks_of(p, done, occ).contains(t) {
            let w = choose|w: int| done.contains(w) && #[trigger] attack_set(p, w, occ).contains(t);
            assert(done.insert(s).contains(w));
        }
        if attack_set(p, s, occ).contains(t) {
            assert(done.insert(s).contains(s));
        }
    }
    assert(attacks_of(p, done.insert(s), occ) =~= attacks_of(p, done, occ).union(
        attack_set(p, s, occ),
    ));
}

proof fn lemma_slots_attacks_step(b: Board, lo: int, i: int, occ: Set<int>)
    requires
        lo <= i,
    ensures
        slots_attacks(b, lo, i + 1, occ) == slots_attacks(b, lo, i, occ).union(
            attacks_of(piece_of_slot(i), b.piece_bb[i]@, occ),
        ),
{
    let a = slots_attacks(b, lo, i + 1, occ);
    let c = slots_attacks(b, lo, i, occ).union(attacks_of(piece_of_slot(i), b.piece_bb[i]@, occ));
    assert forall|t: int| #[trigger] a.contains(t) == c.contains(t) by {
        if a.contains(t) {
            let w = choose|w: int|
                lo <= w < i + 1 && #[trigger] attacks_of(piece_of_slot(w), b.piece_bb[w]@, occ).contains(
                    t,
                );
            if w < i {
                assert(slots_attacks(b, lo, i, occ).contains(t));
            }
        }
        if slots_attacks(b, lo, i, occ).contains(t) {
            let w = choose|w: int|
                lo <= w < i && #[trigger] attacks_of(piece_of_slot(w), b.piece_bb[w]@, occ).contains(t);
            assert(lo <= w < i + 1);
        }
    }
    assert(a =~= c);
}

proof fn lemma_slots_checkers_step(b: Board, i: int, occ: Set<int>)
    requires
        0 <= i,
    ensures
        slots_checkers(b, i + 1, occ) == slots_checkers(b, i, occ).union(
            checkers_of(piece_of_slot(i), b.piece_bb[i]@, b.piece_bb[enemy_king_slot(i)]@, occ),
        ),
{
    let a = slots_checkers(b, i + 1, occ);
    let c = slots_checkers(b, i, occ).union(
        checkers_of(piece_of_slot(i), b.piece_bb[i]@, b.piece_bb[enemy_king_slot(i)]@, occ),
    );
    assert forall|s: int| #[trigger] a.contains(s) == c.contains(s) by {
        if a.contains(s) {
            let w = choose|w: int|
                0 <= w < i + 1 && #[trigger] checkers_of(
                    piece_of_slot(w),
                    b.piece_bb[w]@,
                    b.piece_bb[enemy_king_slot(w)]@,
                    occ,
                ).contains(s);
            if w < i {
                assert(slots_checkers(b, i, occ).contains(s));
            }
        }
        if slots_checkers(b, i, occ).contains(s) {
            let w = choose|w: int|
                0 <= w < i && #[trigger] checkers_of(
                    piece_of_slot(w),
                    b.piece_bb[w]@,
                    b.piece_bb[enemy_king_slot(w)]@,
                    occ,
                ).contains(s);
            assert(0 <= w < i + 1);
        }
    }
    assert(a =~= c);
}

proof fn lemma_clear_bit(x: u64, k: u64)
    requires
        k < 64,
        bit_of(x, k),
    ensures
        x & !(1u64 << k) < x,
        bits(x & !(1u64 << k)) == bits(x).remove(k as int),
{
    assert(((x >> k) & 1u64 == 1u64) ==> x & !(1u64 << k) < x) by (bit_vector)
        requires
            k < 64,
    ;
    lemma_bits_single(k);
    lemma_bits_not(1u64 << k);
    lemma_bits_and(x, !(1u64 << k));
    assert(bits(x & !(1u64 << k)) =~= bits(x).remove(k as int));
}

/// The lowest set bit of a nonzero word.
fn lowest_square(x: u64) -> (r: u8)
    requires
        x != 0,
    ensures
        r < 64,
        r == vstd::std_specs::bits::u64_trailing_zeros(x),
        bits(x).contains(r as int),
        forall|j: int| 0 <= j < r ==> !(#[trigger] bits(x).contains(j)),
{
    proof {
        vstd::std_specs::bits::axiom_u64_trailing_zeros(x);
    }
    let r = x.trailing_zeros();
    proof {
        assert forall|j: int| 0 <= j < r implies !(#[trigger] bits(x).contains(j)) by {
            assert((x >> (j as u64)) & 1u64 == 0u64);
        }
    }
    r as u8
}

impl Board {
    /// What the pieces of slot `index` attack over `occ`, together with the squares of those
    /// of them that attack the square set `king`, added to `acc` and `checkers`.
    fn add_slot_attacks(
        &self,
        tables: &AttackTables,
        index: usize,
        occ: Bitboard,
        king: Bitboard,
        acc: &mut u64,
        checkers: &mut u64,
    )
        requires
            tables.wf(),
            index < 12,
        ensures
            bits(*final(acc)) == bits(*old(acc)).union(
                attacks_of(piece_of_slot(index as int), self.piece_bb[index as int]@, occ@),
            ),
            bits(*final(checkers)) == bits(*old(checkers)).union(
                checkers_of(piece_of_slot(index as int), self.piece_bb[index as int]@, king@, occ@),
            ),
    {
        let p = Piece::from_index(index);
        let ghost all = self.piece_bb[index as int]@;
        let ghost acc0 = bits(*acc);
        let ghost chk0 = bits(*checkers);
        let mut piece = self.piece_bb[index].0;
        proof {
            assert(all.difference(bits(piece)) =~= Set::<int>::empty());
            assert(attacks_of(p, Set::<int>::empty(), occ@) =~= Set::<int>::empty());
            assert(checkers_of(p, Set::<int>::empty(), king@, occ@) =~= Set::<int>::empty());
            assert(acc0.union(Set::<int>::empty()) =~= acc0);
            assert(chk0.union(Set::<int>::empty()) =~= chk0);
        }
        while piece != 0
            invariant
                tables.wf(),
                p == piece_of_slot(index as int),
                all == self.piece_bb[index as int]@,
                bits(piece).subset_of(all),
                bits(*acc) == acc0.union(attacks_of(p, all.difference(bits(piece)), occ@)),
                bits(*checkers) == chk0.union(
                    checkers_of(p, all.difference(bits(piece)), king@, occ@),
                ),
            decreases piece,
        {
            let sq = lowest_square(piece);
            let square = Square::from_index(sq);
            let a = p.attacks(tables, square, occ);
            let ghost done = all.difference(bits(piece));
            proof {
                lemma_clear_bit(piece, sq as u64);
                assert(all.difference(bits(piece & !(1u64 << sq))) =~= done.insert(sq as int));
                lemma_attacks_of_insert(p, done, sq as int, occ@);
                lemma_bits_and(king.0, a.0);
                lemma_bits_empty(king.0 & a.0);
            }
            let b = square.to_bitboard();
            proof {
                lemma_bits_single(sq as u64);
                crate::bits::lemma_bits_ext(b.0, 1u64 << sq);
                lemma_bits_or(*checkers, b.0);
                lemma_bits_or(*acc, a.0);
            }
            if king.0 & a.0 != 0 {
                *checkers = *checkers | b.0;
                proof {
                    assert(!a@.disjoint(king@)) by {
                        if a@.disjoint(king@) {
                            assert(king@.intersect(a@) =~= Set::<int>::empty());
                        }
                    }
                    assert(checkers_of(p, done.insert(sq as int), king@, occ@) =~= checkers_of(
                        p,
                        done,
                        king@,
                        occ@,
                    ).insert(sq as int));
                }
            } else {
                proof {
                    assert(a@.disjoint(king@)) by {
                        assert forall|t: int| a@.contains(t) implies !king@.contains(t) by {
                            if king@.contains(t) {
                                assert(king@.intersect(a@).contains(t));
                            }
                        }
                    }
                    assert(checkers_of(p, done.insert(sq as int), king@, occ@) =~= checkers_of(
                        p,
                        done,
                        king@,
                        occ@,
                    ));
                }
            }
            *acc = *acc | a.0;
            proof {
                assert(bits(*checkers) =~= chk0.union(
                    checkers_of(p, done.insert(sq as int), king@, occ@),
                ));
                assert(bits(*acc) =~= acc0.union(attacks_of(p, done.insert(sq as int), occ@)));
            }
            piece = piece & !b.0;
        }
        proof {
            lemma_bits_zero();
            assert(all.difference(bits(piece)) =~= all);
        }
    }

    /// Recomputes what each side attacks, and the checkers, from the placement.
    fn populate_attacks(&mut self, tables: &AttackTables)
        requires
            tables.wf(),
        ensures
            final(self).same_position(*old(self)),
            final(self).state.king_blockers == old(self).state.king_blockers,
            final(self).state.pinners == old(self).state.pinners,
            final(self).state.attacks[0]@ == old(self).side_attacks(0),
            final(self).state.attacks[1]@ == old(self).side_attacks(1),
            final(self).state.checkers@ == old(self).checkers(),
    {
        let ghost b = *self;
        proof {
            lemma_bits_or(self.color_bb[0].0, self.color_bb[1].0);
        }
        let occ = BB(self.color_bb[0].0 | self.color_bb[1].0);
        let mut attacks = [BB(0); 2];
        let mut checkers: u64 = 0;
        proof {
            lemma_bits_zero();
            assert(slots_checkers(b, 0, b.occupied()) =~= Set::<int>::empty());
            assert(Set::<int>::empty().union(Set::<int>::empty()) =~= Set::<int>::empty());
        }
        let mut side: usize = 0;
        while side < 2
            invariant
                tables.wf(),
                side <= 2,
                *self == b,
                occ@ == b.occupied(),
                bits(checkers) == slots_checkers(b, 6 * side, b.occupied()),
                forall|c: int| 0 <= c < side ==> (#[trigger] attacks[c])@ == b.side_attacks(c),
            decreases 2 - side,
        {
            let king = self.piece_bb[if side == 0 {
                11
            } else {
                5
            }];
            let mut acc: u64 = 0;
            let mut index: usize = 6 * side;
            proof {
                lemma_bits_zero();
                assert(slots_attacks(b, 6 * side, 6 * side, b.occupied()) =~= Set::<int>::empty());
            }
            while index < 6 * side + 6
                invariant
                    tables.wf(),
                    side < 2,
                    6 * side <= index <= 6 * side + 6,
                    *self == b,
                    occ@ == b.occupied(),
                    king == b.piece_bb[if side == 0 {
                        11int
                    } else {
                        5int
                    }],
                    bits(acc) == slots_attacks(b, 6 * side, index as int, b.occupied()),
                    bits(checkers) == slots_checkers(b, index as int, b.occupied()),
                decreases 6 * side + 6 - index,
            {
                self.add_slot_attacks(tables, index, occ, king, &mut acc, &mut checkers);
                proof {
                    assert(enemy_king_slot(index as int) == if side == 0 {
                        11int
                    } else {
                        5int
                    });
                    lemma_slots_attacks_step(b, 6 * side, index as int, b.occupied());
                    lemma_slots_checkers_step(b, index as int, b.occupied());
                }
                index = index + 1;
            }
            attacks[side] = BB(acc);
            side = side + 1;
        }
        self.state.attacks = attacks;
        self.state.checkers = BB(checkers);
    }
}

/// The eight directions along which a king can be pinned against.
pub open spec fn pin_directions() -> Seq<Direction> {
    seq![
        Direction::North,
        Direction::South,
        Direction::East,
        Direction::West,
        Direction::NorthEast,
        Direction::NorthWest,
        Direction::SouthEast,
        Direction::SouthWest,
    ]
}

/// The slot of the king of side `c`.
pub open spec fn king_slot(c: int) -> int {
    if c == 0 {
        5
    } else {
        11
    }
}

impl Board {
    /// The square of the king of side `c`: the lowest square of its bitboard.
    pub open spec fn king_square(&self, c: int) -> int {
        vstd::std_specs::bits::u64_trailing_zeros(self.piece_bb[king_slot(c)].0) as int
    }

    /// Along direction `d` from the king of side `c`: the first piece met, when it is of
    /// side `c`, and the next piece met beyond it, when that one is of the other side and
    /// slides along `d`.
    pub open spec fn pin_in(&self, c: int, d: Direction) -> Option<(int, int)> {
        let ghost occ = self.occupied();
        let k = self.king_square(c);
        match ray_hit(k, occ, d, edge_distance(k, d) as nat) {
            Some(x) => if self.color_bb[c]@.contains(x) {
                match ray_hit(x, occ, d, edge_distance(x, d) as nat) {
                    Some(y) => if self.color_bb[1 - c]@.contains(y) && slides_along(
                        self.mailbox[y],
                        d,
                    ) {
                        Some((x, y))
                    } else {
                        None
                    },
                    None => None,
                }
            } else {
                None
            },
            None => None,
        }
    }

    /// The pinners of pieces of side `c`, over the first `j` pin directions.
    pub open spec fn pinners_upto(&self, c: int, j: int) -> Set<int> {
        Set::new(
            |y: int|
                exists|i: int|
                    0 <= i < j && (#[trigger] self.pin_in(c, pin_directions()[i]) matches Some(
                        p,
                    ) && p.1 == y),
        )
    }

    /// The pinned pieces of side `c`, over the first `j` pin directions.
    pub open spec fn blockers_upto(&self, c: int, j: int) -> Set<int> {
        Set::new(
            |x: int|
                exists|i: int|
                    0 <= i < j && (#[trigger] self.pin_in(c, pin_directions()[i]) matches Some(
                        p,
                    ) && p.0 == x),
        )
    }

    /// The enemy sliders that pin a piece of side `c` to its king; none without a king.
    pub open spec fn pinners_of(&self, c: int) -> Set<int> {
        if self.piece_bb[king_slot(c)].0 == 0 {
            Set::empty()
        } else {
            self.pinners_upto(c, 8)
        }
    }

    /// The pieces of side `c` pinned to its king; none without a king.
    pub open spec fn blockers_of(&self, c: int) -> Set<int> {
        if self.piece_bb[king_slot(c)].0 == 0 {
            Set::empty()
        } else {
            self.blockers_upto(c, 8)
        }
    }
}

/// The highest set bit of a nonzero word.
fn highest_square(x: u64) -> (r: u8)
    requires
        x != 0,
    ensures
        r < 64,
        bits(x).contains(r as int),
{
    proof {
        vstd::std_specs::bits::axiom_u64_leading_zeros(x);
    }
    let z = x.leading_zeros();
    let r = 63 - z;
    proof {
        assert((x >> (r as u64)) & 1u64 != 0u64);
        assert((x >> (r as u64)) & 1u64 == 1u64) by (bit_vector)
            requires
                (x >> (r as u64)) & 1u64 != 0u64,
        ;
    }
    r as u8
}

/// The square of a one-square word nearest to where a ray in direction `d` started: the
/// lowest for a ray toward higher indices, the highest otherwise.
fn nearest_square(x: u64, d: Direction) -> (r: u8)
    requires
        x != 0,
    ensures
        r < 64,
        bits(x).contains(r as int),
{
    if d.is_increasing() {
        lowest_square(x)
    } else {
        highest_square(x)
    }
}

impl Board {
    /// The blocker and the pinner along one direction from the king of side `side`.
    fn pin_along(&self, side: usize, king_square: Square, occupied: Bitboard, d: Direction) -> (r:
        Option<(u8, u8)>)
        requires
            side < 2,
            king_square@ == self.king_square(side as int),
            king_square@ < 64,
            occupied@ == self.occupied(),
            pin_directions().contains(d),
        ensures
            r matches Some(p) ==> self.pin_in(side as int, d) == Some((p.0 as int, p.1 as int)),
            r is None ==> self.pin_in(side as int, d) is None,
    {
        let own = self.color_bb[side].0;
        let enemy = self.color_bb[1 - side].0;
        let ghost occ = self.occupied();
        let ghost k = king_square@;
        proof {
            assert(self.color_bb[side as int]@.subset_of(occ));
            assert(self.color_bb[1 - side]@.subset_of(occ));
            lemma_ray_meets(k, occ, self.color_bb[side as int]@, d, edge_distance(k, d) as nat);
        }
        let ray = sliding_attacks(king_square, occupied, d);
        let blocker = ray.0 & own;
        proof {
            lemma_bits_and(ray.0, own);
            lemma_bits_empty(blocker);
        }
        if blocker == 0 {
            proof {
                if let Some(h) = ray_hit(k, occ, d, edge_distance(k, d) as nat) {
                    if self.color_bb[side as int]@.contains(h) {
                        assert(bits(blocker).contains(h));
                    }
                }
            }
            return None;
        }
        let bsq = nearest_square(blocker, d);
        let ghost x = bsq as int;
        let blocker_square = Square::from_index(bsq);
        proof {
            lemma_ray_meets(x, occ, self.color_bb[1 - side]@, d, edge_distance(x, d) as nat);
        }
        let beyond = sliding_attacks(blocker_square, occupied, d);
        let pinner = beyond.0 & enemy;
        proof {
            lemma_bits_and(beyond.0, enemy);
            lemma_bits_empty(pinner);
        }
        if pinner == 0 {
            proof {
                if let Some(h) = ray_hit(x, occ, d, edge_distance(x, d) as nat) {
                    if self.color_bb[1 - side]@.contains(h) {
                        assert(bits(pinner).contains(h));
                    }
                }
            }
            return None;
        }
        let psq = nearest_square(pinner, d);
        if !piece_can_travel_in_sliding_direction(self.mailbox[psq as usize], d) {
            return None;
        }
        Some((bsq, psq))
    }
}

impl Board {
    /// The pinners and the pinned pieces of side `side`, as words.
    fn side_pins(&self, side: usize) -> (r: (u64, u64))
        requires
            side < 2,
        ensures
            bits(r.0) == self.pinners_of(side as int),
            bits(r.1) == self.blockers_of(side as int),
    {
        let king = self.piece_bb[if side == 0 {
            5
        } else {
            11
        }].0;
        proof {
            lemma_bits_zero();
        }
        if king == 0 {
            return (0, 0);
        }
        let ksq = lowest_square(king);
        proof {
            vstd::std_specs::bits::axiom_u64_trailing_zeros(king);
        }
        let king_square = Square::from_index(ksq);
        proof {
            lemma_bits_or(self.color_bb[0].0, self.color_bb[1].0);
        }
        let occupied = BB(self.color_bb[0].0 | self.color_bb[1].0);
        let directions = [
            Direction::North,
            Direction::South,
            Direction::East,
            Direction::West,
            Direction::NorthEast,
            Direction::NorthWest,
            Direction::SouthEast,
            Direction::SouthWest,
        ];
        proof {
            assert(directions@ =~= pin_directions());
            assert(self.pinners_upto(side as int, 0) =~= Set::<int>::empty());
            assert(self.blockers_upto(side as int, 0) =~= Set::<int>::empty());
        }
        let mut pinners: u64 = 0;
        let mut blockers: u64 = 0;
        let mut di: usize = 0;
        while di < 8
            invariant
                side < 2,
                di <= 8,
                directions@ == pin_directions(),
                king_square@ == self.king_square(side as int),
                king_square@ < 64,
                occupied@ == self.occupied(),
                bits(pinners) == self.pinners_upto(side as int, di as int),
                bits(blockers) == self.blockers_upto(side as int, di as int),
            decreases 8 - di,
        {
            let direction = directions[di];
            proof {
                assert(pin_directions().contains(direction));
            }
            let found = self.pin_along(side, king_square, occupied, direction);
            let ghost c = side as int;
            let ghost j = di as int;
            match found {
                Some((bsq, psq)) => {
                    proof {
                        lemma_bits_single(psq as u64);
                        lemma_bits_single(bsq as u64);
                        lemma_bits_or(pinners, 1u64 << psq);
                        lemma_bits_or(blockers, 1u64 << bsq);
                        assert(self.pinners_upto(c, j + 1) =~= self.pinners_upto(c, j).insert(
                            psq as int,
                        )) by {
                            assert forall|y: int| #[trigger] self.pinners_upto(c, j + 1).contains(y)
                                == self.pinners_upto(c, j).insert(psq as int).contains(y) by {
                                if self.pinners_upto(c, j + 1).contains(y) && y != psq {
                                    let i = choose|i: int|
                                        0 <= i < j + 1 && (#[trigger] self.pin_in(
                                            c,
                                            pin_directions()[i],
                                        ) matches Some(p) && p.1 == y);
                                    assert(i != j);
                                }
                            }
                        }
                        assert(self.blockers_upto(c, j + 1) =~= self.blockers_upto(c, j).insert(
                            bsq as int,
                        )) by {
                            assert forall|x: int| #[trigger] self.blockers_upto(c, j + 1).contains(
                                x,
                            ) == self.blockers_upto(c, j).insert(bsq as int).contains(x) by {
                                if self.blockers_upto(c, j + 1).contains(x) && x != bsq {
                                    let i = choose|i: int|
                                        0 <= i < j + 1 && (#[trigger] self.pin_in(
                                            c,
                                            pin_directions()[i],
                                        ) matches Some(p) && p.0 == x);
                                    assert(i != j);
                                }
                            }
                        }
                    }
                    pinners = pinners | (1u64 << psq);
                    blockers = blockers | (1u64 << bsq);
                },
                None => {
                    proof {
                        assert(self.pinners_upto(c, j + 1) =~= self.pinners_upto(c, j));
                        assert(self.blockers_upto(c, j + 1) =~= self.blockers_upto(c, j));
                    }
                },
            }
            di = di + 1;
        }
        (pinners, blockers)
    }

    /// Recomputes, for each side, the enemy sliders that pin one of its pieces to its king
    /// and the pinned pieces.
    fn populate_pinners_and_blockers(&mut self)
        ensures
            final(self).same_position(*old(self)),
            final(self).state.attacks == old(self).state.attacks,
            final(self).state.checkers == old(self).state.checkers,
            final(self).state.pinners[0]@ == old(self).pinners_of(0),
            final(self).state.pinners[1]@ == old(self).pinners_of(1),
            final(self).state.king_blockers[0]@ == old(self).blockers_of(0),
            final(self).state.king_blockers[1]@ == old(self).blockers_of(1),
    {
        let (p0, b0) = self.side_pins(0);
        let (p1, b1) = self.side_pins(1);
        self.state.pinners = [BB(p0), BB(p1)];
        self.state.king_blockers = [BB(b0), BB(b1)];
    }

    /// Recomputes everything the state derives from the placement: what each side attacks,
    /// the checkers, the pinners and the pinned pieces. The placement is left as it is.
    pub fn populate_state(&mut self, tables: &AttackTables)
        requires
            tables.wf(),
        ensures
            final(self).same_position(*old(self)),
            final(self).wf() == old(self).wf(),
            final(self).state.attacks[0]@ == old(self).side_attacks(0),
            final(self).state.attacks[1]@ == old(self).side_attacks(1),
            final(self).state.checkers@ == old(self).checkers(),
            final(self).state.pinners[0]@ == old(self).pinners_of(0),
            final(self).state.pinners[1]@ == old(self).pinners_of(1),
            final(self).state.king_blockers[0]@ == old(self).blockers_of(0),
            final(self).state.king_blockers[1]@ == old(self).blockers_of(1),
    {
        let ghost b0 = *self;
        self.populate_attacks(tables);
        let ghost b1 = *self;
        proof {
            lemma_pins_same(b1, b0, 0);
            lemma_pins_same(b1, b0, 1);
        }
        self.populate_pinners_and_blockers();
    }
}

/// Pins depend on the placement alone.
proof fn lemma_pins_same(a: Board, b: Board, c: int)
    requires
        a.same_position(b),
    ensures
        a.pinners_of(c) == b.pinners_of(c),
        a.blockers_of(c) == b.blockers_of(c),
{
    assert forall|d: Direction| #[trigger] a.pin_in(c, d) == b.pin_in(c, d) by {}
    assert forall|y: int| #[trigger] a.pinners_upto(c, 8).contains(y) == b.pinners_upto(
        c,
        8,
    ).contains(y) by {
        if a.pinners_upto(c, 8).contains(y) {
            let i = choose|i: int|
                0 <= i < 8 && (#[trigger] a.pin_in(c, pin_directions()[i]) matches Some(p) && p.1
                    == y);
            assert(b.pin_in(c, pin_directions()[i]) == a.pin_in(c, pin_directions()[i]));
        }
        if b.pinners_upto(c, 8).contains(y) {
            let i = choose|i: int|
                0 <= i < 8 && (#[trigger] b.pin_in(c, pin_directions()[i]) matches Some(p) && p.1
                    == y);
            assert(b.pin_in(c, pin_directions()[i]) == a.pin_in(c, pin_directions()[i]));
        }
    }
    assert forall|x: int| #[trigger] a.blockers_upto(c, 8).contains(x) == b.blockers_upto(
        c,
        8,
    ).contains(x) by {
        if a.blockers_upto(c, 8).contains(x) {
            let i = choose|i: int|
                0 <= i < 8 && (#[trigger] a.pin_in(c, pin_directions()[i]) matches Some(p) && p.0
                    == x);
            assert(b.pin_in(c, pin_directions()[i]) == a.pin_in(c, pin_directions()[i]));
        }
        if b.blockers_upto(c, 8).contains(x) {
            let i = choose|i: int|
                0 <= i < 8 && (#[trigger] b.pin_in(c, pin_directions()[i]) matches Some(p) && p.0
                    == x);
            assert(b.pin_in(c, pin_directions()[i]) == a.pin_in(c, pin_directions()[i]));
        }
    }
    assert(a.pinners_upto(c, 8) =~= b.pinners_upto(c, 8));
    assert(a.blockers_upto(c, 8) =~= b.blockers_upto(c, 8));
}

} // verus!
