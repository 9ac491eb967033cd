//! Ray casting for sliding pieces.
use vstd::prelude::*;

use vstd::arithmetic::power2::pow2;

use crate::bits::{
    bits, lemma_bits_and, lemma_bits_empty, lemma_bits_ext, lemma_bits_or,
    lemma_bits_single, lemma_popcount_or, lemma_popcount_single, popcount,
};
use crate::attacks::magic::{
    is_subset, lemma_pext_bound, lemma_pext_injective, lemma_subset_at, pext, subset_at, Magic,
};
use crate::types::{
    edge_distance, file_of, lemma_edge_distance_exact, lemma_step_coords, rank_of, shift_set,
    step_ok, Bitboard, Direction, Square, BB,
};

verus! {

/// The squares a slider on `s` reaches within `n` steps in direction `d`: each step's
/// square in turn, up to and including the first occupied one.
pub open spec fn ray(s: int, occ: Set<int>, d: Direction, n: nat) -> Set<int>
    decreases n,
{
    if n == 0 {
        Set::empty()
    } else {
        let t = s + d.offset();
        if occ.contains(t) {
            set![t]
        } else {
            set![t].union(ray(t, occ, d, (n - 1) as nat))
        }
    }
}

/// What a slider on `s` attacks in direction `d`, walking to the edge of the board.
pub open spec fn ray_attacks(s: int, occ: Set<int>, d: Direction) -> Set<int> {
    ray(s, occ, d, edge_distance(s, d) as nat)
}

/// The squares along direction `d` whose occupancy can stop the ray from `s`: the whole
/// ray on an empty board but its last square.
pub open spec fn relevant_ray(s: int, d: Direction) -> Set<int> {
    if edge_distance(s, d) == 0 {
        Set::empty()
    } else {
        ray(s, Set::empty(), d, (edge_distance(s, d) - 1) as nat)
    }
}

/// Union of the rays from `s` over a list of directions.
pub open spec fn slider_set(s: int, occ: Set<int>, ds: Seq<Direction>) -> Set<int>
    decreases ds.len(),
{
    if ds.len() == 0 {
        Set::empty()
    } else {
        slider_set(s, occ, ds.drop_last()).union(ray_attacks(s, occ, ds.last()))
    }
}

/// How many relevant squares direction `d` has from `s`: the steps to the edge but the last.
pub open spec fn relevant_count(s: int, d: Direction) -> int {
    if edge_distance(s, d) >= 1 {
        edge_distance(s, d) - 1
    } else {
        0
    }
}

/// The number of relevant squares from `s` summed over a list of directions.
pub open spec fn relevant_bound(s: int, ds: Seq<Direction>) -> int
    decreases ds.len(),
{
    if ds.len() == 0 {
        0
    } else {
        relevant_bound(s, ds.drop_last()) + relevant_count(s, ds.last())
    }
}

/// Union of the relevant squares from `s` over a list of directions.
pub open spec fn relevant_set(s: int, ds: Seq<Direction>) -> Set<int>
    decreases ds.len(),
{
    if ds.len() == 0 {
        Set::empty()
    } else {
        relevant_set(s, ds.drop_last()).union(relevant_ray(s, ds.last()))
    }
}

pub open spec fn bishop_directions() -> Seq<Direction> {
    seq![Direction::NorthWest, Direction::SouthWest, Direction::NorthEast, Direction::SouthEast]
}

pub open spec fn rook_directions() -> Seq<Direction> {
    seq![Direction::North, Direction::South, Direction::East, Direction::West]
}

/// The squares a bishop on `s` attacks over occupancy `occ`.
pub open spec fn bishop_set(s: int, occ: Set<int>) -> Set<int> {
    slider_set(s, occ, bishop_directions())
}

/// The squares a rook on `s` attacks over occupancy `occ`.
pub open spec fn rook_set(s: int, occ: Set<int>) -> Set<int> {
    slider_set(s, occ, rook_directions())
}

/// A ray depends on the occupancy of its squares but the last alone.
pub proof fn lemma_ray_relevant(s: int, occ1: Set<int>, occ2: Set<int>, d: Direction, n: nat)
    requires
        n >= 1,
        occ1.intersect(ray(s, Set::empty(), d, (n - 1) as nat)) == occ2.intersect(
            ray(s, Set::empty(), d, (n - 1) as nat),
        ),
    ensures
        ray(s, occ1, d, n) == ray(s, occ2, d, n),
    decreases n,
{
    let t = s + d.offset();
    if n == 1 {
        assert(ray(t, occ1, d, 0) == Set::<int>::empty());
        assert(ray(t, occ2, d, 0) == Set::<int>::empty());
        assert(set![t].union(Set::<int>::empty()) =~= set![t]);
        assert(ray(s, occ1, d, n) == set![t]);
        assert(ray(s, occ2, d, n) == set![t]);
    } else {
        let r = ray(s, Set::<int>::empty(), d, (n - 1) as nat);
        let r2 = ray(t, Set::<int>::empty(), d, (n - 2) as nat);
        assert(r == set![t].union(r2));
        assert(r.contains(t));
        assert(occ1.contains(t) == occ2.contains(t)) by {
            assert(occ1.intersect(r).contains(t) == occ2.intersect(r).contains(t));
        }
        assert(occ1.intersect(r2) =~= occ2.intersect(r2)) by {
            assert forall|x: int| r2.contains(x) implies occ1.contains(x) == occ2.contains(x) by {
                assert(r.contains(x));
                assert(occ1.intersect(r).contains(x) == occ2.intersect(r).contains(x));
            }
        }
        lemma_ray_relevant(t, occ1, occ2, d, (n - 1) as nat);
        if occ1.contains(t) {
            assert(ray(s, occ1, d, n) == set![t]);
            assert(ray(s, occ2, d, n) == set![t]);
        } else {
            assert(ray(s, occ1, d, n) == set![t].union(ray(t, occ1, d, (n - 1) as nat)));
            assert(ray(s, occ2, d, n) == set![t].union(ray(t, occ2, d, (n - 1) as nat)));
        }
    }
}

/// Two occupancies that agree on a set agree on each of its parts.
proof fn lemma_agree_on_part(occ1: Set<int>, occ2: Set<int>, big: Set<int>, part: Set<int>)
    requires
        part.subset_of(big),
        occ1.intersect(big) == occ2.intersect(big),
    ensures
        occ1.intersect(part) == occ2.intersect(part),
{
    assert forall|x: int| #[trigger] occ1.intersect(part).contains(x) == occ2.intersect(
        part,
    ).contains(x) by {
        assert(occ1.intersect(part).contains(x) == (occ1.contains(x) && part.contains(x)));
        assert(occ2.intersect(part).contains(x) == (occ2.contains(x) && part.contains(x)));
        if part.contains(x) {
            assert(big.contains(x));
            assert(occ1.intersect(big).contains(x) == (occ1.contains(x) && big.contains(x)));
            assert(occ2.intersect(big).contains(x) == (occ2.contains(x) && big.contains(x)));
            assert(occ1.intersect(big).contains(x) == occ2.intersect(big).contains(x));
        }
    }
    assert(occ1.intersect(part) =~= occ2.intersect(part));
}

/// What a slider attacks depends on the occupancy of its relevant squares alone.
pub proof fn lemma_slider_relevant(s: int, occ1: Set<int>, occ2: Set<int>, ds: Seq<Direction>)
    requires
        0 <= s < 64,
        occ1.intersect(relevant_set(s, ds)) == occ2.intersect(relevant_set(s, ds)),
    ensures
        slider_set(s, occ1, ds) == slider_set(s, occ2, ds),
    decreases ds.len(),
{
    if ds.len() > 0 {
        let rest = ds.drop_last();
        let d = ds.last();
        let all = relevant_set(s, ds);
        assert(all == relevant_set(s, rest).union(relevant_ray(s, d)));
        lemma_agree_on_part(occ1, occ2, all, relevant_set(s, rest));
        lemma_slider_relevant(s, occ1, occ2, rest);
        assert(slider_set(s, occ1, ds) == slider_set(s, occ1, rest).union(ray_attacks(s, occ1, d)));
        assert(slider_set(s, occ2, ds) == slider_set(s, occ2, rest).union(ray_attacks(s, occ2, d)));
        if edge_distance(s, d) >= 1 {
            lemma_agree_on_part(occ1, occ2, all, relevant_ray(s, d));
            lemma_ray_relevant(s, occ1, occ2, d, edge_distance(s, d) as nat);
        } else {
            assert(ray_attacks(s, occ1, d) == Set::<int>::empty());
            assert(ray_attacks(s, occ2, d) == Set::<int>::empty());
        }
    }
}

/// Walks up to `n` steps from `from` in direction `d`, stopping after the first square that
/// is set in `occupied`.
fn cast(from: Square, occupied: Bitboard, d: Direction, n: u8) -> (r: Bitboard)
    requires
        from@ < 64,
        n <= edge_distance(from@, d),
    ensures
        r@ == ray(from@, occupied@, d, n as nat),
        popcount(r.0) <= n,
{
    let fi = from.as_int();
    let ghost s = from@;
    let ghost occ = occupied@;
    let ghost total = ray(s, occ, d, n as nat);
    let ghost mut cur: int = s;
    let mut attacks: u64 = 0;
    let mut from_bb = from.to_bitboard();
    proof {
        crate::bits::lemma_bits_zero();
        assert(popcount(0u64) == 0);
        assert(Set::<int>::empty().union(total) =~= total);
    }
    let mut i: u8 = 0;
    while i < n
        invariant
            s == from@,
            0 <= s < 64,
            i <= n,
            n <= edge_distance(s, d),
            occ == occupied@,
            total == ray(s, occ, d, n as nat),
            0 <= cur < 64,
            rank_of(cur) == rank_of(s) + i * d.dr(),
            file_of(cur) == file_of(s) + i * d.df(),
            from_bb@ == set![cur],
            bits(attacks).union(ray(cur, occ, d, (n - i) as nat)) == total,
            bits(attacks).disjoint(occ),
            popcount(attacks) <= i,
        decreases n - i,
    {
        proof {
            if d != Direction::Stay {
                lemma_edge_distance_exact(s, d, i + 1);
                assert((i + 1) * d.dr() == i * d.dr() + d.dr()) by (nonlinear_arith);
                assert((i + 1) * d.df() == i * d.df() + d.df()) by (nonlinear_arith);
            }
            assert(step_ok(cur, d));
            lemma_step_coords(cur, d.dr(), d.df());
            assert(shift_set(set![cur], d) =~= set![cur + d.offset()]);
        }
        from_bb = from_bb.shift_by_direction(d);
        let ghost t = cur + d.offset();
        let ghost old_attacks = attacks;
        proof {
            lemma_bits_or(attacks, from_bb.0);
            lemma_bits_single(t as u64);
            lemma_bits_ext(from_bb.0, 1u64 << (t as u64));
            lemma_popcount_single(t as u64);
            lemma_popcount_or(attacks, from_bb.0);
        }
        attacks = attacks | from_bb.0;
        proof {
            lemma_bits_and(attacks, occupied.0);
            lemma_bits_empty(attacks & occupied.0);
            assert(bits(attacks) == bits(old_attacks).insert(t));
        }
        if attacks & occupied.0 != 0 {
            proof {
                if !occ.contains(t) {
                    assert(bits(attacks).intersect(occ) =~= Set::<int>::empty());
                }
                assert(occ.contains(t));
                assert(ray(cur, occ, d, (n - i) as nat) == set![t]);
                assert(bits(attacks) =~= bits(old_attacks).union(set![t]));
                assert(bits(attacks) == total);
            }
            return Bitboard(attacks);
        }
        proof {
            assert(!occ.contains(t)) by {
                if occ.contains(t) {
                    assert(bits(attacks).intersect(occ).contains(t));
                }
            }
            assert(ray(cur, occ, d, (n - i) as nat) == set![t].union(
                ray(t, occ, d, (n - i - 1) as nat),
            ));
            assert(bits(attacks).union(ray(t, occ, d, (n - i - 1) as nat)) =~= total);
            assert(bits(attacks).disjoint(occ));
            cur = t;
        }
        i = i + 1;
    }
    proof {
        assert(bits(attacks).union(Set::<int>::empty()) =~= bits(attacks));
    }
    Bitboard(attacks)
}

/// What a slider on `from` attacks in direction `d` over the occupancy `occupied`: every
/// square up to the edge of the board, or up to and including the first occupied one.
pub fn sliding_attacks(from: Square, occupied: Bitboard, direction: Direction) -> (r: Bitboard)
    requires
        from@ < 64,
    ensures
        r@ == ray_attacks(from@, occupied@, direction),
{
    let n = from.distance_from_edge(direction);
    cast(from, occupied, direction, n)
}

/// The squares along direction `d` from `from` whose occupancy can stop a slider: the ray on
/// an empty board without its last square.
pub fn sliding_occupancies(from: Square, direction: Direction) -> (r: Bitboard)
    requires
        from@ < 64,
    ensures
        r@ == relevant_ray(from@, direction),
        popcount(r.0) <= relevant_count(from@, direction),
{
    let n = from.distance_from_edge(direction);
    if n == 0 {
        proof {
            crate::bits::lemma_bits_zero();
        }
        assert(popcount(0u64) == 0);
        BB(0)
    } else {
        proof {
            crate::bits::lemma_bits_zero();
        }
        cast(from, BB(0), direction, n - 1)
    }
}

/// No direction of the list is `Stay`.
pub open spec fn moving_directions(ds: Seq<Direction>) -> bool {
    forall|i: int| 0 <= i < ds.len() ==> ds[i] != Direction::Stay
}

/// What a slider on `from` attacks over `occupied`, along each direction of a list.
pub fn sliding_moves(from: Square, occupied: Bitboard, directions: &[Direction]) -> (r: Bitboard)
    requires
        from@ < 64,
    ensures
        r@ == slider_set(from@, occupied@, directions@),
{
    let mut moves: u64 = 0;
    let mut i: usize = 0;
    proof {
        crate::bits::lemma_bits_zero();
        assert(directions@.take(0) =~= Seq::<Direction>::empty());
    }
    while i < directions.len()
        invariant
            from@ < 64,
            i <= directions@.len(),
            bits(moves) == slider_set(from@, occupied@, directions@.take(i as int)),
        decreases directions.len() - i,
    {
        let a = sliding_attacks(from, occupied, directions[i]);
        proof {
            lemma_bits_or(moves, a.0);
            assert(directions@.take(i + 1).drop_last() =~= directions@.take(i as int));
        }
        moves = moves | a.0;
        i = i + 1;
    }
    proof {
        assert(directions@.take(i as int) =~= directions@);
    }
    BB(moves)
}

/// The squares whose occupancy can change what a slider on `from` attacks along a list of
/// directions.
pub fn relevant_occupancies(from: Square, directions: &[Direction]) -> (r: Bitboard)
    requires
        from@ < 64,
    ensures
        r@ == relevant_set(from@, directions@),
        popcount(r.0) <= relevant_bound(from@, directions@),
{
    let mut mask: u64 = 0;
    let mut i: usize = 0;
    proof {
        crate::bits::lemma_bits_zero();
        assert(popcount(0u64) == 0);
        assert(directions@.take(0) =~= Seq::<Direction>::empty());
    }
    while i < directions.len()
        invariant
            from@ < 64,
            i <= directions@.len(),
            bits(mask) == relevant_set(from@, directions@.take(i as int)),
            popcount(mask) <= relevant_bound(from@, directions@.take(i as int)),
        decreases directions.len() - i,
    {
        let a = sliding_occupancies(from, directions[i]);
        proof {
            lemma_bits_or(mask, a.0);
            lemma_popcount_or(mask, a.0);
            assert(directions@.take(i + 1).drop_last() =~= directions@.take(i as int));
        }
        mask = mask | a.0;
        i = i + 1;
    }
    proof {
        assert(directions@.take(i as int) =~= directions@);
    }
    BB(mask)
}

pub fn bishop_directions_list() -> (r: [Direction; 4])
    ensures
        r@ == bishop_directions(),
        moving_directions(r@),
{
    let r = [Direction::NorthWest, Direction::SouthWest, Direction::NorthEast, Direction::SouthEast];
    proof {
        assert(r@ =~= bishop_directions());
    }
    r
}

pub fn rook_directions_list() -> (r: [Direction; 4])
    ensures
        r@ == rook_directions(),
        moving_directions(r@),
{
    let r = [Direction::North, Direction::South, Direction::East, Direction::West];
    proof {
        assert(r@ =~= rook_directions());
    }
    r
}

/// What a bishop on `from` attacks over `occupied`, by casting its four rays.
pub fn bishop_moves(from: Square, occupied: Bitboard) -> (r: Bitboard)
    requires
        from@ < 64,
    ensures
        r@ == bishop_set(from@, occupied@),
{
    let directions = bishop_directions_list();
    sliding_moves(from, occupied, &directions)
}

/// What a rook on `from` attacks over `occupied`, by casting its four rays.
pub fn rook_moves(from: Square, occupied: Bitboard) -> (r: Bitboard)
    requires
        from@ < 64,
    ensures
        r@ == rook_set(from@, occupied@),
{
    let directions = rook_directions_list();
    sliding_moves(from, occupied, &directions)
}

/// The four directions of a rook, or those of a bishop.
pub open spec fn slider_directions(is_rook: bool) -> Seq<Direction> {
    if is_rook {
        rook_directions()
    } else {
        bishop_directions()
    }
}

/// What a table entry for square `s` and occupancy `occ` must hold.
pub open spec fn slider_entry(s: int, occ: u64, is_rook: bool) -> Set<int> {
    slider_set(s, bits(occ), slider_directions(is_rook))
}

/// Fills the attack table of one square: walks every subset of the mask with the
/// carry-rippler step and stores, at the subset's index, what the slider attacks when just
/// that subset is occupied. Every entry of the table is written: entry `k` holds the subset
/// that the walk reaches at step `len - 1 - k`.
pub fn generate_attacks(table: &mut Vec<Bitboard>, square: Square, magic: Magic, is_rook: bool)
    requires
        square@ < 64,
        popcount(magic.mask.0) <= 24,
        old(table)@.len() == pow2(popcount(magic.mask.0)),
    ensures
        final(table)@.len() == old(table)@.len(),
        forall|t: u64|
            is_subset(t, magic.mask.0) ==> final(table)@[#[trigger] pext(t, magic.mask.0) as int]@
                == slider_entry(square@, t, is_rook),
        forall|k: int|
            0 <= k < final(table)@.len() ==> (#[trigger] final(table)@[k])@ == slider_entry(
                square@,
                subset_at(magic.mask.0, (final(table)@.len() - 1 - k) as nat),
                is_rook,
            ),
{
    let mask = magic.mask.0;
    let n = table.len();
    let mut subset = mask;
    let mut i: usize = 0;
    proof {
        assert forall|t: u64| #[trigger] pext(t, mask) + 0 < n by {
            lemma_pext_bound(t, mask);
        }
    }
    while i < n
        invariant
            square@ < 64,
            popcount(mask) <= 24,
            mask == magic.mask.0,
            n == pow2(popcount(mask)),
            table@.len() == n,
            i <= n,
            subset == subset_at(mask, i as nat),
            forall|t: u64|
                is_subset(t, mask) && #[trigger] pext(t, mask) + i >= n ==> table@[pext(
                    t,
                    mask,
                ) as int]@ == slider_entry(square@, t, is_rook),
        decreases n - i,
    {
        proof {
            lemma_subset_at(mask, i as nat);
        }
        let idx = magic.index(BB(subset));
        let moves = if is_rook {
            rook_moves(square, BB(subset))
        } else {
            bishop_moves(square, BB(subset))
        };
        let ghost before = table@;
        table.set(idx, moves);
        proof {
            assert forall|t: u64|
                is_subset(t, mask) && #[trigger] pext(t, mask) + (i + 1) >= n implies table@[pext(
                t,
                mask,
            ) as int]@ == slider_entry(square@, t, is_rook) by {
                lemma_pext_bound(t, mask);
                if pext(t, mask) == idx {
                    lemma_pext_injective(t, subset, mask);
                } else {
                    assert(table@[pext(t, mask) as int] == before[pext(t, mask) as int]);
                }
            }
        }
        subset = subset.wrapping_sub(1) & mask;
        i = i + 1;
    }
    proof {
        assert forall|k: int| 0 <= k < n implies (#[trigger] table@[k])@ == slider_entry(
            square@,
            subset_at(mask, (n - 1 - k) as nat),
            is_rook,
        ) by {
            lemma_subset_at(mask, (n - 1 - k) as nat);
            let t = subset_at(mask, (n - 1 - k) as nat);
            assert(pext(t, mask) + 0 >= n || pext(t, mask) == k);
        }
    }
}

/// The square where a ray from `s` in direction `d` stops within `n` steps: its first
/// occupied square, if any.
pub open spec fn ray_hit(s: int, occ: Set<int>, d: Direction, n: nat) -> Option<int>
    decreases n,
{
    if n == 0 {
        None
    } else {
        let t = s + d.offset();
        if occ.contains(t) {
            Some(t)
        } else {
            ray_hit(t, occ, d, (n - 1) as nat)
        }
    }
}

/// A ray meets a set of occupied squares at most where it stops.
pub proof fn lemma_ray_meets(s: int, occ: Set<int>, x: Set<int>, d: Direction, n: nat)
    requires
        x.subset_of(occ),
    ensures
        ray(s, occ, d, n).intersect(x) == match ray_hit(s, occ, d, n) {
            Some(h) => if x.contains(h) {
                set![h]
            } else {
                Set::<int>::empty()
            },
            None => Set::<int>::empty(),
        },
    decreases n,
{
    if n == 0 {
        assert(ray(s, occ, d, n).intersect(x) =~= Set::<int>::empty());
    } else {
        let t = s + d.offset();
        if occ.contains(t) {
            assert(ray(s, occ, d, n) == set![t]);
            if x.contains(t) {
                assert(set![t].intersect(x) =~= set![t]);
            } else {
                assert(set![t].intersect(x) =~= Set::<int>::empty());
            }
        } else {
            lemma_ray_meets(t, occ, x, d, (n - 1) as nat);
            assert(!x.contains(t));
            assert(ray(s, occ, d, n) == set![t].union(ray(t, occ, d, (n - 1) as nat)));
            assert(ray(s, occ, d, n).intersect(x) =~= ray(t, occ, d, (n - 1) as nat).intersect(x));
        }
    }
}

/// A rook has at most 12 relevant squares from any square, a bishop at most 9.
pub proof fn lemma_relevant_sizes(s: int)
    requires
        0 <= s < 64,
    ensures
        relevant_bound(s, rook_directions()) <= 12,
        relevant_bound(s, bishop_directions()) <= 9,
{
    let r = rook_directions();
    assert(r.drop_last() =~= seq![Direction::North, Direction::South, Direction::East]);
    assert(r.drop_last().drop_last() =~= seq![Direction::North, Direction::South]);
    assert(r.drop_last().drop_last().drop_last() =~= seq![Direction::North]);
    assert(r.drop_last().drop_last().drop_last().drop_last() =~= Seq::<Direction>::empty());
    let b = bishop_directions();
    assert(b.drop_last() =~= seq![Direction::NorthWest, Direction::SouthWest, Direction::NorthEast]);
    assert(b.drop_last().drop_last() =~= seq![Direction::NorthWest, Direction::SouthWest]);
    assert(b.drop_last().drop_last().drop_last() =~= seq![Direction::NorthWest]);
    assert(b.drop_last().drop_last().drop_last().drop_last() =~= Seq::<Direction>::empty());
    assert(r.last() == Direction::West);
    assert(relevant_bound(s, r) == relevant_bound(s, r.drop_last()) + relevant_count(s, Direction::West));
    assert(r.drop_last().last() == Direction::East);
    assert(relevant_bound(s, r.drop_last()) == relevant_bound(s, r.drop_last().drop_last()) + relevant_count(s, Direction::East));
    assert(r.drop_last().drop_last().last() == Direction::South);
    assert(relevant_bound(s, r.drop_last().drop_last()) == relevant_bound(s, r.drop_last().drop_last().drop_last()) + relevant_count(s, Direction::South));
    assert(r.drop_last().drop_last().drop_last().last() == Direction::North);
    assert(relevant_bound(s, r.drop_last().drop_last().drop_last()) == relevant_bound(s, r.drop_last().drop_last().drop_last().drop_last()) + relevant_count(s, Direction::North));
    assert(relevant_bound(s, r.drop_last().drop_last().drop_last().drop_last()) == 0);
    assert(b.last() == Direction::SouthEast);
    assert(relevant_bound(s, b) == relevant_bound(s, b.drop_last()) + relevant_count(s, Direction::SouthEast));
    assert(b.drop_last().last() == Direction::NorthEast);
    assert(relevant_bound(s, b.drop_last()) == relevant_bound(s, b.drop_last().drop_last()) + relevant_count(s, Direction::NorthEast));
    assert(b.drop_last().drop_last().last() == Direction::SouthWest);
    assert(relevant_bound(s, b.drop_last().drop_last()) == relevant_bound(s, b.drop_last().drop_last().drop_last()) + relevant_count(s, Direction::SouthWest));
    assert(b.drop_last().drop_last().drop_last().last() == Direction::NorthWest);
    assert(relevant_bound(s, b.drop_last().drop_last().drop_last()) == relevant_bound(s, b.drop_last().drop_last().drop_last().drop_last()) + relevant_count(s, Direction::NorthWest));
    assert(relevant_bound(s, b.drop_last().drop_last().drop_last().drop_last()) == 0);
}

} // verus!
