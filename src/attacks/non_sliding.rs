//! Attack tables of pawns, knights and kings.
use vstd::prelude::*;

use crate::bits::{lemma_bits_or, lemma_bits_single, lemma_bits_zero};
use crate::types::{file_of, rank_of, shift_set, Bitboard, Direction, Square, BB};

verus! {

pub open spec fn abs_int(x: int) -> int {
    if x < 0 {
        -x
    } else {
        x
    }
}

/// Distance between two squares counted in king moves.
pub open spec fn chebyshev(a: int, b: int) -> int {
    let df = abs_int(file_of(a) - file_of(b));
    let dr = abs_int(rank_of(a) - rank_of(b));
    if df > dr {
        df
    } else {
        dr
    }
}

/// The square `step` indices away from `s`, if it is on the board and at most two king
/// moves away (which drops steps that would wrap round an edge).
pub open spec fn step_set(s: int, step: int) -> Set<int> {
    if 0 <= s + step < 64 && chebyshev(s, s + step) <= 2 {
        set![s + step]
    } else {
        Set::empty()
    }
}

/// The squares reached from `s` by the steps of a list.
pub open spec fn steps_set(s: int, steps: Seq<i8>) -> Set<int> {
    Set::new(
        |t: int| exists|j: int| 0 <= j < steps.len() && #[trigger] step_set(s, steps[j] as int).contains(t),
    )
}

pub open spec fn knight_steps() -> Seq<i8> {
    seq![-17i8, -15i8, -10i8, -6i8, 6i8, 10i8, 15i8, 17i8]
}

pub open spec fn king_steps() -> Seq<i8> {
    seq![-9i8, -8i8, -7i8, -1i8, 1i8, 7i8, 8i8, 9i8]
}

/// The two squares diagonally forward of `s` for a pawn of the given side.
pub open spec fn pawn_set(s: int, white: bool) -> Set<int> {
    if white {
        shift_set(set![s], Direction::NorthEast).union(shift_set(set![s], Direction::NorthWest))
    } else {
        shift_set(set![s], Direction::SouthEast).union(shift_set(set![s], Direction::SouthWest))
    }
}

pub open spec fn knight_set(s: int) -> Set<int> {
    steps_set(s, knight_steps())
}

pub open spec fn king_set(s: int) -> Set<int> {
    steps_set(s, king_steps())
}

/// Fills `a` with the pawn attacks of one side from every square.
pub fn generate_pawn_attacks(a: &mut Vec<Bitboard>, white: bool)
    requires
        old(a)@.len() == 64,
    ensures
        final(a)@.len() == 64,
        forall|i: int| 0 <= i < 64 ==> (#[trigger] final(a)@[i])@ == pawn_set(i, white),
{
    let mut i: usize = 0;
    while i < 64
        invariant
            a@.len() == 64,
            i <= 64,
            forall|k: int| 0 <= k < i ==> (#[trigger] a@[k])@ == pawn_set(k, white),
        decreases 64 - i,
    {
        proof {
            lemma_bits_single(i as u64);
        }
        let b = BB(1u64 << i);
        let (d1, d2) = if white {
            (Direction::NorthEast, Direction::NorthWest)
        } else {
            (Direction::SouthEast, Direction::SouthWest)
        };
        let x = b.shift_by_direction(d1).0;
        let y = b.shift_by_direction(d2).0;
        proof {
            lemma_bits_or(x, y);
        }
        a.set(i, BB(x | y));
        i = i + 1;
    }
}

/// The square `step` indices away from `s`, or nothing where that square is off the board
/// or more than two king moves away.
pub fn safe_step(s: Square, step: i8) -> (r: Bitboard)
    requires
        s@ < 64,
        -64 < step < 64,
    ensures
        r@ == step_set(s@, step as int),
{
    let si = s.as_int() as i8;
    let sn = si + step;
    if sn >= 0 && sn < 64 {
        let df = crate::utils::maxi8((si % 8) - (sn % 8), (sn % 8) - (si % 8));
        let dr = crate::utils::maxi8((si / 8) - (sn / 8), (sn / 8) - (si / 8));
        if crate::utils::maxi8(df, dr) <= 2 {
            proof {
                lemma_bits_single(sn as u64);
            }
            return BB(1u64 << sn);
        }
    }
    proof {
        lemma_bits_zero();
    }
    BB(0)
}

/// Adds to every square's entry of `a` the squares reached by the steps of a list.
pub fn generate_attacks_via_steps(a: &mut Vec<Bitboard>, steps: &[i8])
    requires
        old(a)@.len() == 64,
        forall|j: int| 0 <= j < steps@.len() ==> -64 < #[trigger] steps@[j] < 64,
    ensures
        final(a)@.len() == 64,
        forall|i: int|
            0 <= i < 64 ==> (#[trigger] final(a)@[i])@ == old(a)@[i]@.union(steps_set(i, steps@)),
{
    let ghost start = a@;
    let mut i: usize = 0;
    while i < 64
        invariant
            a@.len() == 64,
            start.len() == 64,
            i <= 64,
            forall|j: int| 0 <= j < steps@.len() ==> -64 < #[trigger] steps@[j] < 64,
            forall|k: int|
                0 <= k < i ==> (#[trigger] a@[k])@ == start[k]@.union(steps_set(k, steps@)),
            forall|k: int| i <= k < 64 ==> #[trigger] a@[k] == start[k],
        decreases 64 - i,
    {
        let mut j: usize = 0;
        proof {
            assert(start[i as int]@.union(steps_set(i as int, steps@.take(0))) =~= start[i as int]@);
        }
        while j < steps.len()
            invariant
                a@.len() == 64,
                start.len() == 64,
                i < 64,
                j <= steps@.len(),
                forall|j: int| 0 <= j < steps@.len() ==> -64 < #[trigger] steps@[j] < 64,
                forall|k: int|
                    0 <= k < i ==> (#[trigger] a@[k])@ == start[k]@.union(steps_set(k, steps@)),
                forall|k: int| i < k < 64 ==> #[trigger] a@[k] == start[k],
                a@[i as int]@ == start[i as int]@.union(steps_set(i as int, steps@.take(j as int))),
            decreases steps.len() - j,
        {
            let st = safe_step(Square::from_index(i as u8), steps[j]);
            let cur = a[i];
            proof {
                lemma_bits_or(cur.0, st.0);
                let s = i as int;
                let old_part = steps_set(s, steps@.take(j as int));
                let new_part = steps_set(s, steps@.take(j + 1));
                assert forall|t: int| #[trigger] new_part.contains(t) == (old_part.contains(t)
                    || step_set(s, steps@[j as int] as int).contains(t)) by {
                    if new_part.contains(t) {
                        let w = choose|w: int|
                            0 <= w < j + 1 && #[trigger] step_set(
                                s,
                                steps@.take(j + 1)[w] as int,
                            ).contains(t);
                        if w < j {
                            assert(steps@.take(j as int)[w] == steps@.take(j + 1)[w]);
                        }
                    }
                    if old_part.contains(t) {
                        let w = choose|w: int|
                            0 <= w < j && #[trigger] step_set(
                                s,
                                steps@.take(j as int)[w] as int,
                            ).contains(t);
                        assert(steps@.take(j as int)[w] == steps@.take(j + 1)[w]);
                    }
                    if step_set(s, steps@[j as int] as int).contains(t) {
                        assert(steps@.take(j + 1)[j as int] == steps@[j as int]);
                    }
                }
                assert(start[s]@.union(new_part) =~= start[s]@.union(old_part).union(
                    step_set(s, steps@[j as int] as int),
                ));
            }
            a.set(i, BB(cur.0 | st.0));
            j = j + 1;
        }
        proof {
            assert(steps@.take(j as int) =~= steps@);
        }
        i = i + 1;
    }
}

/// Adds the knight moves from every square to the entries of `a`.
pub fn generate_knight_attacks(a: &mut Vec<Bitboard>)
    requires
        old(a)@.len() == 64,
    ensures
        final(a)@.len() == 64,
        forall|i: int|
            0 <= i < 64 ==> (#[trigger] final(a)@[i])@ == old(a)@[i]@.union(knight_set(i)),
{
    let steps: [i8; 8] = [-17, -15, -10, -6, 6, 10, 15, 17];
    proof {
        assert(steps@ =~= knight_steps());
    }
    generate_attacks_via_steps(a, &steps);
}

/// Adds the king moves from every square to the entries of `a`.
pub fn generate_king_attacks(a: &mut Vec<Bitboard>)
    requires
        old(a)@.len() == 64,
    ensures
        final(a)@.len() == 64,
        forall|i: int| 0 <= i < 64 ==> (#[trigger] final(a)@[i])@ == old(a)@[i]@.union(king_set(i)),
{
    let steps: [i8; 8] = [-9, -8, -7, -1, 1, 7, 8, 9];
    proof {
        assert(steps@ =~= king_steps());
    }
    generate_attacks_via_steps(a, &steps);
}

/// A knight jump: two ranks and one file apart, or one rank and two files.
pub open spec fn knight_jump(s: int, t: int) -> bool {
    let dr = abs_int(rank_of(t) - rank_of(s));
    let df = abs_int(file_of(t) - file_of(s));
    (dr == 1 && df == 2) || (dr == 2 && df == 1)
}

/// A king step: at most one rank and one file apart, and not the same square.
pub open spec fn king_step(s: int, t: int) -> bool {
    t != s && abs_int(rank_of(t) - rank_of(s)) <= 1 && abs_int(file_of(t) - file_of(s)) <= 1
}

/// Filtering the eight knight offsets by the two-king-move distance leaves exactly the
/// knight jumps that stay on the board: no offset wraps round an edge.
pub proof fn lemma_knight_set(s: int)
    requires
        0 <= s < 64,
    ensures
        knight_set(s) == Set::new(|t: int| 0 <= t < 64 && knight_jump(s, t)),
{
    assert forall|t: int| #[trigger] knight_set(s).contains(t) == (0 <= t < 64 && knight_jump(s, t)) by {
        if knight_set(s).contains(t) {
            let j = choose|j: int| 0 <= j < 8 && #[trigger] step_set(s, knight_steps()[j] as int).contains(t);
            assert(t == s + knight_steps()[j]);
        }
        if 0 <= t < 64 && knight_jump(s, t) {
            if t - s == -17 {
                assert(knight_steps()[0] as int == -17);
                assert(step_set(s, knight_steps()[0] as int).contains(t));
            } else if t - s == -15 {
                assert(knight_steps()[1] as int == -15);
                assert(step_set(s, knight_steps()[1] as int).contains(t));
            } else if t - s == -10 {
                assert(knight_steps()[2] as int == -10);
                assert(step_set(s, knight_steps()[2] as int).contains(t));
            } else if t - s == -6 {
                assert(knight_steps()[3] as int == -6);
                assert(step_set(s, knight_steps()[3] as int).contains(t));
            } else if t - s == 6 {
                assert(knight_steps()[4] as int == 6);
                assert(step_set(s, knight_steps()[4] as int).contains(t));
            } else if t - s == 10 {
                assert(knight_steps()[5] as int == 10);
                assert(step_set(s, knight_steps()[5] as int).contains(t));
            } else if t - s == 15 {
                assert(knight_steps()[6] as int == 15);
                assert(step_set(s, knight_steps()[6] as int).contains(t));
            } else if t - s == 17 {
                assert(knight_steps()[7] as int == 17);
                assert(step_set(s, knight_steps()[7] as int).contains(t));
            }
        }
    }
    assert(knight_set(s) =~= Set::new(|t: int| 0 <= t < 64 && knight_jump(s, t)));
}

/// Filtering the eight king offsets by the two-king-move distance leaves exactly the
/// adjacent squares on the board: no offset wraps round an edge.
pub proof fn lemma_king_set(s: int)
    requires
        0 <= s < 64,
    ensures
        king_set(s) == Set::new(|t: int| 0 <= t < 64 && king_step(s, t)),
{
    assert forall|t: int| #[trigger] king_set(s).contains(t) == (0 <= t < 64 && king_step(s, t)) by {
        if king_set(s).contains(t) {
            let j = choose|j: int| 0 <= j < 8 && #[trigger] step_set(s, king_steps()[j] as int).contains(t);
            assert(t == s + king_steps()[j]);
        }
        if 0 <= t < 64 && king_step(s, t) {
            if t - s == -9 {
                assert(king_steps()[0] as int == -9);
                assert(step_set(s, king_steps()[0] as int).contains(t));
            } else if t - s == -8 {
                assert(king_steps()[1] as int == -8);
                assert(step_set(s, king_steps()[1] as int).contains(t));
            } else if t - s == -7 {
                assert(king_steps()[2] as int == -7);
                assert(step_set(s, king_steps()[2] as int).contains(t));
            } else if t - s == -1 {
                assert(king_steps()[3] as int == -1);
                assert(step_set(s, king_steps()[3] as int).contains(t));
            } else if t - s == 1 {
                assert(king_steps()[4] as int == 1);
                assert(step_set(s, king_steps()[4] as int).contains(t));
            } else if t - s == 7 {
                assert(king_steps()[5] as int == 7);
                assert(step_set(s, king_steps()[5] as int).contains(t));
            } else if t - s == 8 {
                assert(king_steps()[6] as int == 8);
                assert(step_set(s, king_steps()[6] as int).contains(t));
            } else if t - s == 9 {
                assert(king_steps()[7] as int == 9);
                assert(step_set(s, king_steps()[7] as int).contains(t));
            }
        }
    }
    assert(king_set(s) =~= Set::new(|t: int| 0 <= t < 64 && king_step(s, t)));
}

} // verus!
