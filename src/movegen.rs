//! Move generation. Only its entry point and its list type exist so far.
use vstd::prelude::*;

use crate::board::Board;
pub use crate::moves::Move;

verus! {

/// The moves of a position, held inline up to 32 in a small vector.
#[verifier::external_body]
pub struct MoveList {
    list: smallvec::SmallVec<[Move; 32]>,
}

/// The moves a move list holds, in order.
pub uninterp spec fn move_list_items(l: MoveList) -> Seq<Move>;

impl MoveList {
    /// Relies on smallvec::SmallVec::new: a new vector holds no item.
    #[verifier::external_body]
    fn new() -> (r: MoveList)
        ensures
            move_list_items(r) == Seq::<Move>::empty(),
    {
        MoveList { list: smallvec::SmallVec::new() }
    }
}

impl Board {
    /// The moves of the side to move. Generation is not written yet: the list is empty.
    pub fn generate_moves(&self) -> (r: MoveList)
        ensures
            move_list_items(r) == Seq::<Move>::empty(),
    {
        MoveList::new()
    }
}

} // verus!
