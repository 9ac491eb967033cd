//! A move, as move generation will hand it out.
use vstd::prelude::*;

use crate::types::{Piece, Square};

verus! {

#[derive(Clone, Copy, PartialEq, Eq, Debug, Hash)]
pub struct Move {
    pub from: Square,
    pub to: Square,
    pub moved: Piece,
    pub captured: Piece,
    pub promotion: Option<Piece>,
    pub is_castling: bool,
}

} // verus!
