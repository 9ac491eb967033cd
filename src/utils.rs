use vstd::prelude::*;

verus! {

/// The larger of two small integers.
pub fn maxi8(a: i8, b: i8) -> (r: i8)
    ensures
        r == if a > b { a } else { b },
{
    if a > b {
        a
    } else {
        b
    }
}

/// The smaller of two small integers.
pub fn mini8(a: i8, b: i8) -> (r: i8)
    ensures
        r == if a < b { a } else { b },
{
    if a < b {
        a
    } else {
        b
    }
}

} // verus!
