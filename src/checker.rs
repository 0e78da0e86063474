use vstd::prelude::*;

verus! {

/// Whether the lattice cell `(x, y, z)` of a checker pattern shows the even
/// texture: it does when the sum of the cell's coordinates is even.
pub fn is_even_cell(x: i32, y: i32, z: i32) -> (r: bool)
    ensures
        r == ((x + y + z) % 2 == 0),
{
    let s: i64 = x as i64 + y as i64 + z as i64;
    s % 2 == 0
}

} // verus!
