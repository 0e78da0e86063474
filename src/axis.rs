use vstd::prelude::*;

use crate::random::draw_below;

verus! {

/// One of the three coordinate axes.
#[derive(Clone, Copy, Debug, PartialEq, Eq, Structural)]
pub enum Dim {
    X,
    Y,
    Z,
}

impl Dim {
    /// The position of the axis: 0 for X, 1 for Y, 2 for Z.
    pub open spec fn ord(self) -> nat {
        match self {
            Dim::X => 0,
            Dim::Y => 1,
            Dim::Z => 2,
        }
    }

    /// The axes in order.
    pub fn all() -> (r: [Dim; 3])
        ensures
            r@ == seq![Dim::X, Dim::Y, Dim::Z],
    {
        [Dim::X, Dim::Y, Dim::Z]
    }

    /// The axis with position `n`; a number past 2 gives X.
    pub fn from_index(n: u32) -> (d: Dim)
        ensures
            n < 3 ==> d.ord() == n,
            n >= 3 ==> d == Dim::X,
    {
        if n == 1 {
            Dim::Y
        } else if n == 2 {
            Dim::Z
        } else {
            Dim::X
        }
    }

    /// An axis drawn at random, each with the same chance.
    pub fn random() -> (d: Dim) {
        let n = draw_below(3);
        Dim::from_index(n as u32)
    }

    /// The position of the axis.
    pub fn index(self) -> (r: usize)
        ensures
            r == self.ord(),
    {
        match self {
            Dim::X => 0,
            Dim::Y => 1,
            Dim::Z => 2,
        }
    }
}

/// One order key per axis. An order key is an unsigned number that compares
/// as the real coordinate it stands for does: the renderer turns each
/// coordinate into its key, and the logic here only ever compares keys.
#[derive(Clone, Copy, Debug, PartialEq, Eq, Structural)]
pub struct AxisKeys {
    pub x: u32,
    pub y: u32,
    pub z: u32,
}

impl AxisKeys {
    pub open spec fn at(self, d: Dim) -> u32 {
        match d {
            Dim::X => self.x,
            Dim::Y => self.y,
            Dim::Z => self.z,
        }
    }

    /// The key along axis `d`.
    pub fn get(&self, d: Dim) -> (r: u32)
        ensures
            r == self.at(d),
    {
        match d {
            Dim::X => self.x,
            Dim::Y => self.y,
            Dim::Z => self.z,
        }
    }
}

/// The axis along which a box is longest, given the keys of its three spans.
/// X wins only when strictly longer than both others, Y only when it is not
/// shorter than X and strictly longer than Z; every other case gives Z.
pub open spec fn longest_axis_spec(s: AxisKeys) -> Dim {
    if s.x > s.y {
        if s.x > s.z { Dim::X } else { Dim::Z }
    } else {
        if s.y > s.z { Dim::Y } else { Dim::Z }
    }
}

/// Picks the split axis from the keys of a box's spans along X, Y and Z.
pub fn longest_axis(spans: &AxisKeys) -> (d: Dim)
    ensures
        d == longest_axis_spec(*spans),
        spans.at(d) >= spans.x && spans.at(d) >= spans.y && spans.at(d) >= spans.z,
{
    if spans.x > spans.y {
        if spans.x > spans.z { Dim::X } else { Dim::Z }
    } else {
        if spans.y > spans.z { Dim::Y } else { Dim::Z }
    }
}

} // verus!
