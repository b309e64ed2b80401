use vstd::prelude::*;

verus! {

/// One of the three coordinate axes.
#[derive(Clone, Copy, Debug)]
pub enum Axis {
    X,
    Y,
    Z,
}

/// The axis with index `value`: 0 is X, 1 is Y, 2 is Z.
pub open spec fn axis_of_index(value: nat) -> Axis {
    if value == 0 {
        Axis::X
    } else if value == 1 {
        Axis::Y
    } else {
        Axis::Z
    }
}

impl Axis {
    /// The three axes, in the order X, Y, Z.
    pub fn all() -> (r: Vec<Axis>)
        ensures
            r@ == seq![Axis::X, Axis::Y, Axis::Z],
    {
        vec![Axis::X, Axis::Y, Axis::Z]
    }

    /// The axis with index `value`; there are only three.
    pub fn from_index(value: usize) -> (r: Axis)
        requires
            value < 3,
        ensures
            r == axis_of_index(value as nat),
    {
        match value {
            0 => Axis::X,
            1 => Axis::Y,
            _ => Axis::Z,
        }
    }
}

} // verus!
