//! Axes and alignment modes of flex layouts.
use vstd::prelude::*;

verus! {

/// Direction along which a flex container lays out its children.
#[derive(Copy, Clone, Debug, PartialEq, Eq, Structural)]
pub enum Axis {
    Horizontal,
    Vertical,
}

impl Axis {
    /// The axis perpendicular to this one.
    pub open spec fn cross(self) -> Axis {
        match self {
            Axis::Horizontal => Axis::Vertical,
            Axis::Vertical => Axis::Horizontal,
        }
    }

    /// Returns the axis perpendicular to this one.
    pub fn cross_axis(self) -> (r: Axis)
        ensures
            r == self.cross(),
    {
        match self {
            Axis::Horizontal => Axis::Vertical,
            Axis::Vertical => Axis::Horizontal,
        }
    }

    /// Taking the cross axis twice gives back the axis one started from.
    pub proof fn law_cross_involutive(self)
        ensures
            self.cross().cross() == self,
            self.cross() != self,
    {
    }
}

/// Placement of children along the main axis.
#[derive(Copy, Clone, Debug, PartialEq, Eq, Structural)]
pub enum MainAxisAlignment {
    Start,
    Center,
    End,
    SpaceBetween,
    SpaceEvenly,
    SpaceAround,
}

/// Placement of children along the cross axis.
#[derive(Copy, Clone, Debug, PartialEq, Eq, Structural)]
pub enum CrossAxisAlignment {
    Baseline,
    Start,
    Center,
    End,
    Stretch,
}

/// How much room a flex container takes along its main axis.
#[derive(Copy, Clone, Debug, PartialEq, Eq, Structural)]
pub enum MainAxisSize {
    Min,
    Max,
}

} // verus!
