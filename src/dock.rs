//! Where a dock sits in the workspace, and what a panel in it can ask for.
use vstd::prelude::*;

verus! {

/// A request of a panel to the dock that holds it.
#[derive(Clone, Copy, Debug, PartialEq, Eq, Structural)]
pub enum PanelEvent {
    ZoomIn,
    ZoomOut,
    Activate,
    Close,
}

#[derive(Clone, Copy, Debug, PartialEq, Eq, Structural)]
pub enum DockPosition {
    Left,
    Bottom,
    Right,
}

/// The direction along which a dock's panels are laid out and resized.
#[derive(Clone, Copy, Debug, PartialEq, Eq, Structural)]
pub enum Axis {
    Vertical,
    Horizontal,
}

pub open spec fn position_label(p: DockPosition) -> Seq<char> {
    match p {
        DockPosition::Left => "left"@,
        DockPosition::Bottom => "bottom"@,
        DockPosition::Right => "right"@,
    }
}

impl DockPosition {
    /// The lower-case name of the position.
    pub fn label(&self) -> (r: &'static str)
        ensures
            r@ == position_label(*self),
    {
        match self {
            DockPosition::Left => "left",
            DockPosition::Bottom => "bottom",
            DockPosition::Right => "right",
        }
    }

    /// A dock at a side is sized horizontally, one at the bottom vertically.
    pub fn axis(&self) -> (r: Axis)
        ensures
            r == (if *self == DockPosition::Bottom {
                Axis::Vertical
            } else {
                Axis::Horizontal
            }),
    {
        match self {
            DockPosition::Left | DockPosition::Right => Axis::Horizontal,
            DockPosition::Bottom => Axis::Vertical,
        }
    }
}

} // verus!
