//! The two cursors for manual readings.

use crate::sample::{at_most, below, le, lt, nan, Sample, ZERO};
use vstd::prelude::*;

verus! {

/// What the cursors measure.
#[derive(Clone, Copy, Debug, PartialEq, Eq, Structural)]
pub enum CursorMode {
    Off,
    /// Two vertical lines, for times.
    Vertical,
    /// Two horizontal lines, for values.
    Horizontal,
}

/// How near the pointer has to come to a cursor to take it, in pixels: 6.
pub const CURSOR_HIT: Sample = 0x4018_0000_0000_0000;

/// One of the cursors.
#[derive(Clone, Copy, Debug, PartialEq, Eq, Structural)]
pub enum CursorId {
    A,
    B,
}

/// The state of the cursors.
#[derive(Clone, Copy, Debug, PartialEq, Eq, Structural)]
pub struct CursorState {
    pub mode: CursorMode,
    /// Position of cursor A: an instant if vertical, a value if horizontal.
    pub pos_a: Sample,
    /// Position of cursor B.
    pub pos_b: Sample,
    /// The cursor that is being dragged, if any.
    pub dragging: Option<CursorId>,
}

impl Default for CursorState {
    fn default() -> (s: CursorState)
        ensures
            s == (CursorState {
                mode: CursorMode::Off,
                pos_a: ZERO,
                pos_b: ZERO,
                dragging: None,
            }),
    {
        CursorState { mode: CursorMode::Off, pos_a: ZERO, pos_b: ZERO, dragging: None }
    }
}

impl CursorState {
    /// Switches to a mode and places the cursors.  No cursor is dragged then.
    pub fn set_mode(&mut self, mode: CursorMode, pos_a: Sample, pos_b: Sample)
        ensures
            *final(self) == (CursorState { mode, pos_a, pos_b, dragging: None }),
    {
        self.mode = mode;
        self.pos_a = pos_a;
        self.pos_b = pos_b;
        self.dragging = None;
    }

    /// Switches the cursors off; their positions are kept.
    pub fn switch_off(&mut self)
        ensures
            *final(self) == (CursorState {
                mode: CursorMode::Off,
                dragging: None,
                ..*old(self)
            }),
    {
        self.mode = CursorMode::Off;
        self.dragging = None;
    }

    /// The cursor that a pointer takes, given its distances to both.
    pub open spec fn taken(dist_a: Sample, dist_b: Sample) -> Option<CursorId> {
        if below(dist_a, CURSOR_HIT) && at_most(dist_a, dist_b) {
            Some(CursorId::A)
        } else if below(dist_b, CURSOR_HIT) {
            Some(CursorId::B)
        } else {
            None
        }
    }

    /// Follows the pointer.  `position` is where the pointer is in the plot, and
    /// `distances` how far it is from the two cursors, if it is in the plot.
    ///
    /// While the pointer is pressed, the cursor that is being dragged follows
    /// it; where none is, the nearer cursor is taken, if it is near enough.
    /// Once the pointer is released, no cursor is dragged.
    pub fn follow(
        &mut self,
        pressed: bool,
        position: Option<Sample>,
        distances: Option<(Sample, Sample)>,
    )
        ensures
            *final(self) == (if old(self).mode == CursorMode::Off {
                *old(self)
            } else if !pressed {
                CursorState { dragging: None, ..*old(self) }
            } else {
                match (old(self).dragging, position, distances) {
                    (Some(CursorId::A), Some(p), _) => CursorState { pos_a: p, ..*old(self) },
                    (Some(CursorId::B), Some(p), _) => CursorState { pos_b: p, ..*old(self) },
                    (Some(_), None, _) => *old(self),
                    (None, _, Some((a, b))) => CursorState {
                        dragging: CursorState::taken(a, b),
                        ..*old(self)
                    },
                    (None, _, None) => *old(self),
                }
            }),
    {
        if self.mode == CursorMode::Off {
            return;
        }
        if !pressed {
            self.dragging = None;
            return;
        }
        match self.dragging {
            Some(id) => {
                if let Some(p) = position {
                    match id {
                        CursorId::A => {
                            self.pos_a = p;
                        },
                        CursorId::B => {
                            self.pos_b = p;
                        },
                    }
                }
            },
            None => {
                if let Some((dist_a, dist_b)) = distances {
                    if lt(dist_a, CURSOR_HIT) && le(dist_a, dist_b) {
                        self.dragging = Some(CursorId::A);
                    } else if lt(dist_b, CURSOR_HIT) {
                        self.dragging = Some(CursorId::B);
                    }
                }
            },
        }
    }
}

/// Whether the pointer is near enough to either cursor to take it.
pub fn near_cursor(dist_a: Sample, dist_b: Sample) -> (near: bool)
    ensures
        near == (below(dist_a, CURSOR_HIT) || below(dist_b, CURSOR_HIT)),
{
    lt(dist_a, CURSOR_HIT) || lt(dist_b, CURSOR_HIT)
}

/// A pointer takes the nearer cursor, if it is less than six pixels away, and
/// none where both are six pixels away or more; at the same distance it takes the
/// first one.
pub proof fn law_nearer_cursor_taken(dist_a: Sample, dist_b: Sample)
    ensures
        ({
            let taken = CursorState::taken(dist_a, dist_b);
            let six = 0x4018_0000_0000_0000u64;
            let numbers = !nan(dist_a) && !nan(dist_b);
            &&& taken == Some(CursorId::A) <==> below(dist_a, six) && at_most(dist_a, dist_b)
            &&& taken == Some(CursorId::B) <==> below(dist_b, six) && !at_most(dist_a, dist_b)
            &&& numbers ==> (taken is None <==> at_most(six, dist_a) && at_most(six, dist_b))
        }),
{
}

} // verus!
