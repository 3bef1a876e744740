//! What a widget with a selection that moves offers.

use vstd::prelude::*;

verus! {

/// A widget state whose selection moves.
pub trait WidgetNav {
    /// Moves the selection one step on.
    fn next(&mut self);

    /// Moves the selection one step back.
    fn prev(&mut self);
}

/// A widget that knows how far a selection may go.
pub trait WidgetNavBounds<WidgetState: WidgetNav> {
    /// Brings the selection of `state` back among what the widget shows.
    /// What the widget shows is known only once it is drawn, so the state
    /// is handed in.
    fn ensure_bounds(&self, state: &mut WidgetState);
}

} // verus!
