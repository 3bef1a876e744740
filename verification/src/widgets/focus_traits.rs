//! What a widget that can hold the focus offers.

use vstd::prelude::*;

verus! {

/// A widget that can hold the focus.
pub trait WidgetFocusTrait {
    /// Whether the widget holds the focus.
    spec fn focused(&self) -> bool;

    /// Gives the widget the focus, or takes it away.
    fn focus_on(&mut self, selected: bool)
        ensures
            final(self).focused() == selected,
    ;

    /// Whether the widget holds the focus.
    fn is_focused(&self) -> (focused: bool)
        ensures
            focused == self.focused(),
    ;
}

} // verus!
