//! The list of an image's layers, with the command of the layer chosen.

use crate::widgets::focus_traits::WidgetFocusTrait;
use crate::widgets::navigation_traits::{WidgetNav, WidgetNavBounds};
use vstd::prelude::*;
use vstd::string::StringExecFns;

verus! {

/// Which layer of the list is chosen, the list's title, and whether the
/// list holds the focus.
pub struct LayerBrowserWidgetState {
    title: String,
    is_toggled: bool,
    chosen: Option<usize>,
}

/// The list of layers: their names, and their commands in the same order.
pub struct LayerBrowserWidget<'a> {
    layer_names: &'a Vec<String>,
    layer_commands: &'a Vec<String>,
}

/// The position one step on: the first where none is chosen, and the same
/// where no greater one exists.
pub open spec fn step_on(chosen: Option<usize>) -> Option<usize> {
    match chosen {
        Some(i) => if i < usize::MAX {
            Some((i + 1) as usize)
        } else {
            Some(i)
        },
        None => Some(0),
    }
}

/// The position one step back: the first where none is chosen or the
/// first is.
pub open spec fn step_back(chosen: Option<usize>) -> Option<usize> {
    match chosen {
        Some(i) => if i > 0 {
            Some((i - 1) as usize)
        } else {
            Some(i)
        },
        None => Some(0),
    }
}

/// The position brought back among `count` layers: a position behind the
/// last becomes the last. Among no layers a position stays as it is.
pub open spec fn bounded(chosen: Option<usize>, count: nat) -> Option<usize> {
    match chosen {
        Some(i) => if i >= count && count > 0 {
            Some((count - 1) as usize)
        } else {
            Some(i)
        },
        None => None,
    }
}

impl<'a> LayerBrowserWidget<'a> {
    /// The names of the layers.
    pub closed spec fn names(&self) -> Seq<String> {
        self.layer_names@
    }

    /// The commands of the layers.
    pub closed spec fn commands(&self) -> Seq<String> {
        self.layer_commands@
    }

    /// A list of the layers `layer_names`, each with its command.
    pub fn new(layer_names: &'a Vec<String>, layer_commands: &'a Vec<String>) -> (list: Self)
        ensures
            list.names() == layer_names@,
            list.commands() == layer_commands@,
    {
        Self { layer_names, layer_commands }
    }

    /// The names of the layers.
    pub fn layer_names(&self) -> (names: &'a Vec<String>)
        ensures
            names@ == self.names(),
    {
        self.layer_names
    }

    /// The command shown below the list: that of the layer chosen, or of
    /// the first layer where none is chosen; `None` where there is no such
    /// command.
    pub fn shown_command(&self, state: &LayerBrowserWidgetState) -> (command: Option<&'a String>)
        ensures
            match command {
                Some(c) => {
                    let at = match state.chosen_position() {
                        Some(i) => i,
                        None => 0,
                    };
                    at < self.commands().len() && *c == self.commands()[at as int]
                },
                None => {
                    let at = match state.chosen_position() {
                        Some(i) => i,
                        None => 0,
                    };
                    at >= self.commands().len()
                },
            },
    {
        let at: usize = match state.chosen {
            Some(i) => i,
            None => 0,
        };
        if at < self.layer_commands.len() {
            Some(&self.layer_commands[at])
        } else {
            None
        }
    }
}

impl LayerBrowserWidgetState {
    /// The position chosen.
    pub closed spec fn chosen_position(&self) -> Option<usize> {
        self.chosen
    }

    /// The list's title.
    pub closed spec fn title_text(&self) -> Seq<char> {
        self.title@
    }

    /// A list that holds the focus, with its first layer chosen.
    pub fn new() -> (state: Self)
        ensures
            state.chosen_position() == Some(0usize),
            state.focused(),
            state.title_text() == "Layer Browser"@,
    {
        LayerBrowserWidgetState {
            title: String::from_str("Layer Browser"),
            is_toggled: true,
            chosen: Some(0),
        }
    }

    /// Chooses the layer at `index`, or none.
    pub fn select(&mut self, index: Option<usize>)
        ensures
            final(self).chosen_position() == index,
            final(self).focused() == old(self).focused(),
            final(self).title_text() == old(self).title_text(),
    {
        self.chosen = index;
    }

    /// The position chosen.
    pub fn selected(&self) -> (index: Option<usize>)
        ensures
            index == self.chosen_position(),
    {
        self.chosen
    }

    /// The list's title.
    pub fn title(&self) -> (title: &String)
        ensures
            title@ == self.title_text(),
    {
        &self.title
    }
}

impl WidgetNav for LayerBrowserWidgetState {
    fn next(&mut self)
        ensures
            final(self).chosen_position() == step_on(old(self).chosen_position()),
            final(self).focused() == old(self).focused(),
            final(self).title_text() == old(self).title_text(),
    {
        match self.chosen {
            Some(i) => {
                if i < usize::MAX {
                    self.chosen = Some(i + 1);
                }
            },
            None => {
                self.chosen = Some(0);
            },
        }
    }

    fn prev(&mut self)
        ensures
            final(self).chosen_position() == step_back(old(self).chosen_position()),
            final(self).focused() == old(self).focused(),
            final(self).title_text() == old(self).title_text(),
    {
        match self.chosen {
            Some(i) => {
                if i > 0 {
                    self.chosen = Some(i - 1);
                }
            },
            None => {
                self.chosen = Some(0);
            },
        }
    }
}

impl<'a> WidgetNavBounds<LayerBrowserWidgetState> for LayerBrowserWidget<'a> {
    fn ensure_bounds(&self, state: &mut LayerBrowserWidgetState)
        ensures
            final(state).chosen_position() == bounded(
                old(state).chosen_position(),
                self.names().len(),
            ),
            final(state).focused() == old(state).focused(),
            final(state).title_text() == old(state).title_text(),
    {
        let max = self.layer_names.len();
        match state.chosen {
            Some(i) => {
                if i >= max && max > 0 {
                    state.chosen = Some(max - 1);
                }
            },
            None => {},
        }
    }
}

impl WidgetFocusTrait for LayerBrowserWidgetState {
    closed spec fn focused(&self) -> bool {
        self.is_toggled
    }

    fn focus_on(&mut self, selected: bool)
        ensures
            final(self).chosen_position() == old(self).chosen_position(),
            final(self).title_text() == if selected {
                "😍 Layer Browser"@
            } else {
                "Layer Browser"@
            },
    {
        self.is_toggled = selected;
        if selected {
            self.title = String::from_str("😍 Layer Browser");
        } else {
            self.title = String::from_str("Layer Browser");
        }
    }

    fn is_focused(&self) -> (focused: bool) {
        self.is_toggled
    }
}

} // verus!
