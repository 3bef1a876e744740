//! What the keys do to the application.
//!
//! The application is a list of layers, a tree browser and a search bar,
//! one of which holds the focus. The library decides what a key changes;
//! whoever draws the application reads the keys, hands them in one by one,
//! and moves the selection inside the tree as the answer says.

use crate::widgets::focus_traits::WidgetFocusTrait;
use crate::widgets::layer_browser_widget::{
    bounded, step_back, step_on, LayerBrowserWidget, LayerBrowserWidgetState,
};
use crate::widgets::navigation_traits::{WidgetNav, WidgetNavBounds};
use crate::widgets::searchbar::SearchBarWidgetState;
use vstd::prelude::*;
use vstd::string::StringExecFns;

verus! {

/// Which part of the application holds the focus.
#[derive(Clone, Copy, Debug, PartialEq, Eq, Structural)]
pub enum Focus {
    List,
    Tree,
    SearchBar,
}

/// A key, as far as the application tells keys apart. `Control` is a
/// character key pressed together with the control key.
#[derive(Clone, Copy, Debug, PartialEq, Eq, Structural)]
pub enum Key {
    Char(char),
    Control(char),
    Backspace,
    Enter,
    Esc,
    Down,
    Up,
    Tab,
    Other,
}

/// What is to be done to the selection inside the tree that is shown.
#[derive(Clone, Copy, Debug, PartialEq, Eq, Structural)]
pub enum TreeAction {
    Nothing,
    Next,
    Previous,
    Toggle,
}

/// The state of the application, as far as the keys change it.
pub struct App {
    exit: bool,
    focus: Focus,
    tree_focused: bool,
    list_state: LayerBrowserWidgetState,
    search_bar_state: SearchBarWidgetState,
    layer_names: Vec<String>,
    current_layer: String,
    search_string: String,
}

/// The state of the application, as mathematical values.
pub struct AppModel {
    pub exit: bool,
    pub focus: Focus,
    pub tree_focused: bool,
    pub list_focused: bool,
    pub search_focused: bool,
    pub chosen: Option<usize>,
    pub typed: Seq<char>,
    pub layer_names: Seq<Seq<char>>,
    pub current_layer: Seq<char>,
    pub search: Seq<char>,
}

/// The layer that the tree browser shows for the position chosen in the
/// list: the layer at that position, or at the first where none is
/// chosen; the layer shown so far where the list has no such position.
pub open spec fn layer_shown(m: AppModel, chosen: Option<usize>) -> Seq<char> {
    let at = match chosen {
        Some(i) => i,
        None => 0,
    };
    if at < m.layer_names.len() {
        m.layer_names[at as int]
    } else {
        m.current_layer
    }
}

/// The state after a key, and what is to be done inside the tree.
pub open spec fn after_key(m: AppModel, key: Key) -> (AppModel, TreeAction) {
    match m.focus {
        Focus::SearchBar => match key {
            Key::Char(c) | Key::Control(c) => (
                AppModel { typed: m.typed.push(c), search: m.typed.push(c), ..m },
                TreeAction::Nothing,
            ),
            Key::Backspace => {
                let typed = if m.typed.len() > 0 {
                    m.typed.drop_last()
                } else {
                    m.typed
                };
                (AppModel { typed, search: typed, ..m }, TreeAction::Nothing)
            },
            Key::Enter => (AppModel { focus: Focus::Tree, ..m }, TreeAction::Nothing),
            Key::Esc => (
                AppModel { focus: Focus::List, search_focused: false, list_focused: true, ..m },
                TreeAction::Nothing,
            ),
            _ => (m, TreeAction::Nothing),
        },
        Focus::List => match key {
            Key::Down => (
                AppModel {
                    chosen: step_on(m.chosen),
                    current_layer: layer_shown(m, step_on(m.chosen)),
                    ..m
                },
                TreeAction::Nothing,
            ),
            Key::Up => (
                AppModel {
                    chosen: step_back(m.chosen),
                    current_layer: layer_shown(m, step_back(m.chosen)),
                    ..m
                },
                TreeAction::Nothing,
            ),
            Key::Tab => (
                AppModel { focus: Focus::Tree, list_focused: false, tree_focused: true, ..m },
                TreeAction::Nothing,
            ),
            _ => after_common_key(m, key),
        },
        Focus::Tree => match key {
            Key::Down => (m, TreeAction::Next),
            Key::Up => (m, TreeAction::Previous),
            Key::Tab => (
                AppModel { focus: Focus::List, list_focused: true, tree_focused: false, ..m },
                TreeAction::Nothing,
            ),
            _ => after_common_key(m, key),
        },
    }
}

/// What a key does that means the same in the list and in the tree.
pub open spec fn after_common_key(m: AppModel, key: Key) -> (AppModel, TreeAction) {
    match key {
        Key::Char(c) => if c == ' ' {
            (m, TreeAction::Toggle)
        } else if c == 'q' {
            (AppModel { exit: true, ..m }, TreeAction::Nothing)
        } else {
            (m, TreeAction::Nothing)
        },
        Key::Control(c) => if c == 'f' {
            (
                AppModel {
                    focus: Focus::SearchBar,
                    list_focused: false,
                    tree_focused: false,
                    search_focused: true,
                    ..m
                },
                TreeAction::Nothing,
            )
        } else {
            (m, TreeAction::Nothing)
        },
        _ => (m, TreeAction::Nothing),
    }
}

/// The names that a run of strings holds.
pub open spec fn names_text(names: Seq<String>) -> Seq<Seq<char>> {
    names.map_values(|s: String| s@)
}

impl View for App {
    type V = AppModel;

    closed spec fn view(&self) -> AppModel {
        AppModel {
            exit: self.exit,
            focus: self.focus,
            tree_focused: self.tree_focused,
            list_focused: self.list_state.focused(),
            search_focused: self.search_bar_state.focused(),
            chosen: self.list_state.chosen_position(),
            typed: self.search_bar_state.search_text(),
            layer_names: names_text(self.layer_names@),
            current_layer: self.current_layer@,
            search: self.search_string@,
        }
    }
}

impl App {
    /// The application for an image with the given layers: the list holds
    /// the focus, its first layer is chosen and shown, nothing is typed.
    pub fn new(layer_names: Vec<String>) -> (app: App)
        requires
            layer_names@.len() > 0,
        ensures
            app@ == (AppModel {
                exit: false,
                focus: Focus::List,
                tree_focused: false,
                list_focused: true,
                search_focused: false,
                chosen: Some(0usize),
                typed: Seq::empty(),
                layer_names: names_text(layer_names@),
                current_layer: layer_names@[0]@,
                search: Seq::empty(),
            }),
    {
        let current_layer = layer_names[0].clone();
        App {
            exit: false,
            focus: Focus::List,
            tree_focused: false,
            list_state: LayerBrowserWidgetState::new(),
            search_bar_state: SearchBarWidgetState::new(),
            layer_names,
            current_layer,
            search_string: String::new(),
        }
    }

    /// Shows the layer that the list has chosen.
    fn adjust_tree_state_to_list(&mut self)
        ensures
            final(self)@ == (AppModel {
                current_layer: layer_shown(old(self)@, old(self)@.chosen),
                ..old(self)@
            }),
    {
        let selected: usize = match self.list_state.selected() {
            Some(i) => i,
            None => 0,
        };
        if selected >= self.layer_names.len() {
            return ;
        }
        assert(names_text(self.layer_names@)[selected as int] == self.layer_names@[selected as int]@);
        self.current_layer = self.layer_names[selected].clone();
    }

    /// Takes one key: changes the state as the key asks, and says what is
    /// to be done to the selection inside the tree that is shown.
    pub fn handle_key(&mut self, key: Key) -> (action: TreeAction)
        ensures
            final(self)@ == after_key(old(self)@, key).0,
            action == after_key(old(self)@, key).1,
    {
        match self.focus {
            Focus::SearchBar => match key {
                Key::Char(c) | Key::Control(c) => {
                    self.search_bar_state.push_c(c);
                    self.search_string = self.search_bar_state.get();
                    TreeAction::Nothing
                },
                Key::Backspace => {
                    self.search_bar_state.pop_c();
                    self.search_string = self.search_bar_state.get();
                    TreeAction::Nothing
                },
                Key::Enter => {
                    self.focus = Focus::Tree;
                    TreeAction::Nothing
                },
                Key::Esc => {
                    self.search_bar_state.focus_on(false);
                    self.list_state.focus_on(true);
                    self.focus = Focus::List;
                    TreeAction::Nothing
                },
                _ => TreeAction::Nothing,
            },
            Focus::List => match key {
                Key::Down => {
                    self.list_state.next();
                    self.adjust_tree_state_to_list();
                    TreeAction::Nothing
                },
                Key::Up => {
                    self.list_state.prev();
                    self.adjust_tree_state_to_list();
                    TreeAction::Nothing
                },
                Key::Tab => {
                    self.list_state.focus_on(false);
                    self.tree_focused = true;
                    self.focus = Focus::Tree;
                    TreeAction::Nothing
                },
                _ => self.handle_common_key(key),
            },
            Focus::Tree => match key {
                Key::Down => TreeAction::Next,
                Key::Up => TreeAction::Previous,
                Key::Tab => {
                    self.tree_focused = false;
                    self.list_state.focus_on(true);
                    self.focus = Focus::List;
                    TreeAction::Nothing
                },
                _ => self.handle_common_key(key),
            },
        }
    }

    fn handle_common_key(&mut self, key: Key) -> (action: TreeAction)
        ensures
            final(self)@ == after_common_key(old(self)@, key).0,
            action == after_common_key(old(self)@, key).1,
    {
        match key {
            Key::Char(c) => {
                if c == ' ' {
                    TreeAction::Toggle
                } else if c == 'q' {
                    self.exit = true;
                    TreeAction::Nothing
                } else {
                    TreeAction::Nothing
                }
            },
            Key::Control(c) => {
                if c == 'f' {
                    self.list_state.focus_on(false);
                    self.tree_focused = false;
                    self.search_bar_state.focus_on(true);
                    self.focus = Focus::SearchBar;
                }
                TreeAction::Nothing
            },
            _ => TreeAction::Nothing,
        }
    }

    /// Whether the application is to end.
    pub fn should_exit(&self) -> (exit: bool)
        ensures
            exit == self@.exit,
    {
        self.exit
    }

    /// Which part holds the focus.
    pub fn focus(&self) -> (focus: Focus)
        ensures
            focus == self@.focus,
    {
        self.focus
    }

    /// The layer whose tree is shown.
    pub fn current_layer(&self) -> (name: &String)
        ensures
            name@ == self@.current_layer,
    {
        &self.current_layer
    }

    /// The search that narrows the tree.
    pub fn search_string(&self) -> (search: &String)
        ensures
            search@ == self@.search,
    {
        &self.search_string
    }

    /// Whether the tree browser holds the focus.
    pub fn tree_is_focused(&self) -> (focused: bool)
        ensures
            focused == self@.tree_focused,
    {
        self.tree_focused
    }

    /// The state of the list of layers.
    pub fn list_state(&self) -> (state: &LayerBrowserWidgetState)
        ensures
            state.chosen_position() == self@.chosen,
            state.focused() == self@.list_focused,
    {
        &self.list_state
    }

    /// Brings the position chosen in the list back among the layers that
    /// `list` shows.
    pub fn bound_list(&mut self, list: &LayerBrowserWidget)
        ensures
            final(self)@ == (AppModel {
                chosen: bounded(old(self)@.chosen, list.names().len()),
                ..old(self)@
            }),
    {
        list.ensure_bounds(&mut self.list_state);
    }

    /// The state of the search bar.
    pub fn search_bar_state(&self) -> (state: &SearchBarWidgetState)
        ensures
            state.search_text() == self@.typed,
            state.focused() == self@.search_focused,
    {
        &self.search_bar_state
    }
}

} // verus!
