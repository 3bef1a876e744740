//! The search bar: the text typed so far, and what the bar shows.

use crate::widgets::focus_traits::WidgetFocusTrait;
use vstd::prelude::*;
use vstd::string::StringExecFns;

verus! {

/// The text typed into the search bar, the bar's title, and whether the
/// bar holds the focus.
pub struct SearchBarWidgetState {
    title: String,
    is_toggled: bool,
    search_string: String,
}

/// The search bar.
pub struct SearchBarWidget {}

/// The title of the bar while it holds the focus.
pub open spec fn focused_title() -> Seq<char> {
    "😍 Search Bar"@
}

/// The title of the bar while it does not hold the focus.
pub open spec fn plain_title() -> Seq<char> {
    "Search Bar"@
}

/// What an empty bar without the focus shows.
pub open spec fn placeholder() -> Seq<char> {
    "Filter here..."@
}

/// What the bar shows: with the focus the text typed so far, followed by
/// a cursor while the cursor is on; without the focus the text, or the
/// placeholder where nothing has been typed.
pub open spec fn shown_text(search: Seq<char>, focused: bool, cursor_on: bool) -> Seq<char> {
    if focused {
        if cursor_on {
            search + "█"@
        } else {
            search
        }
    } else if search.len() == 0 {
        placeholder()
    } else {
        search
    }
}

/// `String::push`: `c` is put behind the characters of `text`.
#[verifier::external_body]
fn push_char(text: &mut String, c: char)
    ensures
        final(text)@ == old(text)@.push(c),
{
    text.push(c);
}

/// `String::pop`: the last character leaves `text` and is returned; an
/// empty `text` stays empty and gives `None`.
#[verifier::external_body]
fn pop_char(text: &mut String) -> (last: Option<char>)
    ensures
        match last {
            Some(c) => old(text)@.len() > 0 && c == old(text)@.last() && final(text)@ == old(
                text,
            )@.drop_last(),
            None => old(text)@.len() == 0 && final(text)@ == old(text)@,
        },
{
    text.pop()
}

impl SearchBarWidget {
    /// A search bar; what it shows is held by its state.
    pub fn new() -> (bar: Self) {
        Self {  }
    }

    /// Whether the cursor is on at the time `millis`, in milliseconds: it
    /// is on for the first half of every second.
    pub fn should_blink(&self, millis: u128) -> (on: bool)
        ensures
            on == (millis % 1000 < 500),
    {
        millis % 1000 < 500
    }

    /// What the bar shows for `state`.
    pub fn display_text(&self, state: &SearchBarWidgetState, cursor_on: bool) -> (text: String)
        ensures
            text@ == shown_text(state.search_text(), state.focused(), cursor_on),
    {
        if state.is_toggled {
            if cursor_on {
                state.search_string.clone().concat("█")
            } else {
                state.search_string.clone()
            }
        } else if state.search_string.as_str().is_empty() {
            String::from_str("Filter here...")
        } else {
            state.search_string.clone()
        }
    }
}

impl SearchBarWidgetState {
    /// The text typed so far.
    pub closed spec fn search_text(&self) -> Seq<char> {
        self.search_string@
    }

    /// The bar's title.
    pub closed spec fn title_text(&self) -> Seq<char> {
        self.title@
    }

    /// A bar without the focus, with nothing typed.
    pub fn new() -> (state: Self)
        ensures
            state.search_text() == Seq::<char>::empty(),
            !state.focused(),
            state.title_text() == "Search"@,
    {
        SearchBarWidgetState {
            title: String::from_str("Search"),
            is_toggled: false,
            search_string: String::new(),
        }
    }

    /// Puts `ch` behind the text typed so far.
    pub fn push_c(&mut self, ch: char)
        ensures
            final(self).search_text() == old(self).search_text().push(ch),
            final(self).focused() == old(self).focused(),
            final(self).title_text() == old(self).title_text(),
    {
        push_char(&mut self.search_string, ch);
    }

    /// Takes the last character off the text typed so far, where there is one.
    pub fn pop_c(&mut self)
        ensures
            final(self).search_text() == if old(self).search_text().len() > 0 {
                old(self).search_text().drop_last()
            } else {
                old(self).search_text()
            },
            final(self).focused() == old(self).focused(),
            final(self).title_text() == old(self).title_text(),
    {
        let _ = pop_char(&mut self.search_string);
    }

    /// The text typed so far.
    pub fn get(&self) -> (text: String)
        ensures
            text@ == self.search_text(),
    {
        self.search_string.clone()
    }

    /// The bar's title.
    pub fn title(&self) -> (title: &String)
        ensures
            title@ == self.title_text(),
    {
        &self.title
    }
}

impl WidgetFocusTrait for SearchBarWidgetState {
    closed spec fn focused(&self) -> bool {
        self.is_toggled
    }

    fn focus_on(&mut self, selected: bool)
        ensures
            final(self).search_text() == old(self).search_text(),
            final(self).title_text() == if selected {
                focused_title()
            } else {
                plain_title()
            },
    {
        self.is_toggled = selected;
        if selected {
            self.title = String::from_str("😍 Search Bar");
        } else {
            self.title = String::from_str("Search Bar");
        }
    }

    fn is_focused(&self) -> (focused: bool) {
        self.is_toggled
    }
}

} // verus!
