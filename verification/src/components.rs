//! The data behind the two reusable widgets of the terminal front end: a
//! search input line and a status bar. Drawing them is the front end's
//! business; the fields and their defaults are fixed here.

use vstd::prelude::*;

verus! {

/// The search input line: the text typed so far and how to frame it.
pub struct SearchInput<'a> {
    pub value: &'a str,
    pub title: &'a str,
    pub show_cursor: bool,
    pub active: bool,
}

impl<'a> SearchInput<'a> {
    /// An active input holding `value`, titled "Search", cursor shown.
    pub fn new(value: &'a str) -> (r: Self)
        ensures
            r.value@ == value@,
            r.title@ == "Search"@,
            r.show_cursor == true,
            r.active == true,
    {
        SearchInput { value, title: "Search", show_cursor: true, active: true }
    }

    pub fn title(self, title: &'a str) -> (r: Self)
        ensures
            r == (SearchInput { title, ..self }),
    {
        SearchInput { title, ..self }
    }

    pub fn show_cursor(self, show_cursor: bool) -> (r: Self)
        ensures
            r == (SearchInput { show_cursor, ..self }),
    {
        SearchInput { show_cursor, ..self }
    }

    pub fn active(self, active: bool) -> (r: Self)
        ensures
            r == (SearchInput { active, ..self }),
    {
        SearchInput { active, ..self }
    }
}

/// The tone of a status message, which the front end turns into a color.
#[derive(Debug, Clone, Copy, PartialEq, Eq, Structural)]
pub enum StatusType {
    Info,
    Success,
    Error,
    Loading,
    Help,
}

/// The status bar: one message, its tone, and whether it is framed.
pub struct StatusBar<'a> {
    pub message: &'a str,
    pub status_type: StatusType,
    pub show_border: bool,
}

impl<'a> StatusBar<'a> {
    /// A framed status bar showing `message` with the given tone.
    pub fn new(message: &'a str, status_type: StatusType) -> (r: Self)
        ensures
            r.message@ == message@,
            r.status_type == status_type,
            r.show_border == true,
    {
        StatusBar { message, status_type, show_border: true }
    }

    pub fn show_border(self, show_border: bool) -> (r: Self)
        ensures
            r == (StatusBar { show_border, ..self }),
    {
        StatusBar { show_border, ..self }
    }
}

} // verus!
