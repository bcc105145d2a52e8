//! Plain state carried by the surrounding terminal application: which
//! page is shown, whether keys edit the query, and the progress cell a
//! background download fills in.

use vstd::prelude::*;

verus! {

/// The page the application is showing.
#[derive(Debug, Clone, Copy, PartialEq, Eq, Structural)]
pub enum Page {
    Translation,
    Management,
    Download,
}

/// Whether key presses edit the query or navigate.
#[derive(Debug, Clone, Copy, PartialEq, Eq, Structural)]
pub enum InputMode {
    Normal,
    Editing,
}

/// What a background download has reported so far: bytes done of a total,
/// and, once finished, either the dictionary's name and directory or an
/// error message.
#[derive(Debug)]
pub struct DownloadState {
    pub progress: (u64, u64),
    pub result: Option<Result<(String, String), String>>,
}

impl DownloadState {
    /// A download that has just started: nothing transferred, no outcome.
    pub fn new() -> (r: Self)
        ensures
            r.progress == (0u64, 1u64),
            r.result is None,
    {
        DownloadState { progress: (0, 1), result: None }
    }
}

} // verus!
