//! Client-facing message shapes of earlier generations of the protocol,
//! and the messages a client's own user interface passes around.

use vstd::prelude::*;

use crate::commands::{Action as CommandAction, Command};
use crate::protocol::Action;
use crate::search::SearchItem;

verus! {

/// A client request of the simple request/response generation.
#[derive(Debug)]
pub enum Request {
    Ping,
    Search { query: String },
    CallAction { plugin_id: usize, action: Action },
    Quit,
}

/// The matching reply shapes.
#[derive(Debug)]
pub enum Response {
    Pong,
    SearchResults(Vec<Command>),
}

/// A key a client window reacts to.
#[derive(Debug, PartialEq, Eq)]
pub enum Key {
    Escape,
    Down,
    Up,
    Enter,
}

/// A modifier held with a key.
#[derive(Debug, PartialEq, Eq)]
pub enum KeyModifier {
    Shift,
    Control,
    Alt,
}

/// Window-level requests.
#[derive(Debug, PartialEq, Eq)]
pub enum WindowMessage {
    Close,
}

/// Search-pane requests.
#[derive(Debug)]
pub enum SearchMessage {
    StartSearch(String),
    AddResult(SearchItem),
}

/// What a worker hands back to the user interface.
#[derive(Debug)]
pub enum UIMessage {
    AddCommand(Command),
    ClearResults,
    ExecAction(CommandAction),
}

} // verus!
