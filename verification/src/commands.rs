//! Command entries as an earlier client generation modelled them: a titled
//! entry with an ordered list of actions, addressed by a freshly generated
//! identifier.

use vstd::prelude::*;

verus! {

/// One thing a chosen command can do.
#[derive(Debug, PartialEq, Eq)]
pub enum Action {
    LaunchApp { app_id: String },
    ShellExec(String, Vec<String>),
    CopyToClipboard(String),
    OpenUrl(),
    OpenFile(),
    OpenFolder(),
    Noop,
}

/// One launchable entry: a title, a subtitle, an icon name and its
/// actions; the first action is the primary one.
#[derive(Debug)]
pub struct Command {
    pub id: String,
    pub title: String,
    pub subtitle: String,
    pub icon: String,
    pub actions: Vec<Action>,
}

/// Relies on uuid::Uuid::new_v4 and its hyphenated lower-case rendering:
/// a freshly drawn random identifier, 36 characters long. Two calls may
/// return different values.
#[verifier::external_body]
fn fresh_id() -> (r: String)
    ensures
        r@.len() == 36,
{
    uuid::Uuid::new_v4().to_string()
}

impl Command {
    /// A new entry under a fresh identifier.
    pub fn new(title: String, subtitle: String, icon: String, actions: Vec<Action>) -> (r: Command)
        ensures
            r.title@ == title@,
            r.subtitle@ == subtitle@,
            r.icon@ == icon@,
            r.actions@ == actions@,
            r.id@.len() == 36,
    {
        Command { id: fresh_id(), title, subtitle, icon, actions }
    }

    /// The entry's identifier.
    pub fn id(&self) -> (r: String)
        ensures
            r@ == self.id@,
    {
        self.id.clone()
    }

    /// The first action, when the entry has one.
    pub fn primary_action(&self) -> (r: Option<&Action>)
        ensures
            match r {
                Some(a) => self.actions@.len() > 0 && *a == self.actions@[0],
                None => self.actions@.len() == 0,
            },
    {
        if self.actions.len() > 0 {
            Some(&self.actions[0])
        } else {
            None
        }
    }

    /// The second action, when the entry has one.
    pub fn secondary_action(&self) -> (r: Option<&Action>)
        ensures
            match r {
                Some(a) => self.actions@.len() > 1 && *a == self.actions@[1],
                None => self.actions@.len() <= 1,
            },
    {
        if self.actions.len() > 1 {
            Some(&self.actions[1])
        } else {
            None
        }
    }
}

/// A plain error with a message.
#[derive(Debug)]
pub struct Error {
    pub message: String,
}

impl Error {
    /// Wraps a message.
    pub fn new(message: &str) -> (r: Error)
        ensures
            r.message@ == message@,
    {
        Error { message: message.to_owned() }
    }
}

} // verus!
