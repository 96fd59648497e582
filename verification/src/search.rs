//! Search results as an earlier client generation modelled them.

use vstd::prelude::*;

use crate::icons::Icon;

verus! {

/// A placeholder action attached to a search result.
#[derive(Debug, PartialEq, Eq)]
pub struct Action {}

/// One rendered search result row.
#[derive(Debug)]
pub struct SearchItem {
    pub title: String,
    pub subtitle: String,
    pub category: String,
    pub icon: Icon,
    pub actions: Vec<Action>,
}

impl SearchItem {
    /// The first action, when the item has one.
    pub fn primary_action(&self) -> (r: Option<&Action>)
        ensures
            match r {
                Some(a) => self.actions@.len() > 0 && *a == self.actions@[0],
                None => self.actions@.len() == 0,
            },
    {
        if self.actions.len() > 0 {
            Some(&self.actions[0])
        } else {
            None
        }
    }
}

/// A search session handle.
#[derive(Debug)]
pub struct Search {}

impl Search {
    /// A fresh search session.
    pub fn new() -> (r: Search)
        ensures
            r == (Search {  }),
    {
        Search {  }
    }
}

/// Plain data behind one search result row widget.
#[derive(Debug)]
pub struct SearchRowObjectData {
    pub id: String,
    pub title: String,
    pub subtitle: String,
    pub icon: String,
}

impl Default for SearchRowObjectData {
    /// All fields empty.
    fn default() -> (r: Self)
        ensures
            r.id@.len() == 0,
            r.title@.len() == 0,
            r.subtitle@.len() == 0,
            r.icon@.len() == 0,
    {
        SearchRowObjectData {
            id: String::new(),
            title: String::new(),
            subtitle: String::new(),
            icon: String::new(),
        }
    }
}

} // verus!
