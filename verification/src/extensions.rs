//! Extension bookkeeping as an earlier generation modelled it: a loaded
//! extension's identity, the managing registry, and the simple
//! request/response shapes spoken to extension processes.

use vstd::prelude::*;

use crate::search::SearchItem;

verus! {

/// Identity of a loaded extension.
#[derive(Debug)]
pub struct Extension {
    pub name: String,
    pub version: String,
    pub description: String,
    pub author: String,
}

/// The registry of loaded extensions.
#[derive(Debug)]
pub struct ExtensionManager {
    pub extensions: Vec<Extension>,
}

impl ExtensionManager {
    /// An empty registry.
    pub fn new() -> (r: ExtensionManager)
        ensures
            r.count() == 0,
    {
        ExtensionManager { extensions: Vec::new() }
    }

    /// How many extensions are loaded.
    pub open spec fn count(&self) -> nat {
        self.extensions@.len()
    }

    /// Refreshes the registry from disk; with no extension directories
    /// configured, nothing changes.
    pub fn load_extensions(&mut self)
        ensures
            final(self).count() == old(self).count(),
    {
    }
}

/// A failure while talking to an extension.
#[derive(Debug)]
pub enum ExtensionError {
    DispatchError(String),
}

/// A failure of an extension process.
#[derive(Debug)]
pub enum ProcessError {
    Spawn(String),
}

/// A request to an extension process.
#[derive(Debug)]
pub enum Request {
    Search(String),
}

/// A reply from an extension process.
#[derive(Debug)]
pub enum Response {
    SearchItem(SearchItem),
}

} // verus!
