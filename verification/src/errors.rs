//! The library's error types, each carrying plain text.

use vstd::prelude::*;

verus! {

/// Daemon-side failures around the listening socket.
#[derive(Debug, PartialEq, Eq)]
pub enum GlimpseError {
    SocketError(String),
    Custom(String),
    SocketBindError(String),
}

impl GlimpseError {
    /// The wrapped text.
    pub fn message(&self) -> (r: &String)
        ensures
            match self {
                GlimpseError::SocketError(m) => r@ == m@,
                GlimpseError::Custom(m) => r@ == m@,
                GlimpseError::SocketBindError(m) => r@ == m@,
            },
    {
        match self {
            GlimpseError::SocketError(m) => m,
            GlimpseError::Custom(m) => m,
            GlimpseError::SocketBindError(m) => m,
        }
    }
}

/// Plugin-side connection failures.
#[derive(Debug, PartialEq, Eq)]
pub enum Error {
    SocketError(String),
    Custom(String),
}

/// What can go wrong inside a plugin's runtime or handler. The sources are
/// carried as plain text.
#[derive(Debug, PartialEq, Eq)]
pub enum PluginError {
    Authenticate(String),
    Io(String),
    Json(String),
    Cancelled(String),
    Other(String),
}

impl PluginError {
    /// The wrapped text.
    pub fn message(&self) -> (r: &String)
        ensures
            match self {
                PluginError::Authenticate(m) => r@ == m@,
                PluginError::Io(m) => r@ == m@,
                PluginError::Json(m) => r@ == m@,
                PluginError::Cancelled(m) => r@ == m@,
                PluginError::Other(m) => r@ == m@,
            },
    {
        match self {
            PluginError::Authenticate(m) => m,
            PluginError::Io(m) => m,
            PluginError::Json(m) => m,
            PluginError::Cancelled(m) => m,
            PluginError::Other(m) => m,
        }
    }
}

} // verus!
