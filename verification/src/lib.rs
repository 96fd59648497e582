//! Core library of a desktop command-launcher daemon: the line-framed JSON
//! wire protocol shared by the daemon, its plugin processes and its clients,
//! together with the request routing, match aggregation, plugin-runtime and
//! supervision logic that drive them.

pub mod codec;
pub mod commands;
pub mod errors;
pub mod extensions;
pub mod icons;
pub mod messages;
pub mod search;
pub mod json;
pub mod lines;
pub mod protocol;
pub mod router;
pub mod runtime;
pub mod supervisor;
