//! How a client names the icon of a result: by file path or by theme name.

use vstd::prelude::*;

verus! {

/// An icon reference.
#[derive(Debug, PartialEq, Eq)]
pub enum Icon {
    Path(String),
    Name(String),
}

} // verus!
