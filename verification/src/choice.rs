//! The level of detail a caller can ask of a server-details request.

use vstd::prelude::*;

verus! {

/// How much detail a server-details request should include.
#[derive(Clone, Copy, Debug, PartialEq, Eq, Structural)]
pub enum DetailsChoice {
    SIMPLE,
    DETAILED,
}

} // verus!
