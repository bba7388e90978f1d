//! How a system and its hosts are named.

use vstd::prelude::*;

verus! {

/// What a system is called: a claimed, pervasive or free name.
pub enum Name {
    Star(String),
    Fleet(String),
    Alias(String),
}

/// The kinds of device a system spans.
pub enum Host {
    CapitalShip,
    Ship,
    Planet,
    Asteroid,
    Comet,
}

} // verus!
