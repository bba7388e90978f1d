//! Stable per-character identities.
//!
//! Every unit of text ever inserted is assigned an identity that no other
//! insertion, on any replica, ever reuses: the pair of the minting replica's
//! id and that replica's own running counter.

use vstd::prelude::*;

verus! {

/// The identity of one inserted character: the replica that minted it and
/// the position of the mint in that replica's own sequence of mints.
#[derive(Clone, Copy, PartialEq, Eq, Structural, Debug)]
pub struct Id {
    pub rid: u64,
    pub seq: u64,
}

impl Id {
    pub fn new(rid: u64, seq: u64) -> (r: Id)
        ensures
            r == (Id { rid, seq }),
    {
        Id { rid, seq }
    }
}

} // verus!
