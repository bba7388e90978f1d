//! Asset bookkeeping: the kinds, states and flags an asset can carry, and
//! the capability traits a content type implements so a bank can manage
//! it.

use vstd::prelude::*;

verus! {

/// A block implies building and connecting individual pieces to form a
/// larger whole.
pub trait Block {

}

/// The kinds of asset a bank manages.
pub enum AssetType {
    Block,
    Blueprint,
    Assembly,
    File,
}

/// Where an asset currently stands with its holder.
pub struct AssetState {
    pub held: bool,
    pub here: bool,
    pub holo: bool,
    pub live: bool,
}

/// Standing marks on an asset.
pub struct AssetFlags {
    pub expires: bool,
    pub junk: bool,
    pub draft: bool,
}

/// Implies readability: any number of holograms of an asset can exist at a
/// time, each updating to match the asset whenever possible.
pub trait Holographable {
    /// Store the latest holoframe when a subscriber sees a change.
    fn update();
}

/// Implies writability: only one material copy of an asset exists at a
/// time.
pub trait Materializable {
    /// Scan and upload the asset's current state upon a remote query.
    fn scan();
}

/// Why an asset operation was refused.
pub enum AssetError {
    Busy,
    UndefinedError,
}

/// Create a block from resources outside the spaceport.
pub trait Import where Self: core::marker::Sized {
    fn import() -> Self;
}

/// Send a block to consumers outside the spaceport.
pub trait Export {
    fn export(&self);
}

impl Block for crate::document::Text {

}

} // verus!
