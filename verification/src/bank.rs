//! What a bank stores and tracks: units of data, the templates assemblies
//! are built from, and the synchronization capability of live content.

use vstd::prelude::*;

verus! {

/// A unit of data with an optional name and its holder.
pub struct Block<T> {
    pub name: Option<String>,
    pub content: T,
    pub holder: String,
}

/// Blueprints define how an assembly is constructed from a collection of
/// blocks; building from one never changes it.
pub trait Blueprint where Self: core::marker::Sized {
    /// Create a blueprint from another.
    fn derive() -> Self;

    /// Create an empty blueprint.
    fn create() -> Self;

    /// Destroy a blueprint.
    fn destroy();

    /// Create a blueprint from resources outside the spaceport.
    fn import() -> Self;

    /// Send a blueprint to consumers outside the spaceport.
    fn export(&self);
}

/// An assembly is constructed from blocks after a blueprint.
pub trait Assembly where Self: core::marker::Sized {
    /// Create an assembly from another.
    fn derive() -> Self;

    /// Create an assembly.
    fn create() -> Self;

    /// Destroy an assembly.
    fn destroy();

    /// Create an assembly from resources outside the spaceport.
    fn import() -> Self;

    /// Send an assembly to consumers outside the spaceport.
    fn export(&self);
}

/// Content whose edits stream between replicas as they happen.
pub trait Realtime {
    fn sync();
}

} // verus!
