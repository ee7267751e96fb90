//! Identifier newtypes for the entities the library speaks about.
//!
//! Each wraps the stable integer key of one entity; the engine treats
//! them as opaque foreign keys.

use vstd::prelude::*;

verus! {

#[derive(Clone, Copy, Debug, Eq, PartialEq, Structural)]
pub struct Admin(pub i64);

#[derive(Clone, Copy, Debug, Eq, PartialEq, Ord, PartialOrd, Structural)]
pub struct User(pub i64);

#[derive(Clone, Copy, Debug, Eq, PartialEq, Structural)]
pub struct GalleryItem(pub i64);

#[derive(Clone, Copy, Debug, Eq, PartialEq, Structural)]
pub struct Release(pub i64);

#[derive(Clone, Copy, Debug, Eq, PartialEq, Structural)]
pub struct Package(pub i64);

#[derive(Clone, Copy, Debug, Eq, PartialEq, Structural)]
pub struct Project(pub i64);

#[derive(Clone, Copy, Debug, Eq, PartialEq, Structural)]
pub struct Owner(pub i64);

#[derive(Debug, Eq, PartialEq, Structural)]
pub struct Owned(pub Owner, pub Project);

#[derive(Clone, Copy, Debug, Eq, PartialEq, Ord, PartialOrd, Structural)]
pub struct Flag(pub i64);

} // verus!
