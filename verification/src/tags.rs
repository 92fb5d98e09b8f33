//! Marker components: empty tags that classify world entities.

use vstd::prelude::*;

verus! {

/// Marks the player entity.
#[derive(Debug, Default)]
pub struct PlayerTag;

/// Marks an entity whose render state is stale.
#[derive(Debug, Default)]
pub struct DirtyTag;

/// Marks a terrain tile entity.
#[derive(Debug, Default)]
pub struct TileTag;

/// Marks the look-around cursor entity.
#[derive(Debug, Default)]
pub struct LookCursorTag;

/// Marks an entity that must be redrawn.
#[derive(Debug, Default)]
pub struct DirtyFlag;

/// Marks an entity that ignores lighting.
#[derive(Debug, Default)]
pub struct AlwaysLitFlag;

/// Marks an entity whose light never changes.
#[derive(Debug, Default)]
pub struct StaticFlag;

} // verus!
