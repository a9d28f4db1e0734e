//! Hierarchical opacity for a tree of scene entities.
//!
//! Opacity values are normalized fractions of [`fixed::UNIT`]: an entity's
//! own opacity lives in an [`fading::Opacity`] state that interpolates toward
//! a target over time, a resolver composes those states multiplicatively down
//! the entity tree into an [`resolve::OpacityMap`], and an application layer
//! writes the resolved values into alpha-bearing fields of registered target
//! types. Entities with no opacity state anywhere above them are out of
//! scope: they never enter the map and are never written to.

use vstd::prelude::*;

pub mod alpha;
pub mod fading;
pub mod fixed;
pub mod impls;
pub mod registry;
pub mod resolve;

verus! {

/// Ordered phases of one frame: advance fades, apply removals (a barrier for
/// the host scheduler), resolve effective opacities over the tree, then write
/// them into the registered targets.
#[derive(Clone, Copy, Debug, PartialEq, Eq, Structural)]
pub enum OpacitySet {
    Fading,
    PostFade,
    Calculate,
    Apply,
}

} // verus!
