//! Writing an alpha value into a field, uniformly over color-like fields
//! and plain scalar fields.
//!
//! The marker types let one trait cover both shapes without overlapping
//! impls: a color-like type replaces only its alpha channel, a scalar field
//! is replaced whole. The resolved opacity is authoritative: applying it
//! overwrites what was there, it never blends.

use crate::fixed::UNIT;
use vstd::prelude::*;

verus! {

/// Marker for color-like targets, which carry an alpha channel.
pub struct BevyAlphaMarker;

/// Marker for plain scalar targets, which are an alpha value themselves.
pub struct F32Marker;

/// A type with an alpha to overwrite. `with_alpha` says exactly what the
/// written value looks like; `set_alpha` writes it.
pub trait SetAlpha<Marker>: Sized {
    /// The value with its alpha replaced by `alpha` and all else kept.
    spec fn with_alpha(self, alpha: u32) -> Self;

    /// Overwrite the alpha with `alpha`.
    fn set_alpha(&mut self, alpha: u32)
        ensures
            *final(self) == old(self).with_alpha(alpha),
    ;
}

/// A color: red, green, blue and alpha, each a fraction of [`UNIT`].
#[derive(Clone, Copy, Debug, PartialEq, Eq, Structural)]
pub struct Rgba {
    pub red: u32,
    pub green: u32,
    pub blue: u32,
    pub alpha: u32,
}

impl Rgba {
    /// Fully opaque white.
    pub fn white() -> (r: Rgba)
        ensures
            r == (Rgba { red: UNIT, green: UNIT, blue: UNIT, alpha: UNIT }),
    {
        Rgba { red: UNIT, green: UNIT, blue: UNIT, alpha: UNIT }
    }
}

impl SetAlpha<BevyAlphaMarker> for Rgba {
    open spec fn with_alpha(self, alpha: u32) -> Rgba {
        Rgba { alpha, ..self }
    }

    fn set_alpha(&mut self, alpha: u32) {
        self.alpha = alpha;
    }
}

impl SetAlpha<F32Marker> for u32 {
    open spec fn with_alpha(self, alpha: u32) -> u32 {
        alpha
    }

    fn set_alpha(&mut self, alpha: u32) {
        *self = alpha;
    }
}

/// Overwrite `item`'s alpha with `alpha`.
pub fn set_alpha<T: SetAlpha<M>, M>(item: &mut T, alpha: u32)
    ensures
        *final(item) == old(item).with_alpha(alpha),
{
    item.set_alpha(alpha);
}

} // verus!
