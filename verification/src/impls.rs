//! The application layer: per-target-kind adapters that write a resolved
//! opacity into concrete target models, and the per-frame passes that drive
//! them from the [`OpacityMap`].
//!
//! Three adapter shapes, as in the frame pipeline's last phase: a component
//! owns its alpha-bearing fields directly; an asset is reached through a
//! handle into a keyed store, and a stale handle is skipped silently; a
//! compound material is a base plus an extension, where the extension's
//! policy decides whether the base is written too ([`TintExtension`]) or
//! left alone ([`MaskExtension`]). No pass ever touches an entity that the
//! map does not hold.

use crate::alpha::{BevyAlphaMarker, Rgba, SetAlpha};
use crate::resolve::OpacityMap;
use std::collections::HashMap;
use vstd::prelude::*;

verus! {

broadcast use vstd::std_specs::hash::group_hash_axioms;

/// A component with an opacity to write: `with_opacity` says exactly what
/// the written component looks like, `apply_opacity` writes it.
pub trait OpacityQuery: Sized {
    /// The component with the resolved opacity written into its
    /// alpha-bearing fields and all else kept.
    spec fn with_opacity(self, opacity: u32) -> Self;

    /// Write the resolved opacity into the component.
    fn apply_opacity(&mut self, opacity: u32)
        ensures
            *final(self) == old(self).with_opacity(opacity),
    ;
}

/// An asset with an opacity to write; same contract shape as
/// [`OpacityQuery`], for values living in a keyed store.
pub trait OpacityAsset: Sized {
    /// The asset with the resolved opacity written in and all else kept.
    spec fn with_opacity(self, opacity: u32) -> Self;

    /// Write the resolved opacity into the asset.
    fn apply_opacity(&mut self, opacity: u32)
        ensures
            *final(self) == old(self).with_opacity(opacity),
    ;
}

/// An extension over a base material, with its composition policy baked in:
/// `composed` says exactly what both parts look like after one application.
pub trait OpacityMaterialExtension<A>: Sized {
    /// Base and extension after writing the resolved opacity.
    spec fn composed(base: A, extension: Self, opacity: u32) -> (A, Self);

    /// Write the resolved opacity into the compound material.
    fn apply_opacity(base: &mut A, extension: &mut Self, opacity: u32)
        ensures
            (*final(base), *final(extension)) == Self::composed(
                *old(base),
                *old(extension),
                opacity,
            ),
    ;
}

/// A sprite: a tint color whose alpha the opacity drives.
#[derive(Clone, Copy, Debug, PartialEq, Eq, Structural)]
pub struct Sprite {
    pub color: Rgba,
}

impl OpacityQuery for Sprite {
    open spec fn with_opacity(self, opacity: u32) -> Sprite {
        Sprite { color: self.color.with_alpha(opacity) }
    }

    fn apply_opacity(&mut self, opacity: u32) {
        self.color.set_alpha(opacity);
    }
}

/// An image node of the UI: a tint color whose alpha the opacity drives.
#[derive(Clone, Copy, Debug, PartialEq, Eq, Structural)]
pub struct ImageNode {
    pub color: Rgba,
}

impl OpacityQuery for ImageNode {
    open spec fn with_opacity(self, opacity: u32) -> ImageNode {
        ImageNode { color: self.color.with_alpha(opacity) }
    }

    fn apply_opacity(&mut self, opacity: u32) {
        self.color.set_alpha(opacity);
    }
}

/// A text color.
#[derive(Clone, Copy, Debug, PartialEq, Eq, Structural)]
pub struct TextColor(pub Rgba);

impl OpacityQuery for TextColor {
    open spec fn with_opacity(self, opacity: u32) -> TextColor {
        TextColor(self.0.with_alpha(opacity))
    }

    fn apply_opacity(&mut self, opacity: u32) {
        self.0.set_alpha(opacity);
    }
}

/// Which of a UI node's two colors the opacity controls; the others stay
/// untouched (and typically transparent).
#[derive(Clone, Copy, Debug, PartialEq, Eq, Structural)]
pub enum UiOpacity {
    /// Neither color is controlled by opacity.
    Neither,
    /// Opacity controls the border color.
    Border,
    /// Opacity controls the background color.
    Background,
    /// Opacity controls border and background color.
    Both,
}

impl UiOpacity {
    /// Whether this switch lets opacity drive the border color.
    pub fn controls_border(&self) -> (r: bool)
        ensures
            r == (*self == UiOpacity::Border || *self == UiOpacity::Both),
    {
        match self {
            UiOpacity::Border => true,
            UiOpacity::Both => true,
            _ => false,
        }
    }

    /// Whether this switch lets opacity drive the background color.
    pub fn controls_background(&self) -> (r: bool)
        ensures
            r == (*self == UiOpacity::Background || *self == UiOpacity::Both),
    {
        match self {
            UiOpacity::Background => true,
            UiOpacity::Both => true,
            _ => false,
        }
    }
}

/// The opacity-bearing colors of a UI node, with the switch saying which of
/// them the opacity drives.
#[derive(Clone, Copy, Debug, PartialEq, Eq, Structural)]
pub struct UiColorQuery {
    pub ui_color: UiOpacity,
    pub background: Rgba,
    pub border: Rgba,
}

impl OpacityQuery for UiColorQuery {
    open spec fn with_opacity(self, opacity: u32) -> UiColorQuery {
        match self.ui_color {
            UiOpacity::Neither => self,
            UiOpacity::Border => UiColorQuery { border: self.border.with_alpha(opacity), ..self },
            UiOpacity::Background => UiColorQuery {
                background: self.background.with_alpha(opacity),
                ..self
            },
            UiOpacity::Both => UiColorQuery {
                border: self.border.with_alpha(opacity),
                background: self.background.with_alpha(opacity),
                ..self
            },
        }
    }

    fn apply_opacity(&mut self, opacity: u32) {
        match self.ui_color {
            UiOpacity::Neither => (),
            UiOpacity::Border => {
                self.border.set_alpha(opacity);
            },
            UiOpacity::Background => {
                self.background.set_alpha(opacity);
            },
            UiOpacity::Both => {
                self.border.set_alpha(opacity);
                self.background.set_alpha(opacity);
            },
        }
    }
}

/// A flat color material.
#[derive(Clone, Copy, Debug, PartialEq, Eq, Structural)]
pub struct ColorMaterial {
    pub color: Rgba,
}

impl OpacityAsset for ColorMaterial {
    open spec fn with_opacity(self, opacity: u32) -> ColorMaterial {
        ColorMaterial { color: self.color.with_alpha(opacity) }
    }

    fn apply_opacity(&mut self, opacity: u32) {
        self.color.set_alpha(opacity);
    }
}

/// A standard surface material: opacity drives its base color's alpha.
#[derive(Clone, Copy, Debug, PartialEq, Eq, Structural)]
pub struct StandardMaterial {
    pub base_color: Rgba,
}

impl OpacityAsset for StandardMaterial {
    open spec fn with_opacity(self, opacity: u32) -> StandardMaterial {
        StandardMaterial { base_color: self.base_color.with_alpha(opacity) }
    }

    fn apply_opacity(&mut self, opacity: u32) {
        self.base_color.set_alpha(opacity);
    }
}

/// A material made of a fixed base and an extension; the extension's policy
/// decides how opacity reaches the base.
#[derive(Clone, Copy, Debug, PartialEq, Eq, Structural)]
pub struct ExtendedMaterial<A, B> {
    pub base: A,
    pub extension: B,
}

impl<A: OpacityAsset + Copy, T: OpacityMaterialExtension<A> + Copy> OpacityAsset for ExtendedMaterial<
    A,
    T,
> {
    open spec fn with_opacity(self, opacity: u32) -> ExtendedMaterial<A, T> {
        let (base, extension) = T::composed(self.base, self.extension, opacity);
        ExtendedMaterial { base, extension }
    }

    fn apply_opacity(&mut self, opacity: u32) {
        let mut base = self.base;
        let mut extension = self.extension;
        T::apply_opacity(&mut base, &mut extension, opacity);
        self.base = base;
        self.extension = extension;
    }
}

/// A tint extension that extends its base: opacity is written into the
/// extension's color and into the base alike.
#[derive(Clone, Copy, Debug, PartialEq, Eq, Structural)]
pub struct TintExtension {
    pub color: Rgba,
}

impl<A: OpacityAsset + Copy> OpacityMaterialExtension<A> for TintExtension {
    open spec fn composed(base: A, extension: Self, opacity: u32) -> (A, Self) {
        (base.with_opacity(opacity), TintExtension { color: extension.color.with_alpha(opacity) })
    }

    fn apply_opacity(base: &mut A, extension: &mut Self, opacity: u32) {
        base.apply_opacity(opacity);
        extension.color.set_alpha(opacity);
    }
}

/// A tint extension that masks its base: only the extension's color is
/// written, the base keeps whatever it had, occluded by the extension.
#[derive(Clone, Copy, Debug, PartialEq, Eq, Structural)]
pub struct MaskExtension {
    pub color: Rgba,
}

impl<A: OpacityAsset + Copy> OpacityMaterialExtension<A> for MaskExtension {
    open spec fn composed(base: A, extension: Self, opacity: u32) -> (A, Self) {
        (base, MaskExtension { color: extension.color.with_alpha(opacity) })
    }

    fn apply_opacity(base: &mut A, extension: &mut Self, opacity: u32) {
        extension.color.set_alpha(opacity);
    }
}

/// One frame of an adapter's component pass: for every entity that owns a
/// `Q` component, write its resolved opacity into the component — and leave
/// every entity the map does not hold untouched.
pub fn apply_opacity_query<Q: OpacityQuery + Copy>(map: &OpacityMap, items: &mut Vec<(u64, Q)>)
    ensures
        final(items)@.len() == old(items)@.len(),
        forall|i: int|
            0 <= i < old(items)@.len() ==> (#[trigger] final(items)@[i]).0 == old(items)@[i].0
                && final(items)@[i].1 == (if map@.contains_key(old(items)@[i].0) {
                old(items)@[i].1.with_opacity(map@[old(items)@[i].0])
            } else {
                old(items)@[i].1
            }),
{
    let ghost orig = items@;
    let mut i: usize = 0;
    while i < items.len()
        invariant
            items@.len() == orig.len(),
            i <= orig.len(),
            forall|j: int| i <= j < orig.len() ==> #[trigger] items@[j] == orig[j],
            forall|j: int|
                0 <= j < i ==> (#[trigger] items@[j]).0 == orig[j].0 && items@[j].1 == (
                if map@.contains_key(orig[j].0) {
                    orig[j].1.with_opacity(map@[orig[j].0])
                } else {
                    orig[j].1
                }),
        decreases orig.len() - i,
    {
        let (entity, mut component) = items[i];
        match map.get(entity) {
            Some(opacity) => {
                component.apply_opacity(opacity);
                items.set(i, (entity, component));
            },
            None => {},
        }
        i = i + 1;
    }
}

/// Write a resolved opacity into the asset that `handle` refers to in the
/// store. A stale handle — the asset has been unloaded — is skipped
/// silently; nothing else in the store changes either way.
pub fn apply_opacity_asset<M: OpacityAsset>(
    assets: &mut HashMap<u64, M>,
    handle: u64,
    opacity: u32,
)
    ensures
        old(assets)@.contains_key(handle) ==> final(assets)@ == old(assets)@.insert(
            handle,
            old(assets)@[handle].with_opacity(opacity),
        ),
        !old(assets)@.contains_key(handle) ==> final(assets)@ == old(assets)@,
{
    let ghost orig = assets@;
    match assets.remove(&handle) {
        Some(asset) => {
            let mut asset = asset;
            asset.apply_opacity(opacity);
            assets.insert(handle, asset);
            proof {
                assert(assets@ =~= orig.insert(handle, orig[handle].with_opacity(opacity)));
            }
        },
        None => {
            proof {
                assert(assets@ =~= orig);
            }
        },
    }
}

/// The store after one material pass over `handles`, in order: each entity
/// that resolved this frame has its material's opacity overwritten, stale
/// handles and out-of-scope entities skipped.
pub open spec fn applied_materials<M: OpacityAsset>(
    resolved: Map<u64, u32>,
    handles: Seq<(u64, u64)>,
    assets: Map<u64, M>,
) -> Map<u64, M>
    decreases handles.len(),
{
    if handles.len() == 0 {
        assets
    } else {
        let prev = applied_materials(resolved, handles.drop_last(), assets);
        let entity = handles.last().0;
        let handle = handles.last().1;
        if resolved.contains_key(entity) && prev.contains_key(handle) {
            prev.insert(handle, prev[handle].with_opacity(resolved[entity]))
        } else {
            prev
        }
    }
}

/// One frame of an adapter's asset pass: for every entity that holds a
/// handle to an `M` asset and resolved this frame, write its resolved
/// opacity into the referenced asset.
pub fn apply_opacity_materials<M: OpacityAsset>(
    map: &OpacityMap,
    handles: &Vec<(u64, u64)>,
    assets: &mut HashMap<u64, M>,
)
    ensures
        final(assets)@ == applied_materials(map@, handles@, old(assets)@),
{
    let ghost orig = assets@;
    let mut i: usize = 0;
    while i < handles.len()
        invariant
            i <= handles@.len(),
            assets@ == applied_materials(map@, handles@.take(i as int), orig),
        decreases handles@.len() - i,
    {
        let (entity, handle) = handles[i];
        match map.get(entity) {
            Some(opacity) => {
                apply_opacity_asset(assets, handle, opacity);
            },
            None => {},
        }
        proof {
            assert(handles@.take(i + 1).drop_last() =~= handles@.take(i as int));
            assert(handles@.take(i + 1).last() == handles@[i as int]);
        }
        i = i + 1;
    }
    proof {
        assert(handles@.take(handles@.len() as int) =~= handles@);
    }
}

} // verus!
