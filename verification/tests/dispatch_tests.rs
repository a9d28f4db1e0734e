use std::collections::HashMap;

use opacity::alpha::{set_alpha, Rgba};
use opacity::fixed::{fixed_mul, UNIT};
use opacity::impls::{
    apply_opacity_asset, apply_opacity_materials, apply_opacity_query, ColorMaterial,
    ExtendedMaterial, ImageNode, MaskExtension, OpacityAsset, OpacityMaterialExtension, Sprite,
    StandardMaterial, TextColor, TintExtension, UiColorQuery, UiOpacity,
};
use opacity::registry::{
    apply_compound, apply_direct, apply_fields, validate_registration, AdapterSpec,
    Classification, FieldTarget, RegistrationError,
};
use opacity::resolve::calculate_opacity;

const HALF: u32 = UNIT / 2;
// 0.3 of full opacity, rounded to the fixed-point scale.
const POINT_THREE: u32 = 19661;

fn gray(alpha: u32) -> Rgba {
    Rgba { red: HALF, green: HALF, blue: HALF, alpha }
}

#[test]
fn fixed_multiplication_is_exact_on_halves() {
    assert_eq!(fixed_mul(HALF, HALF), UNIT / 4);
    assert_eq!(fixed_mul(UNIT, HALF), HALF);
    assert_eq!(fixed_mul(0, UNIT), 0);
}

#[test]
fn set_alpha_overwrites_only_alpha() {
    let mut color = gray(UNIT);
    set_alpha(&mut color, POINT_THREE);
    assert_eq!(color, gray(POINT_THREE));
    let mut scalar: u32 = UNIT;
    set_alpha(&mut scalar, POINT_THREE);
    assert_eq!(scalar, POINT_THREE);
}

#[test]
fn component_pass_writes_only_resolved_entities() {
    let opacities = vec![(1u64, POINT_THREE)];
    let children = vec![(1u64, vec![2u64])];
    let map = calculate_opacity(&opacities, &children);
    let mut sprites = vec![
        (1u64, Sprite { color: gray(UNIT) }),
        (2u64, Sprite { color: gray(UNIT) }),
        (9u64, Sprite { color: gray(UNIT) }),
    ];
    apply_opacity_query(&map, &mut sprites);
    assert_eq!(sprites[0].1.color.alpha, POINT_THREE);
    assert_eq!(sprites[1].1.color.alpha, POINT_THREE);
    // Entity 9 has no opacity ancestor: its sprite is untouched.
    assert_eq!(sprites[2].1, Sprite { color: gray(UNIT) });
}

#[test]
fn image_and_text_components() {
    let opacities = vec![(1u64, HALF)];
    let map = calculate_opacity(&opacities, &vec![]);
    let mut images = vec![(1u64, ImageNode { color: gray(UNIT) })];
    let mut texts = vec![(1u64, TextColor(gray(UNIT)))];
    apply_opacity_query(&map, &mut images);
    apply_opacity_query(&map, &mut texts);
    assert_eq!(images[0].1.color.alpha, HALF);
    assert_eq!(texts[0].1 .0.alpha, HALF);
}

#[test]
fn ui_colors_follow_their_switch() {
    let opacities = vec![(1u64, POINT_THREE)];
    let map = calculate_opacity(&opacities, &vec![]);
    let fresh = |ui_color| UiColorQuery { ui_color, background: gray(UNIT), border: gray(UNIT) };
    let mut nodes = vec![
        (1u64, fresh(UiOpacity::Neither)),
        (1u64, fresh(UiOpacity::Border)),
        (1u64, fresh(UiOpacity::Background)),
        (1u64, fresh(UiOpacity::Both)),
    ];
    apply_opacity_query(&map, &mut nodes);
    assert_eq!(nodes[0].1.border.alpha, UNIT);
    assert_eq!(nodes[0].1.background.alpha, UNIT);
    assert_eq!(nodes[1].1.border.alpha, POINT_THREE);
    assert_eq!(nodes[1].1.background.alpha, UNIT);
    assert_eq!(nodes[2].1.border.alpha, UNIT);
    assert_eq!(nodes[2].1.background.alpha, POINT_THREE);
    assert_eq!(nodes[3].1.border.alpha, POINT_THREE);
    assert_eq!(nodes[3].1.background.alpha, POINT_THREE);
}

#[test]
fn asset_lookup_miss_is_skipped() {
    let mut assets: HashMap<u64, ColorMaterial> = HashMap::new();
    assets.insert(4, ColorMaterial { color: gray(UNIT) });
    apply_opacity_asset(&mut assets, 4, HALF);
    assert_eq!(assets[&4].color.alpha, HALF);
    // Handle 5 refers to nothing: silently skipped, nothing changes.
    apply_opacity_asset(&mut assets, 5, HALF);
    assert_eq!(assets.len(), 1);
    assert_eq!(assets[&4].color.alpha, HALF);
}

#[test]
fn material_pass_skips_unresolved_and_stale() {
    let opacities = vec![(1u64, HALF), (2u64, HALF)];
    let map = calculate_opacity(&opacities, &vec![]);
    let mut assets: HashMap<u64, StandardMaterial> = HashMap::new();
    assets.insert(10, StandardMaterial { base_color: gray(UNIT) });
    assets.insert(11, StandardMaterial { base_color: gray(UNIT) });
    // Entity 1 holds a live handle, entity 2 a stale one, entity 3 is
    // out of scope while its handle is live.
    let handles = vec![(1u64, 10u64), (2u64, 99u64), (3u64, 11u64)];
    apply_opacity_materials(&map, &handles, &mut assets);
    assert_eq!(assets[&10].base_color.alpha, HALF);
    assert_eq!(assets[&11].base_color.alpha, UNIT);
}

#[test]
fn extends_writes_base_and_extension() {
    let mut material = ExtendedMaterial {
        base: StandardMaterial { base_color: gray(UNIT) },
        extension: TintExtension { color: gray(UNIT) },
    };
    material.apply_opacity(POINT_THREE);
    assert_eq!(material.base.base_color.alpha, POINT_THREE);
    assert_eq!(material.extension.color.alpha, POINT_THREE);
}

#[test]
fn masks_leaves_base_untouched() {
    let mut material = ExtendedMaterial {
        base: StandardMaterial { base_color: gray(UNIT) },
        extension: MaskExtension { color: gray(UNIT) },
    };
    material.apply_opacity(POINT_THREE);
    assert_eq!(material.base.base_color, gray(UNIT));
    assert_eq!(material.extension.color.alpha, POINT_THREE);
}

#[test]
fn compound_extension_policies() {
    let base_adapter = AdapterSpec { classification: Classification::Asset, alpha_fields: vec![0] };
    let extends = AdapterSpec { classification: Classification::Extends, alpha_fields: vec![1] };
    let masks = AdapterSpec { classification: Classification::Masks, alpha_fields: vec![1] };

    let mut base = FieldTarget { fields: vec![UNIT, 7] };
    let mut extension = FieldTarget { fields: vec![9, UNIT] };
    apply_compound(&mut base, &mut extension, &base_adapter, &extends, POINT_THREE);
    assert_eq!(base.fields, vec![POINT_THREE, 7]);
    assert_eq!(extension.fields, vec![9, POINT_THREE]);

    let mut base = FieldTarget { fields: vec![UNIT, 7] };
    let mut extension = FieldTarget { fields: vec![9, UNIT] };
    apply_compound(&mut base, &mut extension, &base_adapter, &masks, POINT_THREE);
    assert_eq!(base.fields, vec![UNIT, 7]);
    assert_eq!(extension.fields, vec![9, POINT_THREE]);
}

#[test]
fn direct_adapter_writes_declared_fields() {
    let adapter = AdapterSpec { classification: Classification::Direct, alpha_fields: vec![0, 2] };
    let mut target = FieldTarget { fields: vec![1, 2, 3] };
    apply_direct(&mut target, &adapter, HALF);
    assert_eq!(target.fields, vec![HALF, 2, HALF]);
}

#[test]
fn duplicate_declared_fields_write_once_each() {
    let mut target = FieldTarget { fields: vec![1, 2] };
    apply_fields(&mut target, &vec![1, 1], HALF);
    assert_eq!(target.fields, vec![1, HALF]);
}

#[test]
fn registration_is_validated() {
    let good = AdapterSpec { classification: Classification::Direct, alpha_fields: vec![0, 1] };
    assert_eq!(validate_registration(&good, 2), Ok(()));
    let bad = AdapterSpec { classification: Classification::Direct, alpha_fields: vec![0, 2] };
    assert_eq!(validate_registration(&bad, 2), Err(RegistrationError::MissingField));
    let empty = AdapterSpec { classification: Classification::Asset, alpha_fields: vec![] };
    assert_eq!(validate_registration(&empty, 0), Ok(()));
}
