use opacity::fixed::UNIT;
use opacity::resolve::{calculate_opacity, OpacityMap};

const HALF: u32 = UNIT / 2;
const QUARTER: u32 = UNIT / 4;
const EIGHTH: u32 = UNIT / 8;

#[test]
fn multiplicative_chain() {
    // root(0.5) -> child(0.5) -> grandchild(0.5) resolves to exactly
    // 0.5, 0.25, 0.125.
    let opacities = vec![(1u64, HALF), (2u64, HALF), (3u64, HALF)];
    let children = vec![(1u64, vec![2u64]), (2u64, vec![3u64])];
    let map = calculate_opacity(&opacities, &children);
    assert_eq!(map.get(1), Some(HALF));
    assert_eq!(map.get(2), Some(QUARTER));
    assert_eq!(map.get(3), Some(EIGHTH));
    assert_eq!(map.len(), 3);
}

#[test]
fn pass_through_children() {
    // Entities 2 and 3 carry no opacity state: they take their parent's
    // resolved value unchanged.
    let opacities = vec![(1u64, HALF)];
    let children = vec![(1u64, vec![2u64]), (2u64, vec![3u64])];
    let map = calculate_opacity(&opacities, &children);
    assert_eq!(map.get(1), Some(HALF));
    assert_eq!(map.get(2), map.get(1));
    assert_eq!(map.get(3), Some(HALF));
}

#[test]
fn rebuild_is_idempotent() {
    let opacities = vec![(1u64, HALF), (2u64, QUARTER)];
    let children = vec![(1u64, vec![2u64, 4u64]), (2u64, vec![3u64])];
    let once = calculate_opacity(&opacities, &children);
    let twice = calculate_opacity(&opacities, &children);
    assert_eq!(once.len(), twice.len());
    for e in [1u64, 2, 3, 4, 5] {
        assert_eq!(once.get(e), twice.get(e));
    }
}

#[test]
fn scope_boundary() {
    // Entities 5 and 6 have no opacity state anywhere above them: they
    // never enter the map.
    let opacities = vec![(1u64, UNIT)];
    let children = vec![(1u64, vec![2u64]), (5u64, vec![6u64])];
    let map = calculate_opacity(&opacities, &children);
    assert!(map.contains(1));
    assert!(map.contains(2));
    assert!(!map.contains(5));
    assert_eq!(map.get(6), None);
    assert_eq!(map.len(), 2);
}

#[test]
fn nested_roots_compose_regardless_of_order() {
    let children = vec![(1u64, vec![2u64])];
    let forward = calculate_opacity(&vec![(1u64, HALF), (2u64, HALF)], &children);
    let backward = calculate_opacity(&vec![(2u64, HALF), (1u64, HALF)], &children);
    assert_eq!(forward.get(1), Some(HALF));
    assert_eq!(forward.get(2), Some(QUARTER));
    assert_eq!(backward.get(1), Some(HALF));
    assert_eq!(backward.get(2), Some(QUARTER));
}

#[test]
fn zero_and_full_opacity_compose_exactly() {
    let opacities = vec![(1u64, 0u32), (2u64, UNIT), (3u64, UNIT)];
    let children = vec![(1u64, vec![2u64]), (3u64, vec![4u64])];
    let map = calculate_opacity(&opacities, &children);
    assert_eq!(map.get(1), Some(0));
    assert_eq!(map.get(2), Some(0));
    assert_eq!(map.get(3), Some(UNIT));
    assert_eq!(map.get(4), Some(UNIT));
}

#[test]
fn siblings_resolve_independently() {
    let opacities = vec![(1u64, HALF), (2u64, UNIT), (3u64, QUARTER)];
    let children = vec![(1u64, vec![2u64, 3u64])];
    let map = calculate_opacity(&opacities, &children);
    assert_eq!(map.get(2), Some(HALF));
    assert_eq!(map.get(3), Some(EIGHTH));
}

#[test]
fn empty_frame_resolves_nothing() {
    let map = calculate_opacity(&vec![], &vec![]);
    assert_eq!(map.len(), 0);
    assert!(!map.contains(1));
}

#[test]
fn empty_map_is_empty() {
    let map = OpacityMap::new();
    assert_eq!(map.len(), 0);
    assert_eq!(map.get(0), None);
}

#[test]
fn deep_chain() {
    let opacities = vec![(1u64, HALF)];
    let children = vec![
        (1u64, vec![2u64]),
        (2u64, vec![3u64]),
        (3u64, vec![4u64]),
        (4u64, vec![5u64]),
    ];
    let map = calculate_opacity(&opacities, &children);
    for e in 1u64..=5 {
        assert_eq!(map.get(e), Some(HALF));
    }
}
