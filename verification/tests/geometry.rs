use rpg_system_2d::collision::{find_matching_collisions, CollisionSignal};
use rpg_system_2d::math::{footprints_overlap, Extent2, Placement};

#[test]
fn overlap_is_strict_at_touching_edges() {
    let a = Placement::from_xyz(10, 10, 0);
    let b = Placement::from_xyz(12, 10, 0);
    let square2 = Extent2 { x: 2, y: 2 };
    // Centres two apart with footprints of side two touch without overlap.
    assert!(!footprints_overlap(&a, &square2, &b, &square2));
    // A footprint a tenth wider (in tenths of a unit) does overlap.
    let a10 = Placement::from_xyz(100, 100, 0);
    let b10 = Placement::from_xyz(120, 100, 0);
    let square21 = Extent2 { x: 21, y: 21 };
    let square20 = Extent2 { x: 20, y: 20 };
    assert!(footprints_overlap(&a10, &square21, &b10, &square20));
}

#[test]
fn overlap_needs_both_axes() {
    let a = Placement::from_xyz(0, 0, 0);
    let square4 = Extent2 { x: 4, y: 4 };
    let near_x = Placement::from_xyz(3, 100, 0);
    assert!(!footprints_overlap(&a, &square4, &near_x, &square4));
    let near_both = Placement::from_xyz(3, 3, 5);
    // The z coordinate never enters the test.
    assert!(footprints_overlap(&a, &square4, &near_both, &square4));
}

#[test]
fn matching_normalizes_either_ordering() {
    let lefts = vec![10, 11];
    let rights = vec![7, 8];
    let collisions = vec![
        CollisionSignal::Started(10, 7),
        CollisionSignal::Started(8, 11),
        CollisionSignal::Started(10, 11),
        CollisionSignal::Ended(10, 8),
    ];
    let pairs = find_matching_collisions(&collisions, &lefts, &rights);
    assert_eq!(pairs, vec![(10, 7), (11, 8)]);
}

#[test]
fn matching_prefers_raw_ordering_when_ambiguous() {
    // An entity standing in both capability sets: the raw ordering wins.
    let both = vec![10, 7];
    let collisions = vec![CollisionSignal::Started(7, 10)];
    let pairs = find_matching_collisions(&collisions, &both, &both);
    assert_eq!(pairs, vec![(7, 10)]);
}
