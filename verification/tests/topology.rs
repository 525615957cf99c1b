use kirara_core::constraint::{joint_bodies_valid, AxisLock};
use kirara_core::softbody::{cloth_grid_springs, cloth_grid_triangles, Attachments, SpringKind, SpringLink};

fn count_kind(links: &[SpringLink], kind: SpringKind) -> usize {
    links.iter().filter(|l| l.kind == kind).count()
}

#[test]
fn axis_lock_all_locked_locks_every_axis() {
    let lock = AxisLock::all_locked();
    assert!(lock.x && lock.y && lock.z);
}

#[test]
fn axis_lock_from_bools_keeps_each_flag() {
    let lock = AxisLock::from_bools(false, true, true);
    assert!(!lock.x);
    assert!(lock.y);
    assert!(lock.z);
    let lock = AxisLock::from_bools(true, false, false);
    assert!(lock.x && !lock.y && !lock.z);
}

#[test]
fn joint_needs_two_distinct_existing_bodies() {
    assert!(joint_bodies_valid(0, 1, 2));
    assert!(!joint_bodies_valid(1, 1, 2));
    assert!(!joint_bodies_valid(0, 2, 2));
    assert!(!joint_bodies_valid(3, 0, 2));
    assert!(!joint_bodies_valid(0, 0, 0));
}

#[test]
fn cloth_grid_has_all_three_spring_kinds() {
    let links = cloth_grid_springs(5, 5, 0);
    let structural = count_kind(&links, SpringKind::Stretch);
    let shear = count_kind(&links, SpringKind::Shear);
    let bend = count_kind(&links, SpringKind::Bend);
    assert!(structural > 10, "structural springs missing");
    assert!(shear > 10, "shear springs missing");
    assert!(bend > 10, "bend springs missing");
    assert_eq!(structural, 5 * 4 + 4 * 5);
    assert_eq!(shear, 2 * 4 * 4);
    assert_eq!(bend, 5 * 3 + 3 * 5);
    assert_eq!(links.len(), 40 + 32 + 30);
}

#[test]
fn cloth_grid_springs_come_cell_by_cell_then_bends() {
    let links = cloth_grid_springs(3, 3, 10);
    let got: Vec<(usize, usize, SpringKind)> = links.iter().map(|l| (l.a, l.b, l.kind)).collect();
    let expected = vec![
        // row 0
        (10, 11, SpringKind::Stretch),
        (10, 13, SpringKind::Stretch),
        (10, 14, SpringKind::Shear),
        (11, 12, SpringKind::Stretch),
        (11, 14, SpringKind::Stretch),
        (11, 15, SpringKind::Shear),
        (11, 13, SpringKind::Shear),
        (12, 15, SpringKind::Stretch),
        (12, 14, SpringKind::Shear),
        // row 1
        (13, 14, SpringKind::Stretch),
        (13, 16, SpringKind::Stretch),
        (13, 17, SpringKind::Shear),
        (14, 15, SpringKind::Stretch),
        (14, 17, SpringKind::Stretch),
        (14, 18, SpringKind::Shear),
        (14, 16, SpringKind::Shear),
        (15, 18, SpringKind::Stretch),
        (15, 17, SpringKind::Shear),
        // row 2
        (16, 17, SpringKind::Stretch),
        (17, 18, SpringKind::Stretch),
        // bends
        (10, 12, SpringKind::Bend),
        (10, 16, SpringKind::Bend),
        (11, 17, SpringKind::Bend),
        (12, 18, SpringKind::Bend),
        (13, 15, SpringKind::Bend),
        (16, 18, SpringKind::Bend),
    ];
    assert_eq!(got, expected);
}

#[test]
fn single_row_cloth_has_only_horizontal_springs() {
    let links = cloth_grid_springs(1, 4, 0);
    let got: Vec<(usize, usize, SpringKind)> = links.iter().map(|l| (l.a, l.b, l.kind)).collect();
    assert_eq!(
        got,
        vec![
            (0, 1, SpringKind::Stretch),
            (1, 2, SpringKind::Stretch),
            (2, 3, SpringKind::Stretch),
            (0, 2, SpringKind::Bend),
            (1, 3, SpringKind::Bend),
        ]
    );
    assert!(cloth_grid_springs(0, 7, 0).is_empty());
}

#[test]
fn cloth_grid_triangles_split_each_quad_in_two() {
    let tris = cloth_grid_triangles(3, 4, 2);
    assert_eq!(tris.len(), 2 * 2 * 3);
    let got: Vec<(usize, usize, usize)> = tris.iter().map(|t| (t.a, t.b, t.c)).collect();
    assert_eq!(got[0], (2, 3, 6));
    assert_eq!(got[1], (3, 7, 6));
    assert_eq!(got[2], (3, 4, 7));
    assert_eq!(got[3], (4, 8, 7));
    assert_eq!(got[6], (6, 7, 10));
    assert_eq!(got[11], (9, 13, 12));
    assert!(cloth_grid_triangles(1, 5, 0).is_empty());
    assert!(cloth_grid_triangles(5, 1, 0).is_empty());
    assert!(cloth_grid_triangles(1, 0, 0).is_empty());
}

#[test]
fn unpin_frees_only_that_particle() {
    let mut pins: Attachments<(i32, i32)> = Attachments::new();
    pins.pin_to_body(0, 3, (1, 1));
    pins.pin_to_body(1, 3, (2, 2));
    pins.pin_to_body(0, 4, (3, 3));
    pins.pin_to_body(2, 5, (4, 4));
    assert_eq!(pins.len(), 4);
    assert!(pins.is_pinned_to(0, 3));
    assert!(pins.is_pinned_to(0, 4));
    assert!(!pins.is_pinned_to(1, 4));

    pins.unpin(0);
    assert_eq!(pins.len(), 2);
    assert!(!pins.is_pinned_to(0, 3));
    assert!(!pins.is_pinned_to(0, 4));
    assert!(pins.is_pinned_to(1, 3));
    assert!(pins.is_pinned_to(2, 5));
    let first = pins.get(0);
    let second = pins.get(1);
    assert_eq!((first.particle, first.body, first.local_offset), (1, 3, (2, 2)));
    assert_eq!((second.particle, second.body, second.local_offset), (2, 5, (4, 4)));
}

#[test]
fn pin_then_unpin_restores_pins() {
    let mut pins: Attachments<u8> = Attachments::new();
    pins.pin_to_body(7, 1, 9);
    pins.pin_to_body(8, 2, 10);
    pins.unpin(8);
    assert_eq!(pins.len(), 1);
    let only = pins.get(0);
    assert_eq!((only.particle, only.body, only.local_offset), (7, 1, 9));
    pins.unpin(42);
    assert_eq!(pins.len(), 1);
}
