use kirara_core::body::{Activity, SLEEP_FRAMES};
use kirara_core::broadphase::{assemble_pairs, leaf_pair, plane_pairs, sort_pairs};

#[test]
fn still_body_falls_asleep_after_enough_slow_steps() {
    let mut a = Activity::new_dynamic();
    for step in 1..SLEEP_FRAMES {
        assert!(!a.update_sleep_state(true));
        assert_eq!(a.sleep_counter, step);
        assert!(!a.is_sleeping, "asleep too early at step {step}");
    }
    assert!(a.update_sleep_state(true), "the SLEEP_FRAMES-th slow step halts the body");
    assert!(a.is_sleeping);
    assert_eq!(a.sleep_counter, 60);
    assert!(a.update_sleep_state(true), "a sleeping slow body stays halted");
    assert_eq!(a.sleep_counter, 61);
}

#[test]
fn sleeping_body_skips_integration_and_wakes() {
    let mut a = Activity::new_dynamic();
    for _ in 0..SLEEP_FRAMES {
        a.update_sleep_state(true);
    }
    assert!(a.is_sleeping);
    a.begin_step();
    assert!(!a.integrate(), "sleeping body should skip integration");
    assert!(!a.integrated_last_step);

    a.wake_up();
    assert!(!a.is_sleeping);
    assert_eq!(a.sleep_counter, 0);
    a.begin_step();
    assert!(a.integrate(), "woken body should resume integration");
    assert!(a.integrated_last_step);
}

#[test]
fn moving_body_resets_its_slow_count() {
    let mut a = Activity::new_dynamic();
    for _ in 0..10 {
        a.update_sleep_state(true);
    }
    assert_eq!(a.sleep_counter, 10);
    assert!(!a.update_sleep_state(false));
    assert_eq!(a.sleep_counter, 0);
    assert!(!a.is_sleeping);
}

#[test]
fn static_body_is_never_integrated_nor_woken() {
    let mut a = Activity::new_static();
    assert!(a.is_static);
    assert!(!a.integrate());
    assert!(!a.update_sleep_state(true));
    assert_eq!(a.sleep_counter, 0);
    a.wake_up();
    assert!(a.is_static && !a.is_sleeping && a.sleep_counter == 0);
    a.is_sleeping = true;
    a.wake_up();
    assert!(a.is_sleeping, "wake_up leaves a static body as it is");
}

#[test]
fn leaf_pair_reports_each_pair_once() {
    assert_eq!(leaf_pair(1, 4, false, true), Some((1, 4)));
    assert_eq!(leaf_pair(4, 1, false, true), None);
    assert_eq!(leaf_pair(2, 2, false, false), None);
    assert_eq!(leaf_pair(0, 3, true, true), None);
}

#[test]
fn planes_pair_with_every_dynamic_body() {
    // bodies: 0 static plane, 1 dynamic, 2 static box, 3 dynamic
    let is_plane = vec![true, false, false, false];
    let is_static = vec![true, false, true, false];
    assert_eq!(plane_pairs(&is_plane, &is_static), vec![(0, 1), (0, 3)]);

    // a dynamic plane also pairs with static bodies
    let is_plane = vec![false, false, true];
    let is_static = vec![true, false, false];
    assert_eq!(plane_pairs(&is_plane, &is_static), vec![(0, 2), (1, 2)]);
}

#[test]
fn two_planes_pair_only_once() {
    let is_plane = vec![true, true];
    let is_static = vec![false, false];
    assert_eq!(plane_pairs(&is_plane, &is_static), vec![(0, 1)]);
    assert_eq!(assemble_pairs(&Vec::new(), &is_plane, &is_static), vec![(0, 1)]);

    // a dynamic plane, a static plane and a dynamic box
    let is_plane = vec![true, true, false];
    let is_static = vec![false, true, false];
    assert_eq!(plane_pairs(&is_plane, &is_static), vec![(0, 1), (0, 2), (1, 2)]);
}

#[test]
fn sort_pairs_orders_lexicographically_and_keeps_duplicates() {
    let pairs = vec![(3, 4), (0, 9), (1, 2), (0, 1), (3, 4), (2, 0)];
    assert_eq!(sort_pairs(&pairs), vec![(0, 1), (0, 9), (1, 2), (2, 0), (3, 4), (3, 4)]);
    assert_eq!(sort_pairs(&Vec::new()), Vec::<(usize, usize)>::new());
    assert_eq!(sort_pairs(&vec![(5, 6)]), vec![(5, 6)]);
}

#[test]
fn assembled_pairs_merge_tree_and_plane_pairs_in_order() {
    let tree = vec![(2, 3), (1, 3)];
    let is_plane = vec![true, false, false, false];
    let is_static = vec![true, false, false, true];
    assert_eq!(
        assemble_pairs(&tree, &is_plane, &is_static),
        vec![(0, 1), (0, 2), (1, 3), (2, 3)]
    );
}

#[test]
fn assembled_pairs_equal_brute_force_list() {
    // bodies 0..6: 0 static plane, 1..5 boxes (3 static); overlap given by a table
    let is_plane = vec![true, false, false, false, false, false];
    let is_static = vec![true, false, false, true, false, false];
    let overlaps = [(1, 2), (2, 3), (1, 4), (3, 4), (4, 5)];
    let overlap = |i: usize, j: usize| overlaps.contains(&(i, j));

    let mut brute = Vec::new();
    for i in 0..6 {
        for j in (i + 1)..6 {
            if is_static[i] && is_static[j] {
                continue;
            }
            if is_plane[i] || is_plane[j] || overlap(i, j) {
                brute.push((i, j));
            }
        }
    }

    // the tree reports each overlapping non-plane pair once, in any order
    let tree: Vec<(usize, usize)> = vec![(4, 5), (3, 4), (1, 2), (2, 3), (1, 4)];
    assert_eq!(assemble_pairs(&tree, &is_plane, &is_static), brute);
}
