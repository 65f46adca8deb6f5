use oakum::branch::{Branch, IVec3};

#[test]
fn child_index() {
    assert_eq!(Branch::new(IVec3::new(-1, -1, -1), 1).child(0), 0);
    assert_eq!(Branch::new(IVec3::new(0, -1, -1), 1).child(0), 1);
    assert_eq!(Branch::new(IVec3::new(-1, 0, -1), 1).child(0), 2);
    assert_eq!(Branch::new(IVec3::new(0, 0, -1), 1).child(0), 3);
    assert_eq!(Branch::new(IVec3::new(-1, -1, 0), 1).child(0), 4);
    assert_eq!(Branch::new(IVec3::new(0, -1, 0), 1).child(0), 5);
    assert_eq!(Branch::new(IVec3::new(-1, 0, 0), 1).child(0), 6);
    assert_eq!(Branch::new(IVec3::new(0, 0, 0), 1).child(0), 7);
}

#[test]
fn root_children_in_order() {
    let expected = [
        (-1, -1, -1),
        (0, -1, -1),
        (-1, 0, -1),
        (0, 0, -1),
        (-1, -1, 0),
        (0, -1, 0),
        (-1, 0, 0),
        (0, 0, 0),
    ];
    for child in 0..8u32 {
        let branch = Branch::root().with_child(child);
        let (x, y, z) = expected[child as usize];
        assert_eq!(branch, Branch::new(IVec3::new(x, y, z), 1));
        assert_eq!(branch.child(0), child);
    }
}

#[test]
fn with_child_below_the_root_doubles_and_adds() {
    let branch = Branch::new(IVec3::new(-3, 2, 0), 3);
    assert_eq!(branch.with_child(0), Branch::new(IVec3::new(-6, 4, 0), 4));
    assert_eq!(branch.with_child(5), Branch::new(IVec3::new(-5, 4, 1), 4));
    assert_eq!(branch.with_child(7), Branch::new(IVec3::new(-5, 5, 1), 4));
}

#[test]
fn child_reads_back_what_with_child_chose() {
    let mut branch = Branch::root();
    let picks = [3u32, 0, 7, 5, 2, 6];
    for pick in picks {
        branch = branch.with_child(pick);
    }
    assert_eq!(branch.depth, 6);
    for (depth, pick) in picks.iter().enumerate() {
        assert_eq!(branch.child(depth as u32), *pick);
    }
}

#[test]
fn child_at_the_deepest_level() {
    let low = Branch::new(IVec3::new(i32::MIN, i32::MIN, i32::MIN), 32);
    let high = Branch::new(IVec3::new(i32::MAX, i32::MAX, i32::MAX), 32);
    for depth in 0..32 {
        assert_eq!(low.child(depth), 0);
        assert_eq!(high.child(depth), 7);
    }
    let mixed = Branch::new(IVec3::new(0, -1, i32::MIN + 1), 32);
    assert_eq!(mixed.child(0), 1);
    assert_eq!(mixed.child(1), 2);
    assert_eq!(mixed.child(31), 2 + 4);
}

#[test]
fn positive_halves() {
    let branch = Branch::new(IVec3::new(1, -2, 0), 2);
    assert!(branch.is_x_positive(0));
    assert!(!branch.is_y_positive(0));
    assert!(branch.is_z_positive(0));
    assert!(branch.is_x_positive(1));
    assert!(!branch.is_y_positive(1));
    assert!(!branch.is_z_positive(1));
}
