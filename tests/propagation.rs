use transform_propagation::{
    Hierarchy, HierarchyError, Phase, Stage, Transform, TransformPlugin, TransformSystem,
};

fn scale(x: i64, y: i64, z: i64) -> Transform {
    Transform { xx: x, xy: 0, xz: 0, yx: 0, yy: y, yz: 0, zx: 0, zy: 0, zz: z, x: 0, y: 0, z: 0 }
}

/// Quarter turn about the z axis: (x, y, z) goes to (-y, x, z).
fn quarter_turn() -> Transform {
    Transform { xx: 0, xy: -1, xz: 0, yx: 1, yy: 0, yz: 0, zx: 0, zy: 0, zz: 1, x: 0, y: 0, z: 0 }
}

fn chain() -> (Hierarchy, usize, usize, usize) {
    let mut h = Hierarchy::new();
    let r = h.add_node(Transform::identity());
    let a = h.add_node(Transform::from_translation(1, 0, 0));
    let b = h.add_node(Transform::from_translation(1, 0, 0));
    h.set_parent(a, r).unwrap();
    h.set_parent(b, a).unwrap();
    (h, r, a, b)
}

#[test]
fn scenario_chain_then_reparent() {
    let (mut h, r, a, b) = chain();
    let cycles = h.run_pass();
    assert!(cycles.is_empty());
    assert_eq!(h.global(r), Transform::identity());
    assert_eq!(h.global(a), Transform::from_translation(1, 0, 0));
    assert_eq!(h.global(b), Transform::from_translation(2, 0, 0));

    h.set_parent(b, r).unwrap();
    h.run_pass();
    assert_eq!(h.global(b), Transform::from_translation(1, 0, 0));
    assert_eq!(h.global(a), Transform::from_translation(1, 0, 0));
    assert_eq!(h.parent(b), Some(r));
}

#[test]
fn every_node_composes_its_parent() {
    let mut h = Hierarchy::new();
    let r = h.add_node(Transform::from_translation(5, 0, 0));
    let a = h.add_node(quarter_turn());
    let b = h.add_node(Transform::from_translation(1, 2, 3));
    let c = h.add_node(scale(2, 3, 4));
    h.set_parent(a, r).unwrap();
    h.set_parent(b, a).unwrap();
    h.set_parent(c, r).unwrap();
    h.run_pass();
    for n in 0..h.len() {
        match h.parent(n) {
            None => assert_eq!(h.global(n), h.local(n)),
            Some(p) => assert_eq!(h.global(n), h.global(p).compose(&h.local(n))),
        }
        assert!(!h.is_tree_dirty(n));
    }
    // (1, 2, 3) turned a quarter about z is (-2, 1, 3), then moved by 5 on x.
    assert_eq!(h.global(b).x, 3);
    assert_eq!(h.global(b).y, 1);
    assert_eq!(h.global(b).z, 3);
}

#[test]
fn compose_exact_values() {
    let t = Transform::from_translation(1, 2, 3).compose(&scale(2, 2, 2));
    assert_eq!(t, Transform { xx: 2, xy: 0, xz: 0, yx: 0, yy: 2, yz: 0, zx: 0, zy: 0, zz: 2, x: 1, y: 2, z: 3 });
    let u = scale(2, 2, 2).compose(&Transform::from_translation(1, 2, 3));
    assert_eq!(u, Transform { xx: 2, xy: 0, xz: 0, yx: 0, yy: 2, yz: 0, zx: 0, zy: 0, zz: 2, x: 2, y: 4, z: 6 });
    assert_ne!(t, u);
    let v = quarter_turn().compose(&Transform::from_translation(1, 0, 0));
    assert_eq!((v.x, v.y, v.z), (0, 1, 0));
    let w = Transform::identity().compose(&quarter_turn());
    assert_eq!(w, quarter_turn());
}

#[test]
fn compose_wraps_on_overflow() {
    let big = Transform::from_translation(i64::MAX, 0, 0);
    let t = big.compose(&Transform::from_translation(1, 0, 0));
    assert_eq!(t.x, i64::MIN);
}

#[test]
fn second_pass_without_changes_is_a_no_op() {
    let (mut h, _r, _a, _b) = chain();
    h.run_pass();
    let before: Vec<Transform> = (0..h.len()).map(|n| h.global(n)).collect();
    let flags: Vec<bool> = (0..h.len()).map(|n| h.is_tree_dirty(n)).collect();
    h.run_pass();
    let after: Vec<Transform> = (0..h.len()).map(|n| h.global(n)).collect();
    assert_eq!(before, after);
    assert_eq!(flags, (0..h.len()).map(|n| h.is_tree_dirty(n)).collect::<Vec<bool>>());
    assert!(h.local_changed.iter().all(|c| !c));
}

#[test]
fn changing_one_node_marks_exactly_its_subtree() {
    let mut h = Hierarchy::new();
    let r = h.add_node(Transform::identity());
    let a = h.add_node(Transform::from_translation(1, 0, 0));
    let s = h.add_node(Transform::from_translation(0, 1, 0));
    let b = h.add_node(Transform::from_translation(0, 0, 1));
    let cousin = h.add_node(Transform::from_translation(7, 0, 0));
    h.set_parent(a, r).unwrap();
    h.set_parent(s, r).unwrap();
    h.set_parent(b, a).unwrap();
    h.set_parent(cousin, s).unwrap();
    h.run_pass();
    let old_r = h.global(r);
    let old_s = h.global(s);
    let old_cousin = h.global(cousin);

    h.set_local(a, Transform::from_translation(10, 0, 0));
    h.mark_dirty_trees();
    assert!(h.is_tree_dirty(a));
    assert!(h.is_tree_dirty(b));
    assert!(!h.is_tree_dirty(r));
    assert!(!h.is_tree_dirty(s));
    assert!(!h.is_tree_dirty(cousin));
    let cycles = h.propagate_parent_transforms();
    assert!(cycles.is_empty());
    h.sync_simple_transforms();

    assert_eq!(h.global(a), Transform::from_translation(10, 0, 0));
    assert_eq!(h.global(b), Transform::from_translation(10, 0, 1));
    assert_eq!(h.global(r), old_r);
    assert_eq!(h.global(s), old_s);
    assert_eq!(h.global(cousin), old_cousin);
}

#[test]
fn unattached_node_takes_its_local_transform() {
    let (mut h, r, a, _b) = chain();
    let lone = h.add_node(Transform::from_translation(4, 5, 6));
    h.run_pass();
    assert_eq!(h.global(lone), Transform::from_translation(4, 5, 6));
    h.set_local(a, Transform::from_translation(9, 9, 9));
    h.set_local(lone, scale(3, 3, 3));
    h.set_parent(a, r).unwrap();
    h.run_pass();
    assert_eq!(h.global(lone), scale(3, 3, 3));
    assert!(!h.local_changed[lone]);
}

#[test]
fn leaf_sync_leaves_hierarchy_members_alone() {
    let (mut h, r, a, _b) = chain();
    h.set_local(a, Transform::from_translation(3, 0, 0));
    h.sync_simple_transforms();
    assert!(h.local_changed[a]);
    assert!(h.local_changed[r]);
    assert_eq!(h.global(a), Transform::identity());
}

#[test]
fn reparenting_moves_subtree_under_new_parent() {
    let mut h = Hierarchy::new();
    let p = h.add_node(Transform::from_translation(1, 0, 0));
    let q = h.add_node(Transform::from_translation(0, 10, 0));
    let a = h.add_node(Transform::from_translation(0, 0, 100));
    let child = h.add_node(Transform::from_translation(1, 1, 1));
    let sibling = h.add_node(Transform::from_translation(2, 0, 0));
    h.set_parent(a, p).unwrap();
    h.set_parent(child, a).unwrap();
    h.set_parent(sibling, p).unwrap();
    h.run_pass();
    assert_eq!(h.global(a), Transform::from_translation(1, 0, 100));
    let old_sibling = h.global(sibling);

    h.set_parent(a, q).unwrap();
    assert_eq!(h.children[p], vec![sibling]);
    assert_eq!(h.children[q], vec![a]);
    h.run_pass();
    assert_eq!(h.global(a), Transform::from_translation(0, 10, 100));
    assert_eq!(h.global(child), Transform::from_translation(1, 11, 101));
    assert_eq!(h.global(sibling), old_sibling);
    assert_eq!(h.global(p), Transform::from_translation(1, 0, 0));
    assert_eq!(h.global(q), Transform::from_translation(0, 10, 0));
}

#[test]
fn set_parent_refuses_cycles() {
    let (mut h, r, a, b) = chain();
    assert_eq!(h.set_parent(r, b), Err(HierarchyError::CycleError));
    assert_eq!(h.set_parent(a, a), Err(HierarchyError::CycleError));
    assert_eq!(h.set_parent(a, b), Err(HierarchyError::CycleError));
    assert_eq!(h.parent(r), None);
    assert_eq!(h.parent(a), Some(r));
}

#[test]
fn set_parent_refuses_unknown_nodes() {
    let (mut h, r, _a, _b) = chain();
    assert_eq!(h.set_parent(r, 17), Err(HierarchyError::UnknownNode));
    assert_eq!(h.set_parent(17, r), Err(HierarchyError::UnknownNode));
}

#[test]
fn corrupted_cycle_is_reported_and_taken_as_roots() {
    let mut h = Hierarchy::new();
    let a = h.add_node(Transform::from_translation(1, 0, 0));
    let b = h.add_node(Transform::from_translation(0, 2, 0));
    let c = h.add_node(Transform::from_translation(0, 0, 3));
    h.set_parent(c, a).unwrap();
    // Close a loop behind the index's back: a and b name each other.
    h.parents[a] = Some(b);
    h.parents[b] = Some(a);
    h.children[a].push(b);
    h.children[b].push(a);
    h.local_changed[a] = true;
    h.local_changed[b] = true;
    let mut cycles = h.run_pass();
    cycles.sort();
    assert_eq!(cycles, vec![a, b]);
    assert_eq!(h.global(a), Transform::from_translation(1, 0, 0));
    assert_eq!(h.global(b), Transform::from_translation(0, 2, 0));
    assert_eq!(h.global(c), Transform::from_translation(1, 0, 3));
    for n in 0..h.len() {
        assert!(!h.is_tree_dirty(n));
    }
}

#[test]
fn new_node_is_flagged_and_unattached() {
    let mut h = Hierarchy::new();
    assert_eq!(h.len(), 0);
    let n = h.add_node(Transform::from_translation(1, 2, 3));
    assert_eq!(n, 0);
    assert!(h.local_changed[n]);
    assert_eq!(h.parent(n), None);
    assert!(h.children[n].is_empty());
    h.run_pass();
    assert_eq!(h.global(n), Transform::from_translation(1, 2, 3));
}

#[test]
fn plugin_schedules_a_chained_pass_twice() {
    let plugin = TransformPlugin::default();
    let regs = plugin.build();
    assert_eq!(regs.len(), 2);
    assert_eq!(regs[0].stage, Stage::PostStartup);
    assert_eq!(regs[1].stage, Stage::PostUpdate);
    for reg in &regs {
        assert_eq!(reg.set, TransformSystem::TransformPropagate);
        assert_eq!(
            reg.phases,
            vec![Phase::MarkDirtyTrees, Phase::PropagateParentTransforms, Phase::SyncSimpleTransforms]
        );
    }
}

#[test]
fn roots_lists_parentless_nodes_in_order() {
    let (mut h, r, _a, _b) = chain();
    let lone = h.add_node(Transform::identity());
    assert_eq!(h.roots(), vec![r, lone]);
}

#[test]
fn remove_parent_makes_a_root_and_keeps_its_subtree() {
    let (mut h, r, a, b) = chain();
    h.run_pass();
    assert_eq!(h.remove_parent(a), Ok(()));
    assert_eq!(h.parent(a), None);
    assert!(h.children[r].is_empty());
    assert_eq!(h.parent(b), Some(a));
    assert_eq!(h.remove_parent(99), Err(HierarchyError::UnknownNode));
    h.run_pass();
    assert_eq!(h.global(a), Transform::from_translation(1, 0, 0));
    assert_eq!(h.global(b), Transform::from_translation(2, 0, 0));
}

#[test]
fn remove_without_cascade_orphans_children() {
    let mut h = Hierarchy::new();
    let r = h.add_node(Transform::from_translation(100, 0, 0));
    let a = h.add_node(Transform::from_translation(1, 0, 0));
    let b = h.add_node(Transform::from_translation(0, 1, 0));
    let c = h.add_node(Transform::from_translation(0, 0, 1));
    h.set_parent(a, r).unwrap();
    h.set_parent(b, a).unwrap();
    h.set_parent(c, a).unwrap();
    h.run_pass();
    assert_eq!(h.remove(a, false), Ok(()));
    assert_eq!(h.parent(a), None);
    assert_eq!(h.parent(b), None);
    assert_eq!(h.parent(c), None);
    assert!(h.children[a].is_empty());
    assert!(h.children[r].is_empty());
    h.run_pass();
    assert_eq!(h.global(b), Transform::from_translation(0, 1, 0));
    assert_eq!(h.global(c), Transform::from_translation(0, 0, 1));
    assert_eq!(h.roots(), vec![r, a, b, c]);
}

#[test]
fn remove_with_cascade_takes_the_branch() {
    let (mut h, r, a, b) = chain();
    h.run_pass();
    assert_eq!(h.remove(a, true), Ok(()));
    assert_eq!(h.parent(a), None);
    assert_eq!(h.parent(b), Some(a));
    assert_eq!(h.children[a], vec![b]);
    assert!(h.children[r].is_empty());
    assert_eq!(h.remove(42, true), Err(HierarchyError::UnknownNode));
    h.run_pass();
    assert_eq!(h.global(a), Transform::from_translation(1, 0, 0));
    assert_eq!(h.global(b), Transform::from_translation(2, 0, 0));
}

#[test]
fn validate_accepts_index_edits_and_refuses_broken_back_references() {
    let (mut h, r, a, b) = chain();
    assert_eq!(h.validate(), Ok(()));
    h.set_parent(b, r).unwrap();
    h.remove(a, false).unwrap();
    assert_eq!(h.validate(), Ok(()));

    let (mut broken, _r, a2, _b2) = chain();
    broken.parents[a2] = None;
    assert_eq!(broken.validate(), Err(HierarchyError::CorruptHierarchyError));

    let (mut dup, r3, a3, _b3) = chain();
    dup.children[r3].push(a3);
    assert_eq!(dup.validate(), Err(HierarchyError::CorruptHierarchyError));

    let (mut out, r4, _a4, _b4) = chain();
    out.children[r4].push(99);
    assert_eq!(out.validate(), Err(HierarchyError::CorruptHierarchyError));

    let (mut short, _r5, _a5, _b5) = chain();
    short.globals.pop();
    assert_eq!(short.validate(), Err(HierarchyError::CorruptHierarchyError));
}

#[test]
fn unflagged_cycle_is_found_flagged_and_reported() {
    let mut h = Hierarchy::new();
    let a = h.add_node(Transform::from_translation(1, 0, 0));
    let b = h.add_node(Transform::from_translation(0, 2, 0));
    let c = h.add_node(Transform::from_translation(0, 0, 3));
    h.set_parent(c, a).unwrap();
    h.run_pass();
    h.parents[a] = Some(b);
    h.parents[b] = Some(a);
    h.children[a].push(b);
    h.children[b].push(a);
    // No flag is set: a plain pass sees nothing to do.
    assert!(h.run_pass().is_empty());
    let found = h.flag_cycles();
    assert_eq!(found, vec![a, b]);
    assert!(h.local_changed[a] && h.local_changed[b] && !h.local_changed[c]);
    let mut cycles = h.run_pass();
    cycles.sort();
    assert_eq!(cycles, vec![a, b]);
    assert_eq!(h.global(a), Transform::from_translation(1, 0, 0));
    assert_eq!(h.global(b), Transform::from_translation(0, 2, 0));
    assert_eq!(h.global(c), Transform::from_translation(1, 0, 3));
}

#[test]
fn repair_rebuilds_children_and_drops_bad_parents() {
    let (mut h, r, a, b) = chain();
    h.run_pass();
    h.children[r].clear();
    h.parents[b] = Some(77);
    h.tree_dirty.pop();
    assert_eq!(h.validate(), Err(HierarchyError::CorruptHierarchyError));
    h.repair();
    assert_eq!(h.validate(), Ok(()));
    assert_eq!(h.parent(a), Some(r));
    assert_eq!(h.children[r], vec![a]);
    assert_eq!(h.parent(b), None);
    assert!(h.children[a].is_empty());
    assert!((0..h.len()).all(|n| h.local_changed[n]));
    h.run_pass();
    assert_eq!(h.global(a), Transform::from_translation(1, 0, 0));
    assert_eq!(h.global(b), Transform::from_translation(1, 0, 0));
}

#[test]
fn every_pass_leaves_no_flags() {
    let (mut h, _r, a, _b) = chain();
    let lone = h.add_node(Transform::identity());
    h.set_local(a, Transform::from_translation(5, 0, 0));
    h.run_pass();
    for n in 0..h.len() {
        assert!(!h.is_tree_dirty(n));
        assert!(!h.local_changed[n]);
    }
    assert!(h.tables_sized());
    assert_eq!(h.global(lone), Transform::identity());
}
