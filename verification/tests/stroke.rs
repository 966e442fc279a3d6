use manim_rs::ir::JointKind;
use manim_rs::stroke::{
    clamp_step_count, joint_choice, resolve_per_vertex_widths, stroke_topology, width_index,
    widths_fit, JointChoice, RibbonSide, StrokeSlot, STROKE_MAX_STEPS,
};

#[test]
fn empty_input_yields_empty_buffers() {
    let t = stroke_topology(&vec![], &vec![]);
    assert!(t.slots.is_empty());
    assert!(t.indices.is_empty());
}

#[test]
fn single_segment_is_a_strip_of_quads() {
    let t = stroke_topology(&vec![3], &vec![]);
    assert_eq!(t.slots.len(), 6);
    assert_eq!(t.indices, vec![0, 1, 2, 1, 3, 2, 2, 3, 4, 3, 5, 4]);
    assert_eq!(
        t.slots[5],
        StrokeSlot::Sample { segment: 0, step: 2, side: RibbonSide::Right }
    );
}

#[test]
fn miter_joint_adds_two_vertices_and_four_triangles() {
    let t = stroke_topology(&vec![2, 2], &vec![JointChoice::Miter]);
    assert_eq!(t.slots.len(), 10);
    assert_eq!(t.slots[8], StrokeSlot::Joint { segment: 1, side: RibbonSide::Left });
    assert_eq!(t.slots[9], StrokeSlot::Joint { segment: 1, side: RibbonSide::Right });
    assert_eq!(
        t.indices,
        vec![0, 1, 2, 1, 3, 2, 4, 5, 6, 5, 7, 6, 2, 3, 8, 3, 9, 8, 8, 9, 4, 9, 5, 4]
    );
}

#[test]
fn bevel_joint_bridges_ribbon_ends_without_new_vertices() {
    let t = stroke_topology(&vec![2, 2], &vec![JointChoice::Bevel]);
    assert_eq!(t.slots.len(), 8);
    assert!(t.slots.iter().all(|s| matches!(s, StrokeSlot::Sample { .. })));
    assert_eq!(&t.indices[12..], &[2, 3, 4, 3, 5, 4]);
}

#[test]
fn disjoint_segments_are_not_bridged() {
    let t = stroke_topology(&vec![2, 2], &vec![JointChoice::Disjoint]);
    assert_eq!(t.indices.len(), 12);
}

#[test]
fn triangle_indices_are_valid() {
    for joint in [JointChoice::Miter, JointChoice::Bevel, JointChoice::Disjoint] {
        let t = stroke_topology(&vec![5, 2, 32], &vec![joint, JointChoice::Miter]);
        assert_eq!(t.indices.len() % 3, 0);
        let n = t.slots.len() as u32;
        for &idx in &t.indices {
            assert!(idx < n, "index {} >= vertex count {}", idx, n);
        }
    }
}

#[test]
fn step_counts_are_clamped() {
    assert_eq!(clamp_step_count(0), 2);
    assert_eq!(clamp_step_count(1), 2);
    assert_eq!(clamp_step_count(7), 7);
    assert_eq!(clamp_step_count(1000), STROKE_MAX_STEPS);
}

#[test]
fn joint_choice_follows_the_joint_kind() {
    assert_eq!(joint_choice(JointKind::Miter, true, false), JointChoice::Miter);
    assert_eq!(joint_choice(JointKind::Bevel, true, true), JointChoice::Bevel);
    assert_eq!(joint_choice(JointKind::Auto, true, true), JointChoice::Miter);
    assert_eq!(joint_choice(JointKind::Auto, true, false), JointChoice::Bevel);
    assert_eq!(joint_choice(JointKind::Miter, false, true), JointChoice::Disjoint);
}

#[test]
fn widths_index_broadcasts_a_single_width() {
    assert_eq!(width_index(1, 5), 0);
    assert_eq!(width_index(4, 3), 3);
    assert!(widths_fit(1, 7));
    assert!(widths_fit(8, 7));
    assert!(!widths_fit(7, 7));
}

#[test]
fn per_vertex_widths_resolve_against_segment_count() {
    let w = vec![0.02f32, 0.08, 0.02];
    assert_eq!(resolve_per_vertex_widths(&w, 2, 0.0), w);
    assert_eq!(resolve_per_vertex_widths(&w, 3, 0.0), vec![0.02, 0.08, 0.02, 0.02]);
    assert_eq!(resolve_per_vertex_widths(&w, 9, 0.0), vec![0.02]);
    assert_eq!(resolve_per_vertex_widths(&Vec::<f32>::new(), 4, 0.0), vec![0.0]);
}
