use manim_rs::path::{
    fill_path_commands, outline_point_offsets, plan_path_segments, polyline_fill_drawable,
    polyline_to_segments, BuildCommand, OutlineVerb, PathStep, PlannedSegment,
};

/// Point table with the origin at id 0, and helper to intern a point.
struct Table {
    points: Vec<[f32; 2]>,
}

impl Table {
    fn new() -> Self {
        Table { points: vec![[0.0, 0.0]] }
    }
    fn id(&mut self, p: [f32; 2]) -> usize {
        if let Some(i) = self.points.iter().position(|q| *q == p) {
            i
        } else {
            self.points.push(p);
            self.points.len() - 1
        }
    }
    fn comparable(&self) -> Vec<bool> {
        self.points.iter().map(|p| p[0] == p[0] && p[1] == p[1]).collect()
    }
}

fn start(s: &PlannedSegment) -> usize {
    match *s {
        PlannedSegment::Line { from, .. } => from,
        PlannedSegment::Quad { from, .. } => from,
        PlannedSegment::Cubic { from, .. } => from,
    }
}

fn end(s: &PlannedSegment) -> usize {
    match *s {
        PlannedSegment::Line { to, .. } => to,
        PlannedSegment::Quad { to, .. } => to,
        PlannedSegment::Cubic { to, .. } => to,
    }
}

#[test]
fn closed_polyline_appends_closing_segment() {
    let points: Vec<[f32; 3]> = vec![[0.0, 0.0, 0.0], [1.0, 0.0, 0.0], [1.0, 1.0, 0.0]];
    let last = points[points.len() - 1];
    let coincide = last[0] == points[0][0] && last[1] == points[0][1];
    let segs = polyline_to_segments(points.len(), true, coincide);
    assert_eq!(segs.len(), 3);
    assert_eq!(&points[segs[2].0][..2], &[1.0, 1.0]);
    assert_eq!(&points[segs[2].1][..2], &[0.0, 0.0]);
}

#[test]
fn open_polyline_omits_closing_segment() {
    let points: Vec<[f32; 3]> = vec![[0.0, 0.0, 0.0], [1.0, 0.0, 0.0], [1.0, 1.0, 0.0]];
    let segs = polyline_to_segments(points.len(), false, false);
    assert_eq!(segs.len(), 2);
}

#[test]
fn polyline_edges_chain_consecutive_points() {
    assert_eq!(polyline_to_segments(4, false, false), vec![(0, 1), (1, 2), (2, 3)]);
    assert_eq!(polyline_to_segments(4, true, true), vec![(0, 1), (1, 2), (2, 3)]);
    assert!(polyline_to_segments(1, true, false).is_empty());
    assert!(polyline_to_segments(0, false, false).is_empty());
}

#[test]
fn open_polyline_fill_is_noop() {
    assert!(!polyline_fill_drawable(4, false));
}

#[test]
fn polyline_fill_needs_closure_and_three_points() {
    assert!(polyline_fill_drawable(3, true));
    assert!(!polyline_fill_drawable(2, true));
    assert!(!polyline_fill_drawable(5, false));
}

#[test]
fn empty_verbs_yield_no_segments() {
    let t = Table::new();
    assert!(plan_path_segments(&vec![], 0, &t.comparable()).is_empty());
}

#[test]
fn quad_to_passes_through_unchanged() {
    let mut t = Table::new();
    let a = t.id([0.0, 0.0]);
    let c = t.id([1.0, 2.0]);
    let b = t.id([2.0, 0.0]);
    let steps = vec![PathStep::MoveTo { to: a }, PathStep::QuadTo { ctrl: c, to: b }];
    let segs = plan_path_segments(&steps, 0, &t.comparable());
    assert_eq!(segs, vec![PlannedSegment::Quad { from: a, ctrl: c, to: b }]);
}

#[test]
fn move_to_alone_emits_nothing() {
    let mut t = Table::new();
    let steps = vec![PathStep::MoveTo { to: t.id([1.0, 2.0]) }];
    assert!(plan_path_segments(&steps, 0, &t.comparable()).is_empty());
}

#[test]
fn drawing_before_move_to_starts_at_origin() {
    let mut t = Table::new();
    let p = t.id([2.0, 0.0]);
    let segs = plan_path_segments(&vec![PathStep::LineTo { to: p }], 0, &t.comparable());
    assert_eq!(segs, vec![PlannedSegment::Line { from: 0, to: p }]);
}

#[test]
fn close_connects_back_to_subpath_start() {
    let mut t = Table::new();
    let a = t.id([0.0, 0.0]);
    let b = t.id([1.0, 0.0]);
    let c = t.id([1.0, 1.0]);
    let steps = vec![
        PathStep::MoveTo { to: a },
        PathStep::LineTo { to: b },
        PathStep::LineTo { to: c },
        PathStep::Close,
    ];
    let segs = plan_path_segments(&steps, 0, &t.comparable());
    assert_eq!(segs.len(), 3);
    assert_eq!(segs[2], PlannedSegment::Line { from: c, to: a });
}

#[test]
fn close_is_noop_when_cursor_already_at_subpath_start() {
    let mut t = Table::new();
    let a = t.id([0.0, 0.0]);
    let b = t.id([1.0, 0.0]);
    let steps = vec![
        PathStep::MoveTo { to: a },
        PathStep::LineTo { to: b },
        PathStep::LineTo { to: a },
        PathStep::Close,
    ];
    assert_eq!(plan_path_segments(&steps, 0, &t.comparable()).len(), 2);
}

#[test]
fn close_at_an_incomparable_start_still_plans_a_line() {
    let mut t = Table::new();
    t.points.push([f32::NAN, 0.0]);
    let nan = t.points.len() - 1;
    let steps = vec![PathStep::MoveTo { to: nan }, PathStep::Close];
    let segs = plan_path_segments(&steps, 0, &t.comparable());
    assert_eq!(segs, vec![PlannedSegment::Line { from: nan, to: nan }]);
}

#[test]
fn multiple_subpaths_each_reset_close_target() {
    let mut t = Table::new();
    let a = t.id([0.0, 0.0]);
    let b = t.id([1.0, 0.0]);
    let c = t.id([5.0, 5.0]);
    let d = t.id([6.0, 5.0]);
    let steps = vec![
        PathStep::MoveTo { to: a },
        PathStep::LineTo { to: b },
        PathStep::Close,
        PathStep::MoveTo { to: c },
        PathStep::LineTo { to: d },
        PathStep::Close,
    ];
    let segs = plan_path_segments(&steps, 0, &t.comparable());
    assert_eq!(segs.len(), 4);
    assert_eq!(end(&segs[1]), a);
    assert_eq!(start(&segs[2]), c);
    assert_eq!(end(&segs[3]), c);
}

#[test]
fn mixed_verbs_maintain_endpoint_continuity() {
    let mut t = Table::new();
    let p0 = t.id([0.0, 0.0]);
    let p1 = t.id([1.0, 0.0]);
    let q = t.id([2.0, 1.0]);
    let p3 = t.id([3.0, 0.0]);
    let c1 = t.id([4.0, 1.0]);
    let c2 = t.id([5.0, -1.0]);
    let p6 = t.id([6.0, 0.0]);
    let steps = vec![
        PathStep::MoveTo { to: p0 },
        PathStep::LineTo { to: p1 },
        PathStep::QuadTo { ctrl: q, to: p3 },
        PathStep::CubicTo { ctrl1: c1, ctrl2: c2, to: p6 },
        PathStep::Close,
    ];
    let segs = plan_path_segments(&steps, 0, &t.comparable());
    assert_eq!(segs.len(), 4);
    assert_eq!(start(&segs[0]), p0);
    assert_eq!(end(&segs[3]), p0);
    for w in segs.windows(2) {
        assert_eq!(end(&w[0]), start(&w[1]));
    }
}

#[test]
fn fill_commands_begin_and_end_each_subpath() {
    let steps = vec![
        PathStep::MoveTo { to: 1 },
        PathStep::LineTo { to: 2 },
        PathStep::Close,
        PathStep::MoveTo { to: 3 },
        PathStep::QuadTo { ctrl: 4, to: 5 },
        PathStep::MoveTo { to: 6 },
        PathStep::CubicTo { ctrl1: 7, ctrl2: 8, to: 9 },
    ];
    let cmds = fill_path_commands(&steps);
    assert_eq!(
        cmds,
        vec![
            BuildCommand::Begin { at: 1 },
            BuildCommand::LineTo { to: 2 },
            BuildCommand::End { close: true },
            BuildCommand::Begin { at: 3 },
            BuildCommand::QuadTo { ctrl: 4, to: 5 },
            BuildCommand::End { close: false },
            BuildCommand::Begin { at: 6 },
            BuildCommand::CubicTo { ctrl1: 7, ctrl2: 8, to: 9 },
            BuildCommand::End { close: false },
        ]
    );
}

#[test]
fn close_without_open_subpath_issues_nothing() {
    assert!(fill_path_commands(&vec![PathStep::Close]).is_empty());
    assert!(fill_path_commands(&vec![]).is_empty());
}

#[test]
fn outline_verbs_take_points_in_order() {
    let verbs = vec![
        OutlineVerb::MoveTo,
        OutlineVerb::LineTo,
        OutlineVerb::QuadTo,
        OutlineVerb::CurveTo,
        OutlineVerb::Close,
        OutlineVerb::MoveTo,
    ];
    let (offsets, total) = outline_point_offsets(&verbs);
    assert_eq!(offsets, vec![0, 1, 2, 4, 7, 7]);
    assert_eq!(total, 8);
    assert_eq!(outline_point_offsets(&vec![]), (vec![], 0));
}

#[test]
fn each_drawing_verb_plans_one_segment_and_each_close_at_most_one() {
    let mut t = Table::new();
    let a = t.id([0.0, 0.0]);
    let b = t.id([1.0, 0.0]);
    let c = t.id([2.0, 1.0]);
    let steps = vec![
        PathStep::MoveTo { to: a },
        PathStep::LineTo { to: b },
        PathStep::QuadTo { ctrl: c, to: a },
        PathStep::Close,
        PathStep::MoveTo { to: b },
        PathStep::CubicTo { ctrl1: a, ctrl2: c, to: c },
        PathStep::Close,
    ];
    // Three drawing verbs; the first close is already at its start, the
    // second is not.
    assert_eq!(plan_path_segments(&steps, 0, &t.comparable()).len(), 4);
}

#[test]
fn two_coincident_points_make_one_zero_length_edge() {
    assert_eq!(polyline_to_segments(2, false, true), vec![(0, 1)]);
    assert_eq!(polyline_to_segments(2, true, true), vec![(0, 1)]);
}
