//! Path walking: how verb streams and polylines become segments.
//!
//! Coordinates never enter this module. Points are named by ids into a
//! point table the caller keeps; two ids name equal points exactly when
//! they are the same id and that point is comparable (a point with a NaN
//! coordinate equals nothing, itself included).
use vstd::prelude::*;

verus! {

/// One verb of a path, with its points given as ids.
#[derive(Clone, Copy, Debug, PartialEq, Eq, Structural)]
pub enum PathStep {
    MoveTo { to: usize },
    LineTo { to: usize },
    QuadTo { ctrl: usize, to: usize },
    CubicTo { ctrl1: usize, ctrl2: usize, to: usize },
    Close,
}

/// A segment to emit, with its points given as ids. A line becomes a
/// quadratic with its control at the midpoint; a cubic is split into
/// quadratics by the caller.
#[derive(Clone, Copy, Debug, PartialEq, Eq, Structural)]
pub enum PlannedSegment {
    Line { from: usize, to: usize },
    Quad { from: usize, ctrl: usize, to: usize },
    Cubic { from: usize, ctrl1: usize, ctrl2: usize, to: usize },
}

impl PlannedSegment {
    pub open spec fn start(self) -> usize {
        match self {
            PlannedSegment::Line { from, .. } => from,
            PlannedSegment::Quad { from, .. } => from,
            PlannedSegment::Cubic { from, .. } => from,
        }
    }

    pub open spec fn end(self) -> usize {
        match self {
            PlannedSegment::Line { to, .. } => to,
            PlannedSegment::Quad { to, .. } => to,
            PlannedSegment::Cubic { to, .. } => to,
        }
    }
}

/// Whether ids `a` and `b` name equal points.
pub open spec fn same_point(comparable: Seq<bool>, a: usize, b: usize) -> bool {
    a == b && comparable[a as int]
}

/// Every point id used by the steps, and the origin, is in the table.
pub open spec fn ids_in_table(steps: Seq<PathStep>, origin: usize, table_len: nat) -> bool {
    &&& origin < table_len
    &&& forall|i: int|
        0 <= i < steps.len() ==> match #[trigger] steps[i] {
            PathStep::MoveTo { to } => to < table_len,
            PathStep::LineTo { to } => to < table_len,
            PathStep::QuadTo { ctrl, to } => ctrl < table_len && to < table_len,
            PathStep::CubicTo { ctrl1, ctrl2, to } => ctrl1 < table_len && ctrl2 < table_len && to
                < table_len,
            PathStep::Close => true,
        }
}

/// Cursor and sub-path start after the first `n` steps. Both start at the
/// origin, so drawing before any `MoveTo` begins at the origin.
pub open spec fn path_cursor(steps: Seq<PathStep>, origin: usize, n: nat) -> (usize, usize)
    decreases n,
{
    if n == 0 {
        (origin, origin)
    } else {
        let (cursor, start) = path_cursor(steps, origin, (n - 1) as nat);
        match steps[n - 1] {
            PathStep::MoveTo { to } => (to, to),
            PathStep::LineTo { to } => (to, start),
            PathStep::QuadTo { to, .. } => (to, start),
            PathStep::CubicTo { to, .. } => (to, start),
            PathStep::Close => (start, start),
        }
    }
}

/// Segments emitted by step `n - 1`.
pub open spec fn step_segments(steps: Seq<PathStep>, origin: usize, comparable: Seq<bool>, n: nat) -> Seq<
    PlannedSegment,
> {
    let (cursor, start) = path_cursor(steps, origin, (n - 1) as nat);
    match steps[n - 1] {
        PathStep::MoveTo { .. } => Seq::empty(),
        PathStep::LineTo { to } => seq![PlannedSegment::Line { from: cursor, to }],
        PathStep::QuadTo { ctrl, to } => seq![PlannedSegment::Quad { from: cursor, ctrl, to }],
        PathStep::CubicTo { ctrl1, ctrl2, to } => seq![
            PlannedSegment::Cubic { from: cursor, ctrl1, ctrl2, to },
        ],
        PathStep::Close => if same_point(comparable, cursor, start) {
            Seq::empty()
        } else {
            seq![PlannedSegment::Line { from: cursor, to: start }]
        },
    }
}

/// Segments emitted by the first `n` steps.
pub open spec fn planned_segments(steps: Seq<PathStep>, origin: usize, comparable: Seq<bool>, n: nat) -> Seq<
    PlannedSegment,
>
    decreases n,
{
    if n == 0 {
        Seq::empty()
    } else {
        planned_segments(steps, origin, comparable, (n - 1) as nat) + step_segments(
            steps,
            origin,
            comparable,
            n,
        )
    }
}

/// Walk a verb stream and list the segments it draws. `MoveTo` moves the
/// cursor and starts a sub-path; drawing verbs emit one segment from the
/// cursor; `Close` emits a line back to the sub-path start unless the cursor
/// is already there.
pub fn plan_path_segments(steps: &Vec<PathStep>, origin: usize, comparable: &Vec<bool>) -> (out: Vec<
    PlannedSegment,
>)
    requires
        ids_in_table(steps@, origin, comparable@.len()),
    ensures
        out@ == planned_segments(steps@, origin, comparable@, steps@.len()),
{
    let mut out: Vec<PlannedSegment> = Vec::new();
    let mut cursor = origin;
    let mut start = origin;
    let n = steps.len();
    let mut i: usize = 0;
    while i < n
        invariant
            n == steps@.len(),
            i <= n,
            ids_in_table(steps@, origin, comparable@.len()),
            (cursor, start) == path_cursor(steps@, origin, i as nat),
            cursor < comparable@.len(),
            start < comparable@.len(),
            out@ == planned_segments(steps@, origin, comparable@, i as nat),
        decreases n - i,
    {
        let ghost before = out@;
        match steps[i] {
            PathStep::MoveTo { to } => {
                cursor = to;
                start = to;
            },
            PathStep::LineTo { to } => {
                out.push(PlannedSegment::Line { from: cursor, to });
                cursor = to;
            },
            PathStep::QuadTo { ctrl, to } => {
                out.push(PlannedSegment::Quad { from: cursor, ctrl, to });
                cursor = to;
            },
            PathStep::CubicTo { ctrl1, ctrl2, to } => {
                out.push(PlannedSegment::Cubic { from: cursor, ctrl1, ctrl2, to });
                cursor = to;
            },
            PathStep::Close => {
                if !(cursor == start && comparable[cursor]) {
                    out.push(PlannedSegment::Line { from: cursor, to: start });
                }
                cursor = start;
            },
        }
        proof {
            assert(out@ =~= before + step_segments(steps@, origin, comparable@, (i + 1) as nat));
        }
        i = i + 1;
    }
    out
}

/// No `MoveTo` after the first step.
pub open spec fn single_subpath(steps: Seq<PathStep>) -> bool {
    forall|i: int| 1 <= i < steps.len() ==> !((#[trigger] steps[i]) is MoveTo)
}

proof fn lemma_chain(steps: Seq<PathStep>, origin: usize, comparable: Seq<bool>, n: nat)
    requires
        n <= steps.len(),
        single_subpath(steps),
    ensures
        planned_segments(steps, origin, comparable, n).len() > 0 ==> planned_segments(
            steps,
            origin,
            comparable,
            n,
        ).last().end() == path_cursor(steps, origin, n).0,
        forall|k: int|
            0 <= k < planned_segments(steps, origin, comparable, n).len() - 1 ==> (#[trigger] planned_segments(
                steps,
                origin,
                comparable,
                n,
            )[k]).end() == planned_segments(steps, origin, comparable, n)[k + 1].start(),
    decreases n,
{
    if n > 0 {
        let m = (n - 1) as nat;
        lemma_chain(steps, origin, comparable, m);
        let prev = planned_segments(steps, origin, comparable, m);
        let add = step_segments(steps, origin, comparable, n);
        let all = planned_segments(steps, origin, comparable, n);
        assert(all == prev + add);
        let (cursor, start) = path_cursor(steps, origin, m);
        if add.len() > 0 {
            assert(add[0].start() == cursor);
            if prev.len() > 0 {
                assert(m >= 1 || prev.len() == 0);
                assert(prev.last().end() == cursor);
            }
        }
        assert forall|k: int| 0 <= k < all.len() - 1 implies (#[trigger] all[k]).end() == all[k
            + 1].start() by {
            if k + 1 < prev.len() {
                assert(all[k] == prev[k]);
                assert(all[k + 1] == prev[k + 1]);
            } else {
                assert(all[k] == prev[k]);
                assert(all[k + 1] == add[0]);
            }
        }
        if all.len() > 0 {
            if add.len() == 0 {
                match steps[m as int] {
                    PathStep::MoveTo { .. } => {
                        assert(m == 0);
                    },
                    PathStep::Close => {
                        assert(same_point(comparable, cursor, start));
                    },
                    _ => {},
                }
            }
        }
    }
}

/// Within a single sub-path every emitted segment starts where the previous
/// one ended: the drawn outline has no gaps.
pub proof fn lemma_segments_continuous(steps: Seq<PathStep>, origin: usize, comparable: Seq<bool>)
    requires
        single_subpath(steps),
    ensures
        forall|k: int|
            0 <= k < planned_segments(steps, origin, comparable, steps.len()).len() - 1 ==> (#[trigger] planned_segments(
                steps,
                origin,
                comparable,
                steps.len(),
            )[k]).end() == planned_segments(steps, origin, comparable, steps.len())[k + 1].start(),
{
    lemma_chain(steps, origin, comparable, steps.len());
}

proof fn lemma_planned_prefix(steps: Seq<PathStep>, origin: usize, comparable: Seq<bool>, k: nat, m: nat)
    requires
        k <= m <= steps.len(),
    ensures
        planned_segments(steps, origin, comparable, k).len() <= planned_segments(
            steps,
            origin,
            comparable,
            m,
        ).len(),
        forall|x: int|
            0 <= x < planned_segments(steps, origin, comparable, k).len() ==> #[trigger] planned_segments(
                steps,
                origin,
                comparable,
                m,
            )[x] == planned_segments(steps, origin, comparable, k)[x],
    decreases m - k,
{
    if k < m {
        lemma_planned_prefix(steps, origin, comparable, k, (m - 1) as nat);
        let prev = planned_segments(steps, origin, comparable, (m - 1) as nat);
        let add = step_segments(steps, origin, comparable, m);
        assert forall|x: int| 0 <= x < prev.len() implies #[trigger] (prev + add)[x] == prev[x] by {}
    }
}

/// Each step plans what it draws, in place: the segments planned before
/// step `k` are followed by a line, quadratic or cubic from the cursor with
/// exactly the step's points in the step's order; a move plans nothing; a
/// close plans a line back to the sub-path start unless the cursor is
/// already there.
pub proof fn lemma_step_plans_its_segment(
    steps: Seq<PathStep>,
    origin: usize,
    comparable: Seq<bool>,
    k: int,
)
    requires
        0 <= k < steps.len(),
    ensures
        ({
            let before = planned_segments(steps, origin, comparable, k as nat).len() as int;
            let after = planned_segments(steps, origin, comparable, (k + 1) as nat).len() as int;
            let all = planned_segments(steps, origin, comparable, steps.len());
            let (cursor, start) = path_cursor(steps, origin, k as nat);
            match steps[k] {
                PathStep::MoveTo { .. } => after == before,
                PathStep::LineTo { to } => after == before + 1 && all[before] == (PlannedSegment::Line {
                    from: cursor,
                    to,
                }),
                PathStep::QuadTo { ctrl, to } => after == before + 1 && all[before] == (
                PlannedSegment::Quad { from: cursor, ctrl, to }),
                PathStep::CubicTo { ctrl1, ctrl2, to } => after == before + 1 && all[before] == (
                PlannedSegment::Cubic { from: cursor, ctrl1, ctrl2, to }),
                PathStep::Close => if cursor == start && comparable[cursor as int] {
                    after == before
                } else {
                    after == before + 1 && all[before] == (PlannedSegment::Line {
                        from: cursor,
                        to: start,
                    })
                },
            }
        }),
{
    let n1 = (k + 1) as nat;
    lemma_planned_prefix(steps, origin, comparable, n1, steps.len());
    let prev = planned_segments(steps, origin, comparable, k as nat);
    let add = step_segments(steps, origin, comparable, n1);
    let cur = planned_segments(steps, origin, comparable, n1);
    assert(cur == prev + add);
    if add.len() > 0 {
        assert(cur[prev.len() as int] == add[0]);
    }
}

/// Number of drawing steps (line, quadratic, cubic) among the first `n`.
pub open spec fn drawing_steps(steps: Seq<PathStep>, n: nat) -> nat
    decreases n,
{
    if n == 0 {
        0
    } else {
        drawing_steps(steps, (n - 1) as nat) + match steps[n - 1] {
            PathStep::MoveTo { .. } => 0nat,
            PathStep::Close => 0nat,
            _ => 1nat,
        }
    }
}

/// Number of `Close` steps among the first `n`.
pub open spec fn close_steps(steps: Seq<PathStep>, n: nat) -> nat
    decreases n,
{
    if n == 0 {
        0
    } else {
        close_steps(steps, (n - 1) as nat) + match steps[n - 1] {
            PathStep::Close => 1nat,
            _ => 0nat,
        }
    }
}

/// Every drawing step plans exactly one segment, a move plans none and a
/// close plans at most one: the planned count lies between the number of
/// drawing steps and that number plus the number of closes.
pub proof fn lemma_planned_segment_count(
    steps: Seq<PathStep>,
    origin: usize,
    comparable: Seq<bool>,
    n: nat,
)
    requires
        n <= steps.len(),
    ensures
        drawing_steps(steps, n) <= planned_segments(steps, origin, comparable, n).len()
            <= drawing_steps(steps, n) + close_steps(steps, n),
    decreases n,
{
    if n > 0 {
        lemma_planned_segment_count(steps, origin, comparable, (n - 1) as nat);
    }
}

/// Edges of a polyline of `count` points, as pairs of point positions:
/// one edge per consecutive pair, and for a closed polyline a final edge
/// back to the first point unless the last point already equals it.
pub open spec fn polyline_edge_list(count: nat, closed: bool, ends_coincide: bool) -> Seq<(usize, usize)> {
    if count < 2 {
        Seq::empty()
    } else {
        let open_edges = Seq::new((count - 1) as nat, |i: int| (i as usize, (i + 1) as usize));
        if closed && !ends_coincide {
            open_edges.push(((count - 1) as usize, 0usize))
        } else {
            open_edges
        }
    }
}

/// List the edges of a polyline. `ends_coincide` says whether the last
/// point equals the first.
pub fn polyline_to_segments(count: usize, closed: bool, ends_coincide: bool) -> (out: Vec<(usize, usize)>)
    ensures
        out@ == polyline_edge_list(count as nat, closed, ends_coincide),
{
    let mut out: Vec<(usize, usize)> = Vec::new();
    if count < 2 {
        return out;
    }
    let mut i: usize = 1;
    while i < count
        invariant
            2 <= count,
            1 <= i <= count,
            out@ == Seq::new((i - 1) as nat, |k: int| (k as usize, (k + 1) as usize)),
        decreases count - i,
    {
        out.push((i - 1, i));
        proof {
            assert(out@ =~= Seq::new(i as nat, |k: int| (k as usize, (k + 1) as usize)));
        }
        i = i + 1;
    }
    if closed && !ends_coincide {
        out.push((count - 1, 0));
    }
    out
}

/// One verb of a glyph outline, whose points live in a shared point list.
#[derive(Clone, Copy, Debug, PartialEq, Eq, Structural)]
pub enum OutlineVerb {
    MoveTo,
    LineTo,
    QuadTo,
    CurveTo,
    Close,
}

/// Number of points a verb consumes from the point list.
pub open spec fn verb_arity(v: OutlineVerb) -> nat {
    match v {
        OutlineVerb::MoveTo => 1,
        OutlineVerb::LineTo => 1,
        OutlineVerb::QuadTo => 2,
        OutlineVerb::CurveTo => 3,
        OutlineVerb::Close => 0,
    }
}

/// Number of points consumed by the first `k` verbs.
pub open spec fn points_before(verbs: Seq<OutlineVerb>, k: nat) -> nat
    decreases k,
{
    if k == 0 {
        0
    } else {
        points_before(verbs, (k - 1) as nat) + verb_arity(verbs[k - 1])
    }
}

proof fn lemma_points_before_monotone(verbs: Seq<OutlineVerb>, i: nat, k: nat)
    requires
        i <= k,
    ensures
        points_before(verbs, i) <= points_before(verbs, k),
    decreases k - i,
{
    if i < k {
        lemma_points_before_monotone(verbs, i, (k - 1) as nat);
    }
}

/// Offset into the point list of the first point of each verb, and the
/// total number of points the outline consumes. Verbs take their points in
/// order: one for a move or line, two for a quadratic, three for a cubic,
/// none for a close.
pub fn outline_point_offsets(verbs: &Vec<OutlineVerb>) -> (r: (Vec<usize>, usize))
    requires
        points_before(verbs@, verbs@.len()) <= usize::MAX,
    ensures
        r.0@.len() == verbs@.len(),
        forall|k: int| 0 <= k < verbs@.len() ==> #[trigger] r.0@[k] == points_before(verbs@, k as nat),
        r.1 == points_before(verbs@, verbs@.len()),
{
    let mut offsets: Vec<usize> = Vec::new();
    let mut next: usize = 0;
    let n = verbs.len();
    let mut k: usize = 0;
    while k < n
        invariant
            n == verbs@.len(),
            k <= n,
            points_before(verbs@, n as nat) <= usize::MAX,
            next == points_before(verbs@, k as nat),
            offsets@.len() == k,
            forall|j: int| 0 <= j < k ==> #[trigger] offsets@[j] == points_before(verbs@, j as nat),
        decreases n - k,
    {
        proof {
            lemma_points_before_monotone(verbs@, (k + 1) as nat, n as nat);
        }
        offsets.push(next);
        let take: usize = match verbs[k] {
            OutlineVerb::MoveTo => 1,
            OutlineVerb::LineTo => 1,
            OutlineVerb::QuadTo => 2,
            OutlineVerb::CurveTo => 3,
            OutlineVerb::Close => 0,
        };
        next = next + take;
        k = k + 1;
    }
    (offsets, next)
}

/// Whether a polyline has an interior to fill: only closed polylines of at
/// least three points do.
pub fn polyline_fill_drawable(count: usize, closed: bool) -> (b: bool)
    ensures
        b == (closed && count >= 3),
{
    closed && count >= 3
}

/// One call on a fill-path builder.
#[derive(Clone, Copy, Debug, PartialEq, Eq, Structural)]
pub enum BuildCommand {
    Begin { at: usize },
    LineTo { to: usize },
    QuadTo { ctrl: usize, to: usize },
    CubicTo { ctrl1: usize, ctrl2: usize, to: usize },
    End { close: bool },
}

/// Whether a sub-path is open after the first `n` steps.
pub open spec fn build_open(steps: Seq<PathStep>, n: nat) -> bool
    decreases n,
{
    if n == 0 {
        false
    } else {
        match steps[n - 1] {
            PathStep::MoveTo { .. } => true,
            PathStep::Close => false,
            _ => build_open(steps, (n - 1) as nat),
        }
    }
}

/// Builder calls issued for step `n - 1`.
pub open spec fn step_commands(steps: Seq<PathStep>, n: nat) -> Seq<BuildCommand> {
    let open = build_open(steps, (n - 1) as nat);
    match steps[n - 1] {
        PathStep::MoveTo { to } => if open {
            seq![BuildCommand::End { close: false }, BuildCommand::Begin { at: to }]
        } else {
            seq![BuildCommand::Begin { at: to }]
        },
        PathStep::LineTo { to } => seq![BuildCommand::LineTo { to }],
        PathStep::QuadTo { ctrl, to } => seq![BuildCommand::QuadTo { ctrl, to }],
        PathStep::CubicTo { ctrl1, ctrl2, to } => seq![BuildCommand::CubicTo { ctrl1, ctrl2, to }],
        PathStep::Close => if open {
            seq![BuildCommand::End { close: true }]
        } else {
            Seq::empty()
        },
    }
}

/// Builder calls issued for the first `n` steps.
pub open spec fn build_commands(steps: Seq<PathStep>, n: nat) -> Seq<BuildCommand>
    decreases n,
{
    if n == 0 {
        Seq::empty()
    } else {
        build_commands(steps, (n - 1) as nat) + step_commands(steps, n)
    }
}

/// All builder calls for a verb stream, with a final open-ended `End` if a
/// sub-path is still open.
pub open spec fn fill_build_commands(steps: Seq<PathStep>) -> Seq<BuildCommand> {
    if build_open(steps, steps.len()) {
        build_commands(steps, steps.len()).push(BuildCommand::End { close: false })
    } else {
        build_commands(steps, steps.len())
    }
}

/// Translate a verb stream into fill-path builder calls. Each `MoveTo`
/// begins a sub-path, ending the previous one open; `Close` ends the open
/// sub-path closed; a sub-path still open at the end is ended open.
pub fn fill_path_commands(steps: &Vec<PathStep>) -> (out: Vec<BuildCommand>)
    ensures
        out@ == fill_build_commands(steps@),
{
    let mut out: Vec<BuildCommand> = Vec::new();
    let mut started = false;
    let n = steps.len();
    let mut i: usize = 0;
    while i < n
        invariant
            n == steps@.len(),
            i <= n,
            started == build_open(steps@, i as nat),
            out@ == build_commands(steps@, i as nat),
        decreases n - i,
    {
        let ghost before = out@;
        match steps[i] {
            PathStep::MoveTo { to } => {
                if started {
                    out.push(BuildCommand::End { close: false });
                }
                out.push(BuildCommand::Begin { at: to });
                started = true;
            },
            PathStep::LineTo { to } => {
                out.push(BuildCommand::LineTo { to });
            },
            PathStep::QuadTo { ctrl, to } => {
                out.push(BuildCommand::QuadTo { ctrl, to });
            },
            PathStep::CubicTo { ctrl1, ctrl2, to } => {
                out.push(BuildCommand::CubicTo { ctrl1, ctrl2, to });
            },
            PathStep::Close => {
                if started {
                    out.push(BuildCommand::End { close: true });
                    started = false;
                }
            },
        }
        proof {
            assert(out@ =~= before + step_commands(steps@, (i + 1) as nat));
        }
        i = i + 1;
    }
    if started {
        out.push(BuildCommand::End { close: false });
    }
    out
}

/// Net count of open sub-paths after a run of builder calls: `Begin` opens
/// one and `End` closes one.
pub open spec fn open_depth(cmds: Seq<BuildCommand>) -> int
    decreases cmds.len(),
{
    if cmds.len() == 0 {
        0
    } else {
        open_depth(cmds.drop_last()) + match cmds.last() {
            BuildCommand::Begin { .. } => 1int,
            BuildCommand::End { .. } => -1int,
            _ => 0int,
        }
    }
}

/// Builder calls are balanced: at every point at most one sub-path is open,
/// and every begun sub-path is ended.
pub open spec fn balanced(cmds: Seq<BuildCommand>) -> bool {
    &&& forall|k: int| 0 <= k <= cmds.len() ==> 0 <= #[trigger] open_depth(cmds.take(k)) <= 1
    &&& open_depth(cmds) == 0
}

proof fn lemma_open_depth_push(cmds: Seq<BuildCommand>, c: BuildCommand)
    ensures
        open_depth(cmds.push(c)) == open_depth(cmds) + match c {
            BuildCommand::Begin { .. } => 1int,
            BuildCommand::End { .. } => -1int,
            _ => 0int,
        },
{
    assert(cmds.push(c).drop_last() =~= cmds);
}

proof fn lemma_build_commands_depth(steps: Seq<PathStep>, n: nat)
    requires
        n <= steps.len(),
    ensures
        open_depth(build_commands(steps, n)) == (if build_open(steps, n) { 1int } else { 0int }),
        forall|k: int|
            0 <= k <= build_commands(steps, n).len() ==> 0 <= #[trigger] open_depth(
                build_commands(steps, n).take(k),
            ) <= 1,
    decreases n,
{
    if n > 0 {
        let m = (n - 1) as nat;
        lemma_build_commands_depth(steps, m);
        let prev = build_commands(steps, m);
        let add = step_commands(steps, n);
        let all = build_commands(steps, n);
        assert(all == prev + add);
        assert forall|k: int| 0 <= k <= all.len() implies 0 <= #[trigger] open_depth(all.take(k))
            <= 1 by {
            if k <= prev.len() {
                assert(all.take(k) =~= prev.take(k));
            } else {
                assert(prev.take(prev.len() as int) =~= prev);
                let d = open_depth(prev);
                if k == prev.len() + 1 {
                    assert(all.take(k) =~= prev.push(add[0]));
                    lemma_open_depth_push(prev, add[0]);
                } else {
                    assert(k == prev.len() + 2);
                    assert(all.take(k) =~= prev.push(add[0]).push(add[1]));
                    lemma_open_depth_push(prev, add[0]);
                    lemma_open_depth_push(prev.push(add[0]), add[1]);
                }
            }
        }
        if add.len() == 0 {
            assert(all =~= prev);
        } else if add.len() == 1 {
            assert(all =~= prev.push(add[0]));
            lemma_open_depth_push(prev, add[0]);
        } else {
            assert(all =~= prev.push(add[0]).push(add[1]));
            lemma_open_depth_push(prev, add[0]);
            lemma_open_depth_push(prev.push(add[0]), add[1]);
        }
    }
}

/// The builder calls for any verb stream are balanced: sub-paths never
/// nest and none is left open.
pub proof fn lemma_fill_commands_balanced(steps: Seq<PathStep>)
    ensures
        balanced(fill_build_commands(steps)),
{
    lemma_build_commands_depth(steps, steps.len());
    let cmds = build_commands(steps, steps.len());
    if build_open(steps, steps.len()) {
        let all = cmds.push(BuildCommand::End { close: false });
        lemma_open_depth_push(cmds, BuildCommand::End { close: false });
        assert forall|k: int| 0 <= k <= all.len() implies 0 <= #[trigger] open_depth(all.take(k))
            <= 1 by {
            if k <= cmds.len() {
                assert(all.take(k) =~= cmds.take(k));
            } else {
                assert(all.take(k) =~= all);
            }
        }
    } else {
        assert(cmds.take(cmds.len() as int) =~= cmds);
    }
}

} // verus!
