//! Stroke ribbon topology.
//!
//! A stroke is a run of quadratic segments. Each segment is sampled at
//! `steps[i]` points; every sample contributes a left and a right ribbon
//! vertex, and consecutive samples are bridged by two triangles. Where two
//! segments touch, a joint is drawn: a miter adds two extra vertices and
//! four triangles, a bevel adds two triangles between the ribbon ends, and
//! disjoint segments are left unconnected.
//!
//! This module decides which vertex goes where and which triangles connect
//! them. Vertex positions, widths and colors are filled in by the caller.
use vstd::prelude::*;

use crate::ir::JointKind;

verus! {

/// Upper bound on samples per quadratic segment.
pub const STROKE_MAX_STEPS: usize = 32;

/// Lower bound on samples per quadratic segment.
pub const STROKE_MIN_STEPS: usize = 2;

/// How two consecutive segments are connected.
#[derive(Clone, Copy, Debug, PartialEq, Eq, Structural)]
pub enum JointChoice {
    /// The segments do not touch; no joint geometry is emitted.
    Disjoint,
    /// Two extra vertices at the corner, four triangles.
    Miter,
    /// Two triangles straight between the two ribbon ends.
    Bevel,
}

/// Which edge of the ribbon a vertex lies on.
#[derive(Clone, Copy, Debug, PartialEq, Eq, Structural)]
pub enum RibbonSide {
    Left,
    Right,
}

/// What a ribbon vertex stands for.
#[derive(Clone, Copy, Debug, PartialEq, Eq, Structural)]
pub enum StrokeSlot {
    /// Sample `step` of segment `segment`, offset to `side`.
    Sample { segment: usize, step: usize, side: RibbonSide },
    /// Miter vertex at the start of segment `segment`, offset to `side`.
    Joint { segment: usize, side: RibbonSide },
}

/// Vertex slots and triangle indices of a stroke ribbon.
pub struct StrokeTopology {
    pub slots: Vec<StrokeSlot>,
    pub indices: Vec<u32>,
}

/// The step count for a segment whose scaled rough arc length rounds up to
/// `raw`: clamped to `[STROKE_MIN_STEPS, STROKE_MAX_STEPS]`.
pub open spec fn clamped_steps(raw: int) -> int {
    if raw < STROKE_MIN_STEPS {
        STROKE_MIN_STEPS as int
    } else if raw > STROKE_MAX_STEPS {
        STROKE_MAX_STEPS as int
    } else {
        raw
    }
}

/// Clamp a raw sample count into the allowed per-segment range.
pub fn clamp_step_count(raw: usize) -> (n: usize)
    ensures
        n == clamped_steps(raw as int),
        STROKE_MIN_STEPS <= n <= STROKE_MAX_STEPS,
{
    if raw < STROKE_MIN_STEPS {
        STROKE_MIN_STEPS
    } else if raw > STROKE_MAX_STEPS {
        STROKE_MAX_STEPS
    } else {
        raw
    }
}

/// The joint drawn between two segments.
pub open spec fn spec_joint_choice(joint: JointKind, connected: bool, miter_allowed: bool) -> JointChoice {
    if !connected {
        JointChoice::Disjoint
    } else {
        match joint {
            JointKind::Miter => JointChoice::Miter,
            JointKind::Bevel => JointChoice::Bevel,
            JointKind::Auto => if miter_allowed {
                JointChoice::Miter
            } else {
                JointChoice::Bevel
            },
        }
    }
}

/// Decide the joint between two segments. `connected` says whether the
/// second segment starts where the first ended; `miter_allowed` says whether
/// the turn between them is gentle enough for `Auto` to pick a miter.
pub fn joint_choice(joint: JointKind, connected: bool, miter_allowed: bool) -> (c: JointChoice)
    ensures
        c == spec_joint_choice(joint, connected, miter_allowed),
{
    if !connected {
        JointChoice::Disjoint
    } else {
        match joint {
            JointKind::Miter => JointChoice::Miter,
            JointKind::Bevel => JointChoice::Bevel,
            JointKind::Auto => if miter_allowed {
                JointChoice::Miter
            } else {
                JointChoice::Bevel
            },
        }
    }
}

/// Index into a widths list for endpoint `i`: a single width is broadcast,
/// otherwise widths are indexed per endpoint.
pub fn width_index(widths_len: usize, i: usize) -> (k: usize)
    ensures
        k == (if widths_len == 1 { 0 } else { i }),
{
    if widths_len == 1 {
        0
    } else {
        i
    }
}

/// Per-endpoint widths for a stroke of `segment_count` segments, from a
/// per-vertex width list: passed through when it has one width per
/// endpoint; padded with its first width when it is one short (a closed
/// polyline's closing edge); otherwise the first width alone, or
/// `fallback` for an empty list, broadcast to the whole stroke.
pub open spec fn spec_resolved_widths<T>(widths: Seq<T>, segment_count: int, fallback: T) -> Seq<T> {
    let expected = segment_count + 1;
    if widths.len() == expected {
        widths
    } else if widths.len() + 1 == expected && widths.len() > 0 {
        widths.push(widths[0])
    } else if widths.len() > 0 {
        seq![widths[0]]
    } else {
        seq![fallback]
    }
}

/// How a per-vertex width list is resolved, case by case: a list with one
/// width per endpoint is kept; a list one short (a closed polyline, whose
/// closing edge ends at the first point) gets the first width appended; any
/// other non-empty list gives its first width alone; an empty list gives the
/// fallback alone.
pub proof fn lemma_resolved_widths_cases<T>(widths: Seq<T>, segment_count: int, fallback: T)
    requires
        segment_count >= 0,
    ensures
        widths.len() == segment_count + 1 ==> spec_resolved_widths(widths, segment_count, fallback)
            == widths,
        widths.len() == segment_count && widths.len() > 0 ==> {
            let out = spec_resolved_widths(widths, segment_count, fallback);
            &&& out.len() == segment_count + 1
            &&& forall|k: int| 0 <= k < segment_count ==> out[k] == widths[k]
            &&& out[segment_count] == widths[0]
        },
        widths.len() != segment_count + 1 && widths.len() != segment_count && widths.len() > 0
            ==> spec_resolved_widths(widths, segment_count, fallback) == seq![widths[0]],
        widths.len() == 0 ==> spec_resolved_widths(widths, segment_count, fallback) == seq![fallback],
{
    if widths.len() == segment_count && widths.len() > 0 {
        let out = spec_resolved_widths(widths, segment_count, fallback);
        assert(out == widths.push(widths[0]));
    }
}

/// Resolve a per-vertex width list against the stroke's segment count.
pub fn resolve_per_vertex_widths<T: Copy>(widths: &Vec<T>, segment_count: usize, fallback: T) -> (out: Vec<T>)
    requires
        segment_count < usize::MAX,
    ensures
        out@ == spec_resolved_widths(widths@, segment_count as int, fallback),
        widths@.len() == segment_count + 1 ==> out@ == widths@,
        widths@.len() == segment_count && widths@.len() > 0 ==> out@.len() == segment_count + 1
            && out@[segment_count as int] == widths@[0] && forall|k: int|
            0 <= k < segment_count ==> out@[k] == widths@[k],
{
    proof {
        lemma_resolved_widths_cases(widths@, segment_count as int, fallback);
    }
    let expected = segment_count + 1;
    let len = widths.len();
    if len == expected {
        let mut out: Vec<T> = Vec::new();
        let mut i: usize = 0;
        while i < len
            invariant
                len == widths@.len(),
                i <= len,
                out@ == widths@.take(i as int),
            decreases len - i,
        {
            out.push(widths[i]);
            proof {
                assert(out@ =~= widths@.take(i + 1));
            }
            i = i + 1;
        }
        assert(widths@.take(len as int) =~= widths@);
        out
    } else if len == segment_count && len > 0 {
        let mut out: Vec<T> = Vec::new();
        let mut i: usize = 0;
        while i < len
            invariant
                len == widths@.len(),
                i <= len,
                out@ == widths@.take(i as int),
            decreases len - i,
        {
            out.push(widths[i]);
            proof {
                assert(out@ =~= widths@.take(i + 1));
            }
            i = i + 1;
        }
        assert(widths@.take(len as int) =~= widths@);
        out.push(widths[0]);
        out
    } else if len > 0 {
        let mut out: Vec<T> = Vec::new();
        out.push(widths[0]);
        assert(out@ =~= seq![widths@[0]]);
        out
    } else {
        let mut out: Vec<T> = Vec::new();
        out.push(fallback);
        assert(out@ =~= seq![fallback]);
        out
    }
}

/// Whether a widths list fits a stroke of `segment_count` segments: one
/// width broadcast to every endpoint, or one width per endpoint.
pub fn widths_fit(widths_len: usize, segment_count: usize) -> (b: bool)
    ensures
        b == (widths_len == 1 || widths_len == segment_count + 1),
{
    widths_len == 1 || (segment_count < usize::MAX && widths_len == segment_count + 1)
}

/// Whether a miter joint precedes segment `i`.
pub open spec fn miter_before(joints: Seq<JointChoice>, i: int) -> bool {
    i >= 1 && joints[i - 1] == JointChoice::Miter
}

/// Number of vertices emitted for segments `0..i`.
pub open spec fn vertices_before(steps: Seq<usize>, joints: Seq<JointChoice>, i: nat) -> nat
    decreases i,
{
    if i == 0 {
        0
    } else {
        (vertices_before(steps, joints, (i - 1) as nat) + 2 * steps[i - 1] + (if miter_before(
            joints,
            i - 1,
        ) {
            2int
        } else {
            0int
        })) as nat
    }
}

/// Slots of the first `j` samples of segment `i`.
pub open spec fn sample_slots(i: int, j: nat) -> Seq<StrokeSlot>
    decreases j,
{
    if j == 0 {
        Seq::empty()
    } else {
        sample_slots(i, (j - 1) as nat).push(
            StrokeSlot::Sample { segment: i as usize, step: (j - 1) as usize, side: RibbonSide::Left },
        ).push(StrokeSlot::Sample { segment: i as usize, step: (j - 1) as usize, side: RibbonSide::Right })
    }
}

/// Slots emitted for segment `i`: its samples, then its miter pair if any.
pub open spec fn segment_slots(steps: Seq<usize>, joints: Seq<JointChoice>, i: int) -> Seq<StrokeSlot> {
    sample_slots(i, steps[i] as nat) + if miter_before(joints, i) {
        seq![
            StrokeSlot::Joint { segment: i as usize, side: RibbonSide::Left },
            StrokeSlot::Joint { segment: i as usize, side: RibbonSide::Right },
        ]
    } else {
        Seq::empty()
    }
}

/// Slots emitted for segments `0..k`.
pub open spec fn topology_slots(steps: Seq<usize>, joints: Seq<JointChoice>, k: nat) -> Seq<StrokeSlot>
    decreases k,
{
    if k == 0 {
        Seq::empty()
    } else {
        topology_slots(steps, joints, (k - 1) as nat) + segment_slots(steps, joints, k - 1)
    }
}

/// The two triangles bridging sample `j - 1` and sample `j` of a segment
/// whose first vertex is `b`.
pub open spec fn ribbon_quad(b: int, j: int) -> Seq<int> {
    seq![
        b + 2 * (j - 1),
        b + 2 * (j - 1) + 1,
        b + 2 * j,
        b + 2 * (j - 1) + 1,
        b + 2 * j + 1,
        b + 2 * j,
    ]
}

/// Triangles bridging the first `j` samples of a segment starting at `b`.
pub open spec fn ribbon_indices(b: int, j: nat) -> Seq<int>
    decreases j,
{
    if j <= 1 {
        Seq::empty()
    } else {
        ribbon_indices(b, (j - 1) as nat) + ribbon_quad(b, j - 1)
    }
}

/// Triangles of the joint between segment `i - 1` and segment `i`.
pub open spec fn joint_indices(steps: Seq<usize>, joints: Seq<JointChoice>, i: int) -> Seq<int> {
    if i < 1 {
        Seq::empty()
    } else {
        let pl = vertices_before(steps, joints, (i - 1) as nat) + 2 * (steps[i - 1] - 1);
        let pr = pl + 1;
        let sl = vertices_before(steps, joints, i as nat) as int;
        let sr = sl + 1;
        match joints[i - 1] {
            JointChoice::Disjoint => Seq::empty(),
            JointChoice::Bevel => seq![pl, pr, sl, pr, sr, sl],
            JointChoice::Miter => {
                let ml = sl + 2 * steps[i];
                let mr = ml + 1;
                seq![pl, pr, ml, pr, mr, ml, ml, mr, sl, mr, sr, sl]
            },
        }
    }
}

/// Triangles emitted for segment `i`: its ribbon, then its joint.
pub open spec fn segment_indices(steps: Seq<usize>, joints: Seq<JointChoice>, i: int) -> Seq<int> {
    ribbon_indices(vertices_before(steps, joints, i as nat) as int, steps[i] as nat) + joint_indices(
        steps,
        joints,
        i,
    )
}

/// Triangles emitted for segments `0..k`.
pub open spec fn topology_indices(steps: Seq<usize>, joints: Seq<JointChoice>, k: nat) -> Seq<int>
    decreases k,
{
    if k == 0 {
        Seq::empty()
    } else {
        topology_indices(steps, joints, (k - 1) as nat) + segment_indices(steps, joints, k - 1)
    }
}

/// The joint list matches the segment list: one joint between each pair of
/// consecutive segments.
pub open spec fn joints_fit(steps: Seq<usize>, joints: Seq<JointChoice>) -> bool {
    if steps.len() == 0 {
        joints.len() == 0
    } else {
        joints.len() + 1 == steps.len()
    }
}

/// Every segment has at least one sample.
pub open spec fn steps_positive(steps: Seq<usize>) -> bool {
    forall|i: int| 0 <= i < steps.len() ==> steps[i] >= 1
}

proof fn lemma_vertices_before_monotone(steps: Seq<usize>, joints: Seq<JointChoice>, i: nat, k: nat)
    requires
        i <= k,
    ensures
        vertices_before(steps, joints, i) <= vertices_before(steps, joints, k),
    decreases k - i,
{
    if i < k {
        lemma_vertices_before_monotone(steps, joints, i, (k - 1) as nat);
    }
}

proof fn lemma_sample_slots_len(i: int, j: nat)
    ensures
        sample_slots(i, j).len() == 2 * j,
    decreases j,
{
    if j > 0 {
        lemma_sample_slots_len(i, (j - 1) as nat);
    }
}

proof fn lemma_topology_slots_len(steps: Seq<usize>, joints: Seq<JointChoice>, k: nat)
    requires
        k <= steps.len(),
    ensures
        topology_slots(steps, joints, k).len() == vertices_before(steps, joints, k),
    decreases k,
{
    if k > 0 {
        lemma_topology_slots_len(steps, joints, (k - 1) as nat);
        lemma_sample_slots_len(k - 1, steps[k - 1] as nat);
    }
}

proof fn lemma_ribbon_indices_shape(b: int, j: nat)
    requires
        b >= 0,
    ensures
        ribbon_indices(b, j).len() == (if j <= 1 { 0 } else { 6 * (j - 1) }),
        forall|x: int| 0 <= x < ribbon_indices(b, j).len() ==> b <= #[trigger] ribbon_indices(b, j)[x] < b + 2 * j,
    decreases j,
{
    if j > 1 {
        lemma_ribbon_indices_shape(b, (j - 1) as nat);
    }
}

proof fn lemma_segment_indices_bounded(steps: Seq<usize>, joints: Seq<JointChoice>, i: int)
    requires
        0 <= i < steps.len(),
        joints_fit(steps, joints),
        steps_positive(steps),
    ensures
        segment_indices(steps, joints, i).len() % 3 == 0,
        forall|x: int|
            0 <= x < segment_indices(steps, joints, i).len() ==> 0 <= #[trigger] segment_indices(
                steps,
                joints,
                i,
            )[x] < vertices_before(steps, joints, (i + 1) as nat),
{
    let b = vertices_before(steps, joints, i as nat) as int;
    lemma_ribbon_indices_shape(b, steps[i] as nat);
    if i >= 1 {
        lemma_vertices_before_monotone(steps, joints, (i - 1) as nat, i as nat);
    }
    let r = ribbon_indices(b, steps[i] as nat);
    let jt = joint_indices(steps, joints, i);
    assert forall|x: int| 0 <= x < segment_indices(steps, joints, i).len() implies 0
        <= #[trigger] segment_indices(steps, joints, i)[x] < vertices_before(
        steps,
        joints,
        (i + 1) as nat,
    ) by {
        if x < r.len() {
            assert(segment_indices(steps, joints, i)[x] == r[x]);
        } else {
            assert(segment_indices(steps, joints, i)[x] == jt[x - r.len()]);
        }
    }
}

proof fn lemma_topology_indices_bounded(steps: Seq<usize>, joints: Seq<JointChoice>, k: nat)
    requires
        k <= steps.len(),
        joints_fit(steps, joints),
        steps_positive(steps),
    ensures
        topology_indices(steps, joints, k).len() % 3 == 0,
        forall|x: int|
            0 <= x < topology_indices(steps, joints, k).len() ==> 0 <= #[trigger] topology_indices(
                steps,
                joints,
                k,
            )[x] < vertices_before(steps, joints, k),
    decreases k,
{
    if k > 0 {
        let km = (k - 1) as nat;
        lemma_topology_indices_bounded(steps, joints, km);
        lemma_segment_indices_bounded(steps, joints, k - 1);
        lemma_vertices_before_monotone(steps, joints, km, k);
        let a = topology_indices(steps, joints, km);
        let s = segment_indices(steps, joints, k - 1);
        assert forall|x: int| 0 <= x < topology_indices(steps, joints, k).len() implies 0
            <= #[trigger] topology_indices(steps, joints, k)[x] < vertices_before(
            steps,
            joints,
            k,
        ) by {
            if x < a.len() {
                assert(topology_indices(steps, joints, k)[x] == a[x]);
            } else {
                assert(topology_indices(steps, joints, k)[x] == s[x - a.len()]);
            }
        }
    }
}

/// Every triangle index of a stroke ribbon names one of its vertices, and
/// the index list is made of whole triangles.
pub proof fn lemma_stroke_indices_valid(steps: Seq<usize>, joints: Seq<JointChoice>)
    requires
        joints_fit(steps, joints),
        steps_positive(steps),
    ensures
        topology_indices(steps, joints, steps.len()).len() % 3 == 0,
        topology_slots(steps, joints, steps.len()).len() == vertices_before(
            steps,
            joints,
            steps.len(),
        ),
        forall|x: int|
            0 <= x < topology_indices(steps, joints, steps.len()).len() ==> 0
                <= #[trigger] topology_indices(steps, joints, steps.len())[x] < topology_slots(
                steps,
                joints,
                steps.len(),
            ).len(),
{
    lemma_topology_indices_bounded(steps, joints, steps.len());
    lemma_topology_slots_len(steps, joints, steps.len());
}

proof fn lemma_sample_slots_are_samples(i: int, j: nat)
    ensures
        forall|x: int| 0 <= x < sample_slots(i, j).len() ==> (#[trigger] sample_slots(i, j)[x]) is Sample,
    decreases j,
{
    lemma_sample_slots_len(i, j);
    if j > 0 {
        lemma_sample_slots_are_samples(i, (j - 1) as nat);
        lemma_sample_slots_len(i, (j - 1) as nat);
    }
}

/// Joint vertices appear only where the joint is a miter: a bevel or a gap
/// between segments adds no vertex.
pub proof fn lemma_joint_slots_only_at_miters(steps: Seq<usize>, joints: Seq<JointChoice>, k: nat)
    requires
        k <= steps.len(),
        steps.len() <= usize::MAX,
    ensures
        forall|x: int|
            0 <= x < topology_slots(steps, joints, k).len() && (#[trigger] topology_slots(
                steps,
                joints,
                k,
            )[x]) is Joint ==> miter_before(
                joints,
                topology_slots(steps, joints, k)[x]->Joint_segment as int,
            ) && topology_slots(steps, joints, k)[x]->Joint_segment < k,
    decreases k,
{
    if k > 0 {
        let m = (k - 1) as nat;
        lemma_joint_slots_only_at_miters(steps, joints, m);
        lemma_sample_slots_are_samples(m as int, steps[m as int] as nat);
        let prev = topology_slots(steps, joints, m);
        let seg = segment_slots(steps, joints, m as int);
        let samples = sample_slots(m as int, steps[m as int] as nat);
        assert forall|x: int|
            0 <= x < topology_slots(steps, joints, k).len() && (#[trigger] topology_slots(
                steps,
                joints,
                k,
            )[x]) is Joint implies miter_before(
            joints,
            topology_slots(steps, joints, k)[x]->Joint_segment as int,
        ) && topology_slots(steps, joints, k)[x]->Joint_segment < k by {
            let all = topology_slots(steps, joints, k);
            assert(all == prev + seg);
            if x < prev.len() {
                assert(all[x] == prev[x]);
            } else {
                let y = x - prev.len();
                assert(all[x] == seg[y]);
                if y < samples.len() {
                    assert(seg[y] == samples[y]);
                } else {
                    assert(miter_before(joints, m as int));
                    let tail = seq![
                        StrokeSlot::Joint { segment: m as usize, side: RibbonSide::Left },
                        StrokeSlot::Joint { segment: m as usize, side: RibbonSide::Right },
                    ];
                    assert(seg == samples + tail);
                    assert(seg[y] == tail[y - samples.len()]);
                }
            }
        }
    }
}

proof fn lemma_sample_slot_at(i: int, j: nat, y: int)
    requires
        0 <= y < j,
    ensures
        sample_slots(i, j)[2 * y] == (StrokeSlot::Sample {
            segment: i as usize,
            step: y as usize,
            side: RibbonSide::Left,
        }),
        sample_slots(i, j)[2 * y + 1] == (StrokeSlot::Sample {
            segment: i as usize,
            step: y as usize,
            side: RibbonSide::Right,
        }),
    decreases j,
{
    let m = (j - 1) as nat;
    lemma_sample_slots_len(i, m);
    let prev = sample_slots(i, m);
    let all = sample_slots(i, j);
    if y < m {
        lemma_sample_slot_at(i, m, y);
        assert(all[2 * y] == prev[2 * y]);
        assert(all[2 * y + 1] == prev[2 * y + 1]);
    }
}

proof fn lemma_topology_slots_prefix(steps: Seq<usize>, joints: Seq<JointChoice>, k: nat, m: nat)
    requires
        k <= m,
    ensures
        topology_slots(steps, joints, k).len() <= topology_slots(steps, joints, m).len(),
        forall|x: int|
            0 <= x < topology_slots(steps, joints, k).len() ==> #[trigger] topology_slots(
                steps,
                joints,
                m,
            )[x] == topology_slots(steps, joints, k)[x],
    decreases m - k,
{
    if k < m {
        lemma_topology_slots_prefix(steps, joints, k, (m - 1) as nat);
        let prev = topology_slots(steps, joints, (m - 1) as nat);
        let add = segment_slots(steps, joints, m - 1);
        assert forall|x: int| 0 <= x < prev.len() implies #[trigger] (prev + add)[x] == prev[x] by {}
    }
}

proof fn lemma_topology_indices_prefix(steps: Seq<usize>, joints: Seq<JointChoice>, k: nat, m: nat)
    requires
        k <= m,
    ensures
        topology_indices(steps, joints, k).len() <= topology_indices(steps, joints, m).len(),
        forall|x: int|
            0 <= x < topology_indices(steps, joints, k).len() ==> #[trigger] topology_indices(
                steps,
                joints,
                m,
            )[x] == topology_indices(steps, joints, k)[x],
    decreases m - k,
{
    if k < m {
        lemma_topology_indices_prefix(steps, joints, k, (m - 1) as nat);
        let prev = topology_indices(steps, joints, (m - 1) as nat);
        let add = segment_indices(steps, joints, m - 1);
        assert forall|x: int| 0 <= x < prev.len() implies #[trigger] (prev + add)[x] == prev[x] by {}
    }
}

/// Sample `y` of segment `k` sits at `vertices_before(k) + 2 * y` (left)
/// and the next slot (right).
proof fn lemma_sample_slot_of_segment(
    steps: Seq<usize>,
    joints: Seq<JointChoice>,
    n: nat,
    k: int,
    y: int,
)
    requires
        0 <= k < n <= steps.len(),
        0 <= y < steps[k],
    ensures
        topology_slots(steps, joints, n)[vertices_before(steps, joints, k as nat) + 2 * y]
            == (StrokeSlot::Sample { segment: k as usize, step: y as usize, side: RibbonSide::Left }),
        topology_slots(steps, joints, n)[vertices_before(steps, joints, k as nat) + 2 * y + 1]
            == (StrokeSlot::Sample { segment: k as usize, step: y as usize, side: RibbonSide::Right }),
{
    let k1 = (k + 1) as nat;
    lemma_topology_slots_len(steps, joints, k as nat);
    lemma_sample_slots_len(k, steps[k] as nat);
    lemma_sample_slot_at(k, steps[k] as nat, y);
    lemma_topology_slots_prefix(steps, joints, k1, n);
    let prev = topology_slots(steps, joints, k as nat);
    let seg = segment_slots(steps, joints, k);
    let samples = sample_slots(k, steps[k] as nat);
    let cur = topology_slots(steps, joints, k1);
    assert(cur == prev + seg);
    let b = prev.len() as int;
    assert(seg[2 * y] == samples[2 * y]);
    assert(seg[2 * y + 1] == samples[2 * y + 1]);
    assert(cur[b + 2 * y] == seg[2 * y]);
    assert(cur[b + 2 * y + 1] == seg[2 * y + 1]);
}

/// The miter pair of segment `k` sits right after its samples.
proof fn lemma_joint_slot_of_segment(steps: Seq<usize>, joints: Seq<JointChoice>, n: nat, k: int)
    requires
        0 <= k < n <= steps.len(),
        miter_before(joints, k),
    ensures
        topology_slots(steps, joints, n)[vertices_before(steps, joints, k as nat) + 2 * steps[k]]
            == (StrokeSlot::Joint { segment: k as usize, side: RibbonSide::Left }),
        topology_slots(steps, joints, n)[vertices_before(steps, joints, k as nat) + 2 * steps[k] + 1]
            == (StrokeSlot::Joint { segment: k as usize, side: RibbonSide::Right }),
{
    let k1 = (k + 1) as nat;
    lemma_topology_slots_len(steps, joints, k as nat);
    lemma_sample_slots_len(k, steps[k] as nat);
    lemma_topology_slots_prefix(steps, joints, k1, n);
    let prev = topology_slots(steps, joints, k as nat);
    let seg = segment_slots(steps, joints, k);
    let samples = sample_slots(k, steps[k] as nat);
    let tail = seq![
        StrokeSlot::Joint { segment: k as usize, side: RibbonSide::Left },
        StrokeSlot::Joint { segment: k as usize, side: RibbonSide::Right },
    ];
    assert(seg == samples + tail);
    let cur = topology_slots(steps, joints, k1);
    assert(cur == prev + seg);
    let b = prev.len() as int;
    let s = samples.len() as int;
    assert(seg[s] == tail[0]);
    assert(seg[s + 1] == tail[1]);
    assert(cur[b + s] == seg[s]);
    assert(cur[b + s + 1] == seg[s + 1]);
}

/// The slots that `count` consecutive indices from `off` name.
pub open spec fn named_slots(slots: Seq<StrokeSlot>, indices: Seq<int>, off: int, count: nat) -> Seq<
    StrokeSlot,
> {
    Seq::new(count, |x: int| slots[indices[off + x]])
}

/// Where segment `i`'s joint triangles start: after the triangles of the
/// earlier segments and the `steps[i] - 1` quads of its own ribbon.
pub open spec fn joint_offset(steps: Seq<usize>, joints: Seq<JointChoice>, i: int) -> int {
    topology_indices(steps, joints, i as nat).len() + 6 * (steps[i] - 1)
}

/// A joint bridges the last sample pair of the previous segment to the
/// first sample pair of the next: a bevel with two triangles straight
/// across, a miter with two triangles to its miter pair and two from there
/// on; a gap between segments adds no triangle.
pub proof fn lemma_joints_bridge_segment_ends(steps: Seq<usize>, joints: Seq<JointChoice>, i: int)
    requires
        joints_fit(steps, joints),
        steps_positive(steps),
        1 <= i < steps.len(),
        steps.len() <= usize::MAX,
    ensures
        ({
            let slots = topology_slots(steps, joints, steps.len());
            let idx = topology_indices(steps, joints, steps.len());
            let off = joint_offset(steps, joints, i);
            let last = (steps[i - 1] - 1) as usize;
            let pl = StrokeSlot::Sample { segment: (i - 1) as usize, step: last, side: RibbonSide::Left };
            let pr = StrokeSlot::Sample { segment: (i - 1) as usize, step: last, side: RibbonSide::Right };
            let sl = StrokeSlot::Sample { segment: i as usize, step: 0, side: RibbonSide::Left };
            let sr = StrokeSlot::Sample { segment: i as usize, step: 0, side: RibbonSide::Right };
            let ml = StrokeSlot::Joint { segment: i as usize, side: RibbonSide::Left };
            let mr = StrokeSlot::Joint { segment: i as usize, side: RibbonSide::Right };
            match joints[i - 1] {
                JointChoice::Disjoint => topology_indices(steps, joints, (i + 1) as nat).len() == off,
                JointChoice::Bevel => named_slots(slots, idx, off, 6) == seq![pl, pr, sl, pr, sr, sl],
                JointChoice::Miter => named_slots(slots, idx, off, 12) == seq![
                    pl,
                    pr,
                    ml,
                    pr,
                    mr,
                    ml,
                    ml,
                    mr,
                    sl,
                    mr,
                    sr,
                    sl,
                ],
            }
        }),
{
    let n = steps.len();
    let slots = topology_slots(steps, joints, n);
    let idx = topology_indices(steps, joints, n);
    let off = joint_offset(steps, joints, i);
    let b = vertices_before(steps, joints, i as nat) as int;
    let r = ribbon_indices(b, steps[i] as nat);
    let jt = joint_indices(steps, joints, i);
    let prev = topology_indices(steps, joints, i as nat);
    let cur = topology_indices(steps, joints, (i + 1) as nat);
    lemma_ribbon_indices_shape(b, steps[i] as nat);
    assert(r.len() == 6 * (steps[i] - 1));
    assert(cur == prev + (r + jt));
    assert(off == prev.len() + r.len());
    lemma_topology_indices_prefix(steps, joints, (i + 1) as nat, n);
    assert forall|x: int| 0 <= x < jt.len() implies #[trigger] idx[off + x] == jt[x] by {
        assert(cur[off + x] == (r + jt)[r.len() + x]);
        assert(idx[off + x] == cur[off + x]);
    }
    let last = (steps[i - 1] - 1) as int;
    let pli = vertices_before(steps, joints, (i - 1) as nat) + 2 * last;
    lemma_sample_slot_of_segment(steps, joints, n, i - 1, last);
    lemma_sample_slot_of_segment(steps, joints, n, i, 0);
    assert(pli == vertices_before(steps, joints, (i - 1) as nat) + 2 * (steps[i - 1] - 1));
    match joints[i - 1] {
        JointChoice::Disjoint => {
            assert(jt.len() == 0);
        },
        JointChoice::Bevel => {
            let ns = named_slots(slots, idx, off, 6);
            assert(jt == seq![pli, pli + 1, b, pli + 1, b + 1, b]);
            assert(ns =~= seq![
                slots[pli],
                slots[pli + 1],
                slots[b],
                slots[pli + 1],
                slots[b + 1],
                slots[b],
            ]) by {
                assert(idx[off + 0] == jt[0]);
                assert(idx[off + 1] == jt[1]);
                assert(idx[off + 2] == jt[2]);
                assert(idx[off + 3] == jt[3]);
                assert(idx[off + 4] == jt[4]);
                assert(idx[off + 5] == jt[5]);
            }
        },
        JointChoice::Miter => {
            assert(miter_before(joints, i));
            lemma_joint_slot_of_segment(steps, joints, n, i);
            let m = b + 2 * steps[i];
            let ns = named_slots(slots, idx, off, 12);
            assert(jt == seq![pli, pli + 1, m, pli + 1, m + 1, m, m, m + 1, b, m + 1, b + 1, b]);
            assert(ns =~= seq![
                slots[pli],
                slots[pli + 1],
                slots[m],
                slots[pli + 1],
                slots[m + 1],
                slots[m],
                slots[m],
                slots[m + 1],
                slots[b],
                slots[m + 1],
                slots[b + 1],
                slots[b],
            ]) by {
                assert(idx[off + 0] == jt[0]);
                assert(idx[off + 1] == jt[1]);
                assert(idx[off + 2] == jt[2]);
                assert(idx[off + 3] == jt[3]);
                assert(idx[off + 4] == jt[4]);
                assert(idx[off + 5] == jt[5]);
                assert(idx[off + 6] == jt[6]);
                assert(idx[off + 7] == jt[7]);
                assert(idx[off + 8] == jt[8]);
                assert(idx[off + 9] == jt[9]);
                assert(idx[off + 10] == jt[10]);
                assert(idx[off + 11] == jt[11]);
            }
        },
    }
}

/// `v` holds exactly the integers of `s`.
pub open spec fn indices_match(v: Seq<u32>, s: Seq<int>) -> bool {
    v.len() == s.len() && forall|x: int| 0 <= x < v.len() ==> v[x] as int == s[x]
}

proof fn lemma_match_concat(a: Seq<u32>, s: Seq<int>, b: Seq<u32>, t: Seq<int>)
    requires
        indices_match(a, s),
        indices_match(b, t),
    ensures
        indices_match(a + b, s + t),
{
    assert forall|x: int| 0 <= x < (a + b).len() implies (a + b)[x] as int == (s + t)[x] by {
        if x < a.len() {
            assert((a + b)[x] == a[x]);
            assert((s + t)[x] == s[x]);
        } else {
            assert((a + b)[x] == b[x - a.len()]);
            assert((s + t)[x] == t[x - a.len()]);
        }
    }
}

proof fn lemma_match_empty(a: Seq<u32>, s: Seq<int>)
    requires
        indices_match(a, s),
    ensures
        indices_match(a, s + Seq::<int>::empty()),
{
    assert(s + Seq::<int>::empty() =~= s);
}

/// Lay out the vertices and triangles of a stroke ribbon.
///
/// `steps[i]` is the sample count of segment `i`; `joints[i]` is the joint
/// between segment `i` and segment `i + 1`. Segment `i`'s samples come
/// first, left then right per sample; a miter joint before segment `i`
/// appends its two vertices right after those samples. Triangles of a
/// segment's ribbon are followed by the triangles of the joint that leads
/// into it.
pub fn stroke_topology(steps: &Vec<usize>, joints: &Vec<JointChoice>) -> (t: StrokeTopology)
    requires
        joints_fit(steps@, joints@),
        steps_positive(steps@),
        vertices_before(steps@, joints@, steps@.len()) <= u32::MAX,
    ensures
        t.slots@ == topology_slots(steps@, joints@, steps@.len()),
        indices_match(t.indices@, topology_indices(steps@, joints@, steps@.len())),
        t.slots@.len() == vertices_before(steps@, joints@, steps@.len()),
        t.indices@.len() % 3 == 0,
        forall|x: int| 0 <= x < t.indices@.len() ==> (#[trigger] t.indices@[x]) < t.slots@.len(),
{
    let ghost st = steps@;
    let ghost jt = joints@;
    let mut slots: Vec<StrokeSlot> = Vec::new();
    let mut indices: Vec<u32> = Vec::new();
    let n = steps.len();
    // First vertex of the previous segment, if any.
    let mut prev_base: u32 = 0;
    let mut i: usize = 0;
    while i < n
        invariant
            n == st.len(),
            st == steps@,
            jt == joints@,
            i <= n,
            joints_fit(st, jt),
            steps_positive(st),
            vertices_before(st, jt, n as nat) <= u32::MAX,
            slots@ == topology_slots(st, jt, i as nat),
            indices_match(indices@, topology_indices(st, jt, i as nat)),
            i >= 1 ==> prev_base == vertices_before(st, jt, (i - 1) as nat),
        decreases n - i,
    {
        proof {
            lemma_topology_slots_len(st, jt, i as nat);
            lemma_vertices_before_monotone(st, jt, (i + 1) as nat, n as nat);
        }
        let base: u32 = slots.len() as u32;
        let ghost tp = topology_indices(st, jt, i as nat);
        let seg_steps = steps[i];
        let ghost slots0 = slots@;
        proof {
            lemma_match_empty(indices@, tp);
        }
        let mut j: usize = 0;
        while j < seg_steps
            invariant
                n == st.len(),
                st == steps@,
                jt == joints@,
                i < n,
                seg_steps == st[i as int],
                seg_steps >= 1,
                j <= seg_steps,
                base == vertices_before(st, jt, i as nat),
                base + 2 * seg_steps <= u32::MAX,
                slots@ == slots0 + sample_slots(i as int, j as nat),
                indices_match(indices@, tp + ribbon_indices(base as int, j as nat)),
            decreases seg_steps - j,
        {
            slots.push(StrokeSlot::Sample { segment: i, step: j, side: RibbonSide::Left });
            slots.push(StrokeSlot::Sample { segment: i, step: j, side: RibbonSide::Right });
            let left = base + 2 * (j as u32);
            let right = left + 1;
            if j > 0 {
                let pl = left - 2;
                let pr = left - 1;
                let ghost before = indices@;
                indices.push(pl);
                indices.push(pr);
                indices.push(left);
                indices.push(pr);
                indices.push(right);
                indices.push(left);
                proof {
                    let q = ribbon_quad(base as int, j as int);
                    let added = seq![pl, pr, left, pr, right, left];
                    assert(indices@ =~= before + added);
                    assert(indices_match(added, q));
                    lemma_match_concat(before, tp + ribbon_indices(base as int, j as nat), added, q);
                    assert(ribbon_indices(base as int, (j + 1) as nat) == ribbon_indices(
                        base as int,
                        j as nat,
                    ) + q);
                    assert(tp + ribbon_indices(base as int, (j + 1) as nat) =~= (tp + ribbon_indices(
                        base as int,
                        j as nat,
                    )) + q);
                }
            } else {
                proof {
                    assert(ribbon_indices(base as int, 1) == Seq::<int>::empty());
                    assert(ribbon_indices(base as int, 0) == Seq::<int>::empty());
                }
            }
            proof {
                assert(slots@ =~= slots0 + sample_slots(i as int, (j + 1) as nat));
            }
            j = j + 1;
        }
        let ghost idx1 = indices@;
        let ghost r = ribbon_indices(base as int, seg_steps as nat);
        let start_l = base;
        let start_r = base + 1;
        proof {
            lemma_vertices_before_monotone(st, jt, i as nat, n as nat);
        }
        if i >= 1 {
            proof {
                lemma_vertices_before_monotone(st, jt, (i - 1) as nat, i as nat);
            }
            let pl = prev_base + 2 * ((steps[i - 1] - 1) as u32);
            let pr = pl + 1;
            match joints[i - 1] {
                JointChoice::Disjoint => {},
                JointChoice::Bevel => {
                    indices.push(pl);
                    indices.push(pr);
                    indices.push(start_l);
                    indices.push(pr);
                    indices.push(start_r);
                    indices.push(start_l);
                    proof {
                        assert(indices@ =~= idx1 + seq![pl, pr, start_l, pr, start_r, start_l]);
                    }
                },
                JointChoice::Miter => {
                    let ml = base + 2 * (seg_steps as u32);
                    let mr = ml + 1;
                    slots.push(StrokeSlot::Joint { segment: i, side: RibbonSide::Left });
                    slots.push(StrokeSlot::Joint { segment: i, side: RibbonSide::Right });
                    indices.push(pl);
                    indices.push(pr);
                    indices.push(ml);
                    indices.push(pr);
                    indices.push(mr);
                    indices.push(ml);
                    indices.push(ml);
                    indices.push(mr);
                    indices.push(start_l);
                    indices.push(mr);
                    indices.push(start_r);
                    indices.push(start_l);
                    proof {
                        assert(indices@ =~= idx1 + seq![pl, pr, ml, pr, mr, ml, ml, mr, start_l, mr, start_r, start_l]);
                    }
                },
            }
        }
        proof {
            let jidx = joint_indices(st, jt, i as int);
            let added = indices@.subrange(idx1.len() as int, indices@.len() as int);
            assert(indices@ =~= idx1 + added);
            assert(indices_match(added, jidx));
            lemma_match_concat(idx1, tp + r, added, jidx);
            assert(topology_indices(st, jt, (i + 1) as nat) =~= tp + (r + jidx));
            assert((tp + r) + jidx =~= tp + (r + jidx));
            assert(slots@ =~= topology_slots(st, jt, (i + 1) as nat));
        }
        prev_base = base;
        i = i + 1;
    }
    proof {
        lemma_stroke_indices_valid(st, jt);
        lemma_topology_slots_len(st, jt, n as nat);
    }
    StrokeTopology { slots, indices }
}

} // verus!
