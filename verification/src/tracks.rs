//! Track indexing and segment selection.
//!
//! Tracks animate one property of one object through a sorted list of
//! segments. At compile time the tracks are grouped by object and property;
//! at evaluation time each track picks the segment that decides its value.
use vstd::prelude::*;

use crate::ir::ObjectId;
use std::collections::HashMap;

verus! {

broadcast use vstd::std_specs::hash::group_hash_axioms;

/// The property a track animates.
#[derive(Clone, Copy, Debug, PartialEq, Eq, Structural)]
pub enum TrackKind {
    Position,
    Opacity,
    Rotation,
    Scale,
    Color,
}

/// Indices of one object's tracks, grouped by property, each group in the
/// order the tracks were declared.
#[derive(Clone, Debug)]
pub struct TrackBundle {
    pub position: Vec<usize>,
    pub opacity: Vec<usize>,
    pub rotation: Vec<usize>,
    pub scale: Vec<usize>,
    pub color: Vec<usize>,
}

impl TrackBundle {
    /// The group for `kind`.
    pub open spec fn group(self, kind: TrackKind) -> Seq<usize> {
        match kind {
            TrackKind::Position => self.position@,
            TrackKind::Opacity => self.opacity@,
            TrackKind::Rotation => self.rotation@,
            TrackKind::Scale => self.scale@,
            TrackKind::Color => self.color@,
        }
    }

    /// A bundle with no tracks.
    pub fn new() -> (b: TrackBundle)
        ensures
            forall|k: TrackKind| b.group(k) == Seq::<usize>::empty(),
    {
        TrackBundle {
            position: Vec::new(),
            opacity: Vec::new(),
            rotation: Vec::new(),
            scale: Vec::new(),
            color: Vec::new(),
        }
    }

    /// Append track `index` to the group for `kind`.
    pub fn add(&mut self, kind: TrackKind, index: usize)
        ensures
            final(self).group(kind) == old(self).group(kind).push(index),
            forall|k: TrackKind| k != kind ==> final(self).group(k) == old(self).group(k),
    {
        match kind {
            TrackKind::Position => self.position.push(index),
            TrackKind::Opacity => self.opacity.push(index),
            TrackKind::Rotation => self.rotation.push(index),
            TrackKind::Scale => self.scale.push(index),
            TrackKind::Color => self.color.push(index),
        }
    }
}

/// Indices, among the first `n` tracks, of the tracks of `kind` on `id`,
/// in declaration order.
pub open spec fn tracks_for(tracks: Seq<(ObjectId, TrackKind)>, n: nat, id: ObjectId, kind: TrackKind) -> Seq<
    usize,
>
    decreases n,
{
    if n == 0 {
        Seq::empty()
    } else {
        let prev = tracks_for(tracks, (n - 1) as nat, id, kind);
        if tracks[n - 1] == (id, kind) {
            prev.push((n - 1) as usize)
        } else {
            prev
        }
    }
}

/// Some track among the first `n` animates object `id`.
pub open spec fn has_track(tracks: Seq<(ObjectId, TrackKind)>, n: nat, id: ObjectId) -> bool {
    exists|i: int| 0 <= i < n && (#[trigger] tracks[i]).0 == id
}

proof fn lemma_tracks_for_members(
    tracks: Seq<(ObjectId, TrackKind)>,
    n: nat,
    id: ObjectId,
    kind: TrackKind,
)
    requires
        n <= tracks.len() <= usize::MAX,
    ensures
        forall|x: usize| #[trigger]
            tracks_for(tracks, n, id, kind).contains(x) <==> (x < n && tracks[x as int] == (id, kind)),
    decreases n,
{
    if n > 0 {
        let m = (n - 1) as nat;
        lemma_tracks_for_members(tracks, m, id, kind);
        let prev = tracks_for(tracks, m, id, kind);
        assert forall|x: usize| #[trigger]
            tracks_for(tracks, n, id, kind).contains(x) <==> (x < n && tracks[x as int] == (id, kind)) by {
            if tracks[m as int] == (id, kind) {
                let all = prev.push(m as usize);
                if all.contains(x) && !prev.contains(x) {
                    let j = choose|j: int| 0 <= j < all.len() && all[j] == x;
                    assert(j == prev.len());
                }
                if x == m {
                    assert(all[prev.len() as int] == x);
                }
                if prev.contains(x) {
                    let j = choose|j: int| 0 <= j < prev.len() && prev[j] == x;
                    assert(all[j] == x);
                }
            }
        }
    }
}

/// Every track lands in exactly one group: the one for its own object and
/// property.
pub proof fn lemma_each_track_in_one_group(
    tracks: Seq<(ObjectId, TrackKind)>,
    i: usize,
    id: ObjectId,
    kind: TrackKind,
)
    requires
        i < tracks.len() <= usize::MAX,
    ensures
        tracks_for(tracks, tracks.len(), id, kind).contains(i) <==> tracks[i as int] == (id, kind),
{
    lemma_tracks_for_members(tracks, tracks.len(), id, kind);
}

/// Group tracks by object and property. `tracks[i]` names the object and
/// property of track `i`; the result maps every animated object to the
/// indices of its tracks, per property, in declaration order.
pub fn index_tracks(tracks: &Vec<(ObjectId, TrackKind)>) -> (index: HashMap<ObjectId, TrackBundle>)
    ensures
        forall|id: ObjectId| #[trigger]
            index@.contains_key(id) <==> has_track(tracks@, tracks@.len(), id),
        forall|id: ObjectId, k: TrackKind| #[trigger]
            index@.contains_key(id) ==> (#[trigger] index@[id].group(k)) == tracks_for(
                tracks@,
                tracks@.len(),
                id,
                k,
            ),
{
    let mut index: HashMap<ObjectId, TrackBundle> = HashMap::new();
    let n = tracks.len();
    let mut i: usize = 0;
    while i < n
        invariant
            n == tracks@.len(),
            i <= n,
            forall|id: ObjectId| #[trigger]
                index@.contains_key(id) <==> has_track(tracks@, i as nat, id),
            forall|id: ObjectId, k: TrackKind| #[trigger]
                index@.contains_key(id) ==> (#[trigger] index@[id].group(k)) == tracks_for(
                    tracks@,
                    i as nat,
                    id,
                    k,
                ),
        decreases n - i,
    {
        let (id, kind) = tracks[i];
        let ghost old_index = index@;
        let mut bundle = match index.remove(&id) {
            Some(b) => b,
            None => TrackBundle::new(),
        };
        assert(forall|k: TrackKind| bundle.group(k) == tracks_for(tracks@, i as nat, id, k)) by {
            if !old_index.contains_key(id) {
                assert forall|k: TrackKind| bundle.group(k) == tracks_for(tracks@, i as nat, id, k) by {
                    lemma_tracks_for_empty(tracks@, i as nat, id, k);
                }
            }
        }
        bundle.add(kind, i);
        index.insert(id, bundle);
        proof {
            assert forall|x: ObjectId| #[trigger]
                index@.contains_key(x) <==> has_track(tracks@, (i + 1) as nat, x) by {
                if x == id {
                    assert(tracks@[i as int].0 == id);
                } else {
                    if has_track(tracks@, (i + 1) as nat, x) {
                        let j = choose|j: int| 0 <= j < i + 1 && (#[trigger] tracks@[j]).0 == x;
                        assert(j < i);
                    }
                }
            }
            assert forall|x: ObjectId, k: TrackKind| #[trigger]
                index@.contains_key(x) implies (#[trigger] index@[x].group(k)) == tracks_for(
                tracks@,
                (i + 1) as nat,
                x,
                k,
            ) by {
                if x != id {
                    assert(old_index.contains_key(x));
                }
            }
        }
        i = i + 1;
    }
    index
}

proof fn lemma_tracks_for_empty(tracks: Seq<(ObjectId, TrackKind)>, n: nat, id: ObjectId, k: TrackKind)
    requires
        !has_track(tracks, n, id),
    ensures
        tracks_for(tracks, n, id, k) == Seq::<usize>::empty(),
    decreases n,
{
    if n > 0 {
        assert(tracks[n - 1].0 != id);
        assert(!has_track(tracks, (n - 1) as nat, id)) by {
            if has_track(tracks, (n - 1) as nat, id) {
                let j = choose|j: int| 0 <= j < n - 1 && (#[trigger] tracks[j]).0 == id;
                assert(0 <= j < n);
            }
        }
        lemma_tracks_for_empty(tracks, (n - 1) as nat, id, k);
    }
}

/// Where the query time lies relative to one segment's span.
#[derive(Clone, Copy, Debug, PartialEq, Eq, Structural)]
pub enum SpanPosition {
    /// Within `[t0, t1]`.
    Inside,
    /// After `t1`.
    Past,
    /// Before `t0`, or not comparable.
    Other,
}

/// Which segment decides a track's value.
#[derive(Clone, Copy, Debug, PartialEq, Eq, Structural)]
pub enum SegmentPick {
    /// The time falls inside this segment: interpolate it.
    Active(usize),
    /// The time lies after this segment and inside none: hold its end value.
    Held(usize),
    /// No segment has begun: the track contributes nothing.
    Nothing,
}

/// Pick the segment that decides a track's value at the query time: the
/// first segment containing the time, else the last segment already over,
/// else none. `spans[i]` places the time relative to segment `i`.
pub fn pick_segment(spans: &Vec<SpanPosition>) -> (p: SegmentPick)
    ensures
        match p {
            SegmentPick::Active(i) => i < spans@.len() && spans@[i as int] == SpanPosition::Inside
                && forall|j: int| 0 <= j < i ==> spans@[j] != SpanPosition::Inside,
            SegmentPick::Held(i) => i < spans@.len() && spans@[i as int] == SpanPosition::Past
                && (forall|j: int| 0 <= j < spans@.len() ==> spans@[j] != SpanPosition::Inside) && (
                forall|j: int| i < j < spans@.len() ==> spans@[j] != SpanPosition::Past),
            SegmentPick::Nothing => forall|j: int|
                0 <= j < spans@.len() ==> spans@[j] == SpanPosition::Other,
        },
{
    let mut held: Option<usize> = None;
    let n = spans.len();
    let mut i: usize = 0;
    while i < n
        invariant
            n == spans@.len(),
            i <= n,
            forall|j: int| 0 <= j < i ==> spans@[j] != SpanPosition::Inside,
            match held {
                Some(h) => h < i && spans@[h as int] == SpanPosition::Past && forall|j: int|
                    h < j < i ==> spans@[j] != SpanPosition::Past,
                None => forall|j: int| 0 <= j < i ==> spans@[j] == SpanPosition::Other,
            },
        decreases n - i,
    {
        match spans[i] {
            SpanPosition::Inside => {
                return SegmentPick::Active(i);
            },
            SpanPosition::Past => {
                held = Some(i);
            },
            SpanPosition::Other => {},
        }
        i = i + 1;
    }
    match held {
        Some(h) => SegmentPick::Held(h),
        None => SegmentPick::Nothing,
    }
}

/// The segment a track contributes for an override property: the last
/// segment that contains the time or is already over.
pub fn latest_contributor(spans: &Vec<SpanPosition>) -> (c: Option<usize>)
    ensures
        match c {
            Some(i) => i < spans@.len() && spans@[i as int] != SpanPosition::Other && forall|j: int|
                i < j < spans@.len() ==> spans@[j] == SpanPosition::Other,
            None => forall|j: int| 0 <= j < spans@.len() ==> spans@[j] == SpanPosition::Other,
        },
{
    let mut found: Option<usize> = None;
    let n = spans.len();
    let mut i: usize = 0;
    while i < n
        invariant
            n == spans@.len(),
            i <= n,
            match found {
                Some(h) => h < i && spans@[h as int] != SpanPosition::Other && forall|j: int|
                    h < j < i ==> spans@[j] == SpanPosition::Other,
                None => forall|j: int| 0 <= j < i ==> spans@[j] == SpanPosition::Other,
            },
        decreases n - i,
    {
        match spans[i] {
            SpanPosition::Other => {},
            _ => {
                found = Some(i);
            },
        }
        i = i + 1;
    }
    found
}

} // verus!
