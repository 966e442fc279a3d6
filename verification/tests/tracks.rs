use manim_rs::tracks::{
    index_tracks, latest_contributor, pick_segment, SegmentPick, SpanPosition, TrackBundle,
    TrackKind,
};

use SpanPosition::{Inside, Other, Past};

#[test]
fn tracks_group_by_object_and_property_in_order() {
    let tracks = vec![
        (1, TrackKind::Position),
        (2, TrackKind::Opacity),
        (1, TrackKind::Position),
        (1, TrackKind::Color),
        (2, TrackKind::Scale),
    ];
    let index = index_tracks(&tracks);
    assert_eq!(index.len(), 2);
    let one = &index[&1];
    assert_eq!(one.position, vec![0, 2]);
    assert_eq!(one.color, vec![3]);
    assert!(one.opacity.is_empty() && one.rotation.is_empty() && one.scale.is_empty());
    let two = &index[&2];
    assert_eq!(two.opacity, vec![1]);
    assert_eq!(two.scale, vec![4]);
    assert!(index.get(&3).is_none());
}

#[test]
fn no_tracks_no_bundles() {
    assert!(index_tracks(&vec![]).is_empty());
}

#[test]
fn bundle_add_appends_to_one_group() {
    let mut b = TrackBundle::new();
    b.add(TrackKind::Rotation, 4);
    b.add(TrackKind::Rotation, 7);
    assert_eq!(b.rotation, vec![4, 7]);
    assert!(b.position.is_empty());
}

#[test]
fn before_every_segment_nothing_is_picked() {
    assert_eq!(pick_segment(&vec![Other, Other]), SegmentPick::Nothing);
    assert_eq!(pick_segment(&vec![]), SegmentPick::Nothing);
}

#[test]
fn inside_a_segment_it_is_active() {
    assert_eq!(pick_segment(&vec![Past, Inside, Other]), SegmentPick::Active(1));
}

#[test]
fn first_containing_segment_wins() {
    // A zero-length segment at a boundary shares its time with the next.
    assert_eq!(pick_segment(&vec![Inside, Inside]), SegmentPick::Active(0));
}

#[test]
fn in_a_gap_the_last_finished_segment_holds() {
    assert_eq!(pick_segment(&vec![Past, Other]), SegmentPick::Held(0));
    assert_eq!(pick_segment(&vec![Past, Past, Other]), SegmentPick::Held(1));
}

#[test]
fn latest_contributor_is_the_last_begun_segment() {
    assert_eq!(latest_contributor(&vec![Past, Inside, Other]), Some(1));
    assert_eq!(latest_contributor(&vec![Inside, Past]), Some(1));
    assert_eq!(latest_contributor(&vec![Other, Other]), None);
}

#[test]
fn every_track_is_indexed_exactly_once() {
    let kinds = [
        TrackKind::Position,
        TrackKind::Opacity,
        TrackKind::Rotation,
        TrackKind::Scale,
        TrackKind::Color,
    ];
    let tracks: Vec<(u32, TrackKind)> = (0..12).map(|i| ((i % 3) as u32, kinds[i % 5])).collect();
    let index = index_tracks(&tracks);
    let mut seen = vec![0usize; tracks.len()];
    for bundle in index.values() {
        for group in [&bundle.position, &bundle.opacity, &bundle.rotation, &bundle.scale, &bundle.color] {
            for &i in group.iter() {
                seen[i] += 1;
            }
        }
    }
    assert!(seen.iter().all(|&n| n == 1));
    for (i, (id, kind)) in tracks.iter().enumerate() {
        let b = &index[id];
        let group = match kind {
            TrackKind::Position => &b.position,
            TrackKind::Opacity => &b.opacity,
            TrackKind::Rotation => &b.rotation,
            TrackKind::Scale => &b.scale,
            TrackKind::Color => &b.color,
        };
        assert!(group.contains(&i));
    }
}
