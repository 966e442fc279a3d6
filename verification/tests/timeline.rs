use manim_rs::timeline::{active_objects_at, TimelineEvent};

use TimelineEvent::{Add, Remove};

fn ids(out: &[(u32, usize)]) -> Vec<u32> {
    out.iter().map(|(id, _)| *id).collect()
}

#[test]
fn nothing_due_means_nothing_alive() {
    let events = vec![Add { id: 1 }];
    assert!(active_objects_at(&events, &vec![false]).is_empty());
}

#[test]
fn added_object_is_alive_with_its_add_index() {
    let events = vec![Add { id: 1 }];
    assert_eq!(active_objects_at(&events, &vec![true]), vec![(1, 0)]);
}

#[test]
fn removal_takes_the_object_away() {
    let events = vec![Add { id: 1 }, Remove { id: 1 }];
    assert_eq!(active_objects_at(&events, &vec![true, false]).len(), 1);
    assert!(active_objects_at(&events, &vec![true, true]).is_empty());
}

#[test]
fn add_remove_cycles_track_the_last_event() {
    let events = vec![Add { id: 1 }, Remove { id: 1 }, Add { id: 1 }, Remove { id: 1 }];
    assert_eq!(active_objects_at(&events, &vec![true, false, false, false]), vec![(1, 0)]);
    assert!(active_objects_at(&events, &vec![true, true, false, false]).is_empty());
    assert_eq!(active_objects_at(&events, &vec![true, true, true, false]), vec![(1, 2)]);
    assert!(active_objects_at(&events, &vec![true, true, true, true]).is_empty());
}

#[test]
fn replay_stops_at_the_first_event_not_due() {
    // The third event is due but comes after one that is not: replay stops.
    let events = vec![Add { id: 1 }, Add { id: 2 }, Remove { id: 1 }];
    assert_eq!(ids(&active_objects_at(&events, &vec![true, false, true])), vec![1]);
}

#[test]
fn order_is_first_add_order() {
    let events = vec![
        Add { id: 5 },
        Add { id: 3 },
        Remove { id: 5 },
        Add { id: 9 },
        Add { id: 5 },
    ];
    let out = active_objects_at(&events, &vec![true; 5]);
    // 5 was first added before 3, so it keeps its place, with its latest add.
    assert_eq!(out, vec![(5, 4), (3, 1), (9, 3)]);
}

#[test]
fn re_adding_an_alive_object_replaces_its_geometry() {
    let events = vec![Add { id: 7 }, Add { id: 7 }];
    assert_eq!(active_objects_at(&events, &vec![true, true]), vec![(7, 1)]);
}

#[test]
fn removing_an_unknown_object_is_harmless() {
    let events = vec![Remove { id: 4 }, Add { id: 2 }];
    assert_eq!(active_objects_at(&events, &vec![true, true]), vec![(2, 1)]);
}

/// Which events are due at `t`: an event at `op_t` is due unless it lies
/// after `t`.
fn due_at(times: &[f64], t: f64) -> Vec<bool> {
    times.iter().map(|op_t| !(*op_t > t)).collect()
}

#[test]
fn removed_object_disappears() {
    let events = vec![Add { id: 1 }, Remove { id: 1 }];
    let times = [0.0, 1.0];
    assert_eq!(active_objects_at(&events, &due_at(&times, 0.5)).len(), 1);
    // Removal is inclusive at its timestamp.
    assert_eq!(active_objects_at(&events, &due_at(&times, 1.0)).len(), 0);
    assert_eq!(active_objects_at(&events, &due_at(&times, 2.0)).len(), 0);
}

#[test]
fn not_yet_added_object_absent() {
    let events = vec![Add { id: 1 }];
    let times = [1.0];
    assert_eq!(active_objects_at(&events, &due_at(&times, 0.5)).len(), 0);
    assert_eq!(active_objects_at(&events, &due_at(&times, 1.0)).len(), 1);
}

#[test]
fn multiple_add_remove_cycles_track_liveness() {
    let events = vec![Add { id: 1 }, Remove { id: 1 }, Add { id: 1 }, Remove { id: 1 }];
    let times = [0.0, 1.0, 2.0, 3.0];
    let alive = |t: f64| active_objects_at(&events, &due_at(&times, t)).len();
    assert_eq!(alive(0.5), 1, "present in [0,1)");
    assert_eq!(alive(1.0), 0, "removed at t=1");
    assert_eq!(alive(1.5), 0, "absent in [1,2)");
    assert_eq!(alive(2.0), 1, "re-added at t=2");
    assert_eq!(alive(2.5), 1, "present in [2,3)");
    assert_eq!(alive(3.0), 0, "removed at t=3");
}

#[test]
fn earlier_listed_objects_were_added_first() {
    let events = vec![Add { id: 4 }, Add { id: 2 }, Remove { id: 4 }, Add { id: 8 }, Add { id: 4 }];
    let out = active_objects_at(&events, &vec![true; 5]);
    let first_add = |id: u32| events.iter().position(|e| *e == Add { id }).unwrap();
    for w in out.windows(2) {
        assert!(first_add(w[0].0) < first_add(w[1].0));
    }
}
