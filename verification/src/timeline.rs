//! Timeline replay: which objects are alive at a given time.
//!
//! The timeline is a list of add/remove events sorted by time. Replaying
//! the events whose time has been reached tells which objects are alive;
//! the result keeps the order in which objects were first added so that
//! render order stays deterministic.
use vstd::prelude::*;

use crate::ir::ObjectId;

verus! {

broadcast use vstd::std_specs::hash::group_hash_axioms;

/// One add-or-remove event of the timeline, stripped of its time and
/// geometry.
#[derive(Clone, Copy, Debug, PartialEq, Eq, Structural)]
pub enum TimelineEvent {
    Add { id: ObjectId },
    Remove { id: ObjectId },
}

impl TimelineEvent {
    pub open spec fn spec_id(self) -> ObjectId {
        match self {
            TimelineEvent::Add { id } => id,
            TimelineEvent::Remove { id } => id,
        }
    }
}

/// Number of leading events that are due: replay stops at the first event
/// whose time lies after the query time.
pub open spec fn due_prefix(due: Seq<bool>, i: nat) -> nat
    decreases due.len() - i,
{
    if i >= due.len() {
        due.len()
    } else if !due[i as int] {
        i
    } else {
        due_prefix(due, i + 1)
    }
}

/// Alive objects after replaying the first `n` events, each mapped to the
/// index of the add event that brought it in.
pub open spec fn live_map(events: Seq<TimelineEvent>, n: nat) -> Map<ObjectId, usize>
    decreases n,
{
    if n == 0 {
        Map::empty()
    } else {
        let prev = live_map(events, (n - 1) as nat);
        match events[n - 1] {
            TimelineEvent::Add { id } => prev.insert(id, (n - 1) as usize),
            TimelineEvent::Remove { id } => prev.remove(id),
        }
    }
}

/// Ids in the order of their first add among the first `n` events.
pub open spec fn first_seen(events: Seq<TimelineEvent>, n: nat) -> Seq<ObjectId>
    decreases n,
{
    if n == 0 {
        Seq::empty()
    } else {
        let prev = first_seen(events, (n - 1) as nat);
        match events[n - 1] {
            TimelineEvent::Add { id } => if prev.contains(id) {
                prev
            } else {
                prev.push(id)
            },
            TimelineEvent::Remove { .. } => prev,
        }
    }
}

/// The ids of `order` that are alive in `live`, in order, with their add
/// event index.
pub open spec fn select_live(order: Seq<ObjectId>, live: Map<ObjectId, usize>) -> Seq<(ObjectId, usize)>
    decreases order.len(),
{
    if order.len() == 0 {
        Seq::empty()
    } else {
        let rest = select_live(order.drop_last(), live);
        let id = order.last();
        if live.contains_key(id) {
            rest.push((id, live[id]))
        } else {
            rest
        }
    }
}

/// Alive objects once every due event has been replayed.
pub open spec fn active_at(events: Seq<TimelineEvent>, due: Seq<bool>) -> Seq<(ObjectId, usize)> {
    let n = due_prefix(due, 0);
    select_live(first_seen(events, n), live_map(events, n))
}

/// The last event for `id` among the first `n` is an add, at index `k`.
pub open spec fn last_event_is_add(events: Seq<TimelineEvent>, n: nat, id: ObjectId, k: int) -> bool {
    &&& 0 <= k < n
    &&& events[k] == (TimelineEvent::Add { id })
    &&& forall|m: int| k < m < n ==> (#[trigger] events[m]).spec_id() != id
}

proof fn lemma_due_prefix_bounds(due: Seq<bool>, i: nat)
    requires
        i <= due.len(),
    ensures
        i <= due_prefix(due, i) <= due.len(),
        forall|m: int| i <= m < due_prefix(due, i) ==> due[m],
    decreases due.len() - i,
{
    if i < due.len() && due[i as int] {
        lemma_due_prefix_bounds(due, i + 1);
    }
}

proof fn lemma_first_seen_distinct(events: Seq<TimelineEvent>, n: nat)
    requires
        n <= events.len(),
    ensures
        first_seen(events, n).no_duplicates(),
        forall|id: ObjectId|
            first_seen(events, n).contains(id) <==> exists|k: int|
                0 <= k < n && #[trigger] events[k] == (TimelineEvent::Add { id }),
    decreases n,
{
    if n > 0 {
        let m = (n - 1) as nat;
        lemma_first_seen_distinct(events, m);
        let prev = first_seen(events, m);
        match events[n - 1] {
            TimelineEvent::Add { id } => {
                if !prev.contains(id) {
                    assert forall|a: int, b: int|
                        0 <= a < b < prev.push(id).len() implies prev.push(id)[a] != prev.push(
                        id,
                    )[b] by {
                        if b == prev.len() {
                            assert(prev.contains(prev[a]));
                        }
                    }
                }
                assert forall|x: ObjectId|
                    first_seen(events, n).contains(x) <==> exists|k: int|
                        0 <= k < n && #[trigger] events[k] == (TimelineEvent::Add { id: x }) by {
                    if first_seen(events, n).contains(x) {
                        if !prev.contains(x) {
                            assert(x == id);
                            assert(events[n - 1] == (TimelineEvent::Add { id: x }));
                        } else {
                            let k = choose|k: int|
                                0 <= k < m && #[trigger] events[k] == (TimelineEvent::Add { id: x });
                            assert(0 <= k < n);
                        }
                    } else {
                        if exists|k: int|
                            0 <= k < n && #[trigger] events[k] == (TimelineEvent::Add { id: x }) {
                            let k = choose|k: int|
                                0 <= k < n && #[trigger] events[k] == (TimelineEvent::Add { id: x });
                            if k < m {
                                assert(prev.contains(x));
                                assert(first_seen(events, n).contains(x)) by {
                                    if prev.contains(id) {
                                    } else {
                                        let j = choose|j: int| 0 <= j < prev.len() && prev[j] == x;
                                        assert(prev.push(id)[j] == x);
                                    }
                                }
                            } else {
                                assert(x == id);
                                assert(first_seen(events, n).contains(x)) by {
                                    if prev.contains(id) {
                                    } else {
                                        assert(prev.push(id)[prev.len() as int] == x);
                                    }
                                }
                            }
                        }
                    }
                }
            },
            TimelineEvent::Remove { id } => {
                assert forall|x: ObjectId|
                    first_seen(events, n).contains(x) <==> exists|k: int|
                        0 <= k < n && #[trigger] events[k] == (TimelineEvent::Add { id: x }) by {
                    if exists|k: int|
                        0 <= k < n && #[trigger] events[k] == (TimelineEvent::Add { id: x }) {
                        let k = choose|k: int|
                            0 <= k < n && #[trigger] events[k] == (TimelineEvent::Add { id: x });
                        assert(k < m);
                    }
                }
            },
        }
    }
}

proof fn lemma_live_map_values(events: Seq<TimelineEvent>, n: nat)
    requires
        n <= events.len(),
        events.len() <= usize::MAX,
    ensures
        forall|id: ObjectId|
            #[trigger] live_map(events, n).contains_key(id) ==> last_event_is_add(
                events,
                n,
                id,
                live_map(events, n)[id] as int,
            ),
        forall|id: ObjectId, k: int|
            #[trigger] last_event_is_add(events, n, id, k) ==> live_map(events, n).contains_key(id)
                && live_map(events, n)[id] == k,
    decreases n,
{
    if n > 0 {
        let m = (n - 1) as nat;
        lemma_live_map_values(events, m);
        assert forall|id: ObjectId, k: int|
            #[trigger] last_event_is_add(events, n, id, k) implies live_map(events, n).contains_key(
                id,
            ) && live_map(events, n)[id] == k by {
            if k < m {
                assert(events[m as int].spec_id() != id);
                assert(last_event_is_add(events, m, id, k));
                match events[m as int] {
                    TimelineEvent::Add { id: a } => {
                        assert(live_map(events, n) == live_map(events, m).insert(a, m as usize));
                    },
                    TimelineEvent::Remove { id: a } => {
                        assert(live_map(events, n) == live_map(events, m).remove(a));
                    },
                }
            } else {
                assert(live_map(events, n) == live_map(events, m).insert(id, m as usize));
            }
        }
        assert forall|id: ObjectId| #[trigger]
            live_map(events, n).contains_key(id) implies last_event_is_add(
            events,
            n,
            id,
            live_map(events, n)[id] as int,
        ) by {
            match events[m as int] {
                TimelineEvent::Add { id: a } => {
                    assert(live_map(events, n) == live_map(events, m).insert(a, m as usize));
                    if a != id {
                        assert(live_map(events, m).contains_key(id));
                        let k = live_map(events, m)[id] as int;
                        assert(last_event_is_add(events, m, id, k));
                        assert(live_map(events, n)[id] == live_map(events, m)[id]);
                        assert forall|x: int| k < x < n implies (#[trigger] events[x]).spec_id() != id by {
                            if x < m {
                            } else {
                                assert(events[x].spec_id() == a);
                            }
                        }
                    }
                },
                TimelineEvent::Remove { id: a } => {
                    assert(live_map(events, n) == live_map(events, m).remove(a));
                    assert(a != id);
                    assert(live_map(events, m).contains_key(id));
                    let k = live_map(events, m)[id] as int;
                    assert(last_event_is_add(events, m, id, k));
                    assert forall|x: int| k < x < n implies (#[trigger] events[x]).spec_id() != id by {
                        if x < m {
                        } else {
                            assert(events[x].spec_id() == a);
                        }
                    }
                },
            }
        }
    }
}

proof fn lemma_select_live(order: Seq<ObjectId>, live: Map<ObjectId, usize>)
    requires
        order.no_duplicates(),
    ensures
        forall|x: int|
            0 <= x < select_live(order, live).len() ==> live.contains_key(
                (#[trigger] select_live(order, live)[x]).0,
            ) && order.contains(select_live(order, live)[x].0) && live[select_live(
                order,
                live,
            )[x].0] == select_live(order, live)[x].1,
        forall|id: ObjectId|
            order.contains(id) && live.contains_key(id) ==> exists|x: int|
                0 <= x < select_live(order, live).len() && (#[trigger] select_live(order, live)[x]).0
                    == id,
        forall|a: int, b: int|
            0 <= a < b < select_live(order, live).len() ==> (#[trigger] select_live(order, live)[a]).0
                != (#[trigger] select_live(order, live)[b]).0,
    decreases order.len(),
{
    if order.len() > 0 {
        let init = order.drop_last();
        let id = order.last();
        assert(init.no_duplicates());
        lemma_select_live(init, live);
        let rest = select_live(init, live);
        let s = select_live(order, live);
        assert(!init.contains(id)) by {
            if init.contains(id) {
                let j = choose|j: int| 0 <= j < init.len() && init[j] == id;
                assert(order[j] == order[order.len() - 1]);
            }
        }
        assert forall|x: int| 0 <= x < s.len() implies live.contains_key((#[trigger] s[x]).0)
            && order.contains(s[x].0) && live[s[x].0] == s[x].1 by {
            if x < rest.len() {
                assert(s[x] == rest[x]);
                let j = choose|j: int| 0 <= j < init.len() && init[j] == rest[x].0;
                assert(order[j] == init[j]);
            } else {
                assert(order[order.len() - 1] == id);
            }
        }
        assert forall|y: ObjectId| order.contains(y) && live.contains_key(y) implies exists|x: int|
            0 <= x < s.len() && (#[trigger] s[x]).0 == y by {
            if y == id {
                assert(s[s.len() - 1].0 == y);
            } else {
                let j = choose|j: int| 0 <= j < order.len() && order[j] == y;
                assert(j < init.len());
                assert(init[j] == y);
                assert(init.contains(y));
                let x = choose|x: int| 0 <= x < rest.len() && (#[trigger] rest[x]).0 == y;
                assert(s[x] == rest[x]);
            }
        }
        assert forall|a: int, b: int| 0 <= a < b < s.len() implies (#[trigger] s[a]).0
            != (#[trigger] s[b]).0 by {
            if b < rest.len() {
                assert(s[a] == rest[a]);
                assert(s[b] == rest[b]);
            } else {
                assert(s[a] == rest[a]);
                assert(init.contains(rest[a].0));
            }
        }
    }
}

/// An object is reported alive exactly when its last replayed event is an
/// add; it is reported once, with the index of that add.
pub proof fn lemma_active_membership(events: Seq<TimelineEvent>, due: Seq<bool>, id: ObjectId)
    requires
        events.len() == due.len(),
        events.len() <= usize::MAX,
    ensures
        (exists|x: int|
            0 <= x < active_at(events, due).len() && (#[trigger] active_at(events, due)[x]).0 == id)
            <==> (exists|k: int| last_event_is_add(events, due_prefix(due, 0), id, k)),
        forall|x: int, k: int|
            0 <= x < active_at(events, due).len() && (#[trigger] active_at(events, due)[x]).0 == id
                && #[trigger] last_event_is_add(events, due_prefix(due, 0), id, k) ==> active_at(
                events,
                due,
            )[x].1 == k,
{
    let n = due_prefix(due, 0);
    lemma_due_prefix_bounds(due, 0);
    lemma_first_seen_distinct(events, n);
    lemma_live_map_values(events, n);
    let order = first_seen(events, n);
    let live = live_map(events, n);
    lemma_select_live(order, live);
    let s = active_at(events, due);
    if exists|x: int| 0 <= x < s.len() && (#[trigger] s[x]).0 == id {
        let x = choose|x: int| 0 <= x < s.len() && (#[trigger] s[x]).0 == id;
        assert(live.contains_key(id));
        assert(last_event_is_add(events, n, id, live[id] as int));
    }
    if exists|k: int| last_event_is_add(events, n, id, k) {
        let k = choose|k: int| last_event_is_add(events, n, id, k);
        assert(live.contains_key(id));
        assert(events[k] == (TimelineEvent::Add { id }));
        assert(order.contains(id));
    }
}

/// Every object is reported at most once.
pub proof fn lemma_active_distinct(events: Seq<TimelineEvent>, due: Seq<bool>)
    requires
        events.len() == due.len(),
    ensures
        forall|a: int, b: int|
            0 <= a < b < active_at(events, due).len() ==> (#[trigger] active_at(events, due)[a]).0
                != (#[trigger] active_at(events, due)[b]).0,
{
    let n = due_prefix(due, 0);
    lemma_due_prefix_bounds(due, 0);
    lemma_first_seen_distinct(events, n);
    lemma_select_live(first_seen(events, n), live_map(events, n));
}

/// Some event before index `k` adds `id`.
pub open spec fn added_before(events: Seq<TimelineEvent>, id: ObjectId, k: int) -> bool {
    exists|j: int| 0 <= j < k && #[trigger] events[j] == (TimelineEvent::Add { id })
}

proof fn lemma_first_seen_order(events: Seq<TimelineEvent>, n: nat)
    requires
        n <= events.len(),
    ensures
        forall|a: int, b: int, kb: int|
            0 <= a < b < first_seen(events, n).len() && 0 <= kb < events.len() && #[trigger] events[kb]
                == (TimelineEvent::Add { id: #[trigger] first_seen(events, n)[b] }) ==> added_before(
                events,
                #[trigger] first_seen(events, n)[a],
                kb,
            ),
    decreases n,
{
    if n > 0 {
        let m = (n - 1) as nat;
        lemma_first_seen_order(events, m);
        lemma_first_seen_distinct(events, m);
        let prev = first_seen(events, m);
        let fs = first_seen(events, n);
        assert forall|a: int, b: int, kb: int|
            0 <= a < b < fs.len() && 0 <= kb < events.len() && #[trigger] events[kb]
                == (TimelineEvent::Add { id: #[trigger] fs[b] }) implies added_before(
            events,
            #[trigger] fs[a],
            kb,
        ) by {
            if b < prev.len() {
                assert(fs[a] == prev[a] && fs[b] == prev[b]);
            } else {
                let id = fs[b];
                assert(events[m as int] == (TimelineEvent::Add { id }));
                assert(!prev.contains(id));
                assert(fs[a] == prev[a]);
                assert(prev.contains(prev[a]));
                let ka = choose|ka: int|
                    0 <= ka < m && #[trigger] events[ka] == (TimelineEvent::Add { id: prev[a] });
                assert(kb >= m) by {
                    if kb < m {
                        assert(exists|k: int|
                            0 <= k < m && #[trigger] events[k] == (TimelineEvent::Add { id }));
                    }
                }
                assert(0 <= ka < kb && events[ka] == (TimelineEvent::Add { id: fs[a] }));
            }
        }
    }
}

proof fn lemma_select_live_order(order: Seq<ObjectId>, live: Map<ObjectId, usize>)
    requires
        order.no_duplicates(),
    ensures
        forall|x: int, y: int|
            0 <= x < y < select_live(order, live).len() ==> exists|a: int, b: int|
                0 <= a < b < order.len() && #[trigger] order[a] == (#[trigger] select_live(
                    order,
                    live,
                )[x]).0 && #[trigger] order[b] == (#[trigger] select_live(order, live)[y]).0,
    decreases order.len(),
{
    if order.len() > 0 {
        let init = order.drop_last();
        assert(init.no_duplicates());
        lemma_select_live_order(init, live);
        lemma_select_live(init, live);
        let rest = select_live(init, live);
        let s = select_live(order, live);
        assert forall|x: int, y: int| 0 <= x < y < s.len() implies exists|a: int, b: int|
            0 <= a < b < order.len() && #[trigger] order[a] == (#[trigger] s[x]).0 && #[trigger] order[b]
                == (#[trigger] s[y]).0 by {
            assert(s[x] == rest[x]);
            if y < rest.len() {
                assert(s[y] == rest[y]);
                let (a, b) = choose|a: int, b: int|
                    0 <= a < b < init.len() && #[trigger] init[a] == (#[trigger] rest[x]).0
                        && #[trigger] init[b] == (#[trigger] rest[y]).0;
                assert(order[a] == init[a] && order[b] == init[b]);
            } else {
                assert(init.contains(rest[x].0));
                let a = choose|a: int| 0 <= a < init.len() && init[a] == rest[x].0;
                let b = order.len() - 1;
                assert(order[a] == init[a]);
                assert(s[y].0 == order[b]);
            }
        }
    }
}

/// Objects are listed in the order they were first added: an object
/// listed before another was added before every add of the other.
pub proof fn lemma_active_in_first_add_order(events: Seq<TimelineEvent>, due: Seq<bool>)
    requires
        events.len() == due.len(),
    ensures
        forall|x: int, y: int, kb: int|
            0 <= x < y < active_at(events, due).len() && 0 <= kb < events.len() && #[trigger] events[kb]
                == (TimelineEvent::Add { id: (#[trigger] active_at(events, due)[y]).0 })
                ==> added_before(events, (#[trigger] active_at(events, due)[x]).0, kb),
{
    let n = due_prefix(due, 0);
    lemma_due_prefix_bounds(due, 0);
    lemma_first_seen_distinct(events, n);
    lemma_first_seen_order(events, n);
    let order = first_seen(events, n);
    let live = live_map(events, n);
    lemma_select_live_order(order, live);
    let s = active_at(events, due);
    assert forall|x: int, y: int, kb: int|
        0 <= x < y < s.len() && 0 <= kb < events.len() && #[trigger] events[kb] == (TimelineEvent::Add {
            id: (#[trigger] s[y]).0,
        }) implies added_before(events, (#[trigger] s[x]).0, kb) by {
        let (a, b) = choose|a: int, b: int|
            0 <= a < b < order.len() && #[trigger] order[a] == (#[trigger] s[x]).0 && #[trigger] order[b]
                == (#[trigger] s[y]).0;
        assert(events[kb] == (TimelineEvent::Add { id: order[b] }));
        assert(added_before(events, order[a], kb));
    }
}

/// Replay the events that are due and list the alive objects.
///
/// `due[i]` tells whether event `i` happens no later than the query time.
/// Events are replayed in order until the first one that is not due. Each
/// alive object is reported with the index of the add event that supplied
/// it, in the order of first addition.
pub fn active_objects_at(events: &Vec<TimelineEvent>, due: &Vec<bool>) -> (out: Vec<(ObjectId, usize)>)
    requires
        events.len() == due.len(),
    ensures
        out@ == active_at(events@, due@),
{
    let mut first: Vec<ObjectId> = Vec::new();
    let mut seen: std::collections::HashSet<ObjectId> = std::collections::HashSet::new();
    let mut active: std::collections::HashMap<ObjectId, usize> = std::collections::HashMap::new();
    let len = events.len();
    let mut i: usize = 0;
    proof {
        lemma_due_prefix_bounds(due@, 0);
    }
    while i < len && due[i]
        invariant
            len == events@.len(),
            len == due@.len(),
            i <= len,
            i <= due_prefix(due@, 0),
            due_prefix(due@, 0) <= len,
            forall|m: int| 0 <= m < due_prefix(due@, 0) ==> due@[m],
            due_prefix(due@, i as nat) == due_prefix(due@, 0),
            first@ == first_seen(events@, i as nat),
            seen@ == first@.to_set(),
            active@ == live_map(events@, i as nat),
        decreases len - i,
    {
        match events[i] {
            TimelineEvent::Add { id } => {
                let ghost f0 = first@;
                let fresh = seen.insert(id);
                if fresh {
                    first.push(id);
                    proof {
                        f0.lemma_push_to_set_commute(id);
                    }
                } else {
                    assert(f0.contains(id));
                }
                active.insert(id, i);
            },
            TimelineEvent::Remove { id } => {
                active.remove(&id);
            },
        }
        proof {
            lemma_due_prefix_bounds(due@, (i + 1) as nat);
        }
        i = i + 1;
    }
    assert(i == due_prefix(due@, 0)) by {
        if i < len {
            assert(!due@[i as int]);
        }
    }
    proof {
        lemma_first_seen_distinct(events@, i as nat);
    }
    let ghost order = first@;
    let ghost live = active@;
    let mut out: Vec<(ObjectId, usize)> = Vec::new();
    let mut k: usize = 0;
    let count = first.len();
    while k < count
        invariant
            count == order.len(),
            first@ == order,
            order.no_duplicates(),
            k <= count,
            out@ == select_live(order.take(k as int), live),
            forall|m: int|
                k <= m < count ==> (active@.contains_key(#[trigger] order[m]) <==> live.contains_key(
                    order[m],
                )) && (active@.contains_key(order[m]) ==> active@[order[m]] == live[order[m]]),
        decreases count - k,
    {
        let id = first[k];
        let hit = active.remove(&id);
        proof {
            assert(order.take(k + 1).drop_last() =~= order.take(k as int));
            assert(order.take(k + 1).last() == id);
        }
        match hit {
            Some(idx) => {
                out.push((id, idx));
            },
            None => {},
        }
        proof {
            assert forall|m: int| k + 1 <= m < count implies (active@.contains_key(
                #[trigger] order[m],
            ) <==> live.contains_key(order[m])) && (active@.contains_key(order[m])
                ==> active@[order[m]] == live[order[m]]) by {
                assert(order[m] != order[k as int]);
            }
        }
        k = k + 1;
    }
    assert(order.take(count as int) =~= order);
    out
}

} // verus!
