//! Render-pass sequencing for one frame.
//!
//! Objects are drawn one pass each. The first object that draws anything
//! clears the target to the background; later ones load what is there.
//! When nothing draws, a bare clear pass runs before read-back so that the
//! frame is still well defined.
use vstd::prelude::*;

verus! {

/// What the pass for one object does.
#[derive(Clone, Copy, Debug, PartialEq, Eq, Structural)]
pub enum PassAction {
    /// The object draws nothing; no pass runs.
    Skip,
    /// Clear to the background, then draw.
    ClearThenDraw,
    /// Draw over what is already there.
    LoadThenDraw,
}

/// The passes of one frame.
pub struct FramePasses {
    /// One action per object, in draw order.
    pub actions: Vec<PassAction>,
    /// Whether a bare clear pass runs after the objects.
    pub tail_clear: bool,
}

/// Action for object `i` given which objects draw nothing.
pub open spec fn pass_action(empty: Seq<bool>, i: int) -> PassAction {
    if empty[i] {
        PassAction::Skip
    } else if forall|j: int| 0 <= j < i ==> empty[j] {
        PassAction::ClearThenDraw
    } else {
        PassAction::LoadThenDraw
    }
}

/// Sequence the passes of a frame. `empty[i]` says whether object `i`
/// tessellates to nothing.
pub fn plan_passes(empty: &Vec<bool>) -> (p: FramePasses)
    ensures
        p.actions@.len() == empty@.len(),
        forall|i: int| 0 <= i < empty@.len() ==> #[trigger] p.actions@[i] == pass_action(empty@, i),
        p.tail_clear == (forall|j: int| 0 <= j < empty@.len() ==> empty@[j]),
{
    let mut actions: Vec<PassAction> = Vec::new();
    let mut needs_clear = true;
    let n = empty.len();
    let mut i: usize = 0;
    while i < n
        invariant
            n == empty@.len(),
            i <= n,
            actions@.len() == i,
            needs_clear == (forall|j: int| 0 <= j < i ==> empty@[j]),
            forall|k: int| 0 <= k < i ==> #[trigger] actions@[k] == pass_action(empty@, k),
        decreases n - i,
    {
        if empty[i] {
            actions.push(PassAction::Skip);
        } else if needs_clear {
            actions.push(PassAction::ClearThenDraw);
            needs_clear = false;
        } else {
            actions.push(PassAction::LoadThenDraw);
        }
        proof {
            assert(needs_clear == (forall|j: int| 0 <= j < i + 1 ==> empty@[j])) by {
                if !empty@[i as int] {
                    assert(!(forall|j: int| 0 <= j < i + 1 ==> empty@[j]));
                }
            }
        }
        i = i + 1;
    }
    FramePasses { actions, tail_clear: needs_clear }
}

/// Number of clearing passes in a frame plan.
pub open spec fn clear_count(actions: Seq<PassAction>, tail_clear: bool) -> nat
    decreases actions.len(),
{
    if actions.len() == 0 {
        if tail_clear {
            1
        } else {
            0
        }
    } else {
        clear_count(actions.drop_last(), tail_clear) + if actions.last() == PassAction::ClearThenDraw {
            1nat
        } else {
            0nat
        }
    }
}

proof fn lemma_clears_in_prefix(empty: Seq<bool>, k: nat, tail_clear: bool)
    requires
        k <= empty.len(),
        tail_clear == (forall|j: int| 0 <= j < empty.len() ==> empty[j]),
    ensures
        clear_count(Seq::new(k, |i: int| pass_action(empty, i)), tail_clear) == (if forall|j: int|
            0 <= j < k ==> empty[j] {
            if tail_clear {
                1nat
            } else {
                0nat
            }
        } else {
            if tail_clear {
                2nat
            } else {
                1nat
            }
        }),
    decreases k,
{
    let s = Seq::new(k, |i: int| pass_action(empty, i));
    if k > 0 {
        let m = (k - 1) as nat;
        lemma_clears_in_prefix(empty, m, tail_clear);
        assert(s.drop_last() =~= Seq::new(m, |i: int| pass_action(empty, i)));
        if !empty[m as int] && (forall|j: int| 0 <= j < m ==> empty[j]) {
            assert(!tail_clear);
        }
        if !(forall|j: int| 0 <= j < m ==> empty[j]) {
            let w = choose|j: int| 0 <= j < m && !empty[j];
            assert(!tail_clear);
            assert(s.last() != PassAction::ClearThenDraw);
        }
    }
}

/// Every frame clears the target exactly once: on the first object that
/// draws, or in the tail pass when no object draws.
pub proof fn lemma_exactly_one_clear(empty: Seq<bool>)
    ensures
        clear_count(
            Seq::new(empty.len(), |i: int| pass_action(empty, i)),
            forall|j: int| 0 <= j < empty.len() ==> empty[j],
        ) == 1,
{
    lemma_clears_in_prefix(empty, empty.len(), forall|j: int| 0 <= j < empty.len() ==> empty[j]);
}

} // verus!
