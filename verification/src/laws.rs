//! The engine's stated laws, proved once and for all against the model.

use vstd::prelude::*;
use crate::model::{
    TrackerModel, EventModel, released_of, pressed_of, latest_press, cycle, run_cycles,
    process_releases, process_presses, lemma_diff_membership, lemma_process_releases_dom,
    lemma_process_presses_dom, lemma_contains_first_rest,
};

verus! {

/// Within one processing cycle no key is both newly pressed and newly
/// released: a key cannot newly appear and newly disappear in the same
/// diff.
pub proof fn lemma_press_release_disjoint(prev: Seq<u64>, snap: Seq<u64>)
    ensures
        forall|k: u64|
            #[trigger] pressed_of(prev, snap).contains(k) ==> !released_of(prev, snap).contains(k),
        forall|k: u64|
            #[trigger] released_of(prev, snap).contains(k) ==> !pressed_of(prev, snap).contains(k),
{
    lemma_diff_membership(prev, snap);
}

/// Feeding a snapshot that holds exactly the keys already retained produces
/// no events and changes nothing but the retained key order.
pub proof fn lemma_identical_snapshot_silent(m: TrackerModel, snap: Seq<u64>, now: u64)
    requires
        forall|k: u64| m.prev.contains(k) <==> snap.contains(k),
    ensures
        cycle(m, snap, now).1 == Seq::<EventModel>::empty(),
        cycle(m, snap, now).0.times == m.times,
        cycle(m, snap, now).0.last_release == m.last_release,
        cycle(m, snap, now).0.prev == snap,
{
    lemma_diff_membership(m.prev, snap);
    let rel = released_of(m.prev, snap);
    let pr = pressed_of(m.prev, snap);
    assert(rel.len() == 0) by {
        if rel.len() > 0 {
            assert(rel.contains(rel[0]));
        }
    }
    assert(pr.len() == 0) by {
        if pr.len() > 0 {
            assert(pr.contains(pr[0]));
        }
    }
    assert(cycle(m, snap, now).1 =~= Seq::<EventModel>::empty());
}

/// Idempotence: processing the same snapshot twice in a row emits no events
/// on the second call and leaves the state of the first call unchanged.
pub proof fn lemma_second_snapshot_silent(m: TrackerModel, snap: Seq<u64>, t1: u64, t2: u64)
    ensures
        cycle(cycle(m, snap, t1).0, snap, t2).1 == Seq::<EventModel>::empty(),
        cycle(cycle(m, snap, t1).0, snap, t2).0 == cycle(m, snap, t1).0,
{
    let m1 = cycle(m, snap, t1).0;
    assert(m1.prev == snap);
    lemma_identical_snapshot_silent(m1, snap, t2);
}

/// After processing any cycle, the retained previous-keys sequence is
/// exactly the snapshot just processed.
pub proof fn lemma_previous_keys_match_snapshot(m: TrackerModel, snap: Seq<u64>, now: u64)
    ensures
        cycle(m, snap, now).0.prev == snap,
{
}

/// The bookkeeping invariant is preserved by every cycle: when press times
/// are recorded for exactly the previously-down keys, then after the cycle
/// they are recorded for exactly the keys of the snapshot just processed.
pub proof fn lemma_cycle_preserves_sync(m: TrackerModel, snap: Seq<u64>, now: u64)
    requires
        m.synced(),
    ensures
        cycle(m, snap, now).0.synced(),
{
    lemma_diff_membership(m.prev, snap);
    let rel = released_of(m.prev, snap);
    let pr = pressed_of(m.prev, snap);
    let r = process_releases(m.times, m.prev, rel, now);
    let last1 = if rel.len() > 0 {
        Option::Some(now)
    } else {
        m.last_release
    };
    lemma_process_releases_dom(m.times, m.prev, rel, now);
    lemma_process_presses_dom(r.0, last1, pr, now);
    assert forall|x: u64|
        cycle(m, snap, now).0.times.dom().contains(x) <==> snap.to_set().contains(x) by {
        assert(m.times.dom().contains(x) <==> m.prev.to_set().contains(x));
    }
    assert(cycle(m, snap, now).0.times.dom() =~= snap.to_set());
}

/// The emitted event stream depends only on the starting state and the
/// supplied (snapshot, timestamp) pairs: replaying equal inputs from equal
/// states reproduces the same events and the same final state, whatever
/// wall-clock jitter produced the samples.
pub proof fn lemma_replay_deterministic(
    m1: TrackerModel,
    m2: TrackerModel,
    inputs1: Seq<(Seq<u64>, u64)>,
    inputs2: Seq<(Seq<u64>, u64)>,
)
    requires
        m1 == m2,
        inputs1 == inputs2,
    ensures
        run_cycles(m1, inputs1) == run_cycles(m2, inputs2),
{
}

/// The counter-strafe reference really is the most recent press: when
/// `latest_press` returns nothing, no held key has a recorded press time;
/// when it returns a time, some held key was pressed then and no held key
/// was pressed later.
pub proof fn lemma_latest_press_is_max(times: Map<u64, u64>, held: Seq<u64>)
    ensures
        match latest_press(times, held) {
            Option::None => forall|k: u64|
                held.contains(k) ==> !(#[trigger] times.dom().contains(k)),
            Option::Some(t) => {
                &&& exists|k: u64|
                    held.contains(k) && #[trigger] times.dom().contains(k) && times[k] == t
                &&& forall|k: u64|
                    held.contains(k) && #[trigger] times.dom().contains(k) ==> times[k] <= t
            },
        },
    decreases held.len(),
{
    if held.len() == 0 {
    } else {
        let rest = held.drop_first();
        let h0 = held.first();
        lemma_latest_press_is_max(times, rest);
        lemma_contains_first_rest(held);
        match latest_press(times, held) {
            Option::None => {
            },
            Option::Some(t) => {
                assert(held.contains(h0));
                match latest_press(times, rest) {
                    Option::None => {
                    },
                    Option::Some(tr) => {
                        let kw = choose|k: u64|
                            rest.contains(k) && #[trigger] times.dom().contains(k) && times[k]
                                == tr;
                        assert(held.contains(kw));
                    },
                }
            },
        }
    }
}

} // verus!
