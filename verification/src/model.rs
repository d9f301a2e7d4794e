//! Mathematical model of the key-transition engine.
//!
//! The tracker state is modelled as a sequence of previously-down key codes,
//! a map from held key code to press timestamp, and the timestamp of the most
//! recent release. A processing cycle is a pure function of (state, snapshot,
//! timestamp): releases are handled first (a release in a cycle can supply
//! the reference time for a press in the same cycle), then presses, and the
//! previous-keys field is replaced by the snapshot.

use vstd::prelude::*;

verus! {

broadcast use vstd::seq_lib::lemma_seq_contains_after_push;

/// Mathematical state of the tracker: the previously processed snapshot (in
/// its sampling order), the press time of each key currently considered
/// down, and the most recent release time, if any.
pub ghost struct TrackerModel {
    pub prev: Seq<u64>,
    pub times: Map<u64, u64>,
    pub last_release: Option<u64>,
}

/// One emitted event: the key that caused it and its timing in milliseconds.
/// Positive timing is a clean strafe (time since the last release of any
/// key); negative timing is a counter strafe (time since the most recent
/// press among keys still held, negated); `None` means no reference
/// timestamp was available.
pub ghost struct EventModel {
    pub key: u64,
    pub timing: Option<int>,
}

impl TrackerModel {
    /// The state at startup: nothing held, nothing recorded.
    pub open spec fn initial() -> TrackerModel {
        TrackerModel { prev: Seq::empty(), times: Map::empty(), last_release: Option::None }
    }

    /// Every recorded press time is at or before `now`.
    pub open spec fn times_le(self, now: u64) -> bool {
        forall|k: u64| self.times.dom().contains(k) ==> self.times[k] <= now
    }

    /// The recorded release time, if any, is at or before `now`.
    pub open spec fn release_le(self, now: u64) -> bool {
        match self.last_release {
            Option::None => true,
            Option::Some(t) => t <= now,
        }
    }

    /// Every recorded timestamp is at or before `now`. Holds whenever the
    /// supplied timestamps are monotone, and licenses the subtractions in
    /// the timing formulas.
    pub open spec fn bounded_by(self, now: u64) -> bool {
        self.times_le(now) && self.release_le(now)
    }

    /// The bookkeeping invariant: the keys with a recorded press time are
    /// exactly the keys of the previously processed snapshot.
    pub open spec fn synced(self) -> bool {
        self.times.dom() == self.prev.to_set()
    }
}

/// Keys that were down in the previous snapshot but are absent from the new
/// one, in previous-snapshot order.
pub open spec fn released_of(prev: Seq<u64>, snap: Seq<u64>) -> Seq<u64> {
    prev.filter(|k: u64| !snap.contains(k))
}

/// Keys that are down in the new snapshot but were absent from the previous
/// one, in snapshot order.
pub open spec fn pressed_of(prev: Seq<u64>, snap: Seq<u64>) -> Seq<u64> {
    snap.filter(|k: u64| !prev.contains(k))
}

/// The previously-down keys other than `key`: the keys still held at the
/// moment `key` is released.
pub open spec fn held_keys(prev: Seq<u64>, key: u64) -> Seq<u64> {
    prev.filter(|j: u64| j != key)
}

/// Clean-strafe timing: milliseconds since the most recent release of any
/// key, or `None` when no release has been seen yet.
pub open spec fn clean_timing(last_release: Option<u64>, now: u64) -> Option<int> {
    match last_release {
        Option::None => Option::None,
        Option::Some(t) => Option::Some(now - t),
    }
}

/// The most recent press time among `held` keys that have a recorded press
/// time, or `None` when none of them has one.
pub open spec fn latest_press(times: Map<u64, u64>, held: Seq<u64>) -> Option<u64>
    decreases held.len(),
{
    if held.len() == 0 {
        Option::<u64>::None
    } else {
        let rest = latest_press(times, held.drop_first());
        if times.dom().contains(held.first()) {
            match rest {
                Option::None => Option::Some(times[held.first()]),
                Option::Some(b) => Option::Some(
                    if b >= times[held.first()] {
                        b
                    } else {
                        times[held.first()]
                    },
                ),
            }
        } else {
            rest
        }
    }
}

/// Counter-strafe timing: milliseconds since the most recent press among the
/// still-held keys, negated; `None` when no held key has a recorded press
/// time.
pub open spec fn counter_timing(times: Map<u64, u64>, held: Seq<u64>, now: u64) -> Option<int> {
    match latest_press(times, held) {
        Option::None => Option::<int>::None,
        Option::Some(t) => Option::Some(-(now - t)),
    }
}

/// The event emitted when `key` is released at `now`: a counter-strafe event
/// when other keys were still held, nothing otherwise.
pub open spec fn release_event(times: Map<u64, u64>, prev: Seq<u64>, key: u64, now: u64) -> Option<
    EventModel,
> {
    if held_keys(prev, key).len() > 0 {
        Option::Some(EventModel { key: key, timing: counter_timing(times, held_keys(prev, key), now) })
    } else {
        Option::<EventModel>::None
    }
}

/// The event emitted when `key` is pressed at `now`: a clean-strafe event
/// when no other key was held at that instant, nothing otherwise.
pub open spec fn press_event(
    times: Map<u64, u64>,
    last_release: Option<u64>,
    key: u64,
    now: u64,
) -> Option<EventModel> {
    if times.dom() =~= Set::<u64>::empty() {
        Option::Some(EventModel { key: key, timing: clean_timing(last_release, now) })
    } else {
        Option::<EventModel>::None
    }
}

/// An optional event as a (zero- or one-element) event sequence.
pub open spec fn events_of(ev: Option<EventModel>) -> Seq<EventModel> {
    match ev {
        Option::None => Seq::empty(),
        Option::Some(e) => seq![e],
    }
}

/// Process the released keys in order: each sets the last-release time,
/// possibly emits a counter-strafe event, and loses its press-time entry.
/// Returns the resulting press-time map and the emitted events.
pub open spec fn process_releases(
    times: Map<u64, u64>,
    prev: Seq<u64>,
    rel: Seq<u64>,
    now: u64,
) -> (Map<u64, u64>, Seq<EventModel>)
    decreases rel.len(),
{
    if rel.len() == 0 {
        (times, Seq::<EventModel>::empty())
    } else {
        let k = rel.first();
        let r = process_releases(times.remove(k), prev, rel.drop_first(), now);
        (r.0, events_of(release_event(times, prev, k, now)) + r.1)
    }
}

/// Process the pressed keys in order: each records its press time and, when
/// no other key was held at that instant, emits a clean-strafe event.
/// Returns the resulting press-time map and the emitted events.
pub open spec fn process_presses(
    times: Map<u64, u64>,
    last_release: Option<u64>,
    pr: Seq<u64>,
    now: u64,
) -> (Map<u64, u64>, Seq<EventModel>)
    decreases pr.len(),
{
    if pr.len() == 0 {
        (times, Seq::<EventModel>::empty())
    } else {
        let k = pr.first();
        let r = process_presses(times.insert(k, now), last_release, pr.drop_first(), now);
        (r.0, events_of(press_event(times, last_release, k, now)) + r.1)
    }
}

/// One full processing cycle on a snapshot taken at `now`: diff the snapshot
/// against the previous one, handle releases first (so a release can supply
/// the reference time for a press in the same cycle), then presses, then
/// retain the snapshot as the new previous-keys set. Returns the new state
/// and the emitted events, release events first.
pub open spec fn cycle(m: TrackerModel, snap: Seq<u64>, now: u64) -> (TrackerModel, Seq<EventModel>) {
    let rel = released_of(m.prev, snap);
    let pr = pressed_of(m.prev, snap);
    let r = process_releases(m.times, m.prev, rel, now);
    let last1 = if rel.len() > 0 {
        Option::Some(now)
    } else {
        m.last_release
    };
    let p = process_presses(r.0, last1, pr, now);
    (TrackerModel { prev: snap, times: p.0, last_release: last1 }, r.1 + p.1)
}

/// Unfolds `released_of` as the previous-keys prefix grows by one key.
pub proof fn lemma_released_of_push(prev: Seq<u64>, snap: Seq<u64>, k: u64)
    ensures
        released_of(prev.push(k), snap) == (if !snap.contains(k) {
            released_of(prev, snap).push(k)
        } else {
            released_of(prev, snap)
        }),
{
    prev.lemma_filter_push(k, |j: u64| !snap.contains(j));
}

/// Unfolds `pressed_of` as the snapshot prefix grows by one key.
pub proof fn lemma_pressed_of_push(prev: Seq<u64>, snap: Seq<u64>, k: u64)
    ensures
        pressed_of(prev, snap.push(k)) == (if !prev.contains(k) {
            pressed_of(prev, snap).push(k)
        } else {
            pressed_of(prev, snap)
        }),
{
    snap.lemma_filter_push(k, |j: u64| !prev.contains(j));
}

/// Unfolds `held_keys` as the previous-keys prefix grows by one key.
pub proof fn lemma_held_keys_push(prev: Seq<u64>, key: u64, k: u64)
    ensures
        held_keys(prev.push(k), key) == (if k != key {
            held_keys(prev, key).push(k)
        } else {
            held_keys(prev, key)
        }),
{
    reveal(Seq::filter);
    assert(prev.push(k).drop_last() =~= prev);
    assert(prev.push(k).last() == k);
}

/// A whole run: fold `cycle` over a sequence of (snapshot, timestamp)
/// pairs, concatenating the emitted events.
pub open spec fn run_cycles(m: TrackerModel, inputs: Seq<(Seq<u64>, u64)>) -> (
    TrackerModel,
    Seq<EventModel>,
)
    decreases inputs.len(),
{
    if inputs.len() == 0 {
        (m, Seq::<EventModel>::empty())
    } else {
        let c = cycle(m, inputs.first().0, inputs.first().1);
        let r = run_cycles(c.0, inputs.drop_first());
        (r.0, c.1 + r.1)
    }
}

/// A non-empty sequence holds a value exactly when its first element is
/// that value or the rest holds it.
pub proof fn lemma_contains_first_rest(s: Seq<u64>)
    requires
        s.len() > 0,
    ensures
        forall|x: u64| s.contains(x) <==> (s.first() == x || s.drop_first().contains(x)),
{
    assert forall|x: u64| s.contains(x) <==> (s.first() == x || s.drop_first().contains(x)) by {
        if s.contains(x) {
            let i = choose|i: int| 0 <= i < s.len() && s[i] == x;
            if i > 0 {
                assert(s.drop_first()[i - 1] == x);
            }
        }
        if s.drop_first().contains(x) {
            let i = choose|i: int| 0 <= i < s.drop_first().len() && s.drop_first()[i] == x;
            assert(s[i + 1] == x);
        }
    }
}

/// A key is newly released exactly when it was down before and is not down
/// now, and newly pressed exactly when it is down now and was not before.
pub proof fn lemma_diff_membership(prev: Seq<u64>, snap: Seq<u64>)
    ensures
        forall|k: u64|
            #[trigger] released_of(prev, snap).contains(k) <==> (prev.contains(k) && !snap.contains(
                k,
            )),
        forall|k: u64|
            #[trigger] pressed_of(prev, snap).contains(k) <==> (snap.contains(k) && !prev.contains(
                k,
            )),
{
    lemma_released_membership(prev, snap);
    lemma_pressed_membership(prev, snap);
}

proof fn lemma_released_membership(prev: Seq<u64>, snap: Seq<u64>)
    ensures
        forall|k: u64|
            #[trigger] released_of(prev, snap).contains(k) <==> (prev.contains(k) && !snap.contains(
                k,
            )),
    decreases prev.len(),
{
    reveal(Seq::filter);
    if prev.len() == 0 {
        assert(released_of(prev, snap).len() == 0);
    } else {
        let sd = prev.drop_last();
        lemma_released_membership(sd, snap);
        lemma_released_of_push(sd, snap, prev.last());
        assert(sd.push(prev.last()) =~= prev);
    }
}

proof fn lemma_pressed_membership(prev: Seq<u64>, snap: Seq<u64>)
    ensures
        forall|k: u64|
            #[trigger] pressed_of(prev, snap).contains(k) <==> (snap.contains(k) && !prev.contains(
                k,
            )),
    decreases snap.len(),
{
    reveal(Seq::filter);
    if snap.len() == 0 {
        assert(pressed_of(prev, snap).len() == 0);
    } else {
        let sd = snap.drop_last();
        lemma_pressed_membership(prev, sd);
        lemma_pressed_of_push(prev, sd, snap.last());
        assert(sd.push(snap.last()) =~= snap);
    }
}

/// Releases drop exactly the released keys from the press-time map.
pub proof fn lemma_process_releases_dom(times: Map<u64, u64>, prev: Seq<u64>, rel: Seq<u64>, now: u64)
    ensures
        forall|x: u64|
            #[trigger] process_releases(times, prev, rel, now).0.dom().contains(x) <==> (
            times.dom().contains(x) && !rel.contains(x)),
    decreases rel.len(),
{
    if rel.len() == 0 {
        assert(forall|x: u64| !rel.contains(x));
    } else {
        let k = rel.first();
        lemma_process_releases_dom(times.remove(k), prev, rel.drop_first(), now);
        lemma_contains_first_rest(rel);
        assert forall|x: u64|
            #[trigger] process_releases(times, prev, rel, now).0.dom().contains(x) <==> (
            times.dom().contains(x) && !rel.contains(x)) by {
            let inner = process_releases(times.remove(k), prev, rel.drop_first(), now).0;
            assert(process_releases(times, prev, rel, now).0 == inner);
            assert(inner.dom().contains(x) <==> (times.remove(k).dom().contains(x)
                && !rel.drop_first().contains(x)));
        }
    }
}

/// Presses add exactly the pressed keys to the press-time map.
pub proof fn lemma_process_presses_dom(
    times: Map<u64, u64>,
    last_release: Option<u64>,
    pr: Seq<u64>,
    now: u64,
)
    ensures
        forall|x: u64|
            #[trigger] process_presses(times, last_release, pr, now).0.dom().contains(x) <==> (
            times.dom().contains(x) || pr.contains(x)),
    decreases pr.len(),
{
    if pr.len() == 0 {
        assert(forall|x: u64| !pr.contains(x));
    } else {
        let k = pr.first();
        lemma_process_presses_dom(times.insert(k, now), last_release, pr.drop_first(), now);
        lemma_contains_first_rest(pr);
        assert forall|x: u64|
            #[trigger] process_presses(times, last_release, pr, now).0.dom().contains(x) <==> (
            times.dom().contains(x) || pr.contains(x)) by {
            let inner = process_presses(times.insert(k, now), last_release, pr.drop_first(), now).0;
            assert(process_presses(times, last_release, pr, now).0 == inner);
            assert(inner.dom().contains(x) <==> (times.insert(k, now).dom().contains(x)
                || pr.drop_first().contains(x)));
        }
    }
}

/// Unfolds `latest_press` from the right: appending one held key combines
/// its press time (when recorded) into the running maximum.
pub proof fn lemma_latest_press_push(times: Map<u64, u64>, held: Seq<u64>, x: u64)
    ensures
        latest_press(times, held.push(x)) == ({
            let rest = latest_press(times, held);
            if times.dom().contains(x) {
                match rest {
                    Option::<u64>::None => Option::Some(times[x]),
                    Option::Some(b) => Option::Some(
                        if b >= times[x] {
                            b
                        } else {
                            times[x]
                        },
                    ),
                }
            } else {
                rest
            }
        }),
    decreases held.len(),
{
    if held.len() == 0 {
        assert(held.push(x).first() == x);
        assert(held.push(x).drop_first() =~= Seq::<u64>::empty());
    } else {
        assert(held.push(x).first() == held.first());
        assert(held.push(x).drop_first() =~= held.drop_first().push(x));
        lemma_latest_press_push(times, held.drop_first(), x);
    }
}

/// Unfolds `process_releases` from the right: appending one released key
/// appends its event (computed from the map left by the earlier releases)
/// and removes its press-time entry.
pub proof fn lemma_process_releases_push(
    times: Map<u64, u64>,
    prev: Seq<u64>,
    rel: Seq<u64>,
    k: u64,
    now: u64,
)
    ensures
        process_releases(times, prev, rel.push(k), now).0 == process_releases(
            times,
            prev,
            rel,
            now,
        ).0.remove(k),
        process_releases(times, prev, rel.push(k), now).1 == process_releases(times, prev, rel, now).1
            + events_of(release_event(process_releases(times, prev, rel, now).0, prev, k, now)),
    decreases rel.len(),
{
    let rp = rel.push(k);
    reveal_with_fuel(process_releases, 3);
    if rel.len() == 0 {
        assert(rp.first() == k);
        assert(rp.drop_first() =~= Seq::<u64>::empty());
        assert(process_releases(times, prev, rp, now).1 =~= Seq::<EventModel>::empty() + events_of(
            release_event(times, prev, k, now),
        ));
    } else {
        let j = rel.first();
        assert(rp.first() == j);
        assert(rp.drop_first() =~= rel.drop_first().push(k));
        lemma_process_releases_push(times.remove(j), prev, rel.drop_first(), k, now);
        let r1 = process_releases(times.remove(j), prev, rel.drop_first(), now);
        assert(process_releases(times, prev, rp, now).1 =~= (events_of(
            release_event(times, prev, j, now),
        ) + r1.1) + events_of(release_event(r1.0, prev, k, now)));
    }
}

/// Unfolds `process_presses` from the right: appending one pressed key
/// appends its event (judged against the map left by the earlier presses)
/// and records its press time.
pub proof fn lemma_process_presses_push(
    times: Map<u64, u64>,
    last_release: Option<u64>,
    pr: Seq<u64>,
    k: u64,
    now: u64,
)
    ensures
        process_presses(times, last_release, pr.push(k), now).0 == process_presses(
            times,
            last_release,
            pr,
            now,
        ).0.insert(k, now),
        process_presses(times, last_release, pr.push(k), now).1 == process_presses(
            times,
            last_release,
            pr,
            now,
        ).1 + events_of(
            press_event(process_presses(times, last_release, pr, now).0, last_release, k, now),
        ),
    decreases pr.len(),
{
    let pp = pr.push(k);
    reveal_with_fuel(process_presses, 3);
    if pr.len() == 0 {
        assert(pp.first() == k);
        assert(pp.drop_first() =~= Seq::<u64>::empty());
        assert(process_presses(times, last_release, pp, now).1 =~= Seq::<EventModel>::empty()
            + events_of(press_event(times, last_release, k, now)));
    } else {
        let j = pr.first();
        assert(pp.first() == j);
        assert(pp.drop_first() =~= pr.drop_first().push(k));
        lemma_process_presses_push(times.insert(j, now), last_release, pr.drop_first(), k, now);
        let r1 = process_presses(times.insert(j, now), last_release, pr.drop_first(), now);
        assert(process_presses(times, last_release, pp, now).1 =~= (events_of(
            press_event(times, last_release, j, now),
        ) + r1.1) + events_of(press_event(r1.0, last_release, k, now)));
    }
}

} // verus!
