//! Executable key-transition engine: snapshots, events, and the tracker.
//!
//! Key codes are plain `u64` values and timestamps are milliseconds as
//! `u64`; the sampling layer converts whatever identifiers its input device
//! uses into codes before handing a snapshot over. The tracker keeps its
//! press times in an association vector whose mathematical content is the
//! map `assoc_map` of its entries.

use vstd::prelude::*;
use crate::model::{
    TrackerModel, EventModel, clean_timing, counter_timing, latest_press, held_keys, released_of,
    pressed_of, release_event, press_event, events_of, process_releases, process_presses, cycle,
    lemma_latest_press_push, lemma_process_releases_push, lemma_process_presses_push,
    lemma_released_of_push, lemma_pressed_of_push, lemma_held_keys_push,
};

verus! {

broadcast use {
    vstd::prelude::Seq::lemma_filter_push,
    vstd::prelude::Seq::lemma_take_succ_push,
    vstd::prelude::Seq::lemma_take_len,
    vstd::seq_lib::lemma_seq_contains_after_push,
};

/// One emitted timing event. A positive `time_since_release_ms` is a clean
/// strafe, a negative one a counter strafe, `None` means no reference
/// timestamp was available yet.
#[derive(Clone, Copy, Debug, PartialEq, Eq)]
pub struct TimingEvent {
    pub key: u64,
    pub time_since_release_ms: Option<i128>,
}

impl View for TimingEvent {
    type V = EventModel;

    open spec fn view(&self) -> EventModel {
        EventModel {
            key: self.key,
            timing: match self.time_since_release_ms {
                Option::None => Option::None,
                Option::Some(x) => Option::Some(x as int),
            },
        }
    }
}

/// The events of an optional event.
pub open spec fn opt_model(ev: Option<TimingEvent>) -> Option<EventModel> {
    match ev {
        Option::None => Option::None,
        Option::Some(e) => Option::Some(e@),
    }
}

/// The model of an event sequence.
pub open spec fn models(s: Seq<TimingEvent>) -> Seq<EventModel> {
    s.map_values(|e: TimingEvent| e@)
}

/// The model of an optional timing value.
pub open spec fn opt_int(r: Option<i128>) -> Option<int> {
    match r {
        Option::None => Option::None,
        Option::Some(x) => Option::Some(x as int),
    }
}

/// The press time `times` records for `key`, if any.
pub open spec fn time_of(times: Map<u64, u64>, key: u64) -> Option<u64> {
    if times.dom().contains(key) {
        Option::Some(times[key])
    } else {
        Option::<u64>::None
    }
}

/// Whether some entry of the association vector carries `key`.
pub open spec fn has_key(s: Seq<(u64, u64)>, key: u64) -> bool {
    exists|i: int| 0 <= i < s.len() && s[i].0 == key
}

/// No two entries of the association vector carry the same key.
pub open spec fn distinct_keys(s: Seq<(u64, u64)>) -> bool {
    forall|i: int, j: int| 0 <= i < j < s.len() ==> s[i].0 != s[j].0
}

/// The map an association vector stands for; later entries win.
pub open spec fn assoc_map(s: Seq<(u64, u64)>) -> Map<u64, u64>
    decreases s.len(),
{
    if s.len() == 0 {
        Map::<u64, u64>::empty()
    } else {
        assoc_map(s.drop_last()).insert(s.last().0, s.last().1)
    }
}

/// The domain of `assoc_map` is exactly the set of keys carried by entries.
pub proof fn lemma_assoc_map_dom(s: Seq<(u64, u64)>)
    ensures
        forall|k: u64| assoc_map(s).dom().contains(k) <==> has_key(s, k),
    decreases s.len(),
{
    if s.len() == 0 {
    } else {
        let sd = s.drop_last();
        lemma_assoc_map_dom(sd);
        assert forall|k: u64| assoc_map(s).dom().contains(k) <==> has_key(s, k) by {
            if assoc_map(s).dom().contains(k) {
                if k == s.last().0 {
                    assert(s[s.len() - 1].0 == k);
                } else {
                    assert(assoc_map(sd).dom().contains(k));
                    assert(has_key(sd, k));
                    let i = choose|i: int| 0 <= i < sd.len() && sd[i].0 == k;
                    assert(s[i].0 == k);
                }
            }
            if has_key(s, k) {
                let i = choose|i: int| 0 <= i < s.len() && s[i].0 == k;
                if i < s.len() - 1 {
                    assert(sd[i].0 == k);
                    assert(has_key(sd, k));
                    assert(assoc_map(sd).dom().contains(k));
                }
            }
        }
    }
}

/// With distinct keys, the entry at index `i` gives the map's value at its
/// key.
pub proof fn lemma_assoc_map_get(s: Seq<(u64, u64)>, i: int)
    requires
        distinct_keys(s),
        0 <= i < s.len(),
    ensures
        assoc_map(s).dom().contains(s[i].0),
        assoc_map(s)[s[i].0] == s[i].1,
    decreases s.len(),
{
    if i == s.len() - 1 {
    } else {
        let sd = s.drop_last();
        assert(sd[i] == s[i]);
        lemma_assoc_map_get(sd, i);
        assert(s.last().0 != s[i].0);
    }
}

/// Removing the entry at index `i` removes exactly its key from the map.
pub proof fn lemma_assoc_map_remove_at(s: Seq<(u64, u64)>, i: int)
    requires
        distinct_keys(s),
        0 <= i < s.len(),
    ensures
        assoc_map(s.remove(i)) == assoc_map(s).remove(s[i].0),
        distinct_keys(s.remove(i)),
        !has_key(s.remove(i), s[i].0),
    decreases s.len(),
{
    let k = s[i].0;
    let s2 = s.remove(i);
    assert forall|a: int, b: int| 0 <= a < b < s2.len() implies s2[a].0 != s2[b].0 by {
        assert(s2[a] == (if a < i {
            s[a]
        } else {
            s[a + 1]
        }));
        assert(s2[b] == (if b < i {
            s[b]
        } else {
            s[b + 1]
        }));
    }
    assert forall|a: int| 0 <= a < s2.len() implies s2[a].0 != k by {
        assert(s2[a] == (if a < i {
            s[a]
        } else {
            s[a + 1]
        }));
    }
    if i == s.len() - 1 {
        let sd = s.drop_last();
        assert(s2 =~= sd);
        lemma_assoc_map_dom(sd);
        assert(forall|a: int| 0 <= a < sd.len() ==> sd[a].0 != k);
        assert(!has_key(sd, k));
        assert(!assoc_map(sd).dom().contains(k));
        assert(assoc_map(s).remove(k) =~= assoc_map(sd));
    } else {
        let sd = s.drop_last();
        assert(sd[i] == s[i]);
        lemma_assoc_map_remove_at(sd, i);
        assert(s2.drop_last() =~= sd.remove(i));
        assert(s2.last() == s.last());
        assert(s.last().0 != k);
        assert(assoc_map(s2) == assoc_map(sd.remove(i)).insert(s.last().0, s.last().1));
        assert(assoc_map(sd).remove(k).insert(s.last().0, s.last().1) =~= assoc_map(sd).insert(
            s.last().0,
            s.last().1,
        ).remove(k));
    }
}

/// Appending a fresh entry inserts exactly its binding into the map.
pub proof fn lemma_assoc_map_push(s: Seq<(u64, u64)>, key: u64, val: u64)
    ensures
        assoc_map(s.push((key, val))) == assoc_map(s).insert(key, val),
        distinct_keys(s) && !has_key(s, key) ==> distinct_keys(s.push((key, val))),
{
    let sp = s.push((key, val));
    assert(sp.drop_last() =~= s);
    assert(sp.last() == (key, val));
    if distinct_keys(s) && !has_key(s, key) {
        assert forall|a: int, b: int| 0 <= a < b < sp.len() implies sp[a].0 != sp[b].0 by {
            if b == sp.len() - 1 {
                assert(sp[a] == s[a]);
            } else {
                assert(sp[a] == s[a] && sp[b] == s[b]);
            }
        }
    }
}

/// Whether `v` holds the code `key`.
fn contains_code(v: &Vec<u64>, key: u64) -> (r: bool)
    ensures
        r == v@.contains(key),
{
    let mut i: usize = 0;
    while i < v.len()
        invariant
            i <= v@.len(),
            forall|j: int| 0 <= j < i ==> v@[j] != key,
        decreases v@.len() - i,
    {
        if v[i] == key {
            assert(v@[i as int] == key);
            return true;
        }
        i += 1;
    }
    false
}

/// A set of key codes captured at one polling instant.
pub struct KeySnapshot {
    keys: Vec<u64>,
}

impl View for KeySnapshot {
    type V = Seq<u64>;

    closed spec fn view(&self) -> Seq<u64> {
        self.keys@
    }
}

/// The subsequence of first occurrences: the order-preserving
/// deduplication of a code sequence.
pub open spec fn dedup(s: Seq<u64>) -> Seq<u64>
    decreases s.len(),
{
    if s.len() == 0 {
        Seq::<u64>::empty()
    } else {
        let d = dedup(s.drop_last());
        if d.contains(s.last()) {
            d
        } else {
            d.push(s.last())
        }
    }
}

/// Deduplication keeps exactly the members of the original sequence, once
/// each.
pub proof fn lemma_dedup_props(s: Seq<u64>)
    ensures
        dedup(s).no_duplicates(),
        forall|x: u64| dedup(s).contains(x) <==> s.contains(x),
    decreases s.len(),
{
    if s.len() == 0 {
    } else {
        let sd = s.drop_last();
        lemma_dedup_props(sd);
        assert forall|x: u64| dedup(s).contains(x) <==> s.contains(x) by {
            if s.contains(x) {
                let i = choose|i: int| 0 <= i < s.len() && s[i] == x;
                if i < s.len() - 1 {
                    assert(sd[i] == x);
                    assert(sd.contains(x));
                }
            }
            if sd.contains(x) {
                let i = choose|i: int| 0 <= i < sd.len() && sd[i] == x;
                assert(s[i] == x);
            }
            assert(s.contains(s.last()));
        }
    }
}

impl KeySnapshot {
    /// The snapshot holds no code twice.
    pub open spec fn wf(&self) -> bool {
        self@.no_duplicates()
    }

    /// Capture a snapshot from raw codes, dropping repeated codes and
    /// keeping first-occurrence order.
    pub fn new(codes: Vec<u64>) -> (s: KeySnapshot)
        ensures
            s.wf(),
            s@ == dedup(codes@),
            forall|x: u64| s@.contains(x) <==> codes@.contains(x),
    {
        let mut keys: Vec<u64> = Vec::new();
        let mut i: usize = 0;
        while i < codes.len()
            invariant
                i <= codes@.len(),
                keys@ == dedup(codes@.take(i as int)),
            decreases codes@.len() - i,
        {
            proof {
                assert(codes@.take(i + 1).drop_last() =~= codes@.take(i as int));
            }
            if !contains_code(&keys, codes[i]) {
                keys.push(codes[i]);
            }
            i += 1;
        }
        proof {
            lemma_dedup_props(codes@);
        }
        KeySnapshot { keys }
    }

    /// Whether `key` is down in this snapshot.
    pub fn contains_key(&self, key: u64) -> (r: bool)
        ensures
            r == self@.contains(key),
    {
        contains_code(&self.keys, key)
    }

    /// How many distinct keys are down.
    pub fn len(&self) -> (n: usize)
        ensures
            n == self@.len(),
    {
        self.keys.len()
    }
}

/// Tracks the state of key presses and timing: the previously processed
/// snapshot, when each currently-held key was pressed, and when the most
/// recent release happened.
pub struct KeyTracker {
    previous_keys: Vec<u64>,
    key_press_times: Vec<(u64, u64)>,
    last_key_release_time: Option<u64>,
}

impl View for KeyTracker {
    type V = TrackerModel;

    closed spec fn view(&self) -> TrackerModel {
        TrackerModel {
            prev: self.previous_keys@,
            times: assoc_map(self.key_press_times@),
            last_release: self.last_key_release_time,
        }
    }
}

impl KeyTracker {
    /// Representation invariant: the previous snapshot holds no key twice,
    /// and no key has two press-time entries.
    pub closed spec fn wf(&self) -> bool {
        self.previous_keys@.no_duplicates() && distinct_keys(self.key_press_times@)
    }

    /// A tracker in its startup state.
    pub fn new() -> (t: KeyTracker)
        ensures
            t.wf(),
            t@ == TrackerModel::initial(),
            t@.synced(),
    {
        let t = KeyTracker {
            previous_keys: Vec::new(),
            key_press_times: Vec::new(),
            last_key_release_time: None,
        };
        proof {
            assert(t@.prev =~= TrackerModel::initial().prev);
            assert(t@.times =~= TrackerModel::initial().times);
            assert(t@.times.dom() =~= t@.prev.to_set());
        }
        t
    }

    /// The recorded press time of `key`, if any.
    fn get_time(&self, key: u64) -> (r: Option<u64>)
        requires
            self.wf(),
        ensures
            r == time_of(self@.times, key),
    {
        let mut i: usize = 0;
        while i < self.key_press_times.len()
            invariant
                self.wf(),
                i <= self.key_press_times@.len(),
                forall|j: int| 0 <= j < i ==> self.key_press_times@[j].0 != key,
            decreases self.key_press_times@.len() - i,
        {
            if self.key_press_times[i].0 == key {
                proof {
                    lemma_assoc_map_get(self.key_press_times@, i as int);
                }
                return Some(self.key_press_times[i].1);
            }
            i += 1;
        }
        proof {
            lemma_assoc_map_dom(self.key_press_times@);
            assert(!has_key(self.key_press_times@, key));
        }
        None
    }

    /// Drop the press-time entry of `key`, if it has one.
    fn remove_time(&mut self, key: u64)
        requires
            old(self).wf(),
        ensures
            final(self).wf(),
            final(self)@.times == old(self)@.times.remove(key),
            final(self)@.prev == old(self)@.prev,
            final(self)@.last_release == old(self)@.last_release,
            !has_key(final(self).key_press_times@, key),
    {
        let mut i: usize = 0;
        while i < self.key_press_times.len()
            invariant
                *self == *old(self),
                self.wf(),
                i <= self.key_press_times@.len(),
                forall|j: int| 0 <= j < i ==> self.key_press_times@[j].0 != key,
            decreases self.key_press_times@.len() - i,
        {
            if self.key_press_times[i].0 == key {
                proof {
                    lemma_assoc_map_remove_at(self.key_press_times@, i as int);
                }
                self.key_press_times.remove(i);
                return ;
            }
            i += 1;
        }
        proof {
            lemma_assoc_map_dom(self.key_press_times@);
            assert(!has_key(self.key_press_times@, key));
            assert(self@.times =~= self@.times.remove(key));
        }
    }

    /// Calculate clean strafe timing (positive value): milliseconds since
    /// the most recent release of any key, or `None` when no key has been
    /// released yet.
    pub fn calculate_clean_strafe_timing(&self, current_time: u64) -> (r: Option<i128>)
        requires
            self@.release_le(current_time),
        ensures
            opt_int(r) == clean_timing(self@.last_release, current_time),
    {
        match self.last_key_release_time {
            None => None,
            Some(t) => Some((current_time - t) as i128),
        }
    }

    /// Calculate counter-strafe timing (negative value): milliseconds since
    /// the most recent recorded press among `held_keys`, negated, or `None`
    /// when no held key has a recorded press time.
    pub fn calculate_counter_strafe_timing(&self, current_time: u64, held_keys: &KeySnapshot) -> (r:
        Option<i128>)
        requires
            self.wf(),
            self@.times_le(current_time),
        ensures
            opt_int(r) == counter_timing(self@.times, held_keys@, current_time),
    {
        let mut best: Option<u64> = None;
        let mut i: usize = 0;
        while i < held_keys.keys.len()
            invariant
                self.wf(),
                self@.times_le(current_time),
                i <= held_keys@.len(),
                best == latest_press(self@.times, held_keys@.take(i as int)),
                match best {
                    Option::None => true,
                    Option::Some(b) => b <= current_time,
                },
            decreases held_keys@.len() - i,
        {
            let k = held_keys.keys[i];
            proof {
                lemma_latest_press_push(self@.times, held_keys@.take(i as int), k);
            }
            if let Some(t) = self.get_time(k) {
                best = match best {
                    None => Some(t),
                    Some(b) => Some(
                        if b >= t {
                            b
                        } else {
                            t
                        },
                    ),
                };
            }
            i += 1;
        }
        match best {
            None => None,
            Some(t) => Some(-((current_time - t) as i128)),
        }
    }

    /// Handle a newly pressed key: record its press time and, when no other
    /// key was held at that instant, emit a clean-strafe event whose timing
    /// counts from the most recent release.
    pub fn handle_key_press(&mut self, key: u64, current_time: u64) -> (ev: Option<TimingEvent>)
        requires
            old(self).wf(),
            old(self)@.times_le(current_time),
            old(self)@.release_le(current_time),
        ensures
            final(self).wf(),
            final(self)@.times_le(current_time),
            final(self)@.release_le(current_time),
            final(self)@.prev == old(self)@.prev,
            final(self)@.last_release == old(self)@.last_release,
            final(self)@.times == old(self)@.times.insert(key, current_time),
            opt_model(ev) == press_event(
                old(self)@.times,
                old(self)@.last_release,
                key,
                current_time,
            ),
    {
        let ev = if self.key_press_times.len() == 0 {
            proof {
                lemma_assoc_map_dom(self.key_press_times@);
                assert(self@.times.dom() =~= Set::<u64>::empty());
            }
            Some(
                TimingEvent {
                    key,
                    time_since_release_ms: self.calculate_clean_strafe_timing(current_time),
                },
            )
        } else {
            proof {
                lemma_assoc_map_dom(self.key_press_times@);
                let k0 = self.key_press_times@[0].0;
                assert(has_key(self.key_press_times@, k0));
                assert(self@.times.dom().contains(k0));
                assert(!(self@.times.dom() =~= Set::<u64>::empty()));
            }
            None
        };
        self.remove_time(key);
        let ghost entries1 = self.key_press_times@;
        let ghost times0 = old(self)@.times;
        self.key_press_times.push((key, current_time));
        proof {
            lemma_assoc_map_push(entries1, key, current_time);
            assert(times0.remove(key).insert(key, current_time) =~= times0.insert(
                key,
                current_time,
            ));
            assert forall|k2: u64|
                final(self)@.times.dom().contains(k2) implies final(self)@.times[k2]
                <= current_time by {
                if k2 != key {
                    assert(times0.dom().contains(k2) && final(self)@.times[k2] == times0[k2]);
                }
            }
        }
        ev
    }

    /// Handle a newly released key: set the last-release time, emit a
    /// counter-strafe event when other keys were still held, and drop the
    /// key's press-time entry.
    pub fn handle_key_release(&mut self, released_key: u64, current_time: u64) -> (ev: Option<
        TimingEvent,
    >)
        requires
            old(self).wf(),
            old(self)@.times_le(current_time),
        ensures
            final(self).wf(),
            final(self)@.times_le(current_time),
            final(self)@.prev == old(self)@.prev,
            final(self)@.last_release == Option::Some(current_time),
            final(self)@.times == old(self)@.times.remove(released_key),
            opt_model(ev) == release_event(
                old(self)@.times,
                old(self)@.prev,
                released_key,
                current_time,
            ),
    {
        let mut held: Vec<u64> = Vec::new();
        let mut i: usize = 0;
        while i < self.previous_keys.len()
            invariant
                *self == *old(self),
                self.wf(),
                i <= self.previous_keys@.len(),
                held@ == held_keys(self.previous_keys@.take(i as int), released_key),
            decreases self.previous_keys@.len() - i,
        {
            let k = self.previous_keys[i];
            proof {
                assert(self.previous_keys@.take(i as int + 1) =~= self.previous_keys@.take(
                    i as int,
                ).push(k));
                lemma_held_keys_push(self.previous_keys@.take(i as int), released_key, k);
            }
            if k != released_key {
                held.push(k);
            }
            i += 1;
        }
        proof {
            assert(self.previous_keys@.take(self.previous_keys@.len() as int)
                =~= self.previous_keys@);
        }
        let ev = if held.len() > 0 {
            let held_snapshot = KeySnapshot { keys: held };
            let timing = self.calculate_counter_strafe_timing(current_time, &held_snapshot);
            Some(TimingEvent { key: released_key, time_since_release_ms: timing })
        } else {
            None
        };
        self.last_key_release_time = Some(current_time);
        self.remove_time(released_key);
        proof {
            assert forall|k2: u64|
                final(self)@.times.dom().contains(k2) implies final(self)@.times[k2]
                <= current_time by {
                assert(old(self)@.times.dom().contains(k2) && final(self)@.times[k2] == old(
                    self,
                )@.times[k2]);
            }
        }
        ev
    }

    /// Retain the processed snapshot as the new previous-keys set.
    pub fn update_state(&mut self, current_keys: KeySnapshot)
        requires
            old(self).wf(),
            current_keys.wf(),
        ensures
            final(self).wf(),
            final(self)@.prev == current_keys@,
            final(self)@.times == old(self)@.times,
            final(self)@.last_release == old(self)@.last_release,
    {
        self.previous_keys = current_keys.keys;
    }

    /// Process one snapshot taken at `current_time`: diff it against the
    /// previous snapshot, handle the released keys first, then the pressed
    /// keys, retain the snapshot, and return the emitted events, release
    /// events first. The whole effect equals the one processing cycle of the
    /// model.
    pub fn process_snapshot(&mut self, snapshot: KeySnapshot, current_time: u64) -> (events: Vec<
        TimingEvent,
    >)
        requires
            old(self).wf(),
            snapshot.wf(),
            old(self)@.bounded_by(current_time),
        ensures
            final(self).wf(),
            final(self)@.bounded_by(current_time),
            final(self)@ == cycle(old(self)@, snapshot@, current_time).0,
            models(events@) == cycle(old(self)@, snapshot@, current_time).1,
            final(self)@.prev == snapshot@,
            old(self)@.synced() ==> final(self)@.synced(),
    {
        let ghost m0 = self@;
        // Diff the snapshot against the previous one.
        let mut newly_released: Vec<u64> = Vec::new();
        let mut i: usize = 0;
        while i < self.previous_keys.len()
            invariant
                *self == *old(self),
                self.wf(),
                i <= self.previous_keys@.len(),
                newly_released@ == released_of(self.previous_keys@.take(i as int), snapshot@),
            decreases self.previous_keys@.len() - i,
        {
            let k = self.previous_keys[i];
            proof {
                assert(self.previous_keys@.take(i as int + 1) =~= self.previous_keys@.take(
                    i as int,
                ).push(k));
                lemma_released_of_push(self.previous_keys@.take(i as int), snapshot@, k);
            }
            if !snapshot.contains_key(k) {
                newly_released.push(k);
            }
            i += 1;
        }
        let mut newly_pressed: Vec<u64> = Vec::new();
        let mut j: usize = 0;
        while j < snapshot.keys.len()
            invariant
                *self == *old(self),
                self.wf(),
                j <= snapshot@.len(),
                newly_pressed@ == pressed_of(self.previous_keys@, snapshot@.take(j as int)),
            decreases snapshot@.len() - j,
        {
            let k = snapshot.keys[j];
            proof {
                assert(snapshot@.take(j as int + 1) =~= snapshot@.take(j as int).push(k));
                lemma_pressed_of_push(self.previous_keys@, snapshot@.take(j as int), k);
            }
            if !contains_code(&self.previous_keys, k) {
                newly_pressed.push(k);
            }
            j += 1;
        }
        proof {
            assert(self.previous_keys@.take(self.previous_keys@.len() as int)
                =~= self.previous_keys@);
            assert(snapshot@.take(snapshot@.len() as int) =~= snapshot@);
        }
        let ghost rel = newly_released@;
        let ghost pr = newly_pressed@;
        assert(rel == released_of(m0.prev, snapshot@));
        assert(pr == pressed_of(m0.prev, snapshot@));

        // Handle newly released keys.
        let mut events: Vec<TimingEvent> = Vec::new();
        i = 0;
        while i < newly_released.len()
            invariant
                self.wf(),
                self@.times_le(current_time),
                m0.release_le(current_time),
                self@.prev == m0.prev,
                i <= rel.len(),
                newly_released@ == rel,
                self@.times == process_releases(m0.times, m0.prev, rel.take(i as int), current_time).0,
                models(events@) == process_releases(
                    m0.times,
                    m0.prev,
                    rel.take(i as int),
                    current_time,
                ).1,
                self@.last_release == (if i > 0 {
                    Option::Some(current_time)
                } else {
                    m0.last_release
                }),
            decreases rel.len() - i,
        {
            let k = newly_released[i];
            let ghost pre_times = self@.times;
            let ghost evs0 = events@;
            let ev = self.handle_key_release(k, current_time);
            proof {
                assert(rel.take(i as int + 1) =~= rel.take(i as int).push(k));
                lemma_process_releases_push(m0.times, m0.prev, rel.take(i as int), k, current_time);
            }
            if let Some(e) = ev {
                events.push(e);
                proof {
                    assert(models(events@) =~= models(evs0).push(e@));
                    assert(models(evs0).push(e@) =~= models(evs0) + events_of(
                        release_event(pre_times, m0.prev, k, current_time),
                    ));
                }
            } else {
                proof {
                    assert(models(events@) =~= models(evs0) + events_of(
                        release_event(pre_times, m0.prev, k, current_time),
                    ));
                }
            }
            i += 1;
        }
        proof {
            assert(rel.take(rel.len() as int) =~= rel);
        }
        let ghost times1 = self@.times;
        let ghost last1 = self@.last_release;
        let ghost rel_events = models(events@);

        // Handle newly pressed keys.
        j = 0;
        while j < newly_pressed.len()
            invariant
                self.wf(),
                self@.times_le(current_time),
                self@.release_le(current_time),
                self@.prev == m0.prev,
                j <= pr.len(),
                newly_pressed@ == pr,
                self@.last_release == last1,
                self@.times == process_presses(times1, last1, pr.take(j as int), current_time).0,
                models(events@) == rel_events + process_presses(
                    times1,
                    last1,
                    pr.take(j as int),
                    current_time,
                ).1,
            decreases pr.len() - j,
        {
            let k = newly_pressed[j];
            let ghost pre_times = self@.times;
            let ghost evs0 = events@;
            let ev = self.handle_key_press(k, current_time);
            proof {
                assert(pr.take(j as int + 1) =~= pr.take(j as int).push(k));
                lemma_process_presses_push(times1, last1, pr.take(j as int), k, current_time);
            }
            if let Some(e) = ev {
                events.push(e);
                proof {
                    assert(models(events@) =~= models(evs0).push(e@));
                    assert(models(evs0).push(e@) =~= rel_events + (process_presses(
                        times1,
                        last1,
                        pr.take(j as int),
                        current_time,
                    ).1 + events_of(press_event(pre_times, last1, k, current_time))));
                }
            } else {
                proof {
                    assert(models(events@) =~= rel_events + (process_presses(
                        times1,
                        last1,
                        pr.take(j as int),
                        current_time,
                    ).1 + events_of(press_event(pre_times, last1, k, current_time))));
                }
            }
            j += 1;
        }
        proof {
            assert(pr.take(pr.len() as int) =~= pr);
        }
        self.update_state(snapshot);
        proof {
            let c = cycle(m0, snapshot@, current_time);
            assert(final(self)@ == c.0);
            assert(models(events@) == c.1);
            if m0.synced() {
                crate::laws::lemma_cycle_preserves_sync(m0, snapshot@, current_time);
            }
        }
        events
    }
}

} // verus!
