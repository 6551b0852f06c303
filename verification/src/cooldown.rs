use chashmap::CHashMap;
use vstd::prelude::*;
use vstd::string::*;

verus! {

/// Whether something that is rate limited may happen now.
#[derive(Debug, Clone, Copy, PartialEq, Eq, Structural)]
pub enum CooldownState {
    /// It may.
    Ready,
    /// It may not yet; the time that is still to pass, capped at what fits.
    NotReady(u64),
}

/// A cooldown as plain numbers: the least time between two accesses, and
/// the instant of the last access. The instant may lie before the clock's
/// origin, where an entry was made ready from the start.
pub struct CooldownView {
    pub interval: u64,
    pub last_access: int,
}

impl CooldownView {
    /// The first instant at which the next access is ready.
    pub open spec fn ready_at(self) -> int {
        self.last_access + self.interval
    }

    /// Whether an access at `now` is ready.
    pub open spec fn is_ready(self, now: u64) -> bool {
        now >= self.ready_at()
    }

    /// What an access at `now` is told.
    pub open spec fn state_at(self, now: u64) -> CooldownState {
        if self.is_ready(now) {
            CooldownState::Ready
        } else if self.ready_at() - now > u64::MAX {
            CooldownState::NotReady(u64::MAX)
        } else {
            CooldownState::NotReady((self.ready_at() - now) as u64)
        }
    }

    /// The cooldown after an access at `now`: a ready access becomes the
    /// last access, another one changes nothing.
    pub open spec fn accessed(self, now: u64) -> CooldownView {
        if self.is_ready(now) {
            CooldownView { last_access: now as int, ..self }
        } else {
            self
        }
    }

    /// The cooldown with another interval and the same last access.
    pub open spec fn with_interval(self, interval: u64) -> CooldownView {
        CooldownView { interval, ..self }
    }

    /// A new cooldown made at `now`: ready from the start if `reset`, else
    /// as if accessed at `now`.
    pub open spec fn fresh(interval: u64, reset: bool, now: u64) -> CooldownView {
        CooldownView {
            interval,
            last_access: if reset {
                now - interval
            } else {
                now as int
            },
        }
    }
}

/// One cooldown: an interval and the instant of the last access.
#[derive(Debug, Clone, Copy)]
pub struct CooldownData {
    value: u64,
    last_accessed: i128,
}

impl View for CooldownData {
    type V = CooldownView;

    closed spec fn view(&self) -> CooldownView {
        CooldownView { interval: self.value, last_access: self.last_accessed as int }
    }
}

impl CooldownData {
    /// A new cooldown, made at `now`. With `reset` its last access is dated
    /// back by the interval, so that it is ready at once.
    pub fn new(cooldown: u64, reset: bool, now: u64) -> (data: CooldownData)
        ensures
            data@ == CooldownView::fresh(cooldown, reset, now),
    {
        CooldownData {
            value: cooldown,
            last_accessed: if reset {
                now as i128 - cooldown as i128
            } else {
                now as i128
            },
        }
    }

    /// What an access at `now` would be told. Changes nothing.
    pub fn cooldown(&self, now: u64) -> (state: CooldownState)
        ensures
            state == self@.state_at(now),
    {
        let base: i128 = now as i128 - self.value as i128;
        if self.last_accessed <= base {
            CooldownState::Ready
        } else if self.last_accessed > base + u64::MAX as i128 {
            CooldownState::NotReady(u64::MAX)
        } else {
            CooldownState::NotReady((self.last_accessed - base) as u64)
        }
    }

    /// Whether an access at `now` would have to wait.
    pub fn is_cooldown(&self, now: u64) -> (waiting: bool)
        ensures
            waiting == !self@.is_ready(now),
    {
        match self.cooldown(now) {
            CooldownState::Ready => false,
            CooldownState::NotReady(_) => true,
        }
    }

    /// An access at `now`: if it is ready, it becomes the last access.
    pub fn try_reset(&mut self, now: u64) -> (state: CooldownState)
        ensures
            state == old(self)@.state_at(now),
            final(self)@ == old(self)@.accessed(now),
    {
        let state = self.cooldown(now);
        match state {
            CooldownState::Ready => {
                self.last_accessed = now as i128;
            },
            CooldownState::NotReady(_) => {},
        }
        state
    }

    /// Replaces the interval; the last access stays.
    pub fn set_interval(&mut self, cooldown: u64)
        ensures
            final(self)@ == old(self)@.with_interval(cooldown),
    {
        self.value = cooldown;
    }
}

/// Monotonicity: once an access at `t` was ready, an access at any later
/// instant before `t + interval` is not ready, is told a remaining time
/// that is positive and at most the interval, and changes nothing.
pub proof fn lemma_cooldown_monotone(c: CooldownView, t: u64, later: u64)
    requires
        c.is_ready(t),
        t <= later < t + c.interval,
    ensures
        c.accessed(t).state_at(later) is NotReady,
        0 < c.accessed(t).state_at(later)->NotReady_0 <= c.interval,
        c.accessed(t).state_at(later)->NotReady_0 == t + c.interval - later,
        c.accessed(t).accessed(later) == c.accessed(t),
{
}

/// The cooldown after an access at each of the given times, in order.
pub open spec fn accessed_all(c: CooldownView, times: Seq<u64>) -> CooldownView
    decreases times.len(),
{
    if times.len() == 0 {
        c
    } else {
        accessed_all(c, times.drop_last()).accessed(times.last())
    }
}

/// Monotonicity over any number of accesses: after a ready access at `t`,
/// a run of accesses that all come before `t + interval` leaves the
/// cooldown as the access at `t` left it, so each of them is not ready.
pub proof fn lemma_cooldown_monotone_run(c: CooldownView, t: u64, times: Seq<u64>)
    requires
        c.is_ready(t),
        forall|i: int| 0 <= i < times.len() ==> t <= #[trigger] times[i] && times[i] < t + c.interval,
    ensures
        accessed_all(c.accessed(t), times) == c.accessed(t),
        forall|i: int|
            0 <= i < times.len() ==> accessed_all(c.accessed(t), times.take(i)).state_at(
                #[trigger] times[i],
            ) is NotReady,
    decreases times.len(),
{
    if times.len() > 0 {
        let init = times.drop_last();
        assert forall|i: int| 0 <= i < init.len() implies t <= #[trigger] init[i] && init[i] < t
            + c.interval by {
            assert(init[i] == times[i]);
        }
        lemma_cooldown_monotone_run(c, t, init);
        lemma_cooldown_monotone(c, t, times.last());
        assert forall|i: int| 0 <= i < times.len() implies accessed_all(
            c.accessed(t),
            times.take(i),
        ).state_at(#[trigger] times[i]) is NotReady by {
            if i < init.len() {
                assert(times.take(i) =~= init.take(i));
                assert(init[i] == times[i]);
            } else {
                assert(times.take(i) =~= init);
            }
        }
    }
}

/// Exclusion: of two accesses less than an interval apart, whichever comes
/// first, at most one is ready.
pub proof fn lemma_cooldown_exclusive(c: CooldownView, first: u64, second: u64)
    requires
        first <= second < first + c.interval,
    ensures
        !(c.state_at(first) is Ready && c.accessed(first).state_at(second) is Ready),
{
}

// ---------------------------------------------------------------------------
// The tracker: one cooldown per key, in a concurrent hash map
// ---------------------------------------------------------------------------
#[verifier::external_type_specification]
#[verifier::external_body]
#[verifier::reject_recursive_types(K)]
#[verifier::reject_recursive_types(V)]
pub struct ExCHashMap<K, V>(CHashMap<K, V>);

/// The entries that a map of cooldowns holds, by the characters of their keys.
pub uninterp spec fn cooldown_entries(map: CHashMap<String, CooldownData>) -> Map<
    Seq<char>,
    CooldownData,
>;

/// No entries.
pub open spec fn no_entries() -> Map<Seq<char>, CooldownData> {
    Map::empty()
}

/// `CHashMap::new`: a map without entries.
#[verifier::external_body]
fn map_new() -> (table: CHashMap<String, CooldownData>)
    ensures
        cooldown_entries(table) == no_entries(),
{
    CHashMap::new()
}

/// `CHashMap::contains_key`: whether the map has an entry under the key.
#[verifier::external_body]
fn map_contains(map: &CHashMap<String, CooldownData>, key: &str) -> (found: bool)
    ensures
        found == cooldown_entries(*map).contains_key(key@),
{
    map.contains_key(key)
}

/// `CHashMap::get`: a copy of the entry under the key, taken under the
/// entry's read guard, or nothing where the map has no such entry.
#[verifier::external_body]
fn map_get(map: &CHashMap<String, CooldownData>, key: &str) -> (value: Option<CooldownData>)
    ensures
        value == if cooldown_entries(*map).contains_key(key@) {
            Some(cooldown_entries(*map)[key@])
        } else {
            None
        },
{
    match map.get(key) {
        Some(guard) => Some(*guard),
        None => None,
    }
}

/// `CHashMap::insert`: puts the entry under the key, in place of the one
/// that was there, which it returns; all other entries stay.
#[verifier::external_body]
fn map_insert(map: &mut CHashMap<String, CooldownData>, key: String, value: CooldownData) -> (previous:
    Option<CooldownData>)
    ensures
        cooldown_entries(*final(map)) == cooldown_entries(*old(map)).insert(key@, value),
        previous == if cooldown_entries(*old(map)).contains_key(key@) {
            Some(cooldown_entries(*old(map))[key@])
        } else {
            None
        },
{
    map.insert(key, value)
}

/// `CHashMap::remove`, then `CHashMap::shrink_to_fit`: takes the entry
/// under the key out and returns it, and moves what stays into a fresh
/// table, so that no bucket is left marked as removed; all other entries
/// stay.
#[verifier::external_body]
fn map_remove(map: &mut CHashMap<String, CooldownData>, key: &str) -> (previous: Option<
    CooldownData,
>)
    ensures
        cooldown_entries(*final(map)) == cooldown_entries(*old(map)).remove(key@),
        previous == if cooldown_entries(*old(map)).contains_key(key@) {
            Some(cooldown_entries(*old(map))[key@])
        } else {
            None
        },
{
    let previous = map.remove(key);
    map.shrink_to_fit();
    previous
}

/// The cooldowns by key, as plain values.
pub type TrackerView = Map<Seq<char>, CooldownView>;

/// What an access to `key` at `now` is told: nothing for an unknown key.
pub open spec fn peeked(entries: TrackerView, key: Seq<char>, now: u64) -> Option<CooldownState> {
    if entries.contains_key(key) {
        Some(entries[key].state_at(now))
    } else {
        None
    }
}

/// The entries after an access to `key` at `now`.
pub open spec fn accessed(entries: TrackerView, key: Seq<char>, now: u64) -> TrackerView {
    if entries.contains_key(key) {
        entries.insert(key, entries[key].accessed(now))
    } else {
        entries
    }
}

/// The entries after the interval of `key` was replaced.
pub open spec fn updated(entries: TrackerView, key: Seq<char>, interval: u64) -> TrackerView {
    if entries.contains_key(key) {
        entries.insert(key, entries[key].with_interval(interval))
    } else {
        entries
    }
}

/// The entries that a list of keys and intervals gives at `now`, each one
/// ready from the start; a key that comes twice has its last interval.
pub open spec fn tracked_from(init: Seq<(String, u64)>, now: u64) -> TrackerView
    decreases init.len(),
{
    if init.len() == 0 {
        Map::empty()
    } else {
        tracked_from(init.drop_last(), now).insert(
            init.last().0@,
            CooldownView::fresh(init.last().1, true, now),
        )
    }
}

/// Cooldowns by key.
pub struct CooldownTracker {
    cooldown_map: CHashMap<String, CooldownData>,
}

impl View for CooldownTracker {
    type V = TrackerView;

    closed spec fn view(&self) -> TrackerView {
        cooldown_entries(self.cooldown_map).map_values(|data: CooldownData| data@)
    }
}

impl CooldownTracker {
    /// A tracker with one cooldown for each listed key, each ready at once.
    pub fn new(init: &Vec<(String, u64)>, now: u64) -> (tracker: CooldownTracker)
        ensures
            tracker@ == tracked_from(init@, now),
    {
        let mut tracker = CooldownTracker { cooldown_map: map_new() };
        assert(tracker@ =~= Map::<Seq<char>, CooldownView>::empty());
        let mut i: usize = 0;
        assert(init@.take(0) =~= Seq::<(String, u64)>::empty());
        while i < init.len()
            invariant
                i <= init.len(),
                tracker@ == tracked_from(init@.take(i as int), now),
            decreases init.len() - i,
        {
            proof {
                let next = init@.take(i + 1);
                assert(next.drop_last() =~= init@.take(i as int));
                assert(next.last() == init@[i as int]);
            }
            tracker.add_channel(init[i].0.clone(), init[i].1, true, now);
            i = i + 1;
        }
        assert(init@.take(i as int) =~= init@);
        tracker
    }

    /// Whether there is a cooldown for the key.
    pub fn contains(&self, channel: &str) -> (found: bool)
        ensures
            found == self@.contains_key(channel@),
    {
        map_contains(&self.cooldown_map, channel)
    }

    /// A copy of the cooldown of the key, as it is now. What is done to
    /// the copy does not reach the tracker: `access` is the reset that does.
    pub fn access_raw(&self, channel: &str) -> (data: Option<CooldownData>)
        ensures
            match data {
                Some(d) => self@.contains_key(channel@) && d@ == self@[channel@],
                None => !self@.contains_key(channel@),
            },
    {
        map_get(&self.cooldown_map, channel)
    }

    /// What an access to the key at `now` would be told. Changes nothing.
    pub fn peek(&self, channel: &str, now: u64) -> (state: Option<CooldownState>)
        ensures
            state == peeked(self@, channel@, now),
    {
        match map_get(&self.cooldown_map, channel) {
            Some(data) => Some(data.cooldown(now)),
            None => None,
        }
    }

    /// An access to the key at `now`: tells whether it is ready and, if it
    /// is, makes it the last access of that key. Nothing for an unknown key.
    pub fn access(&mut self, channel: &str, now: u64) -> (state: Option<CooldownState>)
        ensures
            state == peeked(old(self)@, channel@, now),
            final(self)@ == accessed(old(self)@, channel@, now),
    {
        match map_get(&self.cooldown_map, channel) {
            Some(data) => {
                let mut data = data;
                let state = data.try_reset(now);
                map_insert(&mut self.cooldown_map, channel.to_owned(), data);
                assert(self@ =~= accessed(old(self)@, channel@, now));
                Some(state)
            },
            None => None,
        }
    }

    /// Replaces the interval of the key; its last access stays. Nothing
    /// changes for an unknown key.
    pub fn update(&mut self, channel: &str, new_cooldown: u64)
        ensures
            final(self)@ == updated(old(self)@, channel@, new_cooldown),
    {
        match map_get(&self.cooldown_map, channel) {
            Some(data) => {
                let mut data = data;
                data.set_interval(new_cooldown);
                map_insert(&mut self.cooldown_map, channel.to_owned(), data);
                assert(self@ =~= updated(old(self)@, channel@, new_cooldown));
            },
            None => {},
        }
    }

    /// Puts a new cooldown under the key, in place of one that was there.
    pub fn add_channel(&mut self, channel: String, cooldown: u64, reset: bool, now: u64)
        ensures
            final(self)@ == old(self)@.insert(channel@, CooldownView::fresh(cooldown, reset, now)),
    {
        let ghost key = channel@;
        map_insert(&mut self.cooldown_map, channel, CooldownData::new(cooldown, reset, now));
        assert(self@ =~= old(self)@.insert(key, CooldownView::fresh(cooldown, reset, now)));
    }

    /// Takes the cooldown of the key out.
    pub fn remove_channel(&mut self, channel: &str)
        ensures
            final(self)@ == old(self)@.remove(channel@),
    {
        map_remove(&mut self.cooldown_map, channel);
        assert(self@ =~= old(self)@.remove(channel@));
    }
}

/// Monotonicity by key: after an access to `key` at `t` was ready, an
/// access to it at any later instant before `t + interval` is told to
/// wait, for a time that is positive and at most the interval.
pub proof fn lemma_tracker_monotone(entries: TrackerView, key: Seq<char>, t: u64, later: u64)
    requires
        peeked(entries, key, t) == Some(CooldownState::Ready),
        t <= later < t + entries[key].interval,
    ensures
        peeked(accessed(entries, key, t), key, later) == Some(
            CooldownState::NotReady((t + entries[key].interval - later) as u64),
        ),
        0 < t + entries[key].interval - later <= entries[key].interval,
        accessed(accessed(entries, key, t), key, later) == accessed(entries, key, t),
{
    lemma_cooldown_monotone(entries[key], t, later);
    assert(accessed(accessed(entries, key, t), key, later) =~= accessed(entries, key, t));
}

/// Exclusion by key: of two accesses to `key` less than an interval apart,
/// at most one is ready.
pub proof fn lemma_tracker_exclusive(entries: TrackerView, key: Seq<char>, first: u64, second: u64)
    requires
        entries.contains_key(key),
        first <= second < first + entries[key].interval,
    ensures
        !(peeked(entries, key, first) == Some(CooldownState::Ready) && peeked(
            accessed(entries, key, first),
            key,
            second,
        ) == Some(CooldownState::Ready)),
{
    lemma_cooldown_exclusive(entries[key], first, second);
}

} // verus!
