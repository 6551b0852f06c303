use crate::text::{first_index, lemma_first_index, lemma_first_index_is};
use std::collections::VecDeque;
use vstd::prelude::*;
use vstd::string::*;

verus! {

// ---------------------------------------------------------------------------
// One queue of recent payloads
// ---------------------------------------------------------------------------
/// One remembered payload as plain values: when it was pushed, what it is,
/// and how often it has been found since.
pub struct EntryView {
    pub timestamp: u64,
    pub payload: Seq<char>,
    pub times_found: usize,
}

/// Whether an entry is too old at `now`.
pub open spec fn expired(entry: EntryView, now: u64, ttl: u64) -> bool {
    entry.timestamp + ttl < now
}

/// How many entries at the front are too old at `now`.
pub open spec fn stale_count(queue: Seq<EntryView>, now: u64, ttl: u64) -> int
    decreases queue.len(),
{
    if queue.len() > 0 && expired(queue[0], now, ttl) {
        1 + stale_count(queue.drop_first(), now, ttl)
    } else {
        0
    }
}

/// The queue without the entries at its front that are too old at `now`.
pub open spec fn pruned(queue: Seq<EntryView>, now: u64, ttl: u64) -> Seq<EntryView> {
    queue.skip(stale_count(queue, now, ttl))
}

/// The payloads of the queue, in order.
pub open spec fn payloads(queue: Seq<EntryView>) -> Seq<Seq<char>> {
    Seq::new(queue.len(), |i: int| queue[i].payload)
}

/// The entry found once more; the counter stops at the largest number.
pub open spec fn bumped(entry: EntryView) -> EntryView {
    EntryView {
        times_found: if entry.times_found < usize::MAX {
            (entry.times_found + 1) as usize
        } else {
            usize::MAX
        },
        ..entry
    }
}

/// The queue with one more payload, pushed at `now` and not yet found.
pub open spec fn pushed(queue: Seq<EntryView>, payload: Seq<char>, now: u64) -> Seq<EntryView> {
    queue.push(EntryView { timestamp: now, payload, times_found: 0 })
}

/// How often the payload has been found, this search at `now` included: the
/// new counter of the first entry with that payload that is left after
/// pruning, or 0 if none is left.
pub open spec fn sought_count(queue: Seq<EntryView>, payload: Seq<char>, now: u64, ttl: u64) -> usize {
    let left = pruned(queue, now, ttl);
    let i = first_index(payloads(left), payload);
    if 0 <= i < left.len() {
        bumped(left[i]).times_found
    } else {
        0
    }
}

/// The queue after a search for the payload at `now`: pruned, and the
/// entry that was found has its counter raised.
pub open spec fn sought(queue: Seq<EntryView>, payload: Seq<char>, now: u64, ttl: u64) -> Seq<
    EntryView,
> {
    let left = pruned(queue, now, ttl);
    let i = first_index(payloads(left), payload);
    if 0 <= i < left.len() {
        left.update(i, bumped(left[i]))
    } else {
        left
    }
}

/// The timestamps never go down along the queue.
pub open spec fn in_time_order(queue: Seq<EntryView>) -> bool {
    forall|i: int, j: int| 0 <= i <= j < queue.len() ==> queue[i].timestamp <= queue[j].timestamp
}

/// The stale entries are at the front, and the entry behind them, if
/// there is one, is not stale.
pub proof fn lemma_stale_count(queue: Seq<EntryView>, now: u64, ttl: u64)
    ensures
        0 <= stale_count(queue, now, ttl) <= queue.len(),
        forall|i: int| 0 <= i < stale_count(queue, now, ttl) ==> expired(queue[i], now, ttl),
        stale_count(queue, now, ttl) < queue.len() ==> !expired(
            queue[stale_count(queue, now, ttl)],
            now,
            ttl,
        ),
    decreases queue.len(),
{
    if queue.len() > 0 && expired(queue[0], now, ttl) {
        let rest = queue.drop_first();
        lemma_stale_count(rest, now, ttl);
        let r = stale_count(rest, now, ttl);
        assert forall|i: int| 0 <= i < 1 + r implies expired(queue[i], now, ttl) by {
            if i > 0 {
                assert(queue[i] == rest[i - 1]);
            }
        }
        if r < rest.len() {
            assert(queue[1 + r] == rest[r]);
        }
    }
}

/// One remembered payload.
#[derive(Debug)]
pub struct HistoryEntry {
    timestamp: u64,
    data: String,
    times_found: usize,
}

impl View for HistoryEntry {
    type V = EntryView;

    closed spec fn view(&self) -> EntryView {
        EntryView { timestamp: self.timestamp, payload: self.data@, times_found: self.times_found }
    }
}

/// The views of the entries of a queue.
pub open spec fn queue_view(queue: Seq<HistoryEntry>) -> Seq<EntryView> {
    Seq::new(queue.len(), |i: int| queue[i]@)
}

fn prune(queue: &mut VecDeque<HistoryEntry>, now: u64, ttl: u64)
    ensures
        queue_view(final(queue)@) == pruned(queue_view(old(queue)@), now, ttl),
{
    assert(queue_view(queue@).skip(0) =~= queue_view(queue@));
    while queue.len() > 0 && (queue[0].timestamp as u128) + (ttl as u128) < (now as u128)
        invariant
            pruned(queue_view(queue@), now, ttl) == pruned(queue_view(old(queue)@), now, ttl),
        decreases queue.len(),
    {
        let ghost before = queue_view(queue@);
        queue.pop_front();
        proof {
            assert(queue_view(queue@) =~= before.drop_first());
            let rest = stale_count(before.drop_first(), now, ttl);
            lemma_stale_count(before.drop_first(), now, ttl);
            assert(before.skip(1 + rest) =~= before.drop_first().skip(rest));
        }
    }
    assert(queue_view(queue@).skip(0) =~= queue_view(queue@));
}

fn seek(queue: &mut VecDeque<HistoryEntry>, data: &str, now: u64, ttl: u64) -> (count: usize)
    ensures
        count == sought_count(queue_view(old(queue)@), data@, now, ttl),
        queue_view(final(queue)@) == sought(queue_view(old(queue)@), data@, now, ttl),
{
    prune(queue, now, ttl);
    let ghost left = queue_view(queue@);
    let n = queue.len();
    let mut i: usize = 0;
    while i < n && !(*queue[i].data.as_str() == *data)
        invariant
            n == queue.len(),
            i <= n,
            left == queue_view(queue@),
            forall|j: int| 0 <= j < i ==> queue@[j].data@ != data@,
        decreases n - i,
    {
        i = i + 1;
    }
    proof {
        lemma_first_index_is(payloads(left), data@, i as int);
    }
    if i < n {
        match queue.remove(i) {
            Some(entry) => {
                let count = if entry.times_found < usize::MAX {
                    entry.times_found + 1
                } else {
                    usize::MAX
                };
                let found = HistoryEntry {
                    timestamp: entry.timestamp,
                    data: entry.data,
                    times_found: count,
                };
                queue.insert(i, found);
                assert(queue_view(queue@) =~= left.update(i as int, bumped(left[i as int])));
                count
            },
            None => 0,
        }
    } else {
        0
    }
}

// ---------------------------------------------------------------------------
// The history: one queue per channel
// ---------------------------------------------------------------------------
/// The queue of one channel.
struct ChannelQueue {
    name: String,
    queue: VecDeque<HistoryEntry>,
}

/// The history as plain values: the queue of each channel.
pub type HistoryView = Map<Seq<char>, Seq<EntryView>>;

/// What was sent to each channel a short while ago.
pub struct History {
    channels: Vec<ChannelQueue>,
    ttl: u64,
}

impl View for History {
    type V = HistoryView;

    closed spec fn view(&self) -> HistoryView {
        Map::new(
            |key: Seq<char>| 0 <= first_index(self.names(), key) < self.channels@.len(),
            |key: Seq<char>| queue_view(self.channels@[first_index(self.names(), key)].queue@),
        )
    }
}

/// The history of the listed channels with nothing in it.
pub open spec fn empty_history(channels: Seq<String>) -> HistoryView {
    Map::new(
        |key: Seq<char>| exists|i: int| 0 <= i < channels.len() && (#[trigger] channels[i])@ == key,
        |key: Seq<char>| Seq::<EntryView>::empty(),
    )
}

/// The history after a push to a channel; an unknown channel changes nothing.
pub open spec fn history_pushed(
    history: HistoryView,
    channel: Seq<char>,
    payload: Seq<char>,
    now: u64,
) -> HistoryView {
    if history.contains_key(channel) {
        history.insert(channel, pushed(history[channel], payload, now))
    } else {
        history
    }
}

/// The history after a search in a channel; an unknown channel changes nothing.
pub open spec fn history_sought(
    history: HistoryView,
    channel: Seq<char>,
    payload: Seq<char>,
    now: u64,
    ttl: u64,
) -> HistoryView {
    if history.contains_key(channel) {
        history.insert(channel, sought(history[channel], payload, now, ttl))
    } else {
        history
    }
}

/// What a search in a channel returns; nothing for an unknown channel.
pub open spec fn history_count(
    history: HistoryView,
    channel: Seq<char>,
    payload: Seq<char>,
    now: u64,
    ttl: u64,
) -> Option<usize> {
    if history.contains_key(channel) {
        Some(sought_count(history[channel], payload, now, ttl))
    } else {
        None
    }
}

impl History {
    closed spec fn names(&self) -> Seq<Seq<char>> {
        Seq::new(self.channels@.len(), |i: int| self.channels@[i].name@)
    }

    /// How long a payload is remembered.
    pub closed spec fn ttl(&self) -> u64 {
        self.ttl
    }

    /// An empty history for the listed channels.
    pub fn new(channels: Vec<String>, ttl: u64) -> (history: History)
        ensures
            history@ == empty_history(channels@),
            history.ttl() == ttl,
    {
        let mut list: Vec<ChannelQueue> = Vec::new();
        let mut i: usize = 0;
        while i < channels.len()
            invariant
                i <= channels.len(),
                list.len() == i,
                forall|j: int| 0 <= j < i ==> list@[j].name@ == channels@[j]@,
                forall|j: int| 0 <= j < i ==> list@[j].queue@.len() == 0,
            decreases channels.len() - i,
        {
            list.push(ChannelQueue { name: channels[i].clone(), queue: VecDeque::new() });
            i = i + 1;
        }
        let history = History { channels: list, ttl };
        proof {
            let names = history.names();
            assert forall|key: Seq<char>| #[trigger]
                history@.contains_key(key) == empty_history(channels@).contains_key(key) by {
                lemma_first_index(names, key);
                let k = first_index(names, key);
                if 0 <= k < names.len() {
                    assert(channels@[k]@ == key);
                }
                if exists|i: int| 0 <= i < channels@.len() && (#[trigger] channels@[i])@ == key {
                    let w = choose|i: int| 0 <= i < channels@.len() && (#[trigger] channels@[i])@ == key;
                    assert(names[w] == key);
                }
            }
            assert forall|key: Seq<char>| history@.contains_key(key) implies #[trigger] history@[key]
                == empty_history(channels@)[key] by {
                let k = first_index(names, key);
                assert(queue_view(history.channels@[k].queue@) =~= Seq::<EntryView>::empty());
            }
            assert(history@ =~= empty_history(channels@));
        }
        history
    }

    proof fn lemma_one_changed(self, before: History, i: int)
        requires
            0 <= i < before.channels@.len(),
            self.channels@.len() == before.channels@.len(),
            self.names() == before.names(),
            i == first_index(before.names(), before.names()[i]),
            forall|j: int|
                0 <= j < before.channels@.len() && j != i ==> self.channels@[j].queue@
                    == before.channels@[j].queue@,
        ensures
            self@ == before@.insert(before.names()[i], queue_view(self.channels@[i].queue@)),
    {
        let names = before.names();
        let target = before@.insert(names[i], queue_view(self.channels@[i].queue@));
        assert forall|key: Seq<char>| self@.contains_key(key) implies #[trigger] self@[key]
            == target[key] by {
            lemma_first_index(names, key);
        }
        assert(self@ =~= target);
    }

    fn position(&self, channel: &str) -> (i: usize)
        ensures
            i == first_index(self.names(), channel@),
            i <= self.channels@.len(),
            (i < self.channels@.len()) == self@.contains_key(channel@),
    {
        let n = self.channels.len();
        let mut i: usize = 0;
        while i < n && !(*self.channels[i].name.as_str() == *channel)
            invariant
                n == self.channels.len(),
                i <= n,
                forall|j: int| 0 <= j < i ==> self.channels@[j].name@ != channel@,
            decreases n - i,
        {
            i = i + 1;
        }
        proof {
            lemma_first_index_is(self.names(), channel@, i as int);
        }
        i
    }

    /// Remembers a payload sent to a channel at `now`.
    pub fn push(&mut self, channel: &str, data: String, now: u64)
        ensures
            final(self)@ == history_pushed(old(self)@, channel@, data@, now),
            final(self).ttl() == old(self).ttl(),
    {
        let i = self.position(channel);
        if i < self.channels.len() {
            let ghost before = queue_view(self.channels@[i as int].queue@);
            let ghost payload = data@;
            self.channels[i].queue.push_back(HistoryEntry { timestamp: now, data, times_found: 0 });
            proof {
                assert(self.names() =~= old(self).names());
                assert(queue_view(self.channels@[i as int].queue@) =~= pushed(before, payload, now));
                lemma_first_index(old(self).names(), channel@);
                self.lemma_one_changed(*old(self), i as int);
                assert(self@ =~= history_pushed(old(self)@, channel@, payload, now));
            }
        }
    }

    /// Searches a channel's queue for a payload at `now`: forgets what is
    /// too old, counts this search on the entry found, and returns its
    /// count, or 0 if the payload is not there. Nothing for an unknown
    /// channel.
    pub fn contains(&mut self, channel: &str, data: &str, now: u64) -> (count: Option<usize>)
        ensures
            count == history_count(old(self)@, channel@, data@, now, old(self).ttl()),
            final(self)@ == history_sought(old(self)@, channel@, data@, now, old(self).ttl()),
            final(self).ttl() == old(self).ttl(),
    {
        let i = self.position(channel);
        if i < self.channels.len() {
            let ttl = self.ttl;
            let count = seek(&mut self.channels[i].queue, data, now, ttl);
            proof {
                assert(self.names() =~= old(self).names());
                lemma_first_index(old(self).names(), channel@);
                self.lemma_one_changed(*old(self), i as int);
                assert(self@ =~= history_sought(old(self)@, channel@, data@, now, ttl));
            }
            Some(count)
        } else {
            None
        }
    }
}

// ---------------------------------------------------------------------------
// What holds of a queue over time
// ---------------------------------------------------------------------------
/// The queue holds an entry with this payload that was pushed at `t`.
pub open spec fn holds(queue: Seq<EntryView>, payload: Seq<char>, t: u64) -> bool {
    exists|i: int|
        0 <= i < queue.len() && (#[trigger] queue[i]).payload == payload && queue[i].timestamp == t
}

/// A payload is in the queue right after it was pushed.
pub proof fn lemma_pushed_holds(queue: Seq<EntryView>, payload: Seq<char>, t: u64)
    ensures
        holds(pushed(queue, payload, t), payload, t),
{
    let after = pushed(queue, payload, t);
    assert(after[queue.len() as int].payload == payload);
}

/// A push of anything keeps what the queue holds.
pub proof fn lemma_push_keeps(
    queue: Seq<EntryView>,
    payload: Seq<char>,
    t: u64,
    other: Seq<char>,
    now: u64,
)
    requires
        holds(queue, payload, t),
    ensures
        holds(pushed(queue, other, now), payload, t),
{
    let i = choose|i: int|
        0 <= i < queue.len() && (#[trigger] queue[i]).payload == payload && queue[i].timestamp == t;
    let after = pushed(queue, other, now);
    assert(after[i] == queue[i]);
}

/// Expiry, first half: while no more than the TTL has passed since a
/// payload was pushed at `t`, a search for it counts at least 1, and a
/// search for anything leaves it in the queue.
pub proof fn lemma_found_in_window(
    queue: Seq<EntryView>,
    payload: Seq<char>,
    t: u64,
    other: Seq<char>,
    now: u64,
    ttl: u64,
)
    requires
        holds(queue, payload, t),
        now <= t + ttl,
    ensures
        sought_count(queue, payload, now, ttl) >= 1,
        holds(sought(queue, other, now, ttl), payload, t),
{
    let i = choose|i: int|
        0 <= i < queue.len() && (#[trigger] queue[i]).payload == payload && queue[i].timestamp == t;
    let stale = stale_count(queue, now, ttl);
    lemma_stale_count(queue, now, ttl);
    assert(stale <= i) by {
        if i < stale {
            assert(expired(queue[i], now, ttl));
        }
    }
    let left = pruned(queue, now, ttl);
    assert(left[i - stale] == queue[i]);
    let found = first_index(payloads(left), payload);
    lemma_first_index(payloads(left), payload);
    assert(found < left.len()) by {
        if found == left.len() {
            assert(payloads(left)[i - stale] == payload);
        }
    }
    let hit = first_index(payloads(left), other);
    lemma_first_index(payloads(left), other);
    let after = sought(queue, other, now, ttl);
    assert(after[i - stale].payload == payload && after[i - stale].timestamp == t);
}

/// Expiry, second half: in a queue in time order, once more than the TTL
/// has passed since the last push of a payload, a search for it counts 0.
pub proof fn lemma_gone_after_window(queue: Seq<EntryView>, payload: Seq<char>, now: u64, ttl: u64)
    requires
        in_time_order(queue),
        forall|i: int|
            0 <= i < queue.len() && (#[trigger] queue[i]).payload == payload ==> queue[i].timestamp
                + ttl < now,
    ensures
        sought_count(queue, payload, now, ttl) == 0,
{
    let stale = stale_count(queue, now, ttl);
    lemma_stale_count(queue, now, ttl);
    let left = pruned(queue, now, ttl);
    let found = first_index(payloads(left), payload);
    lemma_first_index(payloads(left), payload);
    if found < left.len() {
        assert(payloads(left)[found] == payload);
        assert(left[found] == queue[stale + found]);
        assert(queue[stale].timestamp <= queue[stale + found].timestamp);
        assert(expired(queue[stale], now, ttl));
    }
}

/// A push at an instant not before the last one keeps the time order.
pub proof fn lemma_push_in_order(queue: Seq<EntryView>, payload: Seq<char>, now: u64)
    requires
        in_time_order(queue),
        queue.len() > 0 ==> queue.last().timestamp <= now,
    ensures
        in_time_order(pushed(queue, payload, now)),
{
    let after = pushed(queue, payload, now);
    assert forall|i: int, j: int| 0 <= i <= j < after.len() implies after[i].timestamp
        <= after[j].timestamp by {
        if j < queue.len() {
            assert(after[i] == queue[i] && after[j] == queue[j]);
        } else if i < queue.len() {
            assert(after[i] == queue[i]);
            assert(queue[i].timestamp <= queue[queue.len() - 1].timestamp);
        }
    }
}

/// A search keeps the time order.
pub proof fn lemma_sought_in_order(queue: Seq<EntryView>, payload: Seq<char>, now: u64, ttl: u64)
    requires
        in_time_order(queue),
    ensures
        in_time_order(sought(queue, payload, now, ttl)),
{
    let stale = stale_count(queue, now, ttl);
    lemma_stale_count(queue, now, ttl);
    let left = pruned(queue, now, ttl);
    let after = sought(queue, payload, now, ttl);
    lemma_first_index(payloads(left), payload);
    assert forall|i: int, j: int| 0 <= i <= j < after.len() implies after[i].timestamp
        <= after[j].timestamp by {
        assert(after[i].timestamp == queue[stale + i].timestamp);
        assert(after[j].timestamp == queue[stale + j].timestamp);
    }
}

/// The queue after searches for one payload at each of the given times.
pub open spec fn sought_all(queue: Seq<EntryView>, payload: Seq<char>, times: Seq<u64>, ttl: u64) -> Seq<
    EntryView,
>
    decreases times.len(),
{
    if times.len() == 0 {
        queue
    } else {
        sought(sought_all(queue, payload, times.drop_last(), ttl), payload, times.last(), ttl)
    }
}

/// Counting: after one push of a payload at `t` into an empty queue, the
/// searches for it that come no later than `t + ttl` count 1, 2, 3, ...
pub proof fn lemma_counting(payload: Seq<char>, t: u64, times: Seq<u64>, ttl: u64)
    requires
        times.len() < usize::MAX,
        forall|i: int| 0 <= i < times.len() ==> #[trigger] times[i] <= t + ttl,
    ensures
        sought_all(pushed(Seq::empty(), payload, t), payload, times, ttl) == seq![
            EntryView { timestamp: t, payload, times_found: times.len() as usize },
        ],
        forall|m: int|
            0 <= m < times.len() ==> sought_count(
                sought_all(pushed(Seq::empty(), payload, t), payload, times.take(m), ttl),
                payload,
                #[trigger] times[m],
                ttl,
            ) == m + 1,
    decreases times.len(),
{
    let start = pushed(Seq::empty(), payload, t);
    if times.len() == 0 {
        assert(start =~= seq![EntryView { timestamp: t, payload, times_found: 0 }]);
    } else {
        let init = times.drop_last();
        let now = times.last();
        assert forall|i: int| 0 <= i < init.len() implies #[trigger] init[i] <= t + ttl by {
            assert(init[i] == times[i]);
        }
        lemma_counting(payload, t, init, ttl);
        let queue = sought_all(start, payload, init, ttl);
        lemma_one_entry_sought(payload, t, init.len() as usize, now, ttl);
        assert(now == times[times.len() - 1]);
        assert forall|m: int| 0 <= m < times.len() implies sought_count(
            sought_all(start, payload, times.take(m), ttl),
            payload,
            #[trigger] times[m],
            ttl,
        ) == m + 1 by {
            if m < init.len() {
                assert(times.take(m) =~= init.take(m));
                assert(times[m] == init[m]);
            } else {
                assert(times.take(m) =~= init);
            }
        }
    }
}

proof fn lemma_one_entry_sought(payload: Seq<char>, t: u64, found: usize, now: u64, ttl: u64)
    requires
        found < usize::MAX,
        now <= t + ttl,
    ensures
        sought_count(seq![EntryView { timestamp: t, payload, times_found: found }], payload, now, ttl)
            == found + 1,
        sought(seq![EntryView { timestamp: t, payload, times_found: found }], payload, now, ttl)
            == seq![EntryView { timestamp: t, payload, times_found: (found + 1) as usize }],
{
    let queue = seq![EntryView { timestamp: t, payload, times_found: found }];
    lemma_stale_count(queue, now, ttl);
    assert(stale_count(queue, now, ttl) == 0);
    let left = pruned(queue, now, ttl);
    assert(left =~= queue);
    assert(payloads(left)[0] == payload);
    lemma_first_index_is(payloads(left), payload, 0);
    assert(sought(queue, payload, now, ttl) =~= seq![
        EntryView { timestamp: t, payload, times_found: (found + 1) as usize },
    ]);
}

} // verus!
