//! How often mail may be announced: a limit for all senders together and one for
//! each sender, over a window that moves with the time. A time is a number of
//! nanoseconds since some fixed moment.
use crate::text::{
    chars_of, is_white_space, law_trim_takes_off_white_space, lower, same_text, string_of, to_lower,
    trim, trim_chars,
};
use std::collections::VecDeque;
use vstd::prelude::*;

verus! {

/// The answer to an attempt to announce mail.
#[derive(Debug, Clone, Copy, PartialEq, Eq, Structural)]
pub enum RateLimitDecision {
    Accepted,
    GlobalLimited,
    SenderLimited,
}

/// Whether an event is no longer in the window that ends now. An event that lies
/// ahead counts as happening now.
pub open spec fn is_expired(event: u128, now: u128, window: u128) -> bool {
    if event <= now {
        now - event >= window
    } else {
        window == 0
    }
}

/// The events from the first that is still in the window on.
pub open spec fn pruned(events: Seq<u128>, now: u128, window: u128) -> Seq<u128>
    decreases events.len(),
{
    if events.len() > 0 && is_expired(events[0], now, window) {
        pruned(events.skip(1), now, window)
    } else {
        events
    }
}

/// The name under which a sender's events are counted.
pub open spec fn sender_key(sender: Seq<char>) -> Seq<char> {
    lower(trim(sender))
}

/// What a limiter knows.
#[verifier::ext_equal]
pub struct LimiterView {
    pub global_limit: usize,
    pub sender_limit: usize,
    pub window: u128,
    /// The times of the accepted attempts.
    pub global: Seq<u128>,
    /// The times of the accepted attempts of each sender.
    pub senders: Map<Seq<char>, Seq<u128>>,
}

impl LimiterView {
    /// The times that are counted for all senders.
    pub open spec fn global_now(self, now: u128) -> Seq<u128> {
        pruned(self.global, now, self.window)
    }

    /// The times that are counted for each sender; a sender without any is
    /// forgotten.
    pub open spec fn senders_now(self, now: u128) -> Map<Seq<char>, Seq<u128>> {
        Map::new(
            |k: Seq<char>|
                self.senders.dom().contains(k) && pruned(self.senders[k], now, self.window).len()
                    > 0,
            |k: Seq<char>| pruned(self.senders[k], now, self.window),
        )
    }

    /// The times of one sender.
    pub open spec fn events_of(self, key: Seq<char>) -> Seq<u128> {
        if self.senders.dom().contains(key) {
            self.senders[key]
        } else {
            Seq::empty()
        }
    }

    /// The limiter with everything forgotten that is no longer in the window.
    pub open spec fn refreshed(self, now: u128) -> LimiterView {
        LimiterView { global: self.global_now(now), senders: self.senders_now(now), ..self }
    }

    /// The answer to an attempt by this sender. A limit of zero is no limit.
    pub open spec fn decision(self, sender: Seq<char>, now: u128) -> RateLimitDecision {
        let current = self.refreshed(now);
        if self.global_limit > 0 && current.global.len() >= self.global_limit {
            RateLimitDecision::GlobalLimited
        } else if self.sender_limit > 0 && current.events_of(sender_key(sender)).len()
            >= self.sender_limit {
            RateLimitDecision::SenderLimited
        } else {
            RateLimitDecision::Accepted
        }
    }

    /// The limiter after an attempt by this sender. Only an accepted attempt is
    /// counted.
    pub open spec fn after(self, sender: Seq<char>, now: u128) -> LimiterView {
        let current = self.refreshed(now);
        let key = sender_key(sender);
        if self.decision(sender, now) == RateLimitDecision::Accepted {
            LimiterView {
                global: current.global.push(now),
                senders: current.senders.insert(key, current.events_of(key).push(now)),
                ..current
            }
        } else {
            current
        }
    }
}

/// A sender's accepted attempts.
#[derive(Debug)]
struct SenderEvents {
    sender: String,
    events: VecDeque<u128>,
}

/// Counts accepted attempts and refuses those beyond its limits.
#[derive(Debug)]
pub struct RateLimiter {
    global_limit: usize,
    sender_limit: usize,
    window: u128,
    global: VecDeque<u128>,
    senders: Vec<SenderEvents>,
}

/// Whether no two entries are for the same sender.
spec fn distinct_senders(entries: Seq<SenderEvents>) -> bool {
    forall|i: int, j: int|
        0 <= i < j < entries.len() ==> (#[trigger] entries[i]).sender@ != (
        #[trigger] entries[j]).sender@
}

/// Whether there is an entry for the sender.
spec fn has_sender(entries: Seq<SenderEvents>, key: Seq<char>) -> bool {
    exists|i: int| 0 <= i < entries.len() && (#[trigger] entries[i]).sender@ == key
}

/// The position of the entry for the sender.
spec fn sender_index(entries: Seq<SenderEvents>, key: Seq<char>) -> int {
    choose|i: int| 0 <= i < entries.len() && (#[trigger] entries[i]).sender@ == key
}

/// The entries as a map.
spec fn sender_map(entries: Seq<SenderEvents>) -> Map<Seq<char>, Seq<u128>> {
    Map::new(
        |k: Seq<char>| has_sender(entries, k),
        |k: Seq<char>| entries[sender_index(entries, k)].events@,
    )
}

proof fn lemma_sender_map(entries: Seq<SenderEvents>, i: int)
    requires
        distinct_senders(entries),
        0 <= i < entries.len(),
    ensures
        sender_map(entries).dom().contains(entries[i].sender@),
        sender_map(entries)[entries[i].sender@] == entries[i].events@,
{
    let key = entries[i].sender@;
    assert(has_sender(entries, key));
    let j = sender_index(entries, key);
    assert(entries[j].sender@ == entries[i].sender@);
    assert(i == j);
}

impl View for RateLimiter {
    type V = LimiterView;

    closed spec fn view(&self) -> LimiterView {
        LimiterView {
            global_limit: self.global_limit,
            sender_limit: self.sender_limit,
            window: self.window,
            global: self.global@,
            senders: sender_map(self.senders@),
        }
    }
}

/// Removes the events that are no longer in the window, from the front on.
pub fn prune_old(events: &mut VecDeque<u128>, now: u128, window: u128)
    ensures
        final(events)@ == pruned(old(events)@, now, window),
{
    loop
        invariant
            pruned(events@, now, window) == pruned(old(events)@, now, window),
        decreases events@.len(),
    {
        if events.len() == 0 {
            return ;
        }
        let event: u128 = events[0];
        let elapsed: u128 = if event <= now {
            now - event
        } else {
            0
        };
        if elapsed < window {
            return ;
        }
        let ghost before = events@;
        let _ = events.pop_front();
        assert(events@ == before.skip(1));
    }
}

/// The name under which a sender's events are counted.
pub fn normalize_sender(sender: &str) -> (r: String)
    ensures
        r@ == sender_key(sender@),
{
    let chars = chars_of(sender);
    let lowered = to_lower(trim_chars(chars.as_slice()));
    string_of(lowered.as_slice())
}

/// The entries whose events, pruned, are not empty.
fn prune_senders(senders: Vec<SenderEvents>, now: u128, window: u128) -> (r: Vec<SenderEvents>)
    requires
        distinct_senders(senders@),
    ensures
        distinct_senders(r@),
        forall|i: int|
            0 <= i < r@.len() ==> (#[trigger] r@[i]).events@.len() > 0 && has_sender(
                senders@,
                r@[i].sender@,
            ) && r@[i].events@ == pruned(
                sender_map(senders@)[r@[i].sender@],
                now,
                window,
            ),
        forall|j: int|
            0 <= j < senders@.len() && pruned((#[trigger] senders@[j]).events@, now, window).len()
                > 0 ==> has_sender(r@, senders@[j].sender@),
{
    let ghost given = senders@;
    let mut rest = senders;
    let mut kept: Vec<SenderEvents> = Vec::new();
    while rest.len() > 0
        invariant
            distinct_senders(given),
            rest@.len() <= given.len(),
            rest@ == given.take(rest@.len() as int),
            distinct_senders(kept@),
            forall|i: int, j: int|
                0 <= i < kept@.len() && 0 <= j < rest@.len() ==> (#[trigger] kept@[i]).sender@ != (
                #[trigger] given[j]).sender@,
            forall|i: int|
                0 <= i < kept@.len() ==> (#[trigger] kept@[i]).events@.len() > 0 && has_sender(
                    given,
                    kept@[i].sender@,
                ) && kept@[i].events@ == pruned(
                    sender_map(given)[kept@[i].sender@],
                    now,
                    window,
                ),
            forall|j: int|
                rest@.len() <= j < given.len() && pruned(
                    (#[trigger] given[j]).events@,
                    now,
                    window,
                ).len() > 0 ==> has_sender(kept@, given[j].sender@),
        decreases rest@.len(),
    {
        let ghost n = rest@.len() - 1;
        let ghost kept_before = kept@;
        let entry = rest.pop().unwrap();
        assert(entry == given[n]);
        assert(rest@ == given.take(n));
        let SenderEvents { sender, mut events } = entry;
        prune_old(&mut events, now, window);
        proof {
            lemma_sender_map(given, n);
        }
        if events.len() > 0 {
            kept.push(SenderEvents { sender, events });
            assert(kept@[kept_before.len() as int].sender@ == given[n].sender@);
        }
        assert forall|j: int|
            rest@.len() <= j < given.len() && pruned(
                (#[trigger] given[j]).events@,
                now,
                window,
            ).len() > 0 implies has_sender(kept@, given[j].sender@) by {
            if j == n {
                assert(kept@[kept_before.len() as int].sender@ == given[j].sender@);
            } else {
                let i = sender_index(kept_before, given[j].sender@);
                assert(has_sender(kept_before, given[j].sender@));
                assert(kept@[i] == kept_before[i]);
            }
        }
    }
    kept
}

impl RateLimiter {
    /// Whether the limiter's entries fit together.
    pub closed spec fn wf(&self) -> bool {
        distinct_senders(self.senders@)
    }

    /// A limiter that has counted nothing yet.
    pub fn new(global_limit: usize, sender_limit: usize, window: u128) -> (r: Self)
        ensures
            r.wf(),
            r@ == (LimiterView {
                global_limit,
                sender_limit,
                window,
                global: Seq::empty(),
                senders: Map::empty(),
            }),
    {
        let limiter = RateLimiter {
            global_limit,
            sender_limit,
            window,
            global: VecDeque::new(),
            senders: Vec::new(),
        };
        assert(sender_map(limiter.senders@) =~= Map::empty());
        limiter
    }

    /// Forgets what is no longer in the window.
    fn refresh(&mut self, now: u128)
        requires
            old(self).wf(),
        ensures
            final(self).wf(),
            final(self)@ == old(self)@.refreshed(now),
    {
        let ghost before = self@;
        prune_old(&mut self.global, now, self.window);
        let mut senders: Vec<SenderEvents> = Vec::new();
        std::mem::swap(&mut senders, &mut self.senders);
        let ghost given = senders@;
        self.senders = prune_senders(senders, now, self.window);
        proof {
            let kept = self.senders@;
            assert forall|k: Seq<char>| has_sender(kept, k) implies has_sender(given, k)
                && sender_map(kept)[k] == pruned(sender_map(given)[k], now, self.window)
                && sender_map(kept)[k].len() > 0 by {
                let i = sender_index(kept, k);
                lemma_sender_map(kept, i);
            }
            assert forall|k: Seq<char>|
                has_sender(given, k) && pruned(
                    sender_map(given)[k],
                    now,
                    self.window,
                ).len() > 0 implies has_sender(kept, k) by {
                let j = sender_index(given, k);
                lemma_sender_map(given, j);
            }
            assert(sender_map(kept) =~= before.senders_now(now));
        }
    }

    /// The position of the sender's entry, or the number of entries.
    fn position_of_sender(&self, key: &str) -> (r: usize)
        ensures
            r <= self.senders@.len(),
            r < self.senders@.len() ==> self.senders@[r as int].sender@ == key@,
            r == self.senders@.len() ==> !has_sender(self.senders@, key@),
    {
        let mut i: usize = 0;
        while i < self.senders.len()
            invariant
                i <= self.senders@.len(),
                forall|j: int| 0 <= j < i ==> (#[trigger] self.senders@[j]).sender@ != key@,
            decreases self.senders@.len() - i,
        {
            if same_text(self.senders[i].sender.as_str(), key) {
                return i;
            }
            i = i + 1;
        }
        i
    }

    /// Answers an attempt to announce mail, and counts it if it is accepted.
    pub fn check_and_record(&mut self, sender: &str, now: u128) -> (r: RateLimitDecision)
        requires
            old(self).wf(),
        ensures
            final(self).wf(),
            r == old(self)@.decision(sender@, now),
            final(self)@ == old(self)@.after(sender@, now),
    {
        self.refresh(now);
        let ghost current = self@;
        if self.global_limit > 0 && self.global.len() >= self.global_limit {
            return RateLimitDecision::GlobalLimited;
        }
        let key = normalize_sender(sender);
        let index: usize = self.position_of_sender(key.as_str());
        let ghost entries = self.senders@;
        if index < self.senders.len() {
            proof {
                lemma_sender_map(entries, index as int);
            }
            assert(current.events_of(key@) == entries[index as int].events@);
            if self.sender_limit > 0 && self.senders[index].events.len() >= self.sender_limit {
                return RateLimitDecision::SenderLimited;
            }
            self.global.push_back(now);
            self.senders[index].events.push_back(now);
        } else {
            assert(current.events_of(key@) == Seq::<u128>::empty());
            self.global.push_back(now);
            let mut events: VecDeque<u128> = VecDeque::new();
            events.push_back(now);
            self.senders.push(SenderEvents { sender: key, events });
        }
        proof {
            let updated = self.senders@;
            assert forall|i: int| 0 <= i < entries.len() implies (
            #[trigger] updated[i]).sender@ == entries[i].sender@ by {
            }
            assert(distinct_senders(updated));
            let k0 = sender_key(sender@);
            lemma_sender_map(updated, index as int);
            let expected = current.senders.insert(k0, current.events_of(k0).push(now));
            assert forall|k: Seq<char>| has_sender(updated, k) == expected.dom().contains(k)
                && (has_sender(updated, k) ==> sender_map(updated)[k] == expected[k]) by {
                if k == k0 {
                    assert(updated[index as int].sender@ == k);
                } else {
                    if has_sender(updated, k) {
                        let i = sender_index(updated, k);
                        assert(i != index);
                        lemma_sender_map(updated, i);
                        assert(entries[i].sender@ == k);
                        lemma_sender_map(entries, i);
                    }
                    if has_sender(entries, k) {
                        let i = sender_index(entries, k);
                        assert(updated[i].sender@ == k);
                    }
                }
            }
            assert(sender_map(updated) =~= expected);
        }
        RateLimitDecision::Accepted
    }
}

// ---------------------------------------------------------------------------
// Laws
// ---------------------------------------------------------------------------
/// The limiter after these attempts, each a sender and a time.
pub open spec fn after_all(start: LimiterView, attempts: Seq<(Seq<char>, u128)>) -> LimiterView
    decreases attempts.len(),
{
    if attempts.len() == 0 {
        start
    } else {
        after_all(start, attempts.drop_last()).after(attempts.last().0, attempts.last().1)
    }
}

/// Whether the last of these attempts is accepted.
pub open spec fn last_accepted(start: LimiterView, attempts: Seq<(Seq<char>, u128)>) -> bool {
    after_all(start, attempts.drop_last()).decision(attempts.last().0, attempts.last().1)
        == RateLimitDecision::Accepted
}

/// The times of those attempts that are accepted.
pub open spec fn accepted_times(
    start: LimiterView,
    attempts: Seq<(Seq<char>, u128)>,
) -> Seq<u128>
    decreases attempts.len(),
{
    if attempts.len() == 0 {
        seq![]
    } else {
        let rest = accepted_times(start, attempts.drop_last());
        if last_accepted(start, attempts) {
            rest.push(attempts.last().1)
        } else {
            rest
        }
    }
}

/// The times of those attempts of one sender that are accepted.
pub open spec fn accepted_times_of(
    start: LimiterView,
    attempts: Seq<(Seq<char>, u128)>,
    key: Seq<char>,
) -> Seq<u128>
    decreases attempts.len(),
{
    if attempts.len() == 0 {
        seq![]
    } else {
        let rest = accepted_times_of(start, attempts.drop_last(), key);
        if last_accepted(start, attempts) && sender_key(attempts.last().0) == key {
            rest.push(attempts.last().1)
        } else {
            rest
        }
    }
}

/// Whether the attempts come in the order of their times, none after `now`.
pub open spec fn in_order(attempts: Seq<(Seq<char>, u128)>, now: u128) -> bool {
    &&& forall|i: int, j: int|
        0 <= i <= j < attempts.len() ==> (#[trigger] attempts[i]).1 <= (#[trigger] attempts[j]).1
    &&& forall|i: int| 0 <= i < attempts.len() ==> (#[trigger] attempts[i]).1 <= now
}

/// How many of the events are in the window that ends now.
pub open spec fn count_in_window(events: Seq<u128>, now: u128, window: u128) -> nat
    decreases events.len(),
{
    if events.len() == 0 {
        0
    } else {
        (if is_expired(events[0], now, window) {
            0nat
        } else {
            1nat
        }) + count_in_window(events.skip(1), now, window)
    }
}

/// A limiter that has counted nothing yet.
pub open spec fn is_fresh(limiter: LimiterView) -> bool {
    limiter.global == Seq::<u128>::empty() && limiter.senders == Map::<
        Seq<char>,
        Seq<u128>,
    >::empty()
}

spec fn sorted_until(events: Seq<u128>, now: u128) -> bool {
    &&& forall|i: int, j: int| 0 <= i <= j < events.len() ==> events[i] <= events[j]
    &&& forall|i: int| 0 <= i < events.len() ==> events[i] <= now
}

proof fn lemma_pruned_len(events: Seq<u128>, now: u128, window: u128)
    ensures
        pruned(events, now, window).len() <= events.len(),
    decreases events.len(),
{
    if events.len() > 0 && is_expired(events[0], now, window) {
        lemma_pruned_len(events.skip(1), now, window);
    }
}

/// Pruning earlier changes nothing about pruning later.
proof fn lemma_pruned_twice(events: Seq<u128>, earlier: u128, later: u128, window: u128)
    requires
        earlier <= later,
    ensures
        pruned(pruned(events, earlier, window), later, window) == pruned(events, later, window),
    decreases events.len(),
{
    if events.len() > 0 && is_expired(events[0], earlier, window) {
        lemma_pruned_twice(events.skip(1), earlier, later, window);
    }
}

/// What pruning makes of one more event depends on what it makes of the others.
proof fn lemma_pruned_push(events: Seq<u128>, event: u128, now: u128, window: u128)
    ensures
        pruned(events.push(event), now, window) == (if pruned(events, now, window).len() > 0 {
            pruned(events, now, window).push(event)
        } else {
            pruned(seq![event], now, window)
        }),
    decreases events.len(),
{
    if events.len() == 0 {
        assert(events.push(event) == seq![event]);
    } else if is_expired(events[0], now, window) {
        lemma_pruned_push(events.skip(1), event, now, window);
        assert(events.push(event).skip(1) == events.skip(1).push(event));
    }
}

proof fn lemma_count_all(events: Seq<u128>, now: u128, window: u128)
    requires
        sorted_until(events, now),
        events.len() > 0 ==> !is_expired(events[0], now, window),
    ensures
        count_in_window(events, now, window) == events.len(),
    decreases events.len(),
{
    if events.len() > 0 {
        let rest = events.skip(1);
        assert forall|i: int, j: int| 0 <= i <= j < rest.len() implies rest[i] <= rest[j] by {
            assert(events[i + 1] <= events[j + 1]);
        }
        if rest.len() > 0 {
            assert(events[0] <= events[1]);
        }
        lemma_count_all(rest, now, window);
    }
}

/// In order, pruning keeps exactly what is in the window.
proof fn lemma_count_is_pruned(events: Seq<u128>, now: u128, window: u128)
    requires
        sorted_until(events, now),
    ensures
        count_in_window(events, now, window) == pruned(events, now, window).len(),
    decreases events.len(),
{
    if events.len() > 0 {
        if is_expired(events[0], now, window) {
            let rest = events.skip(1);
            assert forall|i: int, j: int| 0 <= i <= j < rest.len() implies rest[i] <= rest[j] by {
                assert(events[i + 1] <= events[j + 1]);
            }
            lemma_count_is_pruned(rest, now, window);
        } else {
            lemma_count_all(events, now, window);
        }
    }
}

proof fn lemma_in_order_prefix(attempts: Seq<(Seq<char>, u128)>, now: u128)
    requires
        in_order(attempts, now),
        attempts.len() > 0,
    ensures
        in_order(attempts.drop_last(), attempts.last().1),
        attempts.last().1 <= now,
{
    let rest = attempts.drop_last();
    assert forall|i: int, j: int| 0 <= i <= j < rest.len() implies (#[trigger] rest[i]).1 <= (
    #[trigger] rest[j]).1 by {
        assert(attempts[i].1 <= attempts[j].1);
    }
    assert forall|i: int| 0 <= i < rest.len() implies (#[trigger] rest[i]).1
        <= attempts.last().1 by {
        assert(attempts[i].1 <= attempts[attempts.len() - 1].1);
    }
}

proof fn lemma_accepted_sorted(
    start: LimiterView,
    attempts: Seq<(Seq<char>, u128)>,
    key: Seq<char>,
    now: u128,
)
    requires
        in_order(attempts, now),
    ensures
        sorted_until(accepted_times(start, attempts), now),
        sorted_until(accepted_times_of(start, attempts, key), now),
    decreases attempts.len(),
{
    if attempts.len() > 0 {
        lemma_in_order_prefix(attempts, now);
        lemma_accepted_sorted(start, attempts.drop_last(), key, attempts.last().1);
    }
}

/// The settings never change.
proof fn lemma_settings(start: LimiterView, attempts: Seq<(Seq<char>, u128)>)
    ensures
        after_all(start, attempts).global_limit == start.global_limit,
        after_all(start, attempts).sender_limit == start.sender_limit,
        after_all(start, attempts).window == start.window,
    decreases attempts.len(),
{
    if attempts.len() > 0 {
        lemma_settings(start, attempts.drop_last());
    }
}

/// What counts from `now` on is what was accepted.
proof fn lemma_global_is_accepted(
    start: LimiterView,
    attempts: Seq<(Seq<char>, u128)>,
    now: u128,
)
    requires
        is_fresh(start),
        in_order(attempts, now),
    ensures
        pruned(after_all(start, attempts).global, now, start.window) == pruned(
            accepted_times(start, attempts),
            now,
            start.window,
        ),
    decreases attempts.len(),
{
    if attempts.len() > 0 {
        let rest = attempts.drop_last();
        let time = attempts.last().1;
        let before = after_all(start, rest);
        let w = start.window;
        lemma_in_order_prefix(attempts, now);
        lemma_settings(start, rest);
        assert(in_order(rest, now)) by {
            lemma_in_order_prefix(attempts, now);
        }
        lemma_global_is_accepted(start, rest, now);
        lemma_pruned_twice(before.global, time, now, w);
        lemma_pruned_push(pruned(before.global, time, w), time, now, w);
        lemma_pruned_push(accepted_times(start, rest), time, now, w);
    }
}

/// What counts of a sender from `now` on is what was accepted of it.
proof fn lemma_sender_is_accepted(
    start: LimiterView,
    attempts: Seq<(Seq<char>, u128)>,
    key: Seq<char>,
    now: u128,
)
    requires
        is_fresh(start),
        in_order(attempts, now),
    ensures
        pruned(after_all(start, attempts).events_of(key), now, start.window) == pruned(
            accepted_times_of(start, attempts, key),
            now,
            start.window,
        ),
    decreases attempts.len(),
{
    if attempts.len() > 0 {
        let rest = attempts.drop_last();
        let time = attempts.last().1;
        let before = after_all(start, rest);
        let w = start.window;
        lemma_in_order_prefix(attempts, now);
        lemma_settings(start, rest);
        lemma_sender_is_accepted(start, rest, key, now);
        lemma_refreshed_events(before, key, time);
        lemma_pruned_twice(before.events_of(key), time, now, w);
        lemma_pruned_push(pruned(before.events_of(key), time, w), time, now, w);
        lemma_pruned_push(accepted_times_of(start, rest, key), time, now, w);
    }
}

proof fn lemma_refreshed_events(limiter: LimiterView, key: Seq<char>, now: u128)
    ensures
        limiter.refreshed(now).events_of(key) == pruned(
            limiter.events_of(key),
            now,
            limiter.window,
        ),
{
    let p = pruned(limiter.events_of(key), now, limiter.window);
    if p.len() == 0 {
        assert(p == Seq::<u128>::empty());
    }
}

/// Whatever is attempted, the attempts that are accepted within one window are no
/// more than the global limit, unless it is zero.
pub proof fn law_global_limit_holds(
    start: LimiterView,
    attempts: Seq<(Seq<char>, u128)>,
    now: u128,
)
    requires
        is_fresh(start),
        start.global_limit > 0,
        in_order(attempts, now),
    ensures
        count_in_window(accepted_times(start, attempts), now, start.window) <= start.global_limit,
    decreases attempts.len(),
{
    let accepted = accepted_times(start, attempts);
    let w = start.window;
    lemma_accepted_sorted(start, attempts, Seq::empty(), now);
    lemma_count_is_pruned(accepted, now, w);
    if attempts.len() > 0 {
        let rest = attempts.drop_last();
        let time = attempts.last().1;
        let accepted_before = accepted_times(start, rest);
        lemma_in_order_prefix(attempts, now);
        lemma_accepted_sorted(start, rest, Seq::empty(), now);
        law_global_limit_holds(start, rest, now);
        lemma_count_is_pruned(accepted_before, now, w);
        if last_accepted(start, attempts) {
            lemma_settings(start, rest);
            lemma_global_is_accepted(start, rest, time);
            lemma_pruned_twice(accepted_before, time, now, w);
            lemma_pruned_len(pruned(accepted_before, time, w), now, w);
            lemma_pruned_push(accepted_before, time, now, w);
            lemma_pruned_len(seq![time], now, w);
        }
    }
}

/// Whatever is attempted, the attempts of one sender that are accepted within one
/// window are no more than the sender limit, unless it is zero.
pub proof fn law_sender_limit_holds(
    start: LimiterView,
    attempts: Seq<(Seq<char>, u128)>,
    key: Seq<char>,
    now: u128,
)
    requires
        is_fresh(start),
        start.sender_limit > 0,
        in_order(attempts, now),
    ensures
        count_in_window(accepted_times_of(start, attempts, key), now, start.window)
            <= start.sender_limit,
    decreases attempts.len(),
{
    let accepted = accepted_times_of(start, attempts, key);
    let w = start.window;
    lemma_accepted_sorted(start, attempts, key, now);
    lemma_count_is_pruned(accepted, now, w);
    if attempts.len() > 0 {
        let rest = attempts.drop_last();
        let time = attempts.last().1;
        let accepted_before = accepted_times_of(start, rest, key);
        lemma_in_order_prefix(attempts, now);
        lemma_accepted_sorted(start, rest, key, now);
        law_sender_limit_holds(start, rest, key, now);
        lemma_count_is_pruned(accepted_before, now, w);
        if last_accepted(start, attempts) && sender_key(attempts.last().0) == key {
            lemma_settings(start, rest);
            lemma_sender_is_accepted(start, rest, key, time);
            lemma_refreshed_events(after_all(start, rest), key, time);
            lemma_pruned_twice(accepted_before, time, now, w);
            lemma_pruned_len(pruned(accepted_before, time, w), now, w);
            lemma_pruned_push(accepted_before, time, now, w);
            lemma_pruned_len(seq![time], now, w);
        }
    }
}

/// After any attempts, one is refused for all senders exactly where the attempts that
/// were accepted within the window reach the global limit; and refused for its sender
/// exactly where that is not so and the sender's own reach the sender limit.
pub proof fn law_refused_exactly_at_the_limit(
    start: LimiterView,
    attempts: Seq<(Seq<char>, u128)>,
    sender: Seq<char>,
    now: u128,
)
    requires
        is_fresh(start),
        in_order(attempts, now),
    ensures
        ({
            let all = count_in_window(accepted_times(start, attempts), now, start.window);
            let own = count_in_window(
                accepted_times_of(start, attempts, sender_key(sender)),
                now,
                start.window,
            );
            after_all(start, attempts).decision(sender, now) == if start.global_limit > 0 && all
                >= start.global_limit {
                RateLimitDecision::GlobalLimited
            } else if start.sender_limit > 0 && own >= start.sender_limit {
                RateLimitDecision::SenderLimited
            } else {
                RateLimitDecision::Accepted
            }
        }),
{
    let key = sender_key(sender);
    let state = after_all(start, attempts);
    lemma_settings(start, attempts);
    lemma_accepted_sorted(start, attempts, key, now);
    lemma_count_is_pruned(accepted_times(start, attempts), now, start.window);
    lemma_count_is_pruned(accepted_times_of(start, attempts, key), now, start.window);
    lemma_global_is_accepted(start, attempts, now);
    lemma_sender_is_accepted(start, attempts, key, now);
    lemma_refreshed_events(state, key, now);
}

/// How many times all senders have together.
pub open spec fn total_count(senders: Map<Seq<char>, Seq<u128>>) -> nat
    decreases senders.dom().len(),
    when senders.dom().finite()
{
    if senders.dom().len() == 0 {
        0
    } else {
        let key = senders.dom().choose();
        senders[key].len() + total_count(senders.remove(key))
    }
}

/// Whether what a limiter knows fits together.
pub open spec fn is_consistent(limiter: LimiterView) -> bool {
    &&& forall|i: int, j: int|
        0 <= i <= j < limiter.global.len() ==> #[trigger] limiter.global[i]
            <= #[trigger] limiter.global[j]
    &&& limiter.senders.dom().finite()
    &&& limiter.global.len() == total_count(limiter.senders)
    &&& forall|key: Seq<char>| #[trigger]
        limiter.senders.contains_key(key) ==> limiter.senders[key].len() > 0
    &&& limiter.global_limit > 0 ==> limiter.global.len() <= limiter.global_limit
    &&& limiter.sender_limit > 0 ==> forall|key: Seq<char>| #[trigger]
        limiter.senders.contains_key(key) ==> limiter.senders[key].len() <= limiter.sender_limit
}

/// After any attempts in order, a limiter's times are in order and those of all
/// senders make up the whole; no sender without times is kept, neither limit is
/// exceeded, and the settings are what they were.
pub proof fn law_limiter_stays_consistent(
    start: LimiterView,
    attempts: Seq<(Seq<char>, u128)>,
    now: u128,
)
    requires
        is_fresh(start),
        in_order(attempts, now),
    ensures
        is_consistent(after_all(start, attempts)),
        after_all(start, attempts).global_limit == start.global_limit,
        after_all(start, attempts).sender_limit == start.sender_limit,
        after_all(start, attempts).window == start.window,
{
    lemma_settings(start, attempts);
    lemma_consistent(start, attempts, now);
}

/// Whether a limiter is consistent and all its times are in order, none after `now`.
spec fn is_consistent_until(limiter: LimiterView, now: u128) -> bool {
    &&& is_consistent(limiter)
    &&& sorted_until(limiter.global, now)
    &&& forall|key: Seq<char>| #[trigger]
        limiter.senders.contains_key(key) ==> sorted_until(limiter.senders[key], now)
}

proof fn lemma_consistent(start: LimiterView, attempts: Seq<(Seq<char>, u128)>, now: u128)
    requires
        is_fresh(start),
        in_order(attempts, now),
    ensures
        is_consistent_until(after_all(start, attempts), now),
        forall|t: u128|
            now <= t ==> #[trigger] after_all(start, attempts).global_now(t).len()
                == total_count(after_all(start, attempts).senders_now(t)),
    decreases attempts.len(),
{
    let state = after_all(start, attempts);
    if attempts.len() == 0 {
        assert forall|t: u128| now <= t implies #[trigger] state.global_now(t).len()
            == total_count(state.senders_now(t)) by {
            assert(state.senders_now(t) =~= Map::empty());
        }
    } else {
        let rest = attempts.drop_last();
        let sender = attempts.last().0;
        let time = attempts.last().1;
        let before = after_all(start, rest);
        lemma_in_order_prefix(attempts, now);
        lemma_consistent(start, rest, time);
        lemma_refresh_is_consistent(before, time);
        let current = before.refreshed(time);
        assert forall|t: u128| time <= t implies #[trigger] current.global_now(t).len()
            == total_count(current.senders_now(t)) by {
            lemma_refresh_twice(before, time, t);
            assert(before.global_now(t).len() == total_count(before.senders_now(t)));
        }
        if before.decision(sender, time) == RateLimitDecision::Accepted {
            lemma_accept_is_consistent(before, sender, time);
            assert forall|t: u128| time <= t implies #[trigger] state.global_now(t).len()
                == total_count(state.senders_now(t)) by {
                assert(current.global_now(t).len() == total_count(current.senders_now(t)));
                lemma_accept_later(before, sender, time, t);
            }
        }
    }
}

proof fn lemma_total_remove(senders: Map<Seq<char>, Seq<u128>>, key: Seq<char>)
    requires
        senders.dom().finite(),
        senders.contains_key(key),
    ensures
        total_count(senders) == senders[key].len() + total_count(senders.remove(key)),
    decreases senders.dom().len(),
{
    let first = senders.dom().choose();
    assert(senders.dom().contains(first));
    if first != key {
        lemma_total_remove(senders.remove(first), key);
        lemma_total_remove(senders.remove(key), first);
        assert(senders.remove(first).remove(key) =~= senders.remove(key).remove(first));
    }
}

proof fn lemma_total_insert(senders: Map<Seq<char>, Seq<u128>>, key: Seq<char>, times: Seq<u128>)
    requires
        senders.dom().finite(),
    ensures
        total_count(senders.insert(key, times)) == total_count(senders) + times.len() - (
        if senders.contains_key(key) {
            senders[key].len()
        } else {
            0
        }),
{
    let after = senders.insert(key, times);
    lemma_total_remove(after, key);
    if senders.contains_key(key) {
        lemma_total_remove(senders, key);
    }
    assert(after.remove(key) =~= senders.remove(key));
    if !senders.contains_key(key) {
        assert(senders.remove(key) =~= senders);
    }
}

proof fn lemma_pruned_sorted(events: Seq<u128>, now: u128, window: u128)
    requires
        sorted_until(events, now),
    ensures
        sorted_until(pruned(events, now, window), now),
    decreases events.len(),
{
    if events.len() > 0 && is_expired(events[0], now, window) {
        let rest = events.skip(1);
        assert forall|i: int, j: int| 0 <= i <= j < rest.len() implies rest[i] <= rest[j] by {
            assert(events[i + 1] <= events[j + 1]);
        }
        lemma_pruned_sorted(rest, now, window);
    }
}

proof fn lemma_senders_now_finite(limiter: LimiterView, now: u128)
    requires
        limiter.senders.dom().finite(),
    ensures
        limiter.senders_now(now).dom().finite(),
{
    assert(limiter.senders_now(now).dom().subset_of(limiter.senders.dom()));
    vstd::set_lib::lemma_set_subset_finite(
        limiter.senders.dom(),
        limiter.senders_now(now).dom(),
    );
}

proof fn lemma_refresh_is_consistent(limiter: LimiterView, now: u128)
    requires
        is_consistent_until(limiter, now),
        limiter.global_now(now).len() == total_count(limiter.senders_now(now)),
    ensures
        is_consistent_until(limiter.refreshed(now), now),
{
    let w = limiter.window;
    let current = limiter.refreshed(now);
    lemma_senders_now_finite(limiter, now);
    lemma_pruned_sorted(limiter.global, now, w);
    lemma_pruned_len(limiter.global, now, w);
    assert forall|key: Seq<char>| #[trigger] current.senders.contains_key(key) implies sorted_until(
        current.senders[key],
        now,
    ) && current.senders[key].len() <= limiter.senders[key].len() by {
        assert(limiter.senders.contains_key(key));
        lemma_pruned_sorted(limiter.senders[key], now, w);
        lemma_pruned_len(limiter.senders[key], now, w);
    }
}

proof fn lemma_refresh_twice(limiter: LimiterView, earlier: u128, later: u128)
    requires
        earlier <= later,
    ensures
        limiter.refreshed(earlier).global_now(later) == limiter.global_now(later),
        limiter.refreshed(earlier).senders_now(later) == limiter.senders_now(later),
{
    let w = limiter.window;
    let current = limiter.refreshed(earlier);
    lemma_pruned_twice(limiter.global, earlier, later, w);
    assert forall|key: Seq<char>|
        limiter.senders.contains_key(key) implies #[trigger] pruned(
        pruned(limiter.senders[key], earlier, w),
        later,
        w,
    ) == pruned(limiter.senders[key], later, w) by {
        lemma_pruned_twice(limiter.senders[key], earlier, later, w);
    }
    assert forall|key: Seq<char>|
        current.senders_now(later).contains_key(key) == limiter.senders_now(later).contains_key(key)
        by {
        if limiter.senders.contains_key(key) {
            let times = limiter.senders[key];
            lemma_pruned_twice(times, earlier, later, w);
            lemma_pruned_len(pruned(times, earlier, w), later, w);
        }
    }
    assert(current.senders_now(later) =~= limiter.senders_now(later));
}

proof fn lemma_accept_is_consistent(limiter: LimiterView, sender: Seq<char>, now: u128)
    requires
        is_consistent_until(limiter.refreshed(now), now),
        limiter.decision(sender, now) == RateLimitDecision::Accepted,
    ensures
        is_consistent_until(limiter.after(sender, now), now),
{
    let current = limiter.refreshed(now);
    let key = sender_key(sender);
    let next = limiter.after(sender, now);
    lemma_total_insert(current.senders, key, current.events_of(key).push(now));
    assert(sorted_until(next.global, now));
    assert forall|k: Seq<char>| #[trigger] next.senders.contains_key(k) implies sorted_until(
        next.senders[k],
        now,
    ) && next.senders[k].len() > 0 && (next.sender_limit > 0 ==> next.senders[k].len()
        <= next.sender_limit) by {
        if k != key {
            assert(current.senders.contains_key(k));
        } else if current.senders.contains_key(key) {
            assert(sorted_until(current.senders[key], now));
        }
    }
}

/// Once a time is out of the window, so are all before it.
proof fn lemma_expired_before(events: Seq<u128>, last: u128, now: u128, window: u128)
    requires
        sorted_until(events, last),
        last <= now,
        is_expired(last, now, window),
    ensures
        pruned(events, now, window).len() == 0,
    decreases events.len(),
{
    if events.len() > 0 {
        let rest = events.skip(1);
        assert forall|i: int, j: int| 0 <= i <= j < rest.len() implies rest[i] <= rest[j] by {
            assert(events[i + 1] <= events[j + 1]);
        }
        lemma_expired_before(rest, last, now, window);
    }
}

proof fn lemma_accept_later(limiter: LimiterView, sender: Seq<char>, now: u128, later: u128)
    requires
        is_consistent_until(limiter.refreshed(now), now),
        limiter.decision(sender, now) == RateLimitDecision::Accepted,
        now <= later,
        limiter.refreshed(now).global_now(later).len() == total_count(
            limiter.refreshed(now).senders_now(later),
        ),
    ensures
        limiter.after(sender, now).global_now(later).len() == total_count(
            limiter.after(sender, now).senders_now(later),
        ),
{
    let w = limiter.window;
    let current = limiter.refreshed(now);
    let key = sender_key(sender);
    let next = limiter.after(sender, now);
    let own = current.events_of(key);
    lemma_senders_now_finite(current, later);
    lemma_pruned_push(current.global, now, later, w);
    lemma_pruned_push(own, now, later, w);
    assert(sorted_until(own, now)) by {
        if current.senders.contains_key(key) {
            assert(sorted_until(current.senders[key], now));
        }
    }
    if is_expired(now, later, w) {
        lemma_expired_before(current.global, now, later, w);
        assert(sorted_until(seq![now], now));
        lemma_expired_before(seq![now], now, later, w);
        assert forall|k: Seq<char>| !(#[trigger] next.senders_now(later).contains_key(k)) by {
            if next.senders.contains_key(k) {
                if k == key {
                    lemma_expired_before(own, now, later, w);
                } else {
                    assert(current.senders.contains_key(k));
                    lemma_expired_before(current.senders[k], now, later, w);
                }
            }
        }
        assert(next.senders_now(later) =~= Map::empty());
    } else {
        let kept = pruned(own, later, w);
        assert(pruned(seq![now], later, w) == seq![now]);
        assert(kept.len() == 0 ==> kept.push(now) =~= seq![now]);
        assert(current.global_now(later).len() == 0 ==> current.global_now(later).push(now)
            =~= seq![now]);
        assert(next.senders_now(later) =~= current.senders_now(later).insert(key, kept.push(now)));
        lemma_total_insert(current.senders_now(later), key, kept.push(now));
    }
}

/// A limit of zero refuses nobody.
pub proof fn law_zero_is_no_limit(limiter: LimiterView, sender: Seq<char>, now: u128)
    ensures
        limiter.global_limit == 0 ==> limiter.decision(sender, now)
            != RateLimitDecision::GlobalLimited,
        limiter.sender_limit == 0 ==> limiter.decision(sender, now)
            != RateLimitDecision::SenderLimited,
{
}

/// A refused attempt does not count: every later attempt is answered as if it had
/// not been made.
pub proof fn law_refused_attempt_does_not_count(
    limiter: LimiterView,
    refused: Seq<char>,
    time: u128,
    sender: Seq<char>,
    later: u128,
)
    requires
        limiter.decision(refused, time) != RateLimitDecision::Accepted,
        time <= later,
    ensures
        limiter.after(refused, time).decision(sender, later) == limiter.decision(sender, later),
{
    let w = limiter.window;
    let key = sender_key(sender);
    let next = limiter.after(refused, time);
    lemma_pruned_twice(limiter.global, time, later, w);
    lemma_pruned_twice(limiter.events_of(key), time, later, w);
    lemma_refreshed_events(limiter, key, time);
    lemma_refreshed_events(limiter, key, later);
    lemma_refreshed_events(next, key, later);
}

/// Once a window has passed without attempts, everything is forgotten.
pub proof fn law_window_expires(limiter: LimiterView, sender: Seq<char>, now: u128)
    requires
        forall|i: int|
            0 <= i < limiter.global.len() ==> is_expired(
                #[trigger] limiter.global[i],
                now,
                limiter.window,
            ),
        forall|k: Seq<char>, i: int|
            limiter.senders.dom().contains(k) && 0 <= i < limiter.senders[k].len() ==> is_expired(
                #[trigger] limiter.senders[k][i],
                now,
                limiter.window,
            ),
    ensures
        limiter.decision(sender, now) == RateLimitDecision::Accepted,
{
    lemma_all_expired(limiter.global, now, limiter.window);
    let key = sender_key(sender);
    lemma_refreshed_events(limiter, key, now);
    lemma_all_expired(limiter.events_of(key), now, limiter.window);
}

proof fn lemma_all_expired(events: Seq<u128>, now: u128, window: u128)
    requires
        forall|i: int| 0 <= i < events.len() ==> is_expired(#[trigger] events[i], now, window),
    ensures
        pruned(events, now, window).len() == 0,
    decreases events.len(),
{
    if events.len() > 0 {
        lemma_all_expired(events.skip(1), now, window);
    }
}

/// Two senders are one exactly where they agree up to case and the white space at their
/// ends. One is then answered and counted as the other.
pub proof fn law_sender_is_known_in_any_case(a: Seq<char>, b: Seq<char>)
    ensures
        sender_key(a) == sender_key(b) <==> lower(trim(a)) == lower(trim(b)),
        lower(trim(a)) == lower(trim(b)) ==> forall|limiter: LimiterView, now: u128|
            limiter.decision(a, now) == limiter.decision(b, now) && #[trigger] limiter.after(a, now)
                == limiter.after(b, now),
{
}

/// A sender is counted under its own text: every character of it, in lower case, without
/// the white space at its ends.
pub proof fn law_sender_key_is_the_text(front: Seq<char>, sender: Seq<char>, back: Seq<char>)
    requires
        forall|i: int| 0 <= i < front.len() ==> is_white_space(#[trigger] front[i]),
        forall|i: int| 0 <= i < back.len() ==> is_white_space(#[trigger] back[i]),
        sender.len() > 0 ==> !is_white_space(sender[0]) && !is_white_space(sender.last()),
    ensures
        sender_key(front + sender + back) == lower(sender),
{
    law_trim_takes_off_white_space(front, sender, back);
}

/// What one sender attempts does not touch another's own limit: but for the limit of all
/// together, the other is answered as if nothing had been attempted.
pub proof fn law_other_senders_are_unaffected(
    limiter: LimiterView,
    sender: Seq<char>,
    time: u128,
    other: Seq<char>,
    later: u128,
)
    requires
        lower(trim(sender)) != lower(trim(other)),
        time <= later,
    ensures
        (LimiterView { global_limit: 0, ..limiter.after(sender, time) }).decision(other, later) == (
        LimiterView { global_limit: 0, ..limiter }).decision(other, later),
        limiter.decision(other, later) == RateLimitDecision::SenderLimited
            ==> limiter.after(sender, time).decision(other, later) != RateLimitDecision::Accepted,
        limiter.after(sender, time).decision(other, later) == RateLimitDecision::SenderLimited
            ==> limiter.decision(other, later) != RateLimitDecision::Accepted,
{
    let w = limiter.window;
    let key = sender_key(other);
    let next = limiter.after(sender, time);
    let free = LimiterView { global_limit: 0, ..limiter };
    let free_next = LimiterView { global_limit: 0, ..next };
    lemma_refreshed_events(limiter, key, time);
    assert(next.events_of(key) == limiter.refreshed(time).events_of(key));
    lemma_pruned_twice(limiter.events_of(key), time, later, w);
    lemma_refreshed_events(limiter, key, later);
    lemma_refreshed_events(next, key, later);
    lemma_refreshed_events(free, key, later);
    lemma_refreshed_events(free_next, key, later);
    assert(free.events_of(key) == limiter.events_of(key));
    assert(free_next.events_of(key) == next.events_of(key));
}

/// An accepted attempt counts, for its sender and for all, until the window has passed
/// since it was made.
pub proof fn law_accepted_attempt_counts(
    limiter: LimiterView,
    sender: Seq<char>,
    time: u128,
    again: Seq<char>,
    later: u128,
)
    requires
        limiter.decision(sender, time) == RateLimitDecision::Accepted,
        time <= later,
        later < time + limiter.window,
    ensures
        limiter.global_limit == 1 ==> limiter.after(sender, time).decision(again, later)
            == RateLimitDecision::GlobalLimited,
        limiter.global_limit == 0 && limiter.sender_limit == 1 && lower(trim(sender)) == lower(
            trim(again),
        ) ==> limiter.after(sender, time).decision(again, later)
            == RateLimitDecision::SenderLimited,
        limiter.after(sender, time).global_now(later).last() == time,
        limiter.after(sender, time).global_now(later).len() == limiter.global_now(later).len() + 1,
{
    let w = limiter.window;
    let key = sender_key(sender);
    let next = limiter.after(sender, time);
    lemma_pruned_push(limiter.global_now(time), time, later, w);
    lemma_pruned_twice(limiter.global, time, later, w);
    lemma_pruned_push(limiter.refreshed(time).events_of(key), time, later, w);
    lemma_refreshed_events(next, key, later);
    assert(pruned(seq![time], later, w) == seq![time]);
}

/// An event is out of the window as soon as the window's length has passed since it, and
/// at once where the window is empty.
pub proof fn law_events_expire(event: u128, now: u128, window: u128)
    ensures
        is_expired(event, now, window) <==> window == 0 || event + window <= now,
{
}

/// Expired events are taken from the front, up to the first that is not.
pub proof fn law_pruning_keeps_from_the_first_in_the_window(
    expired: Seq<u128>,
    rest: Seq<u128>,
    now: u128,
    window: u128,
)
    requires
        forall|i: int|
            0 <= i < expired.len() ==> window == 0 || #[trigger] expired[i] + window <= now,
        rest.len() > 0 ==> window > 0 && rest[0] + window > now,
    ensures
        pruned(expired + rest, now, window) == rest,
    decreases expired.len(),
{
    if expired.len() == 0 {
        assert(expired + rest =~= rest);
    } else {
        let tail = expired.skip(1);
        assert((expired + rest)[0] == expired[0]);
        assert forall|i: int| 0 <= i < tail.len() implies window == 0 || #[trigger] tail[i] + window
            <= now by {
            assert(tail[i] == expired[i + 1]);
        }
        law_pruning_keeps_from_the_first_in_the_window(tail, rest, now, window);
        assert((expired + rest).skip(1) =~= tail + rest);
    }
}

/// What is counted is every event that is in the window.
pub proof fn law_every_event_in_the_window_counts(
    events: Seq<u128>,
    event: u128,
    now: u128,
    window: u128,
)
    ensures
        count_in_window(Seq::empty(), now, window) == 0,
        count_in_window(events.push(event), now, window) == count_in_window(events, now, window) + (
        if window > 0 && event + window > now {
            1nat
        } else {
            0nat
        }),
    decreases events.len(),
{
    let more = events.push(event);
    reveal_with_fuel(count_in_window, 2);
    if events.len() == 0 {
        assert(more.skip(1) =~= Seq::empty());
    } else {
        law_every_event_in_the_window_counts(events.skip(1), event, now, window);
        assert(more.skip(1) =~= events.skip(1).push(event));
        assert(more[0] == events[0]);
    }
}

} // verus!
