//! The bounded, ordered log of keystroke events.

use crate::clock::wall_clock_ms;
use std::collections::VecDeque;
use vstd::prelude::*;

verus! {

/// One keystroke: the key and the time it was struck, in milliseconds.
#[derive(Clone, Copy, Debug, PartialEq, Eq, Structural)]
pub struct KeyEvent {
    pub timestamp_ms: u128,
    pub key: char,
}

/// What a log bounded by `limit` keeps of `events`: all of them when there is
/// no bound or they fit, else the most recent `limit` of them, in order.
pub open spec fn retained(events: Seq<KeyEvent>, limit: Option<usize>) -> Seq<KeyEvent> {
    match limit {
        Some(l) => if events.len() > l {
            events.subrange(events.len() - l, events.len() as int)
        } else {
            events
        },
        None => events,
    }
}

/// Whether `events` fit within `limit`.
pub open spec fn within_limit(events: Seq<KeyEvent>, limit: Option<usize>) -> bool {
    limit matches Some(l) ==> events.len() <= l
}

/// An ordered log of key events that never holds more than its limit.
pub struct KeystrokeLogger {
    events: VecDeque<KeyEvent>,
    events_limit: Option<usize>,
}

impl View for KeystrokeLogger {
    type V = Seq<KeyEvent>;

    closed spec fn view(&self) -> Seq<KeyEvent> {
        self.events@
    }
}

impl KeystrokeLogger {
    /// The configured bound on the number of events, if any.
    pub closed spec fn limit(&self) -> Option<usize> {
        self.events_limit
    }

    #[verifier::type_invariant]
    spec fn bounded(&self) -> bool {
        within_limit(self.events@, self.events_limit)
    }

    /// An empty log without a limit.
    pub fn new() -> (log: KeystrokeLogger)
        ensures
            log@ == Seq::<KeyEvent>::empty(),
            log.limit() is None,
    {
        KeystrokeLogger { events: VecDeque::new(), events_limit: None }
    }

    /// Appends `ev`; a full log first gives up its oldest event.
    pub fn add_key_event(&mut self, ev: KeyEvent)
        ensures
            final(self).limit() == old(self).limit(),
            final(self)@ == retained(old(self)@.push(ev), old(self).limit()),
            within_limit(final(self)@, final(self).limit()),
    {
        proof {
            use_type_invariant(&*self);
        }
        let mut events = self.take_events();
        match self.events_limit {
            Some(limit) => {
                if limit > 0 {
                    if events.len() == limit {
                        events.pop_front();
                    }
                    events.push_back(ev);
                }
            },
            None => {
                events.push_back(ev);
            },
        }
        assert(events@ =~= retained(old(self)@.push(ev), old(self).limit()));
        self.events = events;
    }

    /// Moves the events out, leaving the log empty.
    fn take_events(&mut self) -> (events: VecDeque<KeyEvent>)
        ensures
            events@ == old(self)@,
            final(self)@ == Seq::<KeyEvent>::empty(),
            final(self).limit() == old(self).limit(),
    {
        let mut events = VecDeque::new();
        core::mem::swap(&mut self.events, &mut events);
        events
    }

    /// Appends `key`, stamped with the wall clock's time. To stamp a key
    /// with a time of the caller's choosing, append the event itself.
    pub fn add_keystroke(&mut self, key: char)
        ensures
            final(self).limit() == old(self).limit(),
            exists|ts: u128|
                final(self)@ == retained(
                    old(self)@.push(#[trigger] stamped(ts, key)),
                    old(self).limit(),
                ),
            within_limit(final(self)@, final(self).limit()),
    {
        let ts: u128 = wall_clock_ms();
        self.add_key_event(KeyEvent { timestamp_ms: ts, key });
        assert(self@ == retained(old(self)@.push(stamped(ts, key)), old(self).limit()));
    }

    /// Sets the bound to `limit` and drops the oldest events beyond it.
    pub fn set_events_limit(&mut self, limit: usize)
        ensures
            final(self).limit() == Some(limit),
            final(self)@ == retained(old(self)@, Some(limit)),
            within_limit(final(self)@, final(self).limit()),
    {
        let mut events = self.take_events();
        let len = events.len();
        if len > limit {
            events = events.split_off(len - limit);
        }
        self.events_limit = Some(limit);
        self.events = events;
    }

    /// The events now in the log, oldest first.
    pub fn get_key_events(&self) -> (events: &VecDeque<KeyEvent>)
        ensures
            events@ == self@,
            within_limit(events@, self.limit()),
    {
        proof {
            use_type_invariant(self);
        }
        &self.events
    }

    /// Empties the log; the bound stays.
    pub fn clear_key_events(&mut self)
        ensures
            final(self).limit() == old(self).limit(),
            final(self)@ == Seq::<KeyEvent>::empty(),
    {
        let _ = self.take_events();
    }
}

/// The event for `key` struck at `timestamp_ms`.
pub open spec fn stamped(timestamp_ms: u128, key: char) -> KeyEvent {
    KeyEvent { timestamp_ms, key }
}

/// The log after appending each of `evs` in turn to a log that holds `log`.
pub open spec fn append_all(log: Seq<KeyEvent>, evs: Seq<KeyEvent>, limit: Option<usize>) -> Seq<
    KeyEvent,
>
    decreases evs.len(),
{
    if evs.len() == 0 {
        log
    } else {
        append_all(retained(log.push(evs[0]), limit), evs.drop_first(), limit)
    }
}

/// Appending events one by one to a bounded log leaves exactly the most
/// recent `limit` of all events seen, in arrival order; an unbounded log, or
/// one that has seen no more than `limit` events, holds them all.
pub proof fn lemma_append_all_keeps_most_recent(
    log: Seq<KeyEvent>,
    evs: Seq<KeyEvent>,
    limit: Option<usize>,
)
    requires
        within_limit(log, limit),
    ensures
        append_all(log, evs, limit) == retained(log + evs, limit),
        within_limit(append_all(log, evs, limit), limit),
        limit matches Some(l) ==> (log.len() + evs.len() >= l ==> append_all(log, evs, limit) == (
        log + evs).subrange(log.len() + evs.len() - l, (log.len() + evs.len()) as int)),
    decreases evs.len(),
{
    if evs.len() == 0 {
        assert(log + evs =~= log);
    } else {
        let next = retained(log.push(evs[0]), limit);
        lemma_append_all_keeps_most_recent(next, evs.drop_first(), limit);
        assert(log.push(evs[0]) + evs.drop_first() =~= log + evs);
        assert(retained(next + evs.drop_first(), limit) =~= retained(
            log.push(evs[0]) + evs.drop_first(),
            limit,
        ));
    }
}

} // verus!
