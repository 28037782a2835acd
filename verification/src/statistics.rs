//! The latency samples of each digraph in a sequence of key events, and
//! the timing that sums them up.
//!
//! The moments of a digraph (its mean latency and the spread around it) are
//! real numbers. Nothing here computes with them: they are worked out by the
//! caller, stored and handed on, so their type `F` is a parameter.

use crate::digraph::{ascending, lemma_ascending_unique, Digraph};
use crate::events::{KeyEvent, KeystrokeLogger};
use crate::table::{list_at, DigraphMap};
use std::collections::VecDeque;
use vstd::prelude::*;

verus! {

/// The timing of one digraph: how many latencies were seen, their mean and
/// their corrected sample standard deviation.
#[derive(Debug)]
pub struct DigraphStats<F> {
    pub size_samples: usize,
    pub mean: F,
    pub std: F,
}

/// The digraph that ends at position `i`: the keys of events `i - 1` and `i`.
pub open spec fn digraph_at(events: Seq<KeyEvent>, i: int) -> Digraph {
    (events[i - 1].key, events[i].key)
}

/// The time from event `i - 1` to event `i`, in milliseconds.
pub open spec fn latency_at(events: Seq<KeyEvent>, i: int) -> u128 {
    (events[i].timestamp_ms - events[i - 1].timestamp_ms) as u128
}

/// Whether event `i` comes no earlier than the event before it.
pub open spec fn in_order(events: Seq<KeyEvent>, i: int) -> bool {
    events[i - 1].timestamp_ms <= events[i].timestamp_ms
}

/// Whether the timestamps never decrease along `events`.
pub open spec fn monotone(events: Seq<KeyEvent>) -> bool {
    forall|i: int| 1 <= i < events.len() ==> #[trigger] in_order(events, i)
}

/// The number of adjacent pairs in `events`.
pub open spec fn pair_count(events: Seq<KeyEvent>) -> nat {
    if events.len() == 0 {
        0
    } else {
        (events.len() - 1) as nat
    }
}

/// The end positions of the first `n` adjacent pairs: `1, 2, ..., n`.
pub open spec fn pair_ends(n: nat) -> Seq<int> {
    Seq::new(n, |k: int| k + 1)
}

/// The test for a position at which `d` ends.
pub open spec fn forms(events: Seq<KeyEvent>, d: Digraph) -> spec_fn(int) -> bool {
    |i: int| digraph_at(events, i) == d
}

/// The latency of the pair that ends at a position.
pub open spec fn latency_of(events: Seq<KeyEvent>) -> spec_fn(int) -> u128 {
    |i: int| latency_at(events, i)
}

/// The latencies of `d` among the first `n` adjacent pairs, in order of occurrence.
pub open spec fn latencies_among(events: Seq<KeyEvent>, n: nat, d: Digraph) -> Seq<u128> {
    pair_ends(n).filter(forms(events, d)).map_values(latency_of(events))
}

/// All latencies of `d` in `events`, in order of occurrence.
pub open spec fn latencies(events: Seq<KeyEvent>, d: Digraph) -> Seq<u128> {
    latencies_among(events, pair_count(events), d)
}

/// The statistics of `events`: each digraph that occurs at least twice, with
/// its latencies. A digraph seen once has no spread and is left out.
pub open spec fn digraph_statistics(events: Seq<KeyEvent>) -> Map<Digraph, Seq<u128>> {
    Map::new(|d: Digraph| latencies(events, d).len() >= 2, |d: Digraph| latencies(events, d))
}

/// Every digraph seen among the first `n` pairs, with its latencies so far.
pub open spec fn latencies_seen(events: Seq<KeyEvent>, n: nat) -> Map<Digraph, Seq<u128>> {
    Map::new(
        |d: Digraph| latencies_among(events, n, d).len() >= 1,
        |d: Digraph| latencies_among(events, n, d),
    )
}

/// One more pair adds its latency to its own digraph and to no other.
pub proof fn lemma_latencies_among_step(events: Seq<KeyEvent>, n: nat, d: Digraph)
    ensures
        latencies_among(events, n + 1, d) == if digraph_at(events, n as int + 1) == d {
            latencies_among(events, n, d).push(latency_at(events, n as int + 1))
        } else {
            latencies_among(events, n, d)
        },
        latencies_among(events, 0, d) == Seq::<u128>::empty(),
{
    broadcast use Seq::lemma_filter_push, Seq::lemma_push_map_commute;

    let end: int = n as int + 1;
    assert(pair_ends(n + 1) =~= pair_ends(n).push(end));
    assert(forms(events, d)(end) == (digraph_at(events, end) == d));
    assert(latency_of(events)(end) == latency_at(events, end));
    assert(pair_ends(0) =~= Seq::<int>::empty());
    reveal(Seq::filter);
    assert(pair_ends(0).filter(forms(events, d)) =~= Seq::<int>::empty());
    assert(latencies_among(events, 0, d) =~= Seq::<u128>::empty());
    if digraph_at(events, end) == d {
        assert(pair_ends(n).push(end).filter(forms(events, d)) == pair_ends(n).filter(
            forms(events, d),
        ).push(end));
        assert(pair_ends(n).filter(forms(events, d)).push(end).map_values(latency_of(events))
            =~= pair_ends(n).filter(forms(events, d)).map_values(latency_of(events)).push(
            latency_of(events)(end),
        ));
    } else {
        assert(pair_ends(n).push(end).filter(forms(events, d)) == pair_ends(n).filter(
            forms(events, d),
        ));
    }
}

/// The end positions, among the first `n` adjacent pairs, of the pairs whose keys are `d`.
pub open spec fn matching_pairs_among(events: Seq<KeyEvent>, n: nat, d: Digraph) -> Set<int> {
    Set::new(|i: int| 1 <= i <= n && digraph_at(events, i) == d)
}

/// The end positions of all adjacent pairs of `events` whose keys are `d`.
pub open spec fn matching_pairs(events: Seq<KeyEvent>, d: Digraph) -> Set<int> {
    matching_pairs_among(events, pair_count(events), d)
}

/// A digraph has exactly one latency for each adjacent pair that forms it.
pub proof fn lemma_one_latency_per_pair(events: Seq<KeyEvent>, n: nat, d: Digraph)
    ensures
        matching_pairs_among(events, n, d).finite(),
        latencies_among(events, n, d).len() == matching_pairs_among(events, n, d).len(),
    decreases n,
{
    lemma_latencies_among_step(events, 0, d);
    if n == 0 {
        assert(matching_pairs_among(events, 0, d) =~= Set::<int>::empty());
    } else {
        let m = (n - 1) as nat;
        lemma_one_latency_per_pair(events, m, d);
        lemma_latencies_among_step(events, m, d);
        if digraph_at(events, n as int) == d {
            assert(matching_pairs_among(events, n, d) =~= matching_pairs_among(events, m, d).insert(
                n as int,
            ));
        } else {
            assert(matching_pairs_among(events, n, d) =~= matching_pairs_among(events, m, d));
        }
    }
}

/// The statistics hold a digraph exactly when at least two adjacent pairs
/// form it, and then hold one latency for each such pair.
pub proof fn lemma_sample_count(events: Seq<KeyEvent>, d: Digraph)
    ensures
        matching_pairs(events, d).finite(),
        digraph_statistics(events).dom().contains(d) <==> matching_pairs(events, d).len() >= 2,
        digraph_statistics(events).dom().contains(d) ==> digraph_statistics(events)[d].len()
            == matching_pairs(events, d).len(),
{
    lemma_one_latency_per_pair(events, pair_count(events), d);
}

/// The statistics, and the order in which their digraphs are walked, depend
/// on the events alone: two results for the same events are the same.
pub proof fn lemma_statistics_deterministic(
    events: Seq<KeyEvent>,
    first: Map<Digraph, Seq<u128>>,
    first_keys: Seq<Digraph>,
    second: Map<Digraph, Seq<u128>>,
    second_keys: Seq<Digraph>,
)
    requires
        first == digraph_statistics(events),
        second == digraph_statistics(events),
        ascending(first_keys),
        ascending(second_keys),
        first_keys.to_set() == first.dom(),
        second_keys.to_set() == second.dom(),
    ensures
        first == second,
        first_keys == second_keys,
{
    lemma_ascending_unique(first_keys, second_keys);
}

/// The timing of each digraph of `samples`: the number of its latencies,
/// with the mean and the spread that the caller has worked out from them,
/// given as `moments` in the order in which `samples` is walked.
pub fn digraph_timings<F: Copy>(samples: &DigraphMap<Vec<u128>>, moments: &Vec<(F, F)>) -> (stats:
    DigraphMap<DigraphStats<F>>)
    requires
        moments@.len() == samples.keys().len(),
    ensures
        stats@.dom() == samples@.dom(),
        stats.keys() == samples.keys(),
        forall|i: int|
            0 <= i < samples.keys().len() ==> {
                let d = #[trigger] samples.keys()[i];
                &&& stats@.dom().contains(d)
                &&& stats@[d].size_samples == samples.lists()[d].len()
                &&& stats@[d].mean == moments@[i].0
                &&& stats@[d].std == moments@[i].1
            },
{
    let n = samples.len();
    let ghost keys = samples.keys();
    let mut stats: DigraphMap<DigraphStats<F>> = DigraphMap::new();
    let mut i: usize = 0;
    assert(stats@.dom() =~= keys.take(0).to_set());
    while i < n
        invariant
            i <= n,
            n == keys.len(),
            keys == samples.keys(),
            keys.no_duplicates(),
            keys.to_set() == samples@.dom(),
            moments@.len() == n,
            stats@.dom() == keys.take(i as int).to_set(),
            forall|k: int|
                0 <= k < i ==> {
                    let d = #[trigger] keys[k];
                    &&& stats@.dom().contains(d)
                    &&& stats@[d].size_samples == samples.lists()[d].len()
                    &&& stats@[d].mean == moments@[k].0
                    &&& stats@[d].std == moments@[k].1
                },
        decreases n - i,
    {
        let (d, latencies) = samples.entry_at(i);
        let (mean, std) = moments[i];
        stats.insert(d, DigraphStats { size_samples: latencies.len(), mean, std });
        proof {
            broadcast use Seq::lemma_push_to_set_commute;

            assert(keys.take(i + 1) =~= keys.take(i as int).push(d));
            assert(stats@.dom() =~= keys.take(i + 1).to_set());
            assert forall|k: int| 0 <= k < i implies keys[k] != d by {
                assert(keys[k] != keys[i as int]);
            }
        }
        i += 1;
    }
    let m = stats.len();
    proof {
        assert(keys.take(n as int) =~= keys);
        lemma_ascending_unique(stats.keys(), keys);
    }
    stats
}

/// Whether the timestamps never decrease along `events`.
pub fn timestamps_monotone(events: &VecDeque<KeyEvent>) -> (ok: bool)
    ensures
        ok == monotone(events@),
{
    let mut i: usize = 1;
    while i < events.len()
        invariant
            1 <= i,
            forall|k: int| 1 <= k < i && k < events@.len() ==> #[trigger] in_order(events@, k),
        decreases events.len() - i,
    {
        if events[i - 1].timestamp_ms > events[i].timestamp_ms {
            assert(1 <= i < events@.len() && !in_order(events@, i as int));
            return false;
        }
        i += 1;
    }
    true
}

impl KeystrokeLogger {
    /// Whether the timestamps in the log never decrease.
    pub fn has_monotone_timestamps(&self) -> (ok: bool)
        ensures
            ok == monotone(self@),
    {
        timestamps_monotone(self.get_key_events())
    }

    /// The latency samples of every digraph that occurs at least twice in the
    /// log. The result depends on the events alone, and the log is not changed.
    pub fn compute_digraph_statistics(&self) -> (stats: DigraphMap<Vec<u128>>)
        requires
            monotone(self@),
        ensures
            stats.lists() == digraph_statistics(self@),
            forall|d: Digraph| #[trigger]
                stats.lists().dom().contains(d) ==> stats.lists()[d].len() >= 2
                    && stats.lists()[d].len() == matching_pairs(self@, d).len(),
    {
        let events = self.get_key_events();
        let mut seen: DigraphMap<Vec<u128>> = DigraphMap::new();
        assert(seen.lists() =~= latencies_seen(events@, 0)) by {
            assert forall|d: Digraph| !latencies_seen(events@, 0).dom().contains(d) by {
                lemma_latencies_among_step(events@, 0, d);
            }
        }
        let mut i: usize = 1;
        while i < events.len()
            invariant
                1 <= i,
                i <= events@.len() || i == 1,
                monotone(events@),
                seen.lists() == latencies_seen(events@, (i - 1) as nat),
            decreases events.len() - i,
        {
            let earlier = events[i - 1];
            let later = events[i];
            let d = (earlier.key, later.key);
            assert(in_order(events@, i as int));
            let latency = later.timestamp_ms - earlier.timestamp_ms;
            assert(latency == latency_at(events@, i as int));
            let ghost before = seen.lists();
            seen.append_to(d, latency);
            proof {
                let n = (i - 1) as nat;
                lemma_latencies_among_step(events@, n, d);
                assert(list_at(before, d) =~= latencies_among(events@, n, d));
                assert forall|e: Digraph| e != d implies latencies_among(events@, n + 1, e)
                    == latencies_among(events@, n, e) by {
                    lemma_latencies_among_step(events@, n, e);
                }
                assert(seen.lists() =~= latencies_seen(events@, n + 1));
            }
            i += 1;
        }
        let ghost count = pair_count(events@);
        assert(events.len() == events@.len());
        assert(count == (i - 1) as nat);
        let ghost all = seen.lists();
        let ghost held = seen@;
        let (keys, mut lists) = seen.into_entries();
        assert forall|k: int| 0 <= k < keys@.len() implies (#[trigger] lists@[k])@ == latencies(
            events@,
            keys@[k],
        ) by {
            assert(keys@.to_set().contains(keys@[k]));
            assert(held.dom().contains(keys@[k]));
            assert(all[keys@[k]] == held[keys@[k]]@);
        }
        assert(keys@.to_set() =~= latencies_seen(events@, count).dom());
        let mut stats: DigraphMap<Vec<u128>> = DigraphMap::new();
        let mut j: usize = 0;
        assert(stats.lists().dom() =~= Set::<Digraph>::empty());
        while j < keys.len()
            invariant
                j <= keys@.len(),
                lists@.len() == keys@.len(),
                keys@.to_set() == latencies_seen(events@, count).dom(),
                count == pair_count(events@),
                forall|k: int|
                    j <= k < keys@.len() ==> (#[trigger] lists@[k])@ == latencies(
                        events@,
                        keys@[k],
                    ),
                forall|d: Digraph|
                    stats.lists().dom().contains(d) <==> keys@.take(j as int).contains(d)
                        && latencies(events@, d).len() >= 2,
                forall|d: Digraph|
                    stats.lists().dom().contains(d) ==> stats.lists()[d] == latencies(events@, d),
            decreases keys.len() - j,
        {
            let ghost kept = stats.lists();
            if lists[j].len() >= 2 {
                let mut list = Vec::new();
                core::mem::swap(&mut lists[j], &mut list);
                stats.insert(keys[j], list);
                assert(stats.lists() =~= kept.insert(keys@[j as int], latencies(events@, keys@[j as int])));
            }
            proof {
                assert(keys@.take(j + 1) =~= keys@.take(j as int).push(keys@[j as int]));
                assert forall|d: Digraph|
                    keys@.take(j + 1).contains(d) <==> keys@.take(j as int).contains(d) || d
                        == keys@[j as int] by {
                    if keys@.take(j as int).contains(d) {
                        let k = choose|k: int|
                            0 <= k < keys@.take(j as int).len() && keys@.take(j as int)[k] == d;
                        assert(keys@.take(j + 1)[k] == d);
                    }
                    if d == keys@[j as int] {
                        assert(keys@.take(j + 1)[j as int] == d);
                    }
                }
            }
            j += 1;
        }
        proof {
            assert(keys@.take(keys@.len() as int) =~= keys@);
            assert forall|d: Digraph| latencies(events@, d).len() >= 2 implies keys@.contains(d) by {
                assert(latencies_seen(events@, count).dom().contains(d));
                assert(keys@.to_set().contains(d));
            }
            assert(stats.lists() =~= digraph_statistics(events@));
            assert forall|d: Digraph| #[trigger]
                stats.lists().dom().contains(d) implies stats.lists()[d].len() == matching_pairs(
                events@,
                d,
            ).len() by {
                lemma_sample_count(events@, d);
            }
        }
        stats
    }
}

} // verus!
