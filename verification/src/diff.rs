//! Choosing what is compared when a sample of typing is held against a
//! profile, and what a profile's baseline is computed from.

use crate::digraph::Digraph;
use crate::events::{KeyEvent, KeystrokeLogger};
use crate::statistics::{digraph_statistics, in_order, monotone, DigraphStats};
use crate::table::DigraphMap;
use std::collections::VecDeque;
use vstd::prelude::*;

verus! {

/// How a diff is taken.
#[derive(Clone, Copy, Debug, PartialEq, Eq, Structural)]
pub struct KeynomeAuthenticatorDiffParams {
    /// Whether each deviation is weighed by the profile's spread.
    pub dispersion: bool,
    /// The least number of samples a profile digraph needs to be compared.
    pub min_instances: u32,
    /// The most digraphs that are compared.
    pub max_comparisons: u32,
}

impl KeynomeAuthenticatorDiffParams {
    /// Both bounds are at least one.
    pub open spec fn well_formed(&self) -> bool {
        self.min_instances >= 1 && self.max_comparisons >= 1
    }
}

/// One comparison of a diff: a digraph with its timing in the profile and in the sample.
pub struct DiffTerm<'a, F> {
    pub digraph: Digraph,
    pub profile: &'a DigraphStats<F>,
    pub sample: &'a DigraphStats<F>,
}

/// The test for a profile digraph that is compared: it has at least
/// `min_instances` samples in the profile, and the sample holds it too.
pub open spec fn compared<F>(
    profile: Map<Digraph, DigraphStats<F>>,
    sample: Map<Digraph, DigraphStats<F>>,
    min_instances: u32,
) -> spec_fn(Digraph) -> bool {
    |d: Digraph| profile[d].size_samples >= min_instances && sample.dom().contains(d)
}

/// The digraphs of a diff, in the order in which they are compared: the
/// profile's digraphs in ascending order, without those that are not
/// compared, cut off after `max_comparisons` of them.
pub open spec fn compared_digraphs<F>(
    keys: Seq<Digraph>,
    profile: Map<Digraph, DigraphStats<F>>,
    sample: Map<Digraph, DigraphStats<F>>,
    params: KeynomeAuthenticatorDiffParams,
) -> Seq<Digraph> {
    let all = keys.filter(compared(profile, sample, params.min_instances));
    if all.len() > params.max_comparisons {
        all.take(params.max_comparisons as int)
    } else {
        all
    }
}

/// What a baseline is computed from: the statistics of the enrollment window,
/// and those of each of the chunks that the window is cut into, oldest first.
pub struct Calibration {
    pub profile: DigraphMap<Vec<u128>>,
    pub samples: Vec<DigraphMap<Vec<u128>>>,
}

/// Whether a window of `n_profile` events can be taken from `available`
/// events and cut into chunks of `n_sample`.
pub open spec fn can_calibrate(available: nat, n_profile: usize, n_sample: usize) -> bool {
    n_profile <= available && n_sample != 0 && n_profile % n_sample == 0
}

/// The enrollment window: the most recent `n_profile` of `events`.
pub open spec fn enrollment_window(events: Seq<KeyEvent>, n_profile: usize) -> Seq<KeyEvent> {
    events.subrange(events.len() - n_profile, events.len() as int)
}

/// Chunk `k` of `window`, counting from the oldest: `n_sample` events in a row.
pub open spec fn chunk(window: Seq<KeyEvent>, n_sample: usize, k: int) -> Seq<KeyEvent> {
    window.subrange(k * n_sample, (k + 1) * n_sample)
}

/// A stretch of a log with rising timestamps has rising timestamps.
pub proof fn lemma_monotone_subrange(events: Seq<KeyEvent>, from: int, to: int)
    requires
        monotone(events),
        0 <= from <= to <= events.len(),
    ensures
        monotone(events.subrange(from, to)),
{
    let part = events.subrange(from, to);
    assert forall|i: int| 1 <= i < part.len() implies #[trigger] in_order(part, i) by {
        assert(in_order(events, from + i));
    }
}

/// The statistics of the events at `from..to`.
fn stretch_statistics(events: &VecDeque<KeyEvent>, from: usize, to: usize) -> (stats: DigraphMap<
    Vec<u128>,
>)
    requires
        from <= to <= events@.len(),
        monotone(events@.subrange(from as int, to as int)),
    ensures
        stats.lists() == digraph_statistics(events@.subrange(from as int, to as int)),
{
    let mut part = KeystrokeLogger::new();
    let mut i = from;
    while i < to
        invariant
            from <= i <= to <= events@.len(),
            part.limit() is None,
            part@ == events@.subrange(from as int, i as int),
        decreases to - i,
    {
        let ev = events[i];
        part.add_key_event(KeyEvent { timestamp_ms: ev.timestamp_ms, key: ev.key });
        assert(part@ =~= events@.subrange(from as int, i + 1));
        i += 1;
    }
    part.compute_digraph_statistics()
}

/// A holder of an enrolled profile's statistics and the tolerance by which
/// fresh typing is judged against them.
pub struct KeynomeAuthenticator<'a, 'b, F> {
    pub diff_base: F,
    pub multiplier: F,
    pub diff_params: &'a KeynomeAuthenticatorDiffParams,
    pub stats: &'b DigraphMap<DigraphStats<F>>,
}

impl<'a, 'b, F> KeynomeAuthenticator<'a, 'b, F> {
    /// A holder of the given baseline, tolerance, parameters and statistics.
    pub fn new(
        diff_base: F,
        multiplier: F,
        diff_params: &'a KeynomeAuthenticatorDiffParams,
        stats: &'b DigraphMap<DigraphStats<F>>,
    ) -> (auth: KeynomeAuthenticator<'a, 'b, F>)
        ensures
            auth.diff_base == diff_base,
            auth.multiplier == multiplier,
            auth.diff_params == diff_params,
            auth.stats == stats,
    {
        KeynomeAuthenticator { diff_base, multiplier, diff_params, stats }
    }

    /// The comparisons that make up the diff of `stats_sample` against
    /// `stats_profile`, in the order in which they are summed. The diff is
    /// the sum, over these terms, of the distance between the two means,
    /// divided by `0.001` plus the profile's spread where `dispersion` is set.
    pub fn compute_diff<'p>(
        stats_profile: &'p DigraphMap<DigraphStats<F>>,
        stats_sample: &'p DigraphMap<DigraphStats<F>>,
        diff_params: &KeynomeAuthenticatorDiffParams,
    ) -> (terms: Vec<DiffTerm<'p, F>>)
        ensures
            terms@.len() <= diff_params.max_comparisons,
            terms@.map_values(|t: DiffTerm<'p, F>| t.digraph) == compared_digraphs(
                stats_profile.keys(),
                stats_profile@,
                stats_sample@,
                *diff_params,
            ),
            forall|k: int|
                0 <= k < terms@.len() ==> {
                    let t = #[trigger] terms@[k];
                    &&& stats_profile@.dom().contains(t.digraph)
                    &&& stats_sample@.dom().contains(t.digraph)
                    &&& *t.profile == stats_profile@[t.digraph]
                    &&& *t.sample == stats_sample@[t.digraph]
                },
    {
        let n = stats_profile.len();
        let ghost keys = stats_profile.keys();
        let ghost pick = compared(stats_profile@, stats_sample@, diff_params.min_instances);
        let ghost name = |t: DiffTerm<'p, F>| t.digraph;
        let mut terms: Vec<DiffTerm<'p, F>> = Vec::new();
        let mut i: usize = 0;
        proof {
            reveal(Seq::filter);
            assert(keys.take(0).filter(pick) =~= Seq::<Digraph>::empty());
            assert(terms@.map_values(name) =~= Seq::<Digraph>::empty());
        }
        while i < n && terms.len() < diff_params.max_comparisons as usize
            invariant
                i <= n,
                n == keys.len(),
                keys == stats_profile.keys(),
                pick == compared(stats_profile@, stats_sample@, diff_params.min_instances),
                name == |t: DiffTerm<'p, F>| t.digraph,
                terms@.len() <= diff_params.max_comparisons,
                terms@.map_values(name) == keys.take(i as int).filter(pick),
                forall|k: int|
                    0 <= k < terms@.len() ==> {
                        let t = #[trigger] terms@[k];
                        &&& stats_profile@.dom().contains(t.digraph)
                        &&& stats_sample@.dom().contains(t.digraph)
                        &&& *t.profile == stats_profile@[t.digraph]
                        &&& *t.sample == stats_sample@[t.digraph]
                    },
            decreases n - i,
        {
            let (digraph, profile) = stats_profile.entry_at(i);
            let ghost chosen = terms@;
            proof {
                broadcast use Seq::lemma_filter_push;

                assert(keys.take(i + 1) =~= keys.take(i as int).push(keys[i as int]));
            }
            if profile.size_samples >= diff_params.min_instances as usize {
                if let Some(sample) = stats_sample.get(digraph) {
                    terms.push(DiffTerm { digraph, profile, sample });
                    assert(terms@.map_values(name) =~= chosen.map_values(name).push(digraph));
                }
            }
            i += 1;
        }
        proof {
            let all = keys.filter(pick);
            let done = keys.take(i as int).filter(pick);
            assert(keys =~= keys.take(i as int) + keys.skip(i as int));
            Seq::filter_distributes_over_add(keys.take(i as int), keys.skip(i as int), pick);
            assert(all == done + keys.skip(i as int).filter(pick));
            if i == n {
                assert(keys.skip(i as int) =~= Seq::<Digraph>::empty());
                reveal(Seq::filter);
                assert(keys.skip(i as int).filter(pick) =~= Seq::<Digraph>::empty());
                assert(all =~= done);
            } else {
                assert(done.len() == diff_params.max_comparisons);
                assert(all.take(diff_params.max_comparisons as int) =~= done);
            }
        }
        terms
    }

    /// What the baseline of a single typist is computed from, or nothing
    /// where the log holds fewer than `n_profile` events or `n_profile` is no
    /// multiple of `n_sample`. The baseline is the mean, over the chunks, of
    /// the diff of the chunk's statistics against the window's. The
    /// timestamps must not decrease within the window.
    pub fn compute_diff_base(events: &VecDeque<KeyEvent>, n_profile: usize, n_sample: usize) -> (plan:
        Option<Calibration>)
        requires
            can_calibrate(events@.len(), n_profile, n_sample) ==> monotone(
                enrollment_window(events@, n_profile),
            ),
        ensures
            plan is Some <==> can_calibrate(events@.len(), n_profile, n_sample),
            plan matches Some(c) ==> {
                let window = enrollment_window(events@, n_profile);
                &&& c.profile.lists() == digraph_statistics(window)
                &&& c.samples@.len() == n_profile / n_sample
                &&& forall|k: int|
                    0 <= k < c.samples@.len() ==> (#[trigger] c.samples@[k]).lists()
                        == digraph_statistics(chunk(window, n_sample, k))
            },
    {
        let len = events.len();
        if n_profile > len || n_sample == 0 || n_profile % n_sample != 0 {
            return None;
        }
        let start = len - n_profile;
        let chunks = n_profile / n_sample;
        let ghost window = enrollment_window(events@, n_profile);
        let profile = stretch_statistics(events, start, len);
        let mut samples: Vec<DigraphMap<Vec<u128>>> = Vec::new();
        let mut k: usize = 0;
        while k < chunks
            invariant
                k <= chunks,
                chunks == n_profile / n_sample,
                n_sample != 0,
                n_profile % n_sample == 0,
                n_profile <= len == events@.len(),
                start == len - n_profile,
                monotone(window),
                window == enrollment_window(events@, n_profile),
                samples@.len() == k,
                forall|j: int|
                    0 <= j < k ==> (#[trigger] samples@[j]).lists() == digraph_statistics(
                        chunk(window, n_sample, j),
                    ),
            decreases chunks - k,
        {
            proof {
                lemma_chunk_bounds(n_profile as int, n_sample as int, k as int);
            }
            let from = start + k * n_sample;
            let to = from + n_sample;
            assert(events@.subrange(from as int, to as int) =~= chunk(window, n_sample, k as int));
            proof {
                lemma_monotone_subrange(window, k * n_sample, (k + 1) * n_sample);
            }
            let stats = stretch_statistics(events, from, to);
            samples.push(stats);
            k += 1;
        }
        Some(Calibration { profile, samples })
    }
}

/// Chunk `k` of a window of `n_profile` events lies within the window.
proof fn lemma_chunk_bounds(n_profile: int, n_sample: int, k: int)
    requires
        n_sample > 0,
        n_profile >= 0,
        n_profile % n_sample == 0,
        0 <= k < n_profile / n_sample,
    ensures
        0 <= k * n_sample,
        (k + 1) * n_sample == k * n_sample + n_sample,
        (k + 1) * n_sample <= n_profile,
{
    assert(n_profile == n_sample * (n_profile / n_sample)) by {
        vstd::arithmetic::div_mod::lemma_fundamental_div_mod(n_profile, n_sample);
    }
    assert(0 <= k * n_sample && (k + 1) * n_sample == k * n_sample + n_sample && (k + 1) * n_sample
        <= n_sample * (n_profile / n_sample)) by (nonlinear_arith)
        requires
            n_sample > 0,
            0 <= k < n_profile / n_sample,
    ;
}

} // verus!
