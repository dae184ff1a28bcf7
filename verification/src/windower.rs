//! Associates sorted hits with trigger windows.
//!
//! Each trigger opens an acquisition window around its timestamp; the hits
//! whose time of arrival falls inside the window (exclusive at the start,
//! inclusive at the end) form that trigger's event. Overlapping windows can
//! be suppressed wholesale, and per-cluster sidecar rows carry the byte
//! offset of each cluster in the binary artifact.

use vstd::prelude::*;

use crate::{hits_sorted, ClusterMetadata, Hit, Trigger};
use crate::cluster::sum_tot;

verus! {

/// Configuration of one trigger-windowing pass. The window bounds are in
/// nanoseconds; hit times of arrival are in 1.5625 ns ticks.
#[derive(Clone, Copy, Debug, PartialEq, Eq, Structural)]
pub struct TriggerWindowSettings {
    pub window_look_behind: u64,
    pub window_look_ahead: u64,
    pub min_event_hits: usize,
    pub relative_toa: bool,
    pub write_all: bool,
    pub prevent_overlap: bool,
}

/// One trigger's acquisition window and the hits inside it.
pub struct TriggerEvent {
    /// 1-based index of the trigger in its input list.
    pub event: usize,
    /// Window start in nanoseconds.
    pub start_time: u64,
    /// Window bounds in time-of-arrival ticks.
    pub start_ticks: u64,
    pub end_ticks: u64,
    /// The hits with `start_ticks < toa <= end_ticks`, in time order.
    pub hits: Vec<Hit>,
}

/// Splits an acquisition window of `window_size_us` microseconds around the
/// trigger: `post_trigger_percent` percent after it, the rest before it.
/// Returns (look behind, look ahead), both in nanoseconds.
pub fn compute_window_bounds(window_size_us: u64, post_trigger_percent: u64) -> (r: (u64, u64))
    requires
        0 < post_trigger_percent <= 100,
        window_size_us <= u64::MAX / 1000,
    ensures
        r.0 == window_size_us * (100 - post_trigger_percent) * 10,
        r.1 == window_size_us * post_trigger_percent * 10,
{
    proof {
        let ws = window_size_us;
        let p = post_trigger_percent;
        assert(ws * (100 - p) * 10 <= ws * 1000 && ws * p * 10 <= ws * 1000)
            by (nonlinear_arith)
            requires
                0 < p <= 100,
        ;
        assert(ws * 1000 <= (u64::MAX / 1000) * 1000);
    }
    (window_size_us * (100 - post_trigger_percent) * 10, window_size_us * post_trigger_percent
        * 10)
}

/// Nanoseconds to 1.5625 ns ticks: division by 25/16, truncating.
pub fn ns_to_ticks(ns: u64) -> (r: u64)
    requires
        ns <= u64::MAX / 16,
    ensures
        r == ns * 16 / 25,
{
    ns * 16 / 25
}

/// How many hits of the stream fall strictly after `a` and at most at `b`.
pub open spec fn window_count(hits: Seq<Hit>, a: u64, b: u64) -> int
    decreases hits.len(),
{
    if hits.len() == 0 {
        0
    } else {
        (if a < hits[0].toa && hits[0].toa <= b {
            1int
        } else {
            0int
        }) + window_count(hits.drop_first(), a, b)
    }
}

proof fn lemma_window_count_range(hits: Seq<Hit>, a: u64, b: u64, lo: int, hi: int)
    requires
        0 <= lo <= hi <= hits.len(),
        forall|i: int| 0 <= i < lo ==> (#[trigger] hits[i]).toa <= a,
        forall|i: int| lo <= i < hi ==> (a < (#[trigger] hits[i]).toa && hits[i].toa <= b),
        forall|i: int| hi <= i < hits.len() ==> (#[trigger] hits[i]).toa > b,
    ensures
        window_count(hits, a, b) == hi - lo,
    decreases hits.len(),
{
    if hits.len() > 0 {
        let rest = hits.drop_first();
        if lo > 0 {
            lemma_window_count_range(rest, a, b, lo - 1, hi - 1);
        } else if hi > 0 {
            lemma_window_count_range(rest, a, b, 0, hi - 1);
        } else {
            lemma_window_count_range(rest, a, b, 0, 0);
        }
    }
}

/// The run of consecutive triggers from `j` on whose times lie before
/// `end`.
pub open spec fn overlap_run(triggers: Seq<Trigger>, j: int, end: u64) -> nat
    decreases triggers.len() - j,
{
    if j < 0 || j >= triggers.len() || triggers[j].time >= end {
        0
    } else {
        1 + overlap_run(triggers, j + 1, end)
    }
}

proof fn lemma_overlap_run_char(triggers: Seq<Trigger>, j: int, end: u64, c: int)
    requires
        0 <= j,
        0 <= c,
        j + c <= triggers.len(),
        forall|t: int| j <= t < j + c ==> (#[trigger] triggers[t]).time < end,
        j + c == triggers.len() || triggers[j + c].time >= end,
    ensures
        overlap_run(triggers, j, end) == c,
    decreases c,
{
    if c > 0 {
        lemma_overlap_run_char(triggers, j + 1, end, c - 1);
    }
}

/// A trigger's window end in nanoseconds.
pub open spec fn spec_end_time(t: Trigger, s: TriggerWindowSettings) -> u64 {
    (t.time + s.window_look_ahead) as u64
}

/// A trigger's window bounds in time-of-arrival ticks.
pub open spec fn spec_start_ticks(t: Trigger, s: TriggerWindowSettings) -> u64 {
    (((t.time - s.window_look_behind) * 16) / 25) as u64
}

pub open spec fn spec_end_ticks(t: Trigger, s: TriggerWindowSettings) -> u64 {
    (((t.time + s.window_look_ahead) * 16) / 25) as u64
}

/// Which triggers produce a record, by index: suppressed overlap groups are
/// skipped whole, and of the rest exactly those passing the emission rule
/// appear, in order.
pub open spec fn emitted_events(
    hits: Seq<Hit>,
    triggers: Seq<Trigger>,
    s: TriggerWindowSettings,
    i: int,
) -> Seq<int>
    decreases triggers.len() - i,
{
    if i < 0 || i >= triggers.len() {
        Seq::empty()
    } else {
        let end_time = spec_end_time(triggers[i], s);
        let skip = 1 + overlap_run(triggers, i + 1, end_time) as int;
        if s.prevent_overlap && skip > 1 {
            emitted_events(
                hits,
                triggers,
                s,
                if i + skip <= triggers.len() {
                    i + skip
                } else {
                    triggers.len() as int
                },
            )
        } else {
            let cnt = window_count(
                hits,
                spec_start_ticks(triggers[i], s),
                spec_end_ticks(triggers[i], s),
            );
            (if s.write_all || cnt > s.min_event_hits {
                seq![i]
            } else {
                Seq::empty()
            }) + emitted_events(hits, triggers, s, i + 1)
        }
    }
}

/// The half-open hit range of one window over a sorted stream: everything
/// strictly after `start_ticks` and at most `end_ticks`.
pub fn event_range(hits: &Vec<Hit>, start_ticks: u64, end_ticks: u64) -> (r: (usize, usize))
    requires
        hits_sorted(hits@),
    ensures
        r.0 <= r.1 <= hits@.len(),
        forall|i: int| 0 <= i < r.0 ==> (#[trigger] hits@[i]).toa <= start_ticks,
        forall|i: int| r.0 <= i < r.1 ==> (start_ticks < (#[trigger] hits@[i]).toa
            && hits@[i].toa <= end_ticks),
        forall|i: int| r.1 <= i < hits@.len() ==> (#[trigger] hits@[i]).toa > end_ticks,
        r.1 - r.0 == window_count(hits@, start_ticks, end_ticks),
{
    let n = hits.len();
    let mut lo: usize = 0;
    while lo < n && hits[lo].toa <= start_ticks
        invariant
            n == hits@.len(),
            0 <= lo <= n,
            forall|i: int| 0 <= i < lo ==> (#[trigger] hits@[i]).toa <= start_ticks,
        decreases n - lo,
    {
        lo = lo + 1;
    }
    let mut hi: usize = lo;
    while hi < n && hits[hi].toa <= end_ticks
        invariant
            n == hits@.len(),
            hits_sorted(hits@),
            0 <= lo <= hi <= n,
            forall|i: int| 0 <= i < lo ==> (#[trigger] hits@[i]).toa <= start_ticks,
            lo < n ==> hits@[lo as int].toa > start_ticks,
            forall|i: int| lo <= i < hi ==> (start_ticks < (#[trigger] hits@[i]).toa
                && hits@[i].toa <= end_ticks),
        decreases n - hi,
    {
        hi = hi + 1;
    }
    proof {
        assert forall|i: int| hi <= i < hits@.len() implies (#[trigger] hits@[i]).toa
            > end_ticks by {
            if hi < hits@.len() {
                assert(hits@[hi as int].toa <= hits@[i].toa);
            }
        }
        lemma_window_count_range(hits@, start_ticks, end_ticks, lo as int, hi as int);
    }
    (lo, hi)
}

/// How many triggers, the current one included, an overlap suppression
/// skips: one plus the run of immediately following triggers whose times lie
/// before the current window's end.
pub fn overlapping_skip(triggers: &Vec<Trigger>, i: usize, end_time: u64) -> (skip: usize)
    requires
        i < triggers@.len(),
    ensures
        1 <= skip,
        i + skip <= triggers@.len(),
        forall|j: int| i < j < i + skip ==> (#[trigger] triggers@[j]).time < end_time,
        i + skip < triggers@.len() ==> triggers@[i + skip].time >= end_time,
        skip == 1 + overlap_run(triggers@, i + 1, end_time),
{
    let n = triggers.len();
    let mut skip: usize = 1;
    while i + skip < n && triggers[i + skip].time < end_time
        invariant
            n == triggers@.len(),
            i < n,
            1 <= skip,
            i + skip <= n,
            forall|j: int| i < j < i + skip ==> (#[trigger] triggers@[j]).time < end_time,
        decreases n - (i + skip),
    {
        skip = skip + 1;
    }
    proof {
        lemma_overlap_run_char(triggers@, i + 1, end_time, skip - 1);
    }
    skip
}

/// Whether an event with `n_hits` hits is written at all.
pub open spec fn event_emitted(n_hits: int, s: TriggerWindowSettings) -> bool {
    s.write_all || n_hits > s.min_event_hits
}

/// Extracts every trigger\u{2019}s event from a sorted hit stream. Windows
/// are placed around each trigger time; with overlap suppression, a window
/// that would reach past the next trigger suppresses itself and the
/// triggers it overlaps. The result has one event per index in
/// `emitted_events`, in order: exactly the non-suppressed triggers passing
/// the emission rule, each carrying exactly the hits inside its window.
pub fn extract_trigger_events(
    hits: &Vec<Hit>,
    triggers: &Vec<Trigger>,
    s: TriggerWindowSettings,
) -> (events: Vec<TriggerEvent>)
    requires
        hits_sorted(hits@),
        forall|j: int| 0 <= j < triggers@.len() ==> (#[trigger] triggers@[j]).time
            >= s.window_look_behind,
        forall|j: int| 0 <= j < triggers@.len() ==> (#[trigger] triggers@[j]).time
            + s.window_look_ahead <= u64::MAX / 16,
    ensures
        events@.len() == emitted_events(hits@, triggers@, s, 0).len(),
        forall|k: int| 0 <= k < events@.len() ==> (#[trigger] events@[k]).event
            == emitted_events(hits@, triggers@, s, 0)[k] + 1,
        forall|k: int| 0 <= k < events@.len() ==> {
            let e = #[trigger] events@[k];
            &&& 1 <= e.event <= triggers@.len()
            &&& e.start_time == triggers@[e.event - 1].time - s.window_look_behind
            &&& e.start_ticks == (triggers@[e.event - 1].time - s.window_look_behind) * 16 / 25
            &&& e.end_ticks == (triggers@[e.event - 1].time + s.window_look_ahead) * 16 / 25
            &&& hits_sorted(e.hits@)
            &&& (forall|i: int| 0 <= i < e.hits@.len() ==> (e.start_ticks < (
            #[trigger] e.hits@[i]).toa && e.hits@[i].toa <= e.end_ticks))
            &&& event_emitted(e.hits@.len() as int, s)
            &&& (exists|lo: int, hi: int|
                {
                    &&& 0 <= lo <= hi <= hits@.len()
                    &&& e.hits@ == #[trigger] hits@.subrange(lo, hi)
                    &&& (forall|i: int| 0 <= i < lo ==> (#[trigger] hits@[i]).toa
                        <= e.start_ticks)
                    &&& (forall|i: int| hi <= i < hits@.len() ==> (#[trigger] hits@[i]).toa
                        > e.end_ticks)
                })
            &&& (forall|i: int| 0 <= i < e.hits@.len() ==> hits@.contains(
                #[trigger] e.hits@[i],
            ))
        },
{
    let n = triggers.len();
    let mut events: Vec<TriggerEvent> = Vec::new();
    let ghost mut done_idx: Seq<int> = Seq::empty();
    let mut i: usize = 0;
    proof {
        assert(done_idx + emitted_events(hits@, triggers@, s, 0) =~= emitted_events(
            hits@,
            triggers@,
            s,
            0,
        ));
    }
    while i < n
        invariant
            n == triggers@.len(),
            hits_sorted(hits@),
            forall|j: int| 0 <= j < triggers@.len() ==> (#[trigger] triggers@[j]).time
                >= s.window_look_behind,
            forall|j: int| 0 <= j < triggers@.len() ==> (#[trigger] triggers@[j]).time
                + s.window_look_ahead <= u64::MAX / 16,
            0 <= i,
            done_idx.len() == events@.len(),
            done_idx + emitted_events(hits@, triggers@, s, i as int) =~= emitted_events(
                hits@,
                triggers@,
                s,
                0,
            ),
            forall|k: int| 0 <= k < events@.len() ==> (#[trigger] events@[k]).event
                == done_idx[k] + 1,
            forall|k: int| 0 <= k < events@.len() ==> {
                let e = #[trigger] events@[k];
                &&& 1 <= e.event <= triggers@.len()
                &&& e.start_time == triggers@[e.event - 1].time - s.window_look_behind
                &&& e.start_ticks == (triggers@[e.event - 1].time - s.window_look_behind) * 16
                    / 25
                &&& e.end_ticks == (triggers@[e.event - 1].time + s.window_look_ahead) * 16
                    / 25
                &&& hits_sorted(e.hits@)
                &&& (forall|t: int| 0 <= t < e.hits@.len() ==> (e.start_ticks < (
                #[trigger] e.hits@[t]).toa && e.hits@[t].toa <= e.end_ticks))
                &&& event_emitted(e.hits@.len() as int, s)
                &&& (exists|lo: int, hi: int|
                    {
                        &&& 0 <= lo <= hi <= hits@.len()
                        &&& e.hits@ == #[trigger] hits@.subrange(lo, hi)
                        &&& (forall|t: int| 0 <= t < lo ==> (#[trigger] hits@[t]).toa
                            <= e.start_ticks)
                        &&& (forall|t: int| hi <= t < hits@.len() ==> (
                        #[trigger] hits@[t]).toa > e.end_ticks)
                    })
                &&& (forall|t: int| 0 <= t < e.hits@.len() ==> hits@.contains(
                    #[trigger] e.hits@[t],
                ))
            },
        decreases n - i,
    {
        let trigger = triggers[i];
        let start_time = trigger.time - s.window_look_behind;
        let end_time = trigger.time + s.window_look_ahead;
        let start_ticks = ns_to_ticks(start_time);
        let end_ticks = ns_to_ticks(end_time);
        proof {
            reveal_with_fuel(emitted_events, 2);
            assert(end_time == spec_end_time(triggers@[i as int], s));
            assert(start_ticks == spec_start_ticks(triggers@[i as int], s));
            assert(end_ticks == spec_end_ticks(triggers@[i as int], s));
        }

        if s.prevent_overlap {
            let skip = overlapping_skip(triggers, i, end_time);
            if skip > 1 {
                proof {
                    let nexti = if i + skip <= triggers@.len() {
                        i + skip
                    } else {
                        triggers@.len() as int
                    };
                    assert(emitted_events(hits@, triggers@, s, i as int) == emitted_events(
                        hits@,
                        triggers@,
                        s,
                        nexti,
                    ));
                    if i + skip > triggers@.len() {
                        assert(emitted_events(hits@, triggers@, s, i + skip)
                            =~= Seq::<int>::empty());
                        assert(emitted_events(hits@, triggers@, s, nexti)
                            =~= Seq::<int>::empty());
                    }
                }
                i = i + skip;
                continue ;
            }
        }
        let (lo, hi) = event_range(hits, start_ticks, end_ticks);
        let n_hits = hi - lo;
        proof {
            assert(n_hits == window_count(
                hits@,
                spec_start_ticks(triggers@[i as int], s),
                spec_end_ticks(triggers@[i as int], s),
            ));
            if s.prevent_overlap {
                assert(!(s.prevent_overlap && 1 + overlap_run(
                    triggers@,
                    i + 1,
                    spec_end_time(triggers@[i as int], s),
                ) as int > 1));
            }
        }
        if s.write_all || n_hits > s.min_event_hits {
            let mut event_hits: Vec<Hit> = Vec::new();
            let mut t = lo;
            while t < hi
                invariant
                    hits_sorted(hits@),
                    lo <= t <= hi <= hits@.len(),
                    event_hits@ =~= hits@.subrange(lo as int, t as int),
                decreases hi - t,
            {
                event_hits.push(hits[t]);
                proof {
                    assert(hits@.subrange(lo as int, t + 1) =~= hits@.subrange(
                        lo as int,
                        t as int,
                    ).push(hits@[t as int]));
                }
                t = t + 1;
            }
            proof {
                assert forall|u: int| 0 <= u < event_hits@.len() implies hits@.contains(
                    #[trigger] event_hits@[u],
                ) by {
                    assert(event_hits@[u] == hits@[lo + u]);
                }
            }
            events.push(
                TriggerEvent {
                    event: i + 1,
                    start_time,
                    start_ticks,
                    end_ticks,
                    hits: event_hits,
                },
            );
            let ghost done_pre = done_idx;
            proof {
                done_idx = done_idx.push(i as int);
                assert(emitted_events(hits@, triggers@, s, i as int) =~= seq![i as int]
                    + emitted_events(hits@, triggers@, s, i + 1));
                assert(done_pre + (seq![i as int] + emitted_events(hits@, triggers@, s, i + 1))
                    =~= done_idx + emitted_events(hits@, triggers@, s, i + 1));
                let e = events@[events@.len() - 1];
                assert(e.hits@ == hits@.subrange(lo as int, hi as int));
                assert(exists|lo2: int, hi2: int|
                    {
                        &&& 0 <= lo2 <= hi2 <= hits@.len()
                        &&& e.hits@ == #[trigger] hits@.subrange(lo2, hi2)
                        &&& (forall|u: int| 0 <= u < lo2 ==> (#[trigger] hits@[u]).toa
                            <= e.start_ticks)
                        &&& (forall|u: int| hi2 <= u < hits@.len() ==> (
                        #[trigger] hits@[u]).toa > e.end_ticks)
                    });
            }
        } else {
            proof {
                assert(emitted_events(hits@, triggers@, s, i as int) =~= emitted_events(
                    hits@,
                    triggers@,
                    s,
                    i + 1,
                ));
            }
        }
        i = i + 1;
    }
    proof {
        assert(emitted_events(hits@, triggers@, s, i as int) =~= Seq::<int>::empty());
        assert(done_idx =~= emitted_events(hits@, triggers@, s, 0));
    }
    events
}

/// The byte offset at which cluster `k` starts in the binary artifact: one
/// 16-byte record per hit of every earlier cluster, plus each of their
/// 16-byte terminators.
pub open spec fn stream_offset(cs: Seq<Seq<Hit>>, k: int) -> int
    decreases k,
{
    if k <= 0 {
        0
    } else {
        stream_offset(cs, k - 1) + (cs[k - 1].len() + 1) * 16
    }
}

/// Builds the per-cluster sidecar rows for a cluster stream: 1-based event
/// numbers, window times and charge sums, and each row's `offset` equal to
/// the summed on-disk size of all earlier clusters.
pub fn metadata_for_clusters(clusters: &Vec<Vec<Hit>>) -> (rows: Vec<ClusterMetadata>)
    requires
        forall|c: int| 0 <= c < clusters@.len() ==> (#[trigger] clusters@[c])@.len() > 0,
        forall|c: int| 0 <= c < clusters@.len() ==> hits_sorted((#[trigger] clusters@[c])@),
        stream_offset(clusters_views(clusters@), clusters@.len() as int) <= usize::MAX,
    ensures
        rows@.len() == clusters@.len(),
        forall|k: int| 0 <= k < rows@.len() ==> {
            let r = #[trigger] rows@[k];
            let c = clusters@[k]@;
            &&& r.event == k + 1
            &&& r.hits == c.len()
            &&& r.time == c[0].toa
            &&& r.duration == c.last().toa - c[0].toa
            &&& sum_tot(c) <= u64::MAX ==> r.sum_tot == sum_tot(c)
            &&& r.offset == stream_offset(clusters_views(clusters@), k)
        },
{
    let n = clusters.len();
    let mut rows: Vec<ClusterMetadata> = Vec::new();
    let mut accumulated: usize = 0;
    let mut k: usize = 0;
    while k < n
        invariant
            n == clusters@.len(),
            0 <= k <= n,
            rows@.len() == k,
            forall|c: int| 0 <= c < clusters@.len() ==> (#[trigger] clusters@[c])@.len() > 0,
            forall|c: int| 0 <= c < clusters@.len() ==> hits_sorted((#[trigger] clusters@[c])@),
            stream_offset(clusters_views(clusters@), n as int) <= usize::MAX,
            accumulated == stream_offset(clusters_views(clusters@), k as int),
            forall|j: int| 0 <= j < k ==> {
                let r = #[trigger] rows@[j];
                let c = clusters@[j]@;
                &&& r.event == j + 1
                &&& r.hits == c.len()
                &&& r.time == c[0].toa
                &&& r.duration == c.last().toa - c[0].toa
                &&& sum_tot(c) <= u64::MAX ==> r.sum_tot == sum_tot(c)
                &&& r.offset == stream_offset(clusters_views(clusters@), j)
            },
        decreases n - k,
    {
        let cluster = &clusters[k];
        let len = cluster.len();
        let first = cluster[0];
        let last = cluster[len - 1];
        let total = crate::cluster::cluster_sum_tot(cluster);
        proof {
            lemma_stream_offset_mono(clusters_views(clusters@), k + 1, n as int);
            assert(clusters_views(clusters@)[k as int] == clusters@[k as int]@);
        }
        rows.push(
            ClusterMetadata {
                event: k + 1,
                time: first.toa,
                duration: last.toa - first.toa,
                hits: len,
                sum_tot: total,
                offset: accumulated,
            },
        );
        accumulated = accumulated + (len + 1) * 16;
        k = k + 1;
    }
    rows
}

/// The hit lists of a run of trigger events.
pub open spec fn event_hit_views(es: Seq<TriggerEvent>) -> Seq<Seq<Hit>> {
    es.map_values(|e: TriggerEvent| e.hits@)
}

/// Builds the sidecar rows for a run of trigger events: the trigger\u{2019}s
/// own 1-based index, window times in ticks, hit count, saturated charge
/// sum, and each row\u{2019}s `offset` equal to the summed on-disk size of all
/// earlier records, terminators included.
pub fn metadata_for_trigger_events(events: &Vec<TriggerEvent>) -> (rows: Vec<ClusterMetadata>)
    requires
        forall|k: int| 0 <= k < events@.len() ==> (#[trigger] events@[k]).end_ticks
            >= events@[k].start_ticks,
        stream_offset(event_hit_views(events@), events@.len() as int) <= usize::MAX,
    ensures
        rows@.len() == events@.len(),
        forall|k: int| 0 <= k < rows@.len() ==> {
            let r = #[trigger] rows@[k];
            let e = events@[k];
            &&& r.event == e.event
            &&& r.hits == e.hits@.len()
            &&& r.time == e.start_ticks
            &&& r.duration == (if e.hits@.len() == 0 {
                0int
            } else {
                e.end_ticks - e.start_ticks
            })
            &&& sum_tot(e.hits@) <= u64::MAX ==> r.sum_tot == sum_tot(e.hits@)
            &&& r.offset == stream_offset(event_hit_views(events@), k)
        },
{
    let n = events.len();
    let mut rows: Vec<ClusterMetadata> = Vec::new();
    let mut accumulated: usize = 0;
    let mut k: usize = 0;
    while k < n
        invariant
            n == events@.len(),
            0 <= k <= n,
            rows@.len() == k,
            forall|c: int| 0 <= c < events@.len() ==> (#[trigger] events@[c]).end_ticks
                >= events@[c].start_ticks,
            stream_offset(event_hit_views(events@), n as int) <= usize::MAX,
            accumulated == stream_offset(event_hit_views(events@), k as int),
            forall|j: int| 0 <= j < k ==> {
                let r = #[trigger] rows@[j];
                let e = events@[j];
                &&& r.event == e.event
                &&& r.hits == e.hits@.len()
                &&& r.time == e.start_ticks
                &&& r.duration == (if e.hits@.len() == 0 {
                    0int
                } else {
                    e.end_ticks - e.start_ticks
                })
                &&& sum_tot(e.hits@) <= u64::MAX ==> r.sum_tot == sum_tot(e.hits@)
                &&& r.offset == stream_offset(event_hit_views(events@), j)
            },
        decreases n - k,
    {
        let e = &events[k];
        let len = e.hits.len();
        let total = crate::cluster::cluster_sum_tot(&e.hits);
        let duration = if len == 0 {
            0
        } else {
            e.end_ticks - e.start_ticks
        };
        proof {
            lemma_stream_offset_mono(event_hit_views(events@), k + 1, n as int);
            assert(event_hit_views(events@)[k as int] == events@[k as int].hits@);
        }
        rows.push(
            ClusterMetadata {
                event: e.event,
                time: e.start_ticks,
                duration,
                hits: len,
                sum_tot: total,
                offset: accumulated,
            },
        );
        accumulated = accumulated + (len + 1) * 16;
        k = k + 1;
    }
    rows
}

/// The sequence-of-sequences view of a vector of clusters.
pub open spec fn clusters_views(cs: Seq<Vec<Hit>>) -> Seq<Seq<Hit>> {
    cs.map_values(|c: Vec<Hit>| c@)
}

/// Offsets grow along the stream.
proof fn lemma_stream_offset_mono(cs: Seq<Seq<Hit>>, a: int, b: int)
    requires
        0 <= a <= b,
    ensures
        stream_offset(cs, a) <= stream_offset(cs, b),
    decreases b - a,
{
    if a < b {
        lemma_stream_offset_mono(cs, a, b - 1);
    }
}

/// Law: each sidecar row's offset is the sum of `(hits + 1) * 16` over all
/// earlier rows — the exact byte position of its cluster in the stream.
pub proof fn lemma_offsets_from_row_sizes(rows: Seq<ClusterMetadata>, cs: Seq<Seq<Hit>>, k: int)
    requires
        0 <= k <= rows.len(),
        rows.len() <= cs.len(),
        forall|j: int| 0 <= j < rows.len() ==> (#[trigger] rows[j]).hits == cs[j].len(),
        forall|j: int| 0 <= j < rows.len() ==> (#[trigger] rows[j]).offset == stream_offset(
            cs,
            j,
        ),
    ensures
        k > 0 ==> rows[k - 1].offset + (rows[k - 1].hits + 1) * 16 == stream_offset(cs, k),
        k < rows.len() ==> rows[k].offset == stream_offset(cs, k),
    decreases k,
{
    if k > 0 {
        lemma_offsets_from_row_sizes(rows, cs, k - 1);
    }
}

} // verus!
