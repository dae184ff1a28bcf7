//! The streaming sorter that keeps the on-disk hit stream ordered.
//!
//! Decoded hits arrive roughly, not strictly, time-ordered. The conveyor
//! holds the most recent hits in a bounded queue; when the queue reaches its
//! batch size it is insertion-sorted and split: the oldest hits are flushed
//! to the output while a lookahead tail is retained, so that no hit still to
//! come can predate what was flushed — provided the input's disorder stays
//! within the tail. Insertion sort is quadratic in general but linear on the
//! nearly-sorted streams seen here.

use vstd::prelude::*;

use crate::{hits_sorted, Hit};

verus! {

/// Queue length at which the conveyor flushes.
pub const BATCH_SIZE: usize = 1_000_000;

/// How many hits a flush writes; the remaining `BATCH_SIZE - SKIM_OFF` stay
/// behind as the lookahead guard.
pub const SKIM_OFF: usize = 800_000;

/// Swapping two positions permutes a sequence.
proof fn lemma_swap_preserves_multiset(s: Seq<Hit>, i: int, j: int)
    requires
        0 <= i < s.len(),
        0 <= j < s.len(),
        i != j,
    ensures
        s.update(i, s[j]).update(j, s[i]).to_multiset() == s.to_multiset(),
{
    broadcast use vstd::seq_lib::group_seq_properties;
    broadcast use vstd::multiset::group_multiset_axioms;

    let s1 = s.update(i, s[j]);
    let s2 = s1.update(j, s[i]);
    assert(s1 =~= s.remove(i).insert(i, s[j]));
    vstd::seq_lib::to_multiset_remove(s, i);
    vstd::seq_lib::to_multiset_insert(s.remove(i), i, s[j]);
    assert(s2 =~= s1.remove(j).insert(j, s[i]));
    vstd::seq_lib::to_multiset_remove(s1, j);
    vstd::seq_lib::to_multiset_insert(s1.remove(j), j, s[i]);
    assert(s1[j] == s[j]);
    assert(s2.to_multiset() =~= s.to_multiset());
}

/// Sorts a batch of hits in place by time of arrival with a
/// neighbour-swapping insertion sort: quadratic in general, linear on the
/// nearly-sorted batches the conveyor holds.
pub fn insertion_sort_hits(hits: &mut Vec<Hit>)
    ensures
        hits_sorted(final(hits)@),
        final(hits)@.to_multiset() == old(hits)@.to_multiset(),
        final(hits)@.len() == old(hits)@.len(),
{
    broadcast use vstd::seq_lib::to_multiset_len;

    let n = hits.len();
    if n == 0 {
        return ;
    }
    let mut i: usize = 1;
    while i < n
        invariant
            n == hits@.len(),
            1 <= i <= n,
            hits@.to_multiset() == old(hits)@.to_multiset(),
            forall|k: int, l: int| 0 <= k <= l < i ==> #[trigger] hits@[k].toa <= #[trigger]
                hits@[l].toa,
        decreases n - i,
    {
        let mut j: usize = i;
        while j >= 1
            invariant_except_break
                n == hits@.len(),
                1 <= i < n,
                0 <= j <= i,
                hits@.to_multiset() == old(hits)@.to_multiset(),
                forall|k: int, l: int| 0 <= k <= l <= i && k != j && l != j ==> #[trigger]
                    hits@[k].toa <= #[trigger] hits@[l].toa,
                forall|l: int| j < l <= i ==> hits@[j as int].toa <= #[trigger] hits@[l].toa,
            ensures
                n == hits@.len(),
                hits@.to_multiset() == old(hits)@.to_multiset(),
                forall|k: int, l: int| 0 <= k <= l <= i ==> #[trigger] hits@[k].toa
                    <= #[trigger] hits@[l].toa,
            decreases j,
        {
            let a = hits[j - 1];
            let b = hits[j];
            if a.toa <= b.toa {
                break ;
            }
            proof {
                lemma_swap_preserves_multiset(hits@, j - 1, j as int);
            }
            hits.set(j - 1, b);
            hits.set(j, a);
            j = j - 1;
        }
        i = i + 1;
    }
}

/// The bounded streaming sorter. It owes a sorted output stream only for as
/// long as every incoming hit is no older than the newest hit already
/// flushed; that is the streaming invariant the lookahead guard is sized
/// for.
pub struct HitConveyor {
    queue: Vec<Hit>,
    watermark: u64,
    batch_size: usize,
    skim_off: usize,
    emitted: Ghost<Seq<Hit>>,
}

impl HitConveyor {
    /// Everything flushed so far, in output order.
    pub closed spec fn emitted_seq(self) -> Seq<Hit> {
        self.emitted@
    }

    /// The hits still held back, in arrival order.
    pub closed spec fn pending(self) -> Seq<Hit> {
        self.queue@
    }

    /// The newest time of arrival already flushed (zero before any flush):
    /// a hit pushed with an older time of arrival would come out of order.
    pub closed spec fn spec_watermark(self) -> u64 {
        self.watermark
    }

    /// The queue length at which a push flushes.
    pub closed spec fn spec_batch_size(self) -> int {
        self.batch_size as int
    }

    /// How many hits each flush writes; the rest stay as the lookahead tail.
    pub closed spec fn spec_skim_off(self) -> int {
        self.skim_off as int
    }

    /// The streaming invariant: the flushed stream is sorted, the watermark
    /// is its newest time of arrival, nothing held back predates it, and
    /// the queue stays strictly below the batch size.
    pub closed spec fn wf(self) -> bool {
        &&& hits_sorted(self.emitted@)
        &&& (self.emitted@.len() > 0 ==> self.watermark == self.emitted@.last().toa)
        &&& (self.emitted@.len() == 0 ==> self.watermark == 0)
        &&& (forall|i: int| 0 <= i < self.queue@.len() ==> (#[trigger] self.queue@[i]).toa
            >= self.watermark)
        &&& 0 < self.skim_off < self.batch_size
        &&& self.queue@.len() < self.batch_size
    }

    /// The newest time of arrival already flushed.
    pub fn watermark(&self) -> (r: u64)
        ensures
            r == self.spec_watermark(),
    {
        self.watermark
    }

    /// An empty conveyor that flushes `skim_off` hits whenever its queue
    /// reaches `batch_size`.
    pub fn new(batch_size: usize, skim_off: usize) -> (c: HitConveyor)
        requires
            0 < skim_off < batch_size,
        ensures
            c.wf(),
            c.emitted_seq() =~= Seq::<Hit>::empty(),
            c.pending() =~= Seq::<Hit>::empty(),
            c.spec_watermark() == 0,
            c.spec_batch_size() == batch_size,
            c.spec_skim_off() == skim_off,
    {
        HitConveyor {
            queue: Vec::new(),
            watermark: 0,
            batch_size,
            skim_off,
            emitted: Ghost(Seq::empty()),
        }
    }

    /// Accepts one decoded hit; returns the batch flushed by this push. No
    /// hit is lost or invented. While the queue stays below the batch size
    /// nothing is flushed; the push that fills it flushes exactly the
    /// `skim_off` oldest of the pending hits, sorted, and keeps the rest as
    /// the lookahead tail — so the queue never reaches the batch size
    /// between pushes. While every push honours the watermark the flushed
    /// stream stays sorted.
    pub fn push(&mut self, h: Hit) -> (flushed: Vec<Hit>)
        ensures
            final(self).emitted_seq() =~= old(self).emitted_seq() + flushed@,
            final(self).pending().to_multiset().add(flushed@.to_multiset()) == old(
                self,
            ).pending().to_multiset().insert(h),
            final(self).spec_batch_size() == old(self).spec_batch_size(),
            final(self).spec_skim_off() == old(self).spec_skim_off(),
            hits_sorted(flushed@),
            old(self).wf() ==> final(self).pending().len() < final(self).spec_batch_size(),
            (old(self).wf() && h.toa >= old(self).spec_watermark()) ==> final(self).wf(),
            old(self).wf() && old(self).pending().len() + 1 < old(self).spec_batch_size()
                ==> (flushed@.len() == 0 && final(self).pending() =~= old(self).pending().push(
                h,
            )),
            old(self).wf() && old(self).pending().len() + 1 == old(self).spec_batch_size()
                ==> (flushed@.len() == old(self).spec_skim_off() && final(self).pending().len()
                + flushed@.len() == old(self).pending().len() + 1 && (forall|i: int, j: int|
                0 <= i < flushed@.len() && 0 <= j < final(self).pending().len()
                    ==> (#[trigger] flushed@[i]).toa
                    <= (#[trigger] final(self).pending()[j]).toa)),
            final(self).spec_watermark() >= old(self).spec_watermark() || !(old(self).wf()
                && h.toa >= old(self).spec_watermark()),
            (old(self).wf() && h.toa >= old(self).spec_watermark()) ==> hits_sorted(
                final(self).emitted_seq(),
            ),
    {
        broadcast use vstd::seq_lib::group_to_multiset_ensures;

        self.queue.push(h);
        let ghost pushed = self.queue@;
        if self.queue.len() >= self.batch_size && 0 < self.skim_off && self.skim_off
            < self.queue.len() {
            let ghost pre_wf = old(self).wf() && h.toa >= old(self).spec_watermark();
            insertion_sort_hits(&mut self.queue);
            let ghost sorted_q = self.queue@;
            proof {
                if pre_wf {
                    lemma_toa_floor_transfer(pushed, sorted_q, self.watermark);
                }
            }
            let mut tail = self.queue.split_off(self.skim_off);
            core::mem::swap(&mut self.queue, &mut tail);
            let flushed = tail;
            let last = flushed[flushed.len() - 1];
            let ghost old_emitted = self.emitted@;
            let ghost old_watermark = self.watermark;
            self.watermark = last.toa;
            proof {
                self.emitted@ = old_emitted + flushed@;
            }
            proof {
                let k = self.skim_off as int;
                assert(flushed@ =~= sorted_q.take(k));
                assert(self.queue@ =~= sorted_q.skip(k));
                broadcast use vstd::multiset::group_multiset_axioms;

                vstd::seq_lib::lemma_multiset_commutative(flushed@, self.queue@);
                assert(flushed@ + self.queue@ =~= sorted_q);
                assert(sorted_q.to_multiset() == pushed.to_multiset());
                assert(pushed.to_multiset() == old(self).pending().to_multiset().insert(h));
                assert(self.queue@.to_multiset().add(flushed@.to_multiset())
                    =~= flushed@.to_multiset().add(self.queue@.to_multiset()));
                assert forall|i: int, j: int|
                    0 <= i < flushed@.len() && 0 <= j < self.queue@.len() implies (
                #[trigger] flushed@[i]).toa <= (#[trigger] self.queue@[j]).toa by {
                    assert(flushed@[i] == sorted_q[i]);
                    assert(self.queue@[j] == sorted_q[k + j]);
                }
                if pre_wf {
                    assert(last == sorted_q[k - 1]);
                    assert forall|i: int| 0 <= i < self.queue@.len() implies (
                    #[trigger] self.queue@[i]).toa >= self.watermark by {
                        assert(self.queue@[i] == sorted_q[k + i]);
                    }
                    assert(forall|i: int| 0 <= i < flushed@.len() ==> (
                    #[trigger] flushed@[i]).toa >= old_watermark);
                    assert(hits_sorted(old_emitted + flushed@)) by {
                        lemma_sorted_append(old_emitted, flushed@, old_watermark);
                    }
                    assert((old_emitted + flushed@).last() == flushed@.last());
                }
            }
            flushed
        } else {
            proof {
                assert(self.emitted@ + Seq::<Hit>::empty() =~= self.emitted@);
                assert(self.queue@.to_multiset().add(Seq::<Hit>::empty().to_multiset())
                    =~= self.queue@.to_multiset());
                assert(self.queue@.to_multiset() == old(self).pending().to_multiset().insert(
                    h,
                ));
            }
            Vec::new()
        }
    }

    /// Flushes everything still held back, sorted; the conveyor is then
    /// empty. Called once, at the end of the input.
    pub fn finish(&mut self) -> (flushed: Vec<Hit>)
        ensures
            final(self).emitted_seq() =~= old(self).emitted_seq() + flushed@,
            flushed@.to_multiset() == old(self).pending().to_multiset(),
            hits_sorted(flushed@),
            final(self).pending().len() == 0,
            final(self).spec_batch_size() == old(self).spec_batch_size(),
            final(self).spec_skim_off() == old(self).spec_skim_off(),
            old(self).wf() ==> (final(self).wf() && hits_sorted(final(self).emitted_seq())),
    {
        broadcast use vstd::seq_lib::group_to_multiset_ensures;

        let ghost pre_wf = old(self).wf();
        let ghost pending0 = self.queue@;
        insertion_sort_hits(&mut self.queue);
        proof {
            if pre_wf {
                lemma_toa_floor_transfer(pending0, self.queue@, self.watermark);
            }
        }
        let mut flushed = Vec::new();
        core::mem::swap(&mut self.queue, &mut flushed);
        let ghost old_emitted = self.emitted@;
        let ghost old_watermark = self.watermark;
        if flushed.len() > 0 {
            let last = flushed[flushed.len() - 1];
            self.watermark = last.toa;
        }
        proof {
            self.emitted@ = old_emitted + flushed@;
        }
        proof {
            if pre_wf {
                if old_emitted.len() > 0 && flushed@.len() > 0 {
                    assert(flushed@[0].toa >= old_watermark);
                }
                assert(hits_sorted(old_emitted + flushed@)) by {
                    lemma_sorted_append(old_emitted, flushed@, old_watermark);
                }
                if flushed@.len() == 0 {
                    assert(old_emitted + flushed@ =~= old_emitted);
                }
            }
        }
        flushed
    }
}

/// A lower bound on every time of arrival survives any permutation.
proof fn lemma_toa_floor_transfer(a: Seq<Hit>, b: Seq<Hit>, w: u64)
    requires
        a.to_multiset() == b.to_multiset(),
        forall|i: int| 0 <= i < a.len() ==> (#[trigger] a[i]).toa >= w,
    ensures
        forall|i: int| 0 <= i < b.len() ==> (#[trigger] b[i]).toa >= w,
{
    broadcast use vstd::seq_lib::group_to_multiset_ensures;

    assert forall|i: int| 0 <= i < b.len() implies (#[trigger] b[i]).toa >= w by {
        assert(b.to_multiset().count(b[i]) > 0);
        assert(a.to_multiset().count(b[i]) > 0);
        assert(a.contains(b[i]));
    }
}

/// Two sorted runs concatenate to a sorted run when the second starts at or
/// above the first's watermark, which is the first run's newest entry.
proof fn lemma_sorted_append(a: Seq<Hit>, b: Seq<Hit>, w: u64)
    requires
        hits_sorted(a),
        hits_sorted(b),
        a.len() > 0 ==> w == a.last().toa,
        forall|i: int| 0 <= i < b.len() ==> (#[trigger] b[i]).toa >= w,
    ensures
        hits_sorted(a + b),
{
    let c = a + b;
    assert forall|i: int, j: int| 0 <= i <= j < c.len() implies #[trigger] c[i].toa
        <= #[trigger] c[j].toa by {
        if i < a.len() && j >= a.len() {
            assert(c[i] == a[i]);
            assert(c[j] == b[j - a.len()]);
            assert(a[i].toa <= a.last().toa);
            assert(b[j - a.len()].toa >= w);
        } else if j < a.len() {
            assert(c[i] == a[i] && c[j] == a[j]);
        } else {
            assert(c[i] == b[i - a.len()] && c[j] == b[j - a.len()]);
        }
    }
}

} // verus!
